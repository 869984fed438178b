//! The deduplication fingerprint of a movement: same account, day, amount
//! and normalised description give the same fingerprint.
//!
//! SHA-256 is used rather than std's default hasher because the value is
//! stored and must stay the same across Rust versions and machines.
use sha2::Digest;
use vstd::prelude::*;

use crate::date::{iso_text, Date};
use crate::domain::{normalize_description, normalized_description, AccountId, NewTransaction};
use crate::money::Money;
use vstd::string::StringSliceAdditionalSpecFns;
use vstd::utf8::encode_utf8;

verus! {

/// SHA-256 of a byte string, as the `sha2` crate computes it.
pub uninterp spec fn sha256_of(bytes: Seq<u8>) -> Seq<u8>;

/// `sha2::Sha256::digest`: the 32-byte SHA-256 digest of `bytes`.
#[verifier::external_body]
fn sha256(bytes: &[u8]) -> (r: Vec<u8>)
    ensures
        r@ == sha256_of(bytes@),
        r@.len() == 32,
{
    sha2::Sha256::digest(bytes).to_vec()
}

/// The `count` little-endian bytes of `u`.
pub open spec fn le_bytes(u: nat, count: nat) -> Seq<u8>
    decreases count,
{
    if count == 0 {
        Seq::empty()
    } else {
        seq![(u % 256) as u8] + le_bytes(u / 256, (count - 1) as nat)
    }
}

/// `i64::to_le_bytes`: two's complement, least significant byte first.
pub open spec fn i64_le_bytes(v: i64) -> Seq<u8> {
    le_bytes(
        if v < 0 {
            (v + 0x1_0000_0000_0000_0000) as nat
        } else {
            v as nat
        },
        8,
    )
}

/// `u32::to_le_bytes`.
pub open spec fn u32_le_bytes(v: u32) -> Seq<u8> {
    le_bytes(v as nat, 4)
}

/// What is hashed: account, day, amount and normalised description, and the
/// occurrence after a `#` when it is not the first.
pub open spec fn fingerprint_input(
    account_id: AccountId,
    booked_on: Date,
    amount: Money,
    description: Seq<char>,
    occurrence: u32,
) -> Seq<u8> {
    i64_le_bytes(account_id.0) + encode_utf8(iso_text(booked_on)) + i64_le_bytes(amount.0)
        + encode_utf8(normalized_description(description)) + if occurrence > 0 {
        seq![35u8] + u32_le_bytes(occurrence)
    } else {
        Seq::empty()
    }
}

/// Lower-case hexadecimal digit of `n` (0 to 15).
pub open spec fn lower_hex_digit(n: int) -> char {
    if n < 10 {
        (48 + n) as char
    } else {
        (87 + n) as char
    }
}

/// Two lower-case hexadecimal digits per byte.
pub open spec fn hex_text(bytes: Seq<u8>) -> Seq<char>
    decreases bytes.len(),
{
    if bytes.len() == 0 {
        Seq::empty()
    } else {
        hex_text(bytes.drop_last()) + seq![
            lower_hex_digit((bytes.last() / 16) as int),
            lower_hex_digit((bytes.last() % 16) as int),
        ]
    }
}

/// The fingerprint of a movement.
pub open spec fn fingerprint_text(
    account_id: AccountId,
    booked_on: Date,
    amount: Money,
    description: Seq<char>,
    occurrence: u32,
) -> Seq<char> {
    hex_text(sha256_of(fingerprint_input(account_id, booked_on, amount, description, occurrence)))
}

fn push_le_bytes(u: u64, count: usize, out: &mut Vec<u8>)
    requires
        count <= 8,
    ensures
        final(out)@ == old(out)@ + le_bytes(u as nat, count as nat),
    decreases count,
{
    if count > 0 {
        out.push((u % 256) as u8);
        push_le_bytes(u / 256, count - 1, out);
        assert(final(out)@ =~= old(out)@ + le_bytes(u as nat, count as nat));
    }
}

fn push_i64(v: i64, out: &mut Vec<u8>)
    ensures
        final(out)@ == old(out)@ + i64_le_bytes(v),
{
    let u: u64 = if v < 0 {
        ((v + i64::MAX + 1) as u64) + 9223372036854775808u64
    } else {
        v as u64
    };
    push_le_bytes(u, 8, out);
}

fn push_bytes(bytes: &[u8], out: &mut Vec<u8>)
    ensures
        final(out)@ == old(out)@ + bytes@,
{
    let mut i: usize = 0;
    while i < bytes.len()
        invariant
            i <= bytes.len(),
            out@ == old(out)@ + bytes@.take(i as int),
        decreases bytes.len() - i,
    {
        out.push(bytes[i]);
        assert(old(out)@ + bytes@.take(i + 1) =~= (old(out)@ + bytes@.take(i as int)).push(bytes@[i as int]));
        i = i + 1;
    }
    assert(bytes@.take(bytes.len() as int) =~= bytes@);
}

fn lower_hex_exec(n: u8) -> (c: char)
    requires
        n < 16,
    ensures
        c == lower_hex_digit(n as int),
{
    if n < 10 {
        ((n + 48) as u8) as char
    } else {
        ((n + 87) as u8) as char
    }
}

/// Like `fingerprint`, telling identical repetitions apart by their order of
/// appearance. Occurrence 0 gives the same fingerprint as `fingerprint`, so
/// existing databases stay valid.
pub fn fingerprint_with_occurrence(
    account_id: AccountId,
    booked_on: &Date,
    amount: Money,
    description: &str,
    occurrence: u32,
) -> (r: String)
    requires
        booked_on.wf(),
    ensures
        r@ == fingerprint_text(account_id, *booked_on, amount, description@, occurrence),
{
    let mut input: Vec<u8> = Vec::new();
    push_i64(account_id.value(), &mut input);
    let day = booked_on.to_iso_string();
    push_bytes(day.as_str().as_bytes(), &mut input);
    push_i64(amount.minor_units(), &mut input);
    let normalized = normalize_description(description);
    push_bytes(normalized.as_str().as_bytes(), &mut input);
    if occurrence > 0 {
        input.push(35u8);
        push_le_bytes(occurrence as u64, 4, &mut input);
    }
    assert(input@ =~= fingerprint_input(account_id, *booked_on, amount, description@, occurrence));
    let digest = sha256(input.as_slice());
    let mut text = String::new();
    let mut i: usize = 0;
    assert(digest@.take(0) =~= Seq::<u8>::empty());
    while i < digest.len()
        invariant
            i <= digest.len(),
            text@ == hex_text(digest@.take(i as int)),
        decreases digest.len() - i,
    {
        let byte = digest[i];
        assert(digest@.take(i + 1).drop_last() =~= digest@.take(i as int));
        crate::text::push_char(&mut text, lower_hex_exec(byte / 16));
        crate::text::push_char(&mut text, lower_hex_exec(byte % 16));
        assert(text@ =~= hex_text(digest@.take(i + 1)));
        i = i + 1;
    }
    assert(digest@.take(i as int) =~= digest@);
    text
}

/// The deduplication fingerprint: same account, day, amount and normalised
/// description.
pub fn fingerprint(account_id: AccountId, booked_on: &Date, amount: Money, description: &str) -> (r:
    String)
    requires
        booked_on.wf(),
    ensures
        r@ == fingerprint_text(account_id, *booked_on, amount, description@, 0),
{
    fingerprint_with_occurrence(account_id, booked_on, amount, description, 0)
}

impl NewTransaction {
    pub fn fingerprint(&self) -> (r: String)
        requires
            self.booked_on.wf(),
        ensures
            r@ == fingerprint_text(self.account_id, self.booked_on, self.amount, self.description@, 0),
    {
        self.fingerprint_for_occurrence(0)
    }

    /// Fingerprint of the n-th repetition of an identical movement: six
    /// charges of 1.00 from the same shop on the same day are six movements.
    /// Numbering them by their position in the statement keeps re-imports
    /// idempotent.
    pub fn fingerprint_for_occurrence(&self, occurrence: u32) -> (r: String)
        requires
            self.booked_on.wf(),
        ensures
            r@ == fingerprint_text(
                self.account_id,
                self.booked_on,
                self.amount,
                self.description@,
                occurrence,
            ),
    {
        fingerprint_with_occurrence(
            self.account_id,
            &self.booked_on,
            self.amount,
            self.description.as_str(),
            occurrence,
        )
    }
}

/// The fingerprint ignores how the bank formatted the description: two
/// descriptions that normalise alike give the same fingerprint.
pub proof fn lemma_fingerprint_ignores_formatting(
    account_id: AccountId,
    booked_on: Date,
    amount: Money,
    a: Seq<char>,
    b: Seq<char>,
    occurrence: u32,
)
    requires
        normalized_description(a) == normalized_description(b),
    ensures
        fingerprint_text(account_id, booked_on, amount, a, occurrence) == fingerprint_text(
            account_id,
            booked_on,
            amount,
            b,
            occurrence,
        ),
{
}

/// Occurrences are told apart in what is hashed: the same movement hashes
/// different bytes for different occurrences.
pub proof fn lemma_occurrences_hash_different_input(
    account_id: AccountId,
    booked_on: Date,
    amount: Money,
    description: Seq<char>,
    first: u32,
    second: u32,
)
    requires
        first != second,
    ensures
        fingerprint_input(account_id, booked_on, amount, description, first) != fingerprint_input(
            account_id,
            booked_on,
            amount,
            description,
            second,
        ),
{
    let head = i64_le_bytes(account_id.0) + encode_utf8(iso_text(booked_on)) + i64_le_bytes(amount.0)
        + encode_utf8(normalized_description(description));
    let x = fingerprint_input(account_id, booked_on, amount, description, first);
    let y = fingerprint_input(account_id, booked_on, amount, description, second);
    if first > 0 && second > 0 {
        reveal_with_fuel(pow256, 5);
        assert(pow256(4) == 4294967296);
        lemma_le_bytes_injective(first as nat, second as nat, 4);
        assert(u32_le_bytes(first) != u32_le_bytes(second));
        if x == y {
            assert(x.skip(head.len() as int + 1) =~= u32_le_bytes(first));
            assert(y.skip(head.len() as int + 1) =~= u32_le_bytes(second));
        }
    } else {
        assert(x.len() != y.len());
    }
}

proof fn lemma_le_bytes_injective(a: nat, b: nat, count: nat)
    requires
        a != b,
        a < pow256(count),
        b < pow256(count),
    ensures
        le_bytes(a, count) != le_bytes(b, count),
    decreases count,
{
    if count > 0 {
        if a % 256 == b % 256 {
            assert(a / 256 != b / 256);
            assert(a / 256 < pow256((count - 1) as nat)) by (nonlinear_arith)
                requires
                    a < pow256(count),
                    pow256(count) == 256 * pow256((count - 1) as nat),
            ;
            assert(b / 256 < pow256((count - 1) as nat)) by (nonlinear_arith)
                requires
                    b < pow256(count),
                    pow256(count) == 256 * pow256((count - 1) as nat),
            ;
            lemma_le_bytes_injective(a / 256, b / 256, (count - 1) as nat);
            assert(le_bytes(a, count).drop_first() =~= le_bytes(a / 256, (count - 1) as nat));
            assert(le_bytes(b, count).drop_first() =~= le_bytes(b / 256, (count - 1) as nat));
        } else {
            assert(le_bytes(a, count)[0] != le_bytes(b, count)[0]);
        }
    } else {
        assert(false);
    }
}

pub open spec fn pow256(n: nat) -> nat
    decreases n,
{
    if n == 0 {
        1
    } else {
        256 * pow256((n - 1) as nat)
    }
}

} // verus!
