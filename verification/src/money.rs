//! Exact monetary amounts, stored as an `i64` of minor units (cents).
use vstd::prelude::*;

use crate::text::{chars_of, push_char, string_from_str};

verus! {

/// Number of decimals the application works with.
pub const SCALE: u32 = 2;

/// Minor units in one unit of currency.
pub const MINOR_UNITS_PER_UNIT: i64 = 100;

/// A monetary amount in minor units. Never a float.
#[derive(Debug, Clone, Copy, PartialEq, Eq, Structural, PartialOrd, Ord, Hash, Default)]
pub struct Money(pub i64);

/// Why an amount cell could not be read.
#[derive(Debug, Clone, PartialEq, Eq)]
pub enum MoneyParseError {
    Empty,
    Invalid(String),
    TooManyDecimals(String),
    OutOfRange(String),
}

// ---------------------------------------------------------------------------
// Specification of the amount grammar
// ---------------------------------------------------------------------------

pub open spec fn is_digit(c: char) -> bool {
    '0' <= c && c <= '9'
}

pub open spec fn is_separator(c: char) -> bool {
    c == ',' || c == '.'
}

/// Characters that carry the value of an amount: digits and both separators.
pub open spec fn is_amount_char(c: char) -> bool {
    is_digit(c) || is_separator(c)
}

/// Characters that make an amount negative: `-`, the typographic minus and `(`.
pub open spec fn is_sign_char(c: char) -> bool {
    c == '-' || c == '\u{2212}' || c == '('
}

/// `s` with everything but digits and separators dropped.
pub open spec fn amount_chars(s: Seq<char>) -> Seq<char>
    decreases s.len(),
{
    if s.len() == 0 {
        Seq::empty()
    } else if is_amount_char(s.last()) {
        amount_chars(s.drop_last()).push(s.last())
    } else {
        amount_chars(s.drop_last())
    }
}

/// `s` with everything but digits dropped.
pub open spec fn digit_chars(s: Seq<char>) -> Seq<char>
    decreases s.len(),
{
    if s.len() == 0 {
        Seq::empty()
    } else if is_digit(s.last()) {
        digit_chars(s.drop_last()).push(s.last())
    } else {
        digit_chars(s.drop_last())
    }
}

/// Whether any character of `s` makes the amount negative.
pub open spec fn has_sign(s: Seq<char>) -> bool
    decreases s.len(),
{
    if s.len() == 0 {
        false
    } else {
        has_sign(s.drop_last()) || is_sign_char(s.last())
    }
}

/// Position of the last separator of `s`, or -1 when there is none.
pub open spec fn last_separator(s: Seq<char>) -> int
    decreases s.len(),
{
    if s.len() == 0 {
        -1
    } else if is_separator(s.last()) {
        s.len() - 1
    } else {
        last_separator(s.drop_last())
    }
}

pub open spec fn all_zeros(s: Seq<char>) -> bool {
    forall|i: int| 0 <= i < s.len() ==> s[i] == '0'
}

pub open spec fn all_digits(s: Seq<char>) -> bool {
    forall|i: int| 0 <= i < s.len() ==> is_digit(#[trigger] s[i])
}

pub open spec fn digit_value(c: char) -> int {
    c as int - '0' as int
}

/// The number that a string of decimal digits spells.
pub open spec fn digits_value(s: Seq<char>) -> int
    decreases s.len(),
{
    if s.len() == 0 {
        0
    } else {
        digits_value(s.drop_last()) * 10 + digit_value(s.last())
    }
}

/// How the cleaned amount splits into integer digits and decimal digits.
/// `None` when the decimal part has a significant digit beyond the scale.
///
/// The last separator decides: followed by exactly three digits (and with
/// digits before it) it groups thousands; otherwise it is the decimal point,
/// and decimals padded with zeros beyond the scale are accepted.
pub open spec fn split_amount(c: Seq<char>) -> Option<(Seq<char>, Seq<char>)> {
    let idx = last_separator(c);
    if idx < 0 {
        Some((c, Seq::empty()))
    } else {
        let tail = c.subrange(idx + 1, c.len() as int);
        let head = digit_chars(c.subrange(0, idx));
        if tail.len() == 3 && head.len() > 0 {
            Some((head + tail, Seq::empty()))
        } else if tail.len() > 2 {
            if all_zeros(tail.subrange(2, tail.len() as int)) {
                Some((head, tail.subrange(0, 2)))
            } else {
                None
            }
        } else {
            Some((head, tail))
        }
    }
}

/// Minor units spelled by integer digits `i` and decimal digits `d`
/// (at most two), the decimals padded with zeros to the scale.
pub open spec fn minor_value(i: Seq<char>, d: Seq<char>) -> int {
    digits_value(i) * 100 + digits_value(d) * (if d.len() == 0 {
        100int
    } else if d.len() == 1 {
        10int
    } else {
        1int
    })
}

/// Minor units of the amount written in `raw` before the sign is applied,
/// or `None` when the decimals go beyond the scale or there is nothing.
pub open spec fn unsigned_minor(raw: Seq<char>) -> Option<int> {
    let c = amount_chars(raw);
    if c.len() == 0 {
        None
    } else {
        match split_amount(c) {
            Some((i, d)) => Some(minor_value(i, d)),
            None => None,
        }
    }
}

/// The value `Money::parse_flexible` gives to `raw`, when it gives one.
pub open spec fn parsed_amount(raw: Seq<char>) -> Option<int> {
    match unsigned_minor(raw) {
        Some(v) => if v <= i64::MAX {
            Some(if has_sign(raw) { -v } else { v })
        } else {
            None
        },
        None => None,
    }
}

/// The outcome of `Money::parse_flexible(raw)`, stated over `raw@`.
pub open spec fn parse_outcome(raw: Seq<char>, r: Result<Money, MoneyParseError>) -> bool {
    match r {
        Ok(m) => parsed_amount(raw) == Some(m.0 as int),
        Err(MoneyParseError::Empty) => amount_chars(raw).len() == 0,
        Err(MoneyParseError::TooManyDecimals(s)) => {
            &&& s@ == raw
            &&& amount_chars(raw).len() > 0
            &&& split_amount(amount_chars(raw)) is None
        },
        Err(MoneyParseError::OutOfRange(s)) => {
            &&& s@ == raw
            &&& unsigned_minor(raw) matches Some(v)
            &&& v > i64::MAX
        },
        Err(MoneyParseError::Invalid(_)) => false,
    }
}

// ---------------------------------------------------------------------------
// Specification of the decimal rendering
// ---------------------------------------------------------------------------

pub open spec fn digit_char(d: int) -> char {
    (d + '0' as int) as char
}

/// Decimal digits of `n`, most significant first, without leading zeros.
pub open spec fn decimal_digits(n: nat) -> Seq<char>
    decreases n,
{
    if n < 10 {
        seq![digit_char(n as int)]
    } else {
        decimal_digits(n / 10).push(digit_char((n % 10) as int))
    }
}

/// Magnitude of a minor-units value, as `unsigned_abs` gives it.
pub open spec fn magnitude(v: int) -> nat {
    if v < 0 { (-v) as nat } else { v as nat }
}

/// `"-1234.56"`: optional sign, units, a point and exactly two decimals.
pub open spec fn decimal_text(v: int) -> Seq<char> {
    let abs = magnitude(v);
    let fraction = abs % 100;
    (if v < 0 { seq!['-'] } else { Seq::empty() }) + decimal_digits(abs / 100) + seq![
        '.',
        digit_char((fraction / 10) as int),
        digit_char((fraction % 10) as int),
    ]
}

/// Saturating result of an `i64` operation whose exact value is `v`.
pub open spec fn saturate(v: int) -> i64 {
    if v > i64::MAX {
        i64::MAX
    } else if v < i64::MIN {
        i64::MIN
    } else {
        v as i64
    }
}

// ---------------------------------------------------------------------------
// Lemmas
// ---------------------------------------------------------------------------

proof fn lemma_digits_value_nonneg(s: Seq<char>)
    requires
        all_digits(s),
    ensures
        digits_value(s) >= 0,
    decreases s.len(),
{
    if s.len() > 0 {
        assert(all_digits(s.drop_last()));
        lemma_digits_value_nonneg(s.drop_last());
        assert(is_digit(s[s.len() - 1]));
    }
}

/// A prefix of a digit string never spells more than the whole string.
proof fn lemma_digits_value_prefix(s: Seq<char>, k: int)
    requires
        all_digits(s),
        0 <= k <= s.len(),
    ensures
        digits_value(s.take(k)) <= digits_value(s),
    decreases s.len(),
{
    if k < s.len() {
        assert(all_digits(s.drop_last()));
        lemma_digits_value_prefix(s.drop_last(), k);
        assert(s.drop_last().take(k) =~= s.take(k));
        lemma_digits_value_nonneg(s.drop_last());
        assert(is_digit(s[s.len() - 1]));
    } else {
        assert(s.take(k) =~= s);
    }
}

proof fn lemma_digits_value_append(a: Seq<char>, b: Seq<char>)
    ensures
        digits_value(a + b) == digits_value(a) * pow10(b.len()) + digits_value(b),
    decreases b.len(),
{
    if b.len() == 0 {
        assert(a + b =~= a);
    } else {
        lemma_digits_value_append(a, b.drop_last());
        assert((a + b).drop_last() =~= a + b.drop_last());
        assert((a + b).last() == b.last());
        assert(digits_value(a) * pow10(b.len()) == digits_value(a) * pow10(
            (b.len() - 1) as nat,
        ) * 10) by (nonlinear_arith)
            requires
                pow10(b.len()) == pow10((b.len() - 1) as nat) * 10,
        ;
    }
}

pub open spec fn pow10(n: nat) -> int
    decreases n,
{
    if n == 0 {
        1
    } else {
        pow10((n - 1) as nat) * 10
    }
}

proof fn lemma_amount_chars_append(a: Seq<char>, b: Seq<char>)
    ensures
        amount_chars(a + b) == amount_chars(a) + amount_chars(b),
    decreases b.len(),
{
    if b.len() == 0 {
        assert(a + b =~= a);
        assert(amount_chars(a) + amount_chars(b) =~= amount_chars(a));
    } else {
        lemma_amount_chars_append(a, b.drop_last());
        assert((a + b).drop_last() =~= a + b.drop_last());
        if is_amount_char(b.last()) {
            assert(amount_chars(a) + amount_chars(b.drop_last()).push(b.last()) =~= (amount_chars(
                a,
            ) + amount_chars(b.drop_last())).push(b.last()));
        }
    }
}

proof fn lemma_has_sign_append(a: Seq<char>, b: Seq<char>)
    ensures
        has_sign(a + b) == (has_sign(a) || has_sign(b)),
    decreases b.len(),
{
    if b.len() == 0 {
        assert(a + b =~= a);
    } else {
        lemma_has_sign_append(a, b.drop_last());
        assert((a + b).drop_last() =~= a + b.drop_last());
    }
}

proof fn lemma_digit_char(d: int)
    requires
        0 <= d < 10,
    ensures
        is_digit(digit_char(d)),
        digit_value(digit_char(d)) == d,
{
    assert(digit_char(d) as int == d + 48);
}

proof fn lemma_decimal_digits_facts(n: nat)
    ensures
        all_digits(decimal_digits(n)),
        digits_value(decimal_digits(n)) == n,
        decimal_digits(n).len() > 0,
    decreases n,
{
    let s = decimal_digits(n);
    if n >= 10 {
        lemma_decimal_digits_facts(n / 10);
        lemma_digit_char((n % 10) as int);
        assert(s.drop_last() =~= decimal_digits(n / 10));
        assert(s.last() == digit_char((n % 10) as int));
        assert(digits_value(s) == digits_value(s.drop_last()) * 10 + digit_value(s.last()));
        assert(n == (n / 10) * 10 + n % 10);
        assert forall|i: int| 0 <= i < s.len() implies is_digit(#[trigger] s[i]) by {
            if i < s.len() - 1 {
                assert(s[i] == decimal_digits(n / 10)[i]);
            }
        }
    } else {
        lemma_digit_char(n as int);
        assert(s.drop_last() =~= Seq::<char>::empty());
        assert(digits_value(Seq::<char>::empty()) == 0);
        assert(s.last() == digit_char(n as int));
    }
}

proof fn lemma_amount_chars_of_digits(s: Seq<char>)
    requires
        all_digits(s),
    ensures
        amount_chars(s) == s,
        digit_chars(s) == s,
        last_separator(s) == -1,
        !has_sign(s),
    decreases s.len(),
{
    if s.len() > 0 {
        assert(all_digits(s.drop_last()));
        lemma_amount_chars_of_digits(s.drop_last());
        assert(is_digit(s[s.len() - 1]));
        assert(s.drop_last().push(s.last()) =~= s);
    }
}

proof fn lemma_last_separator_append(a: Seq<char>, b: Seq<char>)
    requires
        last_separator(b) == -1,
    ensures
        last_separator(a + b) == last_separator(a) || (last_separator(a) == -1 && last_separator(a + b) == -1),
        last_separator(a + b) == if last_separator(a) == -1 { -1 } else { last_separator(a) },
    decreases b.len(),
{
    if b.len() == 0 {
        assert(a + b =~= a);
    } else {
        assert((a + b).drop_last() =~= a + b.drop_last());
        lemma_last_separator_append(a, b.drop_last());
    }
}

proof fn lemma_last_separator_bounds(s: Seq<char>)
    ensures
        -1 <= last_separator(s) < s.len(),
        last_separator(s) >= 0 ==> is_separator(s[last_separator(s)]),
        forall|j: int| last_separator(s) < j < s.len() ==> !is_separator(#[trigger] s[j]),
    decreases s.len(),
{
    if s.len() > 0 {
        lemma_last_separator_bounds(s.drop_last());
        if !is_separator(s.last()) {
            assert forall|j: int| last_separator(s) < j < s.len() implies !is_separator(
                #[trigger] s[j],
            ) by {
                if j < s.len() - 1 {
                    assert(s[j] == s.drop_last()[j]);
                }
            }
        }
    }
}

proof fn lemma_amount_chars_are_amount(s: Seq<char>)
    ensures
        forall|j: int| 0 <= j < amount_chars(s).len() ==> is_amount_char(#[trigger] amount_chars(s)[j]),
    decreases s.len(),
{
    if s.len() > 0 {
        lemma_amount_chars_are_amount(s.drop_last());
        let p = amount_chars(s.drop_last());
        if is_amount_char(s.last()) {
            assert forall|j: int| 0 <= j < amount_chars(s).len() implies is_amount_char(
                #[trigger] amount_chars(s)[j],
            ) by {
                if j < p.len() {
                    assert(amount_chars(s)[j] == p[j]);
                }
            }
        }
    }
}

/// The decimal digits of a number start with `0` only for zero itself.
proof fn lemma_no_leading_zero(n: nat)
    ensures
        decimal_digits(n).len() > 0,
        n > 0 ==> decimal_digits(n)[0] != '0',
        n < 10 <==> decimal_digits(n).len() == 1,
    decreases n,
{
    if n >= 10 {
        lemma_no_leading_zero(n / 10);
        assert(decimal_digits(n)[0] == decimal_digits(n / 10)[0]);
    } else {
        assert(digit_char(n as int) as int == n + 48);
    }
}

/// The shape of a rendered amount: a minus sign exactly when the amount is
/// negative, then the units in decimal without leading zeros, a point and
/// exactly two decimals; the units and the decimals spell the magnitude in
/// hundredths. It holds for every `i64`, `i64::MIN` included.
pub proof fn lemma_decimal_text_shape(v: i64)
    ensures
        ({
            let s = decimal_text(v as int);
            let k: int = if v < 0 { 1 } else { 0 };
            let units = s.subrange(k, s.len() - 3);
            let cents = s.subrange(s.len() - 2, s.len() as int);
            &&& s.len() >= k + 4
            &&& (s[0] == '-') == (v < 0)
            &&& all_digits(units) && units.len() > 0
            &&& units.len() > 1 ==> units[0] != '0'
            &&& digits_value(units) == magnitude(v as int) / 100
            &&& s[s.len() - 3] == '.'
            &&& all_digits(cents) && cents.len() == 2
            &&& digits_value(cents) == magnitude(v as int) % 100
        }),
{
    let s = decimal_text(v as int);
    let abs = magnitude(v as int);
    let fraction = abs % 100;
    let k: int = if v < 0 { 1 } else { 0 };
    let sign: Seq<char> = if v < 0 { seq!['-'] } else { Seq::empty() };
    let digits = decimal_digits(abs / 100);
    let tail = seq!['.', digit_char((fraction / 10) as int), digit_char((fraction % 10) as int)];
    assert(s == sign + digits + tail);
    lemma_decimal_digits_facts(abs / 100);
    lemma_no_leading_zero(abs / 100);
    lemma_digit_char((fraction / 10) as int);
    lemma_digit_char((fraction % 10) as int);
    let units = s.subrange(k, s.len() - 3);
    let cents = s.subrange(s.len() - 2, s.len() as int);
    assert(units =~= digits);
    assert(cents =~= seq![digit_char((fraction / 10) as int), digit_char((fraction % 10) as int)]);
    assert(cents.drop_last() =~= seq![digit_char((fraction / 10) as int)]);
    assert(cents.drop_last().drop_last() =~= Seq::<char>::empty());
    assert(digits_value(cents.drop_last().drop_last()) == 0);
    assert(digits_value(cents.drop_last()) == digit_value(cents.drop_last().last()));
    assert(digits_value(cents) == digits_value(cents.drop_last()) * 10 + digit_value(cents.last()));
    assert(digits_value(cents) == (fraction / 10) * 10 + fraction % 10);
    if v >= 0 {
        assert(s[0] == digits[0]);
        assert(is_digit(digits[0]));
    }
}

/// Rendering an amount and reading it back gives the same amount, for every
/// amount but `i64::MIN`, whose magnitude does not fit back into an `i64`.
pub proof fn lemma_decimal_round_trip(v: i64)
    requires
        v != i64::MIN,
    ensures
        parsed_amount(decimal_text(v as int)) == Some(v as int),
{
    let abs = magnitude(v as int);
    let units = abs / 100;
    let fraction = abs % 100;
    let sign: Seq<char> = if v < 0 { seq!['-'] } else { Seq::empty() };
    let digits = decimal_digits(units);
    let tail = seq![digit_char((fraction / 10) as int), digit_char((fraction % 10) as int)];
    let dot = seq!['.'];
    let raw = decimal_text(v as int);
    assert(raw =~= sign + (digits + (dot + tail)));
    lemma_decimal_digits_facts(units);
    lemma_amount_chars_of_digits(digits);
    lemma_digit_char((fraction / 10) as int);
    lemma_digit_char((fraction % 10) as int);
    assert(all_digits(tail));
    lemma_amount_chars_of_digits(tail);
    lemma_amount_chars_append(dot, tail);
    assert(amount_chars(dot) =~= dot) by {
        assert(dot.drop_last() =~= Seq::<char>::empty());
        assert(dot.last() == '.');
        assert(amount_chars(dot) == amount_chars(dot.drop_last()).push(dot.last()));
    }
    lemma_amount_chars_append(digits, dot + tail);
    lemma_amount_chars_append(sign, digits + (dot + tail));
    assert(amount_chars(Seq::<char>::empty()) =~= Seq::<char>::empty());
    assert(amount_chars(sign) =~= Seq::<char>::empty()) by {
        if v < 0 {
            assert(sign.drop_last() =~= Seq::<char>::empty());
            assert(sign.last() == '-');
            assert(amount_chars(sign) == amount_chars(sign.drop_last()));
        }
    }
    let c = amount_chars(raw);
    assert(c =~= digits + dot + tail);
    // The sign
    lemma_has_sign_append(dot, tail);
    assert(!has_sign(dot)) by {
        assert(dot.drop_last() =~= Seq::<char>::empty());
        assert(dot.last() == '.');
        assert(has_sign(dot) == (has_sign(dot.drop_last()) || is_sign_char(dot.last())));
    }
    lemma_has_sign_append(digits, dot + tail);
    lemma_has_sign_append(sign, digits + (dot + tail));
    assert(has_sign(sign) == (v < 0)) by {
        if v < 0 {
            assert(sign.drop_last() =~= Seq::<char>::empty());
        }
    }
    // The split
    lemma_last_separator_append(digits + dot, tail);
    assert((digits + dot).drop_last() =~= digits);
    assert(last_separator(digits + dot) == digits.len());
    assert(c =~= (digits + dot) + tail);
    let idx = last_separator(c);
    assert(idx == digits.len());
    assert(c.subrange(idx + 1, c.len() as int) =~= tail);
    assert(c.subrange(0, idx) =~= digits);
    assert(split_amount(c) == Some((digits, tail)));
    // The value
    assert(tail.drop_last() =~= seq![digit_char((fraction / 10) as int)]);
    assert(tail.drop_last().drop_last() =~= Seq::<char>::empty());
    lemma_small_digits(tail);
    assert(tail[0] == digit_char((fraction / 10) as int));
    assert(tail[1] == digit_char((fraction % 10) as int));
    assert(digits_value(tail) == fraction);
    assert(minor_value(digits, tail) == units * 100 + fraction);
    assert(units * 100 + fraction == abs);
}

// ---------------------------------------------------------------------------
// Executable code
// ---------------------------------------------------------------------------

fn is_amount_char_exec(c: char) -> (r: bool)
    ensures
        r == is_amount_char(c),
{
    ('0' <= c && c <= '9') || c == '.' || c == ','
}

fn is_separator_exec(c: char) -> (r: bool)
    ensures
        r == is_separator(c),
{
    c == '.' || c == ','
}

/// Reads the digits `digits[lo..hi]` as a number, or `None` when it does not
/// fit in an `i64`.
fn digits_to_i64(digits: &Vec<char>, lo: usize, hi: usize) -> (r: Option<i64>)
    requires
        lo <= hi <= digits.len(),
        all_digits(digits@.subrange(lo as int, hi as int)),
    ensures
        match r {
            Some(v) => v as int == digits_value(digits@.subrange(lo as int, hi as int)),
            None => digits_value(digits@.subrange(lo as int, hi as int)) > i64::MAX,
        },
{
    let ghost s = digits@.subrange(lo as int, hi as int);
    let mut acc: i64 = 0;
    let mut k: usize = lo;
    while k < hi
        invariant
            lo <= k <= hi <= digits.len(),
            s == digits@.subrange(lo as int, hi as int),
            all_digits(s),
            acc as int == digits_value(s.take(k - lo)),
            acc >= 0,
        decreases hi - k,
    {
        let c = digits[k];
        proof {
            assert(s[k - lo] == c);
            assert(is_digit(c));
        }
        let d: i64 = (c as u32 - '0' as u32) as i64;
        assert(s.take(k - lo + 1).drop_last() =~= s.take(k - lo));
        if acc > (i64::MAX - d) / 10 {
            proof {
                assert(acc * 10 + d > i64::MAX) by (nonlinear_arith)
                    requires
                        acc > (i64::MAX - d) / 10,
                        0 <= d <= 9,
                ;
                assert(digits_value(s.take(k - lo + 1)) == acc * 10 + d);
                lemma_digits_value_prefix(s, k - lo + 1);
            }
            return None;
        }
        proof {
            assert(acc * 10 + d <= i64::MAX) by (nonlinear_arith)
                requires
                    acc <= (i64::MAX - d) / 10,
                    0 <= d <= 9,
                    acc >= 0,
            ;
        }
        acc = acc * 10 + d;
        k = k + 1;
    }
    assert(s.take(hi - lo) =~= s);
    Some(acc)
}

impl Money {
    /// The zero amount.
    pub fn zero() -> (r: Money)
        ensures
            r.0 == 0,
    {
        Money(0)
    }

    pub fn from_minor_units(minor: i64) -> (r: Money)
        ensures
            r.0 == minor,
    {
        Money(minor)
    }

    pub fn minor_units(self) -> (r: i64)
        ensures
            r == self.0,
    {
        self.0
    }

    pub fn is_negative(self) -> (r: bool)
        ensures
            r == (self.0 < 0),
    {
        self.0 < 0
    }

    pub fn is_zero(self) -> (r: bool)
        ensures
            r == (self.0 == 0),
    {
        self.0 == 0
    }

    /// Magnitude of the amount; `i64::MIN` saturates to `i64::MAX`.
    pub fn abs(self) -> (r: Money)
        ensures
            r.0 == saturate(magnitude(self.0 as int) as int),
    {
        if self.0 == i64::MIN {
            Money(i64::MAX)
        } else if self.0 < 0 {
            Money(-self.0)
        } else {
            Money(self.0)
        }
    }

    /// Saturating sum of a list of amounts, added left to right.
    pub fn sum_of(items: &[Money]) -> (r: Money)
        ensures
            r == items@.fold_left(Money(0), |acc: Money, m: Money| Money(saturate(acc.0 + m.0))),
    {
        let mut total = Money(0);
        let mut i: usize = 0;
        while i < items.len()
            invariant
                i <= items.len(),
                total == items@.take(i as int).fold_left(
                    Money(0),
                    |acc: Money, m: Money| Money(saturate(acc.0 + m.0)),
                ),
            decreases items.len() - i,
        {
            assert(items@.take(i + 1).drop_last() =~= items@.take(i as int));
            total = total.saturating_add(items[i]);
            i = i + 1;
        }
        assert(items@.take(items.len() as int) =~= items@);
        total
    }

    /// Saturating addition of two amounts.
    pub fn saturating_add(self, other: Money) -> (r: Money)
        ensures
            r.0 == saturate(self.0 + other.0),
    {
        if other.0 > 0 && self.0 > i64::MAX - other.0 {
            Money(i64::MAX)
        } else if other.0 < 0 && self.0 < i64::MIN - other.0 {
            Money(i64::MIN)
        } else {
            Money(self.0 + other.0)
        }
    }

    /// Saturating difference of two amounts.
    pub fn saturating_sub(self, other: Money) -> (r: Money)
        ensures
            r.0 == saturate(self.0 - other.0),
    {
        if other.0 < 0 && self.0 > i64::MAX + other.0 {
            Money(i64::MAX)
        } else if other.0 > 0 && self.0 < i64::MIN + other.0 {
            Money(i64::MIN)
        } else {
            Money(self.0 - other.0)
        }
    }

    /// Saturating negation.
    pub fn saturating_neg(self) -> (r: Money)
        ensures
            r.0 == saturate(-self.0),
    {
        if self.0 == i64::MIN {
            Money(i64::MAX)
        } else {
            Money(-self.0)
        }
    }

    /// Reads an amount as bank statements write it: `"1.234,56"`,
    /// `"1,234.56"`, `"-1234.56"`, `"(45,00)"`, `"1.234,56 €"`, `"EUR 12,00"`
    /// or `"12,00-"`.
    pub fn parse_flexible(raw: &str) -> (r: Result<Money, MoneyParseError>)
        ensures
            parse_outcome(raw@, r),
    {
        let chars = chars_of(raw);
        let mut cleaned: Vec<char> = Vec::new();
        let mut negative = false;
        let mut i: usize = 0;
        while i < chars.len()
            invariant
                i <= chars.len(),
                chars@ == raw@,
                cleaned@ == amount_chars(raw@.take(i as int)),
                negative == has_sign(raw@.take(i as int)),
            decreases chars.len() - i,
        {
            let ch = chars[i];
            assert(raw@.take(i + 1).drop_last() =~= raw@.take(i as int));
            if is_amount_char_exec(ch) {
                cleaned.push(ch);
            }
            if ch == '-' || ch == '\u{2212}' || ch == '(' {
                negative = true;
            }
            i = i + 1;
        }
        assert(raw@.take(raw@.len() as int) =~= raw@);

        if cleaned.len() == 0 {
            return Err(MoneyParseError::Empty);
        }
        proof {
            lemma_amount_chars_are_amount(raw@);
        }
        let split = split_separators(&cleaned);
        let (integer_part, decimal_part) = match split {
            Some(parts) => parts,
            None => {
                return Err(MoneyParseError::TooManyDecimals(string_from_str(raw)));
            },
        };

        if decimal_part.len() > 2 {
            // The decimals never exceed the scale after the split.
            return Err(MoneyParseError::TooManyDecimals(string_from_str(raw)));
        }

        let units = match digits_to_i64(&integer_part, 0, integer_part.len()) {
            Some(v) => v,
            None => {
                proof {
                    assert(integer_part@.subrange(0, integer_part@.len() as int) =~= integer_part@);
                    lemma_digits_value_nonneg(decimal_part@);
                    assert(minor_value(integer_part@, decimal_part@) > i64::MAX) by (nonlinear_arith)
                        requires
                            digits_value(integer_part@) > i64::MAX,
                            digits_value(decimal_part@) >= 0,
                    ;
                }
                return Err(MoneyParseError::OutOfRange(string_from_str(raw)));
            },
        };
        proof {
            assert(integer_part@.subrange(0, integer_part@.len() as int) =~= integer_part@);
            lemma_digits_value_nonneg(integer_part@);
        }
        proof {
            assert(decimal_part@.subrange(0, decimal_part@.len() as int) =~= decimal_part@);
            lemma_small_digits(decimal_part@);
        }
        let fraction_digits = match digits_to_i64(&decimal_part, 0, decimal_part.len()) {
            Some(v) => v,
            None => {
                return Err(MoneyParseError::Invalid(string_from_str(raw)));
            },
        };
        let minor_fraction: i64 = if decimal_part.len() == 0 {
            0
        } else if decimal_part.len() == 1 {
            fraction_digits * 10
        } else {
            fraction_digits
        };
        if units > (i64::MAX - minor_fraction) / MINOR_UNITS_PER_UNIT {
            proof {
                assert(units * 100 + minor_fraction > i64::MAX) by (nonlinear_arith)
                    requires
                        units > (i64::MAX - minor_fraction) / 100,
                        0 <= minor_fraction < 100,
                ;
            }
            return Err(MoneyParseError::OutOfRange(string_from_str(raw)));
        }
        proof {
            assert(units * 100 + minor_fraction <= i64::MAX) by (nonlinear_arith)
                requires
                    units <= (i64::MAX - minor_fraction) / 100,
                    0 <= minor_fraction < 100,
                    units >= 0,
            ;
        }
        let minor = units * MINOR_UNITS_PER_UNIT + minor_fraction;
        Ok(Money(if negative { -minor } else { minor }))
    }

    /// Exact decimal rendering (`"-1234.56"`).
    pub fn to_decimal_string(self) -> (r: String)
        ensures
            r@ == decimal_text(self.0 as int),
    {
        let abs: u64 = if self.0 == i64::MIN {
            9223372036854775808u64
        } else if self.0 < 0 {
            (-self.0) as u64
        } else {
            self.0 as u64
        };
        assert(abs as nat == magnitude(self.0 as int));
        let units = abs / 100;
        let fraction = abs % 100;
        let mut out = String::new();
        if self.0 < 0 {
            push_char(&mut out, '-');
        }
        push_decimal(units, &mut out);
        push_char(&mut out, '.');
        push_char(&mut out, digit_char_exec(fraction / 10));
        push_char(&mut out, digit_char_exec(fraction % 10));
        proof {
            let sign: Seq<char> = if self.0 < 0 { seq!['-'] } else { Seq::empty() };
            assert(out@ =~= decimal_text(self.0 as int));
        }
        out
    }
}

fn digit_char_exec(d: u64) -> (c: char)
    requires
        d < 10,
    ensures
        c == digit_char(d as int),
{
    let c = ((d as u8) + 48u8) as char;
    assert(c as int == d + 48);
    c
}

/// Appends the decimal digits of `n` to `out`.
pub fn push_decimal(n: u64, out: &mut String)
    ensures
        final(out)@ == old(out)@ + decimal_digits(n as nat),
    decreases n,
{
    if n >= 10 {
        push_decimal(n / 10, out);
    }
    push_char(out, digit_char_exec(n % 10));
    proof {
        if n >= 10 {
            assert(old(out)@ + decimal_digits((n / 10) as nat) + seq![digit_char((n % 10) as int)]
                =~= old(out)@ + decimal_digits(n as nat));
        } else {
            assert(n % 10 == n);
        }
    }
}

/// Decides which separator of the cleaned amount is the decimal one.
fn split_separators(cleaned: &Vec<char>) -> (r: Option<(Vec<char>, Vec<char>)>)
    requires
        forall|j: int| 0 <= j < cleaned@.len() ==> is_amount_char(#[trigger] cleaned@[j]),
    ensures
        match r {
            Some((i, d)) => split_amount(cleaned@) == Some((i@, d@)) && all_digits(i@) && all_digits(d@) && d@.len() <= 2,
            None => split_amount(cleaned@) is None,
        },
{
    let mut last: Option<usize> = None;
    let mut j: usize = 0;
    while j < cleaned.len()
        invariant
            j <= cleaned.len(),
            match last {
                Some(k) => k < j && last_separator(cleaned@.take(j as int)) == k as int,
                None => last_separator(cleaned@.take(j as int)) == -1,
            },
        decreases cleaned.len() - j,
    {
        assert(cleaned@.take(j + 1).drop_last() =~= cleaned@.take(j as int));
        if is_separator_exec(cleaned[j]) {
            last = Some(j);
        }
        j = j + 1;
    }
    assert(cleaned@.take(cleaned.len() as int) =~= cleaned@);
    proof {
        lemma_last_separator_bounds(cleaned@);
    }
    match last {
        None => {
            let mut integer: Vec<char> = Vec::new();
            let mut k: usize = 0;
            while k < cleaned.len()
                invariant
                    k <= cleaned.len(),
                    integer@ == cleaned@.take(k as int),
                    forall|j: int| 0 <= j < cleaned@.len() ==> !is_separator(#[trigger] cleaned@[j]),
                    forall|j: int| 0 <= j < cleaned@.len() ==> is_amount_char(#[trigger] cleaned@[j]),
                decreases cleaned.len() - k,
            {
                integer.push(cleaned[k]);
                assert(cleaned@.take(k + 1) =~= cleaned@.take(k as int).push(cleaned@[k as int]));
                k = k + 1;
            }
            assert(cleaned@.take(cleaned.len() as int) =~= cleaned@);
            assert(all_digits(integer@)) by {
                assert forall|j: int| 0 <= j < integer@.len() implies is_digit(#[trigger] integer@[j]) by {
                    assert(is_amount_char(cleaned@[j]));
                }
            }
            Some((integer, Vec::new()))
        },
        Some(idx) => {
            let ghost c = cleaned@;
            // Digits after the last separator.
            let mut tail: Vec<char> = Vec::new();
            let mut k: usize = idx + 1;
            while k < cleaned.len()
                invariant
                    idx + 1 <= k <= cleaned.len(),
                    c == cleaned@,
                    idx < cleaned.len(),
                    tail@ == c.subrange(idx + 1, k as int),
                decreases cleaned.len() - k,
            {
                tail.push(cleaned[k]);
                assert(c.subrange(idx + 1, k + 1) =~= c.subrange(idx + 1, k as int).push(c[k as int]));
                k = k + 1;
            }
            assert(all_digits(tail@)) by {
                assert forall|j: int| 0 <= j < tail@.len() implies is_digit(#[trigger] tail@[j]) by {
                    assert(tail@[j] == c[idx + 1 + j]);
                    assert(is_amount_char(c[idx + 1 + j]));
                    assert(!is_separator(c[idx + 1 + j]));
                }
            }
            // Digits before it, thousands separators dropped.
            let mut head: Vec<char> = Vec::new();
            let mut k: usize = 0;
            while k < idx
                invariant
                    k <= idx < cleaned.len(),
                    c == cleaned@,
                    head@ == digit_chars(c.subrange(0, k as int)),
                decreases idx - k,
            {
                assert(c.subrange(0, k + 1).drop_last() =~= c.subrange(0, k as int));
                if '0' <= cleaned[k] && cleaned[k] <= '9' {
                    head.push(cleaned[k]);
                }
                k = k + 1;
            }
            proof {
                lemma_digit_chars_are_digits(c.subrange(0, idx as int));
            }
            if tail.len() == 3 && head.len() > 0 {
                let mut integer = head;
                let mut t: usize = 0;
                let ghost h = integer@;
                while t < tail.len()
                    invariant
                        t <= tail.len(),
                        integer@ == h + tail@.take(t as int),
                    decreases tail.len() - t,
                {
                    integer.push(tail[t]);
                    assert(h + tail@.take(t + 1) =~= (h + tail@.take(t as int)).push(tail@[t as int]));
                    t = t + 1;
                }
                assert(tail@.take(tail.len() as int) =~= tail@);
                assert(all_digits(integer@)) by {
                    assert forall|j: int| 0 <= j < integer@.len() implies is_digit(#[trigger] integer@[j]) by {
                        if j < h.len() {
                            assert(integer@[j] == h[j]);
                        } else {
                            assert(integer@[j] == tail@[j - h.len()]);
                        }
                    }
                }
                Some((integer, Vec::new()))
            } else if tail.len() > 2 {
                let mut all_zero = true;
                let mut t: usize = 2;
                while t < tail.len()
                    invariant
                        2 <= t <= tail.len(),
                        all_zero == all_zeros(tail@.subrange(2, t as int)),
                    decreases tail.len() - t,
                {
                    let ghost before = tail@.subrange(2, t as int);
                    let ghost after = tail@.subrange(2, t + 1);
                    assert(after =~= before.push(tail@[t as int]));
                    assert(all_zeros(after) == (all_zeros(before) && tail@[t as int] == '0')) by {
                        if all_zeros(before) && tail@[t as int] == '0' {
                            assert forall|i: int| 0 <= i < after.len() implies after[i] == '0' by {
                                if i < before.len() {
                                    assert(after[i] == before[i]);
                                }
                            }
                        }
                        if all_zeros(after) {
                            assert(after[after.len() - 1] == '0');
                            assert forall|i: int| 0 <= i < before.len() implies before[i] == '0' by {
                                assert(after[i] == before[i]);
                            }
                        }
                    }
                    if tail[t] != '0' {
                        all_zero = false;
                    }
                    t = t + 1;
                }
                if all_zero {
                    let mut kept: Vec<char> = Vec::new();
                    kept.push(tail[0]);
                    kept.push(tail[1]);
                    assert(kept@ =~= tail@.subrange(0, 2));
                    Some((head, kept))
                } else {
                    None
                }
            } else {
                Some((head, tail))
            }
        },
    }
}

proof fn lemma_small_digits(d: Seq<char>)
    requires
        all_digits(d),
        d.len() <= 2,
    ensures
        0 <= digits_value(d) < (if d.len() == 0 { 1int } else if d.len() == 1 { 10int } else { 100int }),
        d.len() == 2 ==> digits_value(d) == digit_value(d[0]) * 10 + digit_value(d[1]),
        d.len() == 1 ==> digits_value(d) == digit_value(d[0]),
{
    if d.len() == 2 {
        assert(d.drop_last().drop_last() =~= Seq::<char>::empty());
        assert(is_digit(d[0]) && is_digit(d[1]));
        assert(d.drop_last().last() == d[0]);
        assert(digits_value(Seq::<char>::empty()) == 0);
        assert(digits_value(d.drop_last()) == digits_value(d.drop_last().drop_last()) * 10
            + digit_value(d.drop_last().last()));
        assert(digits_value(d.drop_last()) == digit_value(d[0]));
        assert(digits_value(Seq::<char>::empty()) == 0);
        assert(digits_value(d) == digit_value(d[0]) * 10 + digit_value(d[1]));
    } else if d.len() == 1 {
        assert(digits_value(Seq::<char>::empty()) == 0);
        assert(d.drop_last() =~= Seq::<char>::empty());
        assert(is_digit(d[0]));
        assert(digits_value(d) == digit_value(d[0]));
    }
}

proof fn lemma_digit_chars_are_digits(s: Seq<char>)
    ensures
        all_digits(digit_chars(s)),
    decreases s.len(),
{
    if s.len() > 0 {
        lemma_digit_chars_are_digits(s.drop_last());
    }
}

impl core::ops::Add for Money {
    type Output = Money;

    fn add(self, rhs: Money) -> (r: Money) {
        self.saturating_add(rhs)
    }
}

impl vstd::std_specs::ops::AddSpecImpl for Money {
    open spec fn obeys_add_spec() -> bool {
        true
    }

    open spec fn add_req(self, rhs: Money) -> bool {
        true
    }

    open spec fn add_spec(self, rhs: Money) -> Money {
        Money(saturate(self.0 + rhs.0))
    }
}

impl core::ops::AddAssign for Money {
    fn add_assign(&mut self, rhs: Money)
        ensures
            final(self).0 == saturate(old(self).0 + rhs.0),
    {
        *self = self.saturating_add(rhs);
    }
}

impl core::ops::Sub for Money {
    type Output = Money;

    fn sub(self, rhs: Money) -> (r: Money) {
        self.saturating_sub(rhs)
    }
}

impl vstd::std_specs::ops::SubSpecImpl for Money {
    open spec fn obeys_sub_spec() -> bool {
        true
    }

    open spec fn sub_req(self, rhs: Money) -> bool {
        true
    }

    open spec fn sub_spec(self, rhs: Money) -> Money {
        Money(saturate(self.0 - rhs.0))
    }
}

impl core::ops::Neg for Money {
    type Output = Money;

    fn neg(self) -> (r: Money) {
        self.saturating_neg()
    }
}

impl vstd::std_specs::ops::NegSpecImpl for Money {
    open spec fn obeys_neg_spec() -> bool {
        true
    }

    open spec fn neg_req(self) -> bool {
        true
    }

    open spec fn neg_spec(self) -> Money {
        Money(saturate(-self.0))
    }
}

} // verus!
