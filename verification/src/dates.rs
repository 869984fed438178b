//! Reading the dates of a statement, with the day/month order decided once
//! for the whole file.
use vstd::prelude::*;

use crate::date::{valid_ymd, Date};
use crate::money::{digits_value, is_digit};
use crate::text::{
    chars_eq_str, chars_of, is_alphabetic, is_alphanumeric, is_whitespace, unicode_alphabetic,
    unicode_alphanumeric, unicode_lowercase, unicode_whitespace, to_lowercase,
};

verus! {

/// Day/month interpretation chosen for the whole file.
#[derive(Debug, Clone, Copy, PartialEq, Eq, Structural)]
pub enum DateOrder {
    DayFirst,
    MonthFirst,
    /// ISO (`2026-03-14`) or another format that is not ambiguous.
    Unambiguous,
}

// ---------------------------------------------------------------------------
// Specification
// ---------------------------------------------------------------------------

pub open spec fn all_digit_chars(s: Seq<char>) -> bool {
    forall|i: int| 0 <= i < s.len() ==> is_digit(#[trigger] s[i])
}

/// The pieces of `s` between characters that `keep` rejects, empty ones
/// dropped: the maximal runs of kept characters, in order.
pub open spec fn runs(s: Seq<char>, keep: spec_fn(char) -> bool) -> Seq<Seq<char>> {
    runs_state(s, keep).0
}

/// Finished runs and the run being read.
pub open spec fn runs_state(s: Seq<char>, keep: spec_fn(char) -> bool) -> (Seq<Seq<char>>, Seq<char>)
    decreases s.len(),
{
    if s.len() == 0 {
        (Seq::empty(), Seq::empty())
    } else {
        let (done, current) = runs_state(s.drop_last(), keep);
        if keep(s.last()) {
            (done, current.push(s.last()))
        } else if current.len() > 0 {
            (done.push(current), Seq::empty())
        } else {
            (done, current)
        }
    }
}

/// All maximal runs of `s` (the one still open at the end included).
pub open spec fn all_runs(s: Seq<char>, keep: spec_fn(char) -> bool) -> Seq<Seq<char>> {
    let (done, current) = runs_state(s, keep);
    if current.len() > 0 {
        done.push(current)
    } else {
        done
    }
}

pub open spec fn keep_digit() -> spec_fn(char) -> bool {
    |c: char| is_digit(c)
}

pub open spec fn keep_alphanumeric() -> spec_fn(char) -> bool {
    |c: char| unicode_alphanumeric(c)
}

/// The first three groups of ASCII digits of `s`, if it has three.
pub open spec fn three_groups(s: Seq<char>) -> Option<(Seq<char>, Seq<char>, Seq<char>)> {
    let g = all_runs(s, keep_digit());
    if g.len() >= 3 {
        Some((g[0], g[1], g[2]))
    } else {
        None
    }
}

/// A number of at most nine digits, or none (the digits do not fit a `u32`).
pub open spec fn small_number(s: Seq<char>) -> Option<int> {
    if digits_value(s) <= u32::MAX {
        Some(digits_value(s))
    } else {
        None
    }
}

/// Two-digit years follow the POSIX convention: 69-99 are of the 20th
/// century. Four digits are taken as they are; other lengths are no year.
pub open spec fn expanded_year(s: Seq<char>) -> Option<int> {
    if s.len() == 4 {
        Some(digits_value(s))
    } else if s.len() == 2 {
        Some(if digits_value(s) >= 69 { 1900 + digits_value(s) } else { 2000 + digits_value(s) })
    } else {
        None
    }
}

/// Accented vowels fold to their plain letter when reading month names.
pub open spec fn fold_vowel(c: char) -> char {
    if c == 'á' || c == 'à' {
        'a'
    } else if c == 'é' || c == 'è' {
        'e'
    } else if c == 'í' || c == 'ì' {
        'i'
    } else if c == 'ó' || c == 'ò' {
        'o'
    } else if c == 'ú' || c == 'ù' || c == 'ü' {
        'u'
    } else {
        c
    }
}

/// The first three alphabetic characters of `s`.
pub open spec fn first_letters(s: Seq<char>) -> Seq<char>
    decreases s.len(),
{
    if s.len() == 0 {
        Seq::empty()
    } else {
        let prev = first_letters(s.drop_last());
        if prev.len() < 3 && unicode_alphabetic(s.last()) {
            prev.push(s.last())
        } else {
            prev
        }
    }
}

/// Each character of `s`, accent folded, in lower case, concatenated.
pub open spec fn lowered(s: Seq<char>) -> Seq<char>
    decreases s.len(),
{
    if s.len() == 0 {
        Seq::empty()
    } else {
        lowered(s.drop_last()) + unicode_lowercase(fold_vowel(s.last()))
    }
}

/// The month a three-letter key names, in Spanish or English.
pub open spec fn month_of_key(k: Seq<char>) -> Option<int> {
    if k == "ene"@ || k == "jan"@ {
        Some(1)
    } else if k == "feb"@ {
        Some(2)
    } else if k == "mar"@ {
        Some(3)
    } else if k == "abr"@ || k == "apr"@ {
        Some(4)
    } else if k == "may"@ {
        Some(5)
    } else if k == "jun"@ {
        Some(6)
    } else if k == "jul"@ {
        Some(7)
    } else if k == "ago"@ || k == "aug"@ {
        Some(8)
    } else if k == "sep"@ {
        Some(9)
    } else if k == "oct"@ {
        Some(10)
    } else if k == "nov"@ {
        Some(11)
    } else if k == "dic"@ || k == "dec"@ {
        Some(12)
    } else {
        None
    }
}

/// The three-letter keys by which month `m` is written: its Spanish and its
/// English abbreviation (one key when both languages agree).
pub open spec fn keys_of_month(m: int) -> Seq<Seq<char>> {
    if m == 1 {
        seq![seq!['e', 'n', 'e'], seq!['j', 'a', 'n']]
    } else if m == 2 {
        seq![seq!['f', 'e', 'b']]
    } else if m == 3 {
        seq![seq!['m', 'a', 'r']]
    } else if m == 4 {
        seq![seq!['a', 'b', 'r'], seq!['a', 'p', 'r']]
    } else if m == 5 {
        seq![seq!['m', 'a', 'y']]
    } else if m == 6 {
        seq![seq!['j', 'u', 'n']]
    } else if m == 7 {
        seq![seq!['j', 'u', 'l']]
    } else if m == 8 {
        seq![seq!['a', 'g', 'o'], seq!['a', 'u', 'g']]
    } else if m == 9 {
        seq![seq!['s', 'e', 'p']]
    } else if m == 10 {
        seq![seq!['o', 'c', 't']]
    } else if m == 11 {
        seq![seq!['n', 'o', 'v']]
    } else if m == 12 {
        seq![seq!['d', 'i', 'c'], seq!['d', 'e', 'c']]
    } else {
        Seq::empty()
    }
}

/// A key names month `m` exactly when it is the Spanish or the English
/// abbreviation of that month, so a written month is read as its own number
/// and no two months are confused.
pub proof fn lemma_month_keys(k: Seq<char>, m: int)
    ensures
        month_of_key(k) == Some(m) <==> keys_of_month(m).contains(k),
        month_of_word(k) == Some(m) <==> keys_of_month(m).contains(lowered(first_letters(k))),
{
    lemma_month_keys_of(k, m);
    lemma_month_keys_of(lowered(first_letters(k)), m);
}

proof fn lemma_month_keys_of(k: Seq<char>, m: int)
    ensures
        month_of_key(k) == Some(m) <==> keys_of_month(m).contains(k),
{
    reveal_strlit("ene");
    assert("ene"@ =~= seq!['e', 'n', 'e']);
    reveal_strlit("jan");
    assert("jan"@ =~= seq!['j', 'a', 'n']);
    reveal_strlit("feb");
    assert("feb"@ =~= seq!['f', 'e', 'b']);
    reveal_strlit("mar");
    assert("mar"@ =~= seq!['m', 'a', 'r']);
    reveal_strlit("abr");
    assert("abr"@ =~= seq!['a', 'b', 'r']);
    reveal_strlit("apr");
    assert("apr"@ =~= seq!['a', 'p', 'r']);
    reveal_strlit("may");
    assert("may"@ =~= seq!['m', 'a', 'y']);
    reveal_strlit("jun");
    assert("jun"@ =~= seq!['j', 'u', 'n']);
    reveal_strlit("jul");
    assert("jul"@ =~= seq!['j', 'u', 'l']);
    reveal_strlit("ago");
    assert("ago"@ =~= seq!['a', 'g', 'o']);
    reveal_strlit("aug");
    assert("aug"@ =~= seq!['a', 'u', 'g']);
    reveal_strlit("sep");
    assert("sep"@ =~= seq!['s', 'e', 'p']);
    reveal_strlit("oct");
    assert("oct"@ =~= seq!['o', 'c', 't']);
    reveal_strlit("nov");
    assert("nov"@ =~= seq!['n', 'o', 'v']);
    reveal_strlit("dic");
    assert("dic"@ =~= seq!['d', 'i', 'c']);
    reveal_strlit("dec");
    assert("dec"@ =~= seq!['d', 'e', 'c']);
    let ks = keys_of_month(m);
    if m == 1 {
        assert(ks =~= seq![seq!['e', 'n', 'e'], seq!['j', 'a', 'n']]);
        if k == seq!['e', 'n', 'e'] {
            assert(ks[0] == k);
        }
        if k == seq!['j', 'a', 'n'] {
            assert(ks[1] == k);
        }
        if ks.contains(k) {
            let j = choose|j: int| 0 <= j < ks.len() && ks[j] == k;
            assert(j == 0 || j == 1);
        }
    }
    if m == 2 {
        assert(ks =~= seq![seq!['f', 'e', 'b']]);
        if k == seq!['f', 'e', 'b'] {
            assert(ks[0] == k);
        }
        if ks.contains(k) {
            let j = choose|j: int| 0 <= j < ks.len() && ks[j] == k;
            assert(j == 0);
        }
    }
    if m == 3 {
        assert(ks =~= seq![seq!['m', 'a', 'r']]);
        if k == seq!['m', 'a', 'r'] {
            assert(ks[0] == k);
        }
        if ks.contains(k) {
            let j = choose|j: int| 0 <= j < ks.len() && ks[j] == k;
            assert(j == 0);
        }
    }
    if m == 4 {
        assert(ks =~= seq![seq!['a', 'b', 'r'], seq!['a', 'p', 'r']]);
        if k == seq!['a', 'b', 'r'] {
            assert(ks[0] == k);
        }
        if k == seq!['a', 'p', 'r'] {
            assert(ks[1] == k);
        }
        if ks.contains(k) {
            let j = choose|j: int| 0 <= j < ks.len() && ks[j] == k;
            assert(j == 0 || j == 1);
        }
    }
    if m == 5 {
        assert(ks =~= seq![seq!['m', 'a', 'y']]);
        if k == seq!['m', 'a', 'y'] {
            assert(ks[0] == k);
        }
        if ks.contains(k) {
            let j = choose|j: int| 0 <= j < ks.len() && ks[j] == k;
            assert(j == 0);
        }
    }
    if m == 6 {
        assert(ks =~= seq![seq!['j', 'u', 'n']]);
        if k == seq!['j', 'u', 'n'] {
            assert(ks[0] == k);
        }
        if ks.contains(k) {
            let j = choose|j: int| 0 <= j < ks.len() && ks[j] == k;
            assert(j == 0);
        }
    }
    if m == 7 {
        assert(ks =~= seq![seq!['j', 'u', 'l']]);
        if k == seq!['j', 'u', 'l'] {
            assert(ks[0] == k);
        }
        if ks.contains(k) {
            let j = choose|j: int| 0 <= j < ks.len() && ks[j] == k;
            assert(j == 0);
        }
    }
    if m == 8 {
        assert(ks =~= seq![seq!['a', 'g', 'o'], seq!['a', 'u', 'g']]);
        if k == seq!['a', 'g', 'o'] {
            assert(ks[0] == k);
        }
        if k == seq!['a', 'u', 'g'] {
            assert(ks[1] == k);
        }
        if ks.contains(k) {
            let j = choose|j: int| 0 <= j < ks.len() && ks[j] == k;
            assert(j == 0 || j == 1);
        }
    }
    if m == 9 {
        assert(ks =~= seq![seq!['s', 'e', 'p']]);
        if k == seq!['s', 'e', 'p'] {
            assert(ks[0] == k);
        }
        if ks.contains(k) {
            let j = choose|j: int| 0 <= j < ks.len() && ks[j] == k;
            assert(j == 0);
        }
    }
    if m == 10 {
        assert(ks =~= seq![seq!['o', 'c', 't']]);
        if k == seq!['o', 'c', 't'] {
            assert(ks[0] == k);
        }
        if ks.contains(k) {
            let j = choose|j: int| 0 <= j < ks.len() && ks[j] == k;
            assert(j == 0);
        }
    }
    if m == 11 {
        assert(ks =~= seq![seq!['n', 'o', 'v']]);
        if k == seq!['n', 'o', 'v'] {
            assert(ks[0] == k);
        }
        if ks.contains(k) {
            let j = choose|j: int| 0 <= j < ks.len() && ks[j] == k;
            assert(j == 0);
        }
    }
    if m == 12 {
        assert(ks =~= seq![seq!['d', 'i', 'c'], seq!['d', 'e', 'c']]);
        if k == seq!['d', 'i', 'c'] {
            assert(ks[0] == k);
        }
        if k == seq!['d', 'e', 'c'] {
            assert(ks[1] == k);
        }
        if ks.contains(k) {
            let j = choose|j: int| 0 <= j < ks.len() && ks[j] == k;
            assert(j == 0 || j == 1);
        }
    }
    if m < 1 || m > 12 {
        assert(ks.len() == 0);
    }
}

/// The month a word names, read from its first three letters.
pub open spec fn month_of_word(w: Seq<char>) -> Option<int> {
    month_of_key(lowered(first_letters(w)))
}

/// Reading the words of a date with a written month: numbers are
/// collected, the first other word must be a month (else there is no date)
/// and a second other word ends the date.
pub open spec fn named_scan(words: Seq<Seq<char>>, i: int, month: Option<int>, numbers: Seq<Seq<char>>) -> Option<(Option<int>, Seq<Seq<char>>)>
    decreases words.len() - i,
{
    if i >= words.len() || i < 0 {
        Some((month, numbers))
    } else if all_digit_chars(words[i]) {
        named_scan(words, i + 1, month, numbers.push(words[i]))
    } else if month is None {
        match month_of_word(words[i]) {
            Some(m) => named_scan(words, i + 1, Some(m), numbers),
            None => None,
        }
    } else {
        Some((month, numbers))
    }
}

/// Builds a date from year, month and day, when it is a day of the calendar.
pub open spec fn date_of(year: int, month: int, day: int) -> Option<Date> {
    if valid_ymd(year, month, day) {
        Some(Date { year: year as i32, month: month as u32, day: day as u32 })
    } else {
        None
    }
}

/// A date with the month written ("12 feb 2026", "Feb 12, 2026"): the
/// number with four digits is the year, otherwise the first number is the day.
pub open spec fn named_month_date(raw: Seq<char>) -> Option<Date> {
    match named_scan(all_runs(raw, keep_alphanumeric()), 0, None, Seq::empty()) {
        Some((Some(month), numbers)) => if numbers.len() >= 2 {
            let (day, year) = if numbers[0].len() == 4 {
                (numbers[1], numbers[0])
            } else {
                (numbers[0], numbers[1])
            };
            match (expanded_year(year), small_number(day)) {
                (Some(y), Some(d)) => date_of(y, month, d),
                _ => None,
            }
        } else {
            None
        },
        _ => None,
    }
}

/// The first whitespace-separated word of `s` (`split_whitespace().next()`).
pub open spec fn first_word(s: Seq<char>) -> Option<Seq<char>> {
    let words = all_runs(s, |c: char| !unicode_whitespace(c));
    if words.len() > 0 {
        Some(words[0])
    } else {
        None
    }
}

/// The date `raw` reads as under `order`.
pub open spec fn parsed_date(raw: Seq<char>, order: DateOrder) -> Option<Date> {
    if named_month_date(raw) is Some {
        named_month_date(raw)
    } else {
        match first_word(raw) {
            None => None,
            Some(word) => match three_groups(word) {
                None => None,
                Some((a, b, c)) => {
                    let (y, m, d) = if a.len() == 4 {
                        (a, b, c)
                    } else {
                        match order {
                            DateOrder::MonthFirst => (c, a, b),
                            _ => (c, b, a),
                        }
                    };
                    match (expanded_year(y), small_number(m), small_number(d)) {
                        (Some(year), Some(month), Some(day)) => date_of(year, month, day),
                        _ => None,
                    }
                },
            },
        }
    }
}

/// A date with the month written, or one whose year comes first, is read the
/// same whichever day/month order was detected for the file: only
/// ambiguous numeric dates depend on it.
pub proof fn lemma_unambiguous_dates_ignore_the_order(raw: Seq<char>, one: DateOrder, other: DateOrder)
    requires
        named_month_date(raw) is Some || (first_word(raw) matches Some(word) && (three_groups(word) matches Some(
            g,
        ) && g.0.len() == 4)),
    ensures
        parsed_date(raw, one) == parsed_date(raw, other),
{
}

/// A number group read for the order vote; unreadable reads as 0.
pub open spec fn vote_number(s: Seq<char>) -> int {
    match small_number(s) {
        Some(v) => v,
        None => 0,
    }
}

/// The order that the samples from `i` on decide, given whether an
/// unambiguous date was already seen.
pub open spec fn order_from(samples: Seq<Seq<char>>, i: int, saw_iso: bool) -> DateOrder
    decreases samples.len() - i,
{
    if i >= samples.len() || i < 0 {
        if saw_iso {
            DateOrder::Unambiguous
        } else {
            DateOrder::DayFirst
        }
    } else if named_month_date(samples[i]) is Some {
        order_from(samples, i + 1, true)
    } else {
        match three_groups(samples[i]) {
            None => order_from(samples, i + 1, saw_iso),
            Some((a, b, c)) => if a.len() == 4 {
                order_from(samples, i + 1, true)
            } else {
                let first = vote_number(a);
                let second = vote_number(b);
                if first > 12 && second <= 12 {
                    DateOrder::DayFirst
                } else if second > 12 && first <= 12 {
                    DateOrder::MonthFirst
                } else {
                    order_from(samples, i + 1, saw_iso)
                }
            },
        }
    }
}

/// A sample that says nothing of the order: no written month, no year
/// first, and both leading numbers at most twelve (or no numeric date at
/// all).
pub open spec fn gives_no_evidence(s: Seq<char>) -> bool {
    named_month_date(s) is None && match three_groups(s) {
        None => true,
        Some((a, b, _)) => a.len() != 4 && vote_number(a) <= 12 && vote_number(b) <= 12,
    }
}

proof fn lemma_no_evidence_from(samples: Seq<Seq<char>>, i: int)
    requires
        0 <= i,
        forall|k: int| 0 <= k < samples.len() ==> gives_no_evidence(#[trigger] samples[k]),
    ensures
        order_from(samples, i, false) == DateOrder::DayFirst,
    decreases samples.len() - i,
{
    if i < samples.len() {
        assert(gives_no_evidence(samples[i]));
        lemma_no_evidence_from(samples, i + 1);
    }
}

/// A column in which no date settles the order (every day and month at
/// most twelve, no year first, no written month), or an empty one, is read
/// day first.
pub proof fn lemma_ambiguous_columns_read_day_first(samples: Seq<Seq<char>>)
    requires
        forall|k: int| 0 <= k < samples.len() ==> gives_no_evidence(#[trigger] samples[k]),
    ensures
        order_from(samples, 0, false) == DateOrder::DayFirst,
{
    lemma_no_evidence_from(samples, 0);
}

// ---------------------------------------------------------------------------
// Executable code
// ---------------------------------------------------------------------------

/// The maximal runs of characters of `s` that `keep` accepts, in order.
fn split_runs(s: &Vec<char>, which: u8) -> (r: Vec<Vec<char>>)
    requires
        which <= 2,
    ensures
        views(r@) == all_runs(s@, keep_of(which)),
{
    let mut done: Vec<Vec<char>> = Vec::new();
    let mut current: Vec<char> = Vec::new();
    let mut i: usize = 0;
    while i < s.len()
        invariant
            i <= s.len(),
            which <= 2,
            (views(done@), current@) == runs_state(s@.take(i as int), keep_of(which)),
        decreases s.len() - i,
    {
        let c = s[i];
        assert(s@.take(i + 1).drop_last() =~= s@.take(i as int));
        let keep = if which == 0 {
            '0' <= c && c <= '9'
        } else if which == 1 {
            is_alphanumeric(c)
        } else {
            !is_whitespace(c)
        };
        assert(keep == keep_of(which)(c));
        if keep {
            current.push(c);
        } else if current.len() > 0 {
            let finished = current;
            done.push(finished);
            current = Vec::new();
            assert(views(done@) =~= runs_state(s@.take(i as int), keep_of(which)).0.push(
                runs_state(s@.take(i as int), keep_of(which)).1,
            ));
        }
        i = i + 1;
    }
    assert(s@.take(s.len() as int) =~= s@);
    if current.len() > 0 {
        let last = current;
        done.push(last);
    }
    assert(views(done@) =~= all_runs(s@, keep_of(which)));
    done
}

/// The character classes runs are split by: digits, alphanumerics, non-whitespace.
pub open spec fn keep_of(which: u8) -> spec_fn(char) -> bool {
    if which == 0 {
        keep_digit()
    } else if which == 1 {
        keep_alphanumeric()
    } else {
        |c: char| !unicode_whitespace(c)
    }
}

pub open spec fn views(v: Seq<Vec<char>>) -> Seq<Seq<char>> {
    v.map_values(|x: Vec<char>| x@)
}

/// The number spelled by ASCII digits, when it fits a `u32`.
fn read_small_number(s: &Vec<char>) -> (r: Option<u32>)
    requires
        all_digit_chars(s@),
    ensures
        match r {
            Some(v) => small_number(s@) == Some(v as int),
            None => small_number(s@) is None,
        },
{
    let mut acc: u64 = 0;
    let mut k: usize = 0;
    while k < s.len()
        invariant
            k <= s.len(),
            all_digit_chars(s@),
            acc as int == digits_value(s@.take(k as int)),
            acc <= u32::MAX,
        decreases s.len() - k,
    {
        let c = s[k];
        assert(is_digit(s@[k as int]));
        let d: u64 = (c as u32 - '0' as u32) as u64;
        assert(s@.take(k + 1).drop_last() =~= s@.take(k as int));
        let next = acc * 10 + d;
        if next > 4294967295u64 {
            proof {
                lemma_prefix_not_smaller(s@, k + 1);
            }
            return None;
        }
        acc = next;
        k = k + 1;
    }
    assert(s@.take(s.len() as int) =~= s@);
    Some(acc as u32)
}

proof fn lemma_digits_nonneg(s: Seq<char>)
    requires
        all_digit_chars(s),
    ensures
        digits_value(s) >= 0,
    decreases s.len(),
{
    if s.len() > 0 {
        assert(all_digit_chars(s.drop_last()));
        lemma_digits_nonneg(s.drop_last());
        assert(is_digit(s[s.len() - 1]));
    }
}

proof fn lemma_prefix_not_smaller(s: Seq<char>, k: int)
    requires
        all_digit_chars(s),
        0 <= k <= s.len(),
    ensures
        digits_value(s.take(k)) <= digits_value(s),
    decreases s.len(),
{
    if k < s.len() {
        assert(all_digit_chars(s.drop_last()));
        lemma_prefix_not_smaller(s.drop_last(), k);
        assert(s.drop_last().take(k) =~= s.take(k));
        lemma_digits_nonneg(s.drop_last());
        assert(is_digit(s[s.len() - 1]));
    } else {
        assert(s.take(k) =~= s);
    }
}

/// Two-digit years follow the POSIX convention; four digits are taken as
/// they are.
fn expand_year(raw: &Vec<char>) -> (r: Option<i32>)
    requires
        all_digit_chars(raw@),
    ensures
        match r {
            Some(y) => expanded_year(raw@) == Some(y as int),
            None => expanded_year(raw@) is None,
        },
{
    if raw.len() != 4 && raw.len() != 2 {
        return None;
    }
    proof {
        lemma_digits_nonneg(raw@);
        lemma_digits_bound(raw@);
    }
    let value = match read_small_number(raw) {
        Some(v) => v,
        None => {
            return None;
        },
    };
    if raw.len() == 4 {
        Some(value as i32)
    } else if value >= 69 {
        Some(1900 + value as i32)
    } else {
        Some(2000 + value as i32)
    }
}

proof fn lemma_digits_bound(s: Seq<char>)
    requires
        all_digit_chars(s),
        s.len() <= 4,
    ensures
        digits_value(s) < 10000,
        s.len() <= 2 ==> digits_value(s) < 100,
    decreases s.len(),
{
    if s.len() > 0 {
        assert(all_digit_chars(s.drop_last()));
        lemma_digits_bound(s.drop_last());
        lemma_digits_nonneg(s.drop_last());
        assert(is_digit(s[s.len() - 1]));
        if s.len() <= 2 {
            assert(s.drop_last().len() <= 1);
            if s.drop_last().len() == 1 {
                assert(s.drop_last().drop_last() =~= Seq::<char>::empty());
                assert(is_digit(s[0]));
                assert(digits_value(Seq::<char>::empty()) == 0);
                assert(s.drop_last().last() == s[0]);
            } else {
                assert(s.drop_last() =~= Seq::<char>::empty());
            }
        } else {
            lemma_digits_bound3(s.drop_last());
        }
    }
}

proof fn lemma_digits_bound3(s: Seq<char>)
    requires
        all_digit_chars(s),
        s.len() <= 3,
    ensures
        digits_value(s) < 1000,
    decreases s.len(),
{
    if s.len() > 0 {
        assert(all_digit_chars(s.drop_last()));
        lemma_digits_bound(s.drop_last());
        assert(is_digit(s[s.len() - 1]));
    }
}

fn fold_vowel_exec(c: char) -> (r: char)
    ensures
        r == fold_vowel(c),
{
    if c == 'á' || c == 'à' {
        'a'
    } else if c == 'é' || c == 'è' {
        'e'
    } else if c == 'í' || c == 'ì' {
        'i'
    } else if c == 'ó' || c == 'ò' {
        'o'
    } else if c == 'ú' || c == 'ù' || c == 'ü' {
        'u'
    } else {
        c
    }
}

/// Written months, in Spanish and English, by their first three letters:
/// both the short form ("feb", "sept") and the full one ("febrero").
fn month_from_name(token: &Vec<char>) -> (r: Option<u32>)
    ensures
        match r {
            Some(m) => month_of_word(token@) == Some(m as int),
            None => month_of_word(token@) is None,
        },
{
    let mut letters: Vec<char> = Vec::new();
    let mut i: usize = 0;
    while i < token.len()
        invariant
            i <= token.len(),
            letters@ == first_letters(token@.take(i as int)),
            letters.len() <= 3,
        decreases token.len() - i,
    {
        assert(token@.take(i + 1).drop_last() =~= token@.take(i as int));
        if letters.len() < 3 && is_alphabetic(token[i]) {
            letters.push(token[i]);
        }
        i = i + 1;
    }
    assert(token@.take(token.len() as int) =~= token@);
    let mut key: Vec<char> = Vec::new();
    let mut j: usize = 0;
    while j < letters.len()
        invariant
            j <= letters.len(),
            key@ == lowered(letters@.take(j as int)),
        decreases letters.len() - j,
    {
        assert(letters@.take(j + 1).drop_last() =~= letters@.take(j as int));
        let lower = to_lowercase(fold_vowel_exec(letters[j]));
        let ghost before = key@;
        let mut k: usize = 0;
        while k < lower.len()
            invariant
                k <= lower.len(),
                key@ == before + lower@.take(k as int),
            decreases lower.len() - k,
        {
            key.push(lower[k]);
            assert(before + lower@.take(k + 1) =~= (before + lower@.take(k as int)).push(lower@[k as int]));
            k = k + 1;
        }
        assert(lower@.take(lower.len() as int) =~= lower@);
        j = j + 1;
    }
    assert(letters@.take(letters.len() as int) =~= letters@);
    if chars_eq_str(&key, "ene") || chars_eq_str(&key, "jan") {
        Some(1)
    } else if chars_eq_str(&key, "feb") {
        Some(2)
    } else if chars_eq_str(&key, "mar") {
        Some(3)
    } else if chars_eq_str(&key, "abr") || chars_eq_str(&key, "apr") {
        Some(4)
    } else if chars_eq_str(&key, "may") {
        Some(5)
    } else if chars_eq_str(&key, "jun") {
        Some(6)
    } else if chars_eq_str(&key, "jul") {
        Some(7)
    } else if chars_eq_str(&key, "ago") || chars_eq_str(&key, "aug") {
        Some(8)
    } else if chars_eq_str(&key, "sep") {
        Some(9)
    } else if chars_eq_str(&key, "oct") {
        Some(10)
    } else if chars_eq_str(&key, "nov") {
        Some(11)
    } else if chars_eq_str(&key, "dic") || chars_eq_str(&key, "dec") {
        Some(12)
    } else {
        None
    }
}

fn all_digits_exec(t: &Vec<char>) -> (r: bool)
    ensures
        r == all_digit_chars(t@),
{
    let mut i: usize = 0;
    while i < t.len()
        invariant
            i <= t.len(),
            forall|j: int| 0 <= j < i ==> is_digit(#[trigger] t@[j]),
        decreases t.len() - i,
    {
        if !('0' <= t[i] && t[i] <= '9') {
            return false;
        }
        i = i + 1;
    }
    true
}

/// Dates with the month written: "12 feb 2026", "12-feb-2026", "Feb 12, 2026".
fn parse_with_named_month(raw: &Vec<char>) -> (r: Option<Date>)
    ensures
        r == named_month_date(raw@),
{
    let words = split_runs(raw, 1);
    let ghost ws = views(words@);
    let mut month: Option<u32> = None;
    let mut numbers: Vec<usize> = Vec::new();
    let mut i: usize = 0;
    let mut stop = false;
    assert(numbers@.map_values(|k: usize| ws[k as int]) =~= Seq::<Seq<char>>::empty());
    while i < words.len() && !stop
        invariant
            i <= words.len(),
            stop ==> i < words.len() && month is Some && !all_digit_chars(ws[i as int]),
            ws == views(words@),
            ws == all_runs(raw@, keep_alphanumeric()),
            named_scan(ws, 0, None, Seq::empty()) == named_scan(
                ws,
                i as int,
                match month {
                    Some(m) => Some(m as int),
                    None => None,
                },
                numbers@.map_values(|k: usize| ws[k as int]),
            ),
            forall|j: int| 0 <= j < numbers@.len() ==> (#[trigger] numbers@[j]) < words.len()
                && all_digit_chars(ws[numbers@[j] as int]),
        decreases words.len() - i + (if stop { 0int } else { 1int }),
    {
        let ghost cur = match month {
            Some(m) => Some(m as int),
            None => None,
        };
        let ghost nums = numbers@.map_values(|k: usize| ws[k as int]);
        assert(ws[i as int] == words@[i as int]@);
        if all_digits_exec(&words[i]) {
            numbers.push(i);
            assert(numbers@.map_values(|k: usize| ws[k as int]) =~= nums.push(ws[i as int]));
        } else if month.is_none() {
            match month_from_name(&words[i]) {
                Some(m) => {
                    month = Some(m);
                },
                None => {
                    return None;
                },
            }
        } else {
            stop = true;
        }
        if !stop {
            i = i + 1;
        }
    }
    let ghost nums = numbers@.map_values(|k: usize| ws[k as int]);
    assert(named_scan(ws, 0, None, Seq::empty()) == Some(
        (
            match month {
                Some(m) => Some(m as int),
                None => None,
            },
            nums,
        ),
    ));
    let month = match month {
        Some(m) => m,
        None => {
            return None;
        },
    };
    if numbers.len() < 2 {
        return None;
    }
    let first = &words[numbers[0]];
    let second = &words[numbers[1]];
    assert(nums[0] == first@ && nums[1] == second@);
    let (day, year) = if first.len() == 4 {
        (second, first)
    } else {
        (first, second)
    };
    let year = match expand_year(year) {
        Some(y) => y,
        None => {
            return None;
        },
    };
    let day = match read_small_number(day) {
        Some(d) => d,
        None => {
            return None;
        },
    };
    Date::from_ymd_opt(year, month, day)
}

/// The first three groups of ASCII digits of `sample`, if it has three.
fn tokens(sample: &Vec<char>) -> (r: Option<(Vec<char>, Vec<char>, Vec<char>)>)
    ensures
        match r {
            Some((a, b, c)) => three_groups(sample@) == Some((a@, b@, c@)) && all_digit_chars(a@)
                && all_digit_chars(b@) && all_digit_chars(c@),
            None => three_groups(sample@) is None,
        },
{
    let mut groups = split_runs(sample, 0);
    if groups.len() < 3 {
        return None;
    }
    proof {
        lemma_runs_keep(sample@, keep_digit());
        assert(views(groups@)[0] == groups@[0]@);
    }
    let c = groups.remove(2);
    let b = groups.remove(1);
    let a = groups.remove(0);
    Some((a, b, c))
}

/// Every run holds only characters that `keep` accepts.
proof fn lemma_runs_keep(s: Seq<char>, keep: spec_fn(char) -> bool)
    ensures
        forall|k: int, j: int| 0 <= k < all_runs(s, keep).len() && 0 <= j < all_runs(s, keep)[k].len()
            ==> keep(#[trigger] all_runs(s, keep)[k][j]),
{
    lemma_runs_state_keep(s, keep);
}

proof fn lemma_runs_state_keep(s: Seq<char>, keep: spec_fn(char) -> bool)
    ensures
        forall|k: int, j: int| 0 <= k < runs_state(s, keep).0.len() && 0 <= j < runs_state(s, keep).0[k].len()
            ==> keep(#[trigger] runs_state(s, keep).0[k][j]),
        forall|j: int| 0 <= j < runs_state(s, keep).1.len() ==> keep(#[trigger] runs_state(s, keep).1[j]),
    decreases s.len(),
{
    if s.len() > 0 {
        lemma_runs_state_keep(s.drop_last(), keep);
        let (done, current) = runs_state(s.drop_last(), keep);
        if keep(s.last()) {
            assert forall|j: int| 0 <= j < current.push(s.last()).len() implies keep(
                #[trigger] current.push(s.last())[j],
            ) by {
                if j < current.len() {
                    assert(current.push(s.last())[j] == current[j]);
                }
            }
        } else if current.len() > 0 {
            assert forall|k: int, j: int| 0 <= k < done.push(current).len() && 0 <= j < done.push(current)[k].len()
                implies keep(#[trigger] done.push(current)[k][j]) by {
                if k < done.len() {
                    assert(done.push(current)[k] == done[k]);
                } else {
                    assert(done.push(current)[k] == current);
                }
            }
        }
    }
}

/// Decides once how the dates of the whole statement read: a number above
/// twelve in either position settles it; dates with the year first or the
/// month written do not vote; with no evidence, day first.
pub fn detect_order(samples: &[String]) -> (r: DateOrder)
    ensures
        r == order_from(samples@.map_values(|s: String| s@), 0, false),
{
    let ghost all = samples@.map_values(|s: String| s@);
    let mut saw_iso = false;
    let mut i: usize = 0;
    while i < samples.len()
        invariant
            i <= samples.len(),
            all == samples@.map_values(|s: String| s@),
            order_from(all, 0, false) == order_from(all, i as int, saw_iso),
        decreases samples.len() - i,
    {
        let sample = chars_of(samples[i].as_str());
        assert(sample@ == all[i as int]);
        if parse_with_named_month(&sample).is_some() {
            saw_iso = true;
            i = i + 1;
            continue;
        }
        let parts = tokens(&sample);
        match parts {
            None => {},
            Some((a, b, _c)) => {
                if a.len() == 4 {
                    saw_iso = true;
                } else {
                    let first: u32 = match read_small_number(&a) {
                        Some(v) => v,
                        None => 0,
                    };
                    let second: u32 = match read_small_number(&b) {
                        Some(v) => v,
                        None => 0,
                    };
                    if first > 12 && second <= 12 {
                        return DateOrder::DayFirst;
                    }
                    if second > 12 && first <= 12 {
                        return DateOrder::MonthFirst;
                    }
                }
            },
        }
        i = i + 1;
    }
    if saw_iso {
        DateOrder::Unambiguous
    } else {
        DateOrder::DayFirst
    }
}

/// Reads a numeric date under the order chosen for the file; dates with a
/// written month are read first and ignore the order.
pub fn parse(raw: &str, order: DateOrder) -> (r: Option<Date>)
    ensures
        r == parsed_date(raw@, order),
{
    let chars = chars_of(raw);
    if let Some(date) = parse_with_named_month(&chars) {
        return Some(date);
    }
    let words = split_runs(&chars, 2);
    if words.len() == 0 {
        return None;
    }
    assert(views(words@)[0] == words@[0]@);
    let (a, b, c) = match tokens(&words[0]) {
        Some(parts) => parts,
        None => {
            return None;
        },
    };
    let (year, month, day) = if a.len() == 4 {
        (&a, &b, &c)
    } else {
        match order {
            DateOrder::MonthFirst => (&c, &a, &b),
            _ => (&c, &b, &a),
        }
    };
    let year = match expand_year(year) {
        Some(y) => y,
        None => {
            return None;
        },
    };
    let month = match read_small_number(month) {
        Some(m) => m,
        None => {
            return None;
        },
    };
    let day = match read_small_number(day) {
        Some(d) => d,
        None => {
            return None;
        },
    };
    Date::from_ymd_opt(year, month, day)
}

} // verus!
