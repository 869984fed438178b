//! Calendar dates of the proleptic Gregorian calendar, over the years
//! chrono's `NaiveDate` covers.
use vstd::prelude::*;

use crate::money::{decimal_digits, digit_char, push_decimal};
use crate::text::push_char;

verus! {

/// A calendar date. Every value built through `Date::from_ymd_opt` is valid.
#[derive(Debug, Clone, Copy, PartialEq, Eq, Structural, PartialOrd, Ord, Hash)]
pub struct Date {
    pub year: i32,
    pub month: u32,
    pub day: u32,
}

pub open spec fn is_leap_year(year: int) -> bool {
    year % 4 == 0 && (year % 100 != 0 || year % 400 == 0)
}

pub open spec fn days_in_month(year: int, month: int) -> int {
    if month == 2 {
        if is_leap_year(year) { 29 } else { 28 }
    } else if month == 4 || month == 6 || month == 9 || month == 11 {
        30
    } else {
        31
    }
}

/// Whether `year-month-day` is a day of the calendar within the years
/// chrono's `NaiveDate` covers (`NaiveDate::MIN` is -262143-01-01,
/// `NaiveDate::MAX` is +262142-12-31), as `NaiveDate::from_ymd_opt` decides.
pub open spec fn valid_ymd(year: int, month: int, day: int) -> bool {
    &&& -262143 <= year <= 262142
    &&& 1 <= month <= 12
    &&& 1 <= day <= days_in_month(year, month)
}

/// A day of the calendar within the years chrono's `NaiveDate` covers.
pub open spec fn chrono_date(d: Date) -> bool {
    valid_ymd(d.year as int, d.month as int, d.day as int)
}

/// Strict order of dates: earlier first.
pub open spec fn date_before(a: Date, b: Date) -> bool {
    a.year < b.year || (a.year == b.year && (a.month < b.month || (a.month == b.month && a.day < b.day)))
}

/// `n` written with exactly `width` digits, zero padded (for `n < 10^width`).
pub open spec fn padded_digits(n: nat, width: nat) -> Seq<char>
    decreases width,
{
    if width == 0 {
        Seq::empty()
    } else {
        padded_digits(n / 10, (width - 1) as nat).push(digit_char((n % 10) as int))
    }
}

/// `n` with at least four digits: zero padded below 1000.
pub open spec fn four_or_more_digits(n: nat) -> Seq<char> {
    if n < 1000 {
        padded_digits(n, 4)
    } else {
        decimal_digits(n)
    }
}

/// The year as ISO 8601 and chrono write it: four digits within 0..=9999,
/// otherwise an explicit sign and at least four digits.
pub open spec fn year_text(year: int) -> Seq<char> {
    if 0 <= year <= 9999 {
        padded_digits(year as nat, 4)
    } else if year < 0 {
        seq!['-'] + four_or_more_digits((-year) as nat)
    } else {
        seq!['+'] + four_or_more_digits(year as nat)
    }
}

/// `YYYY-MM-DD`, the year signed when it falls outside 0..=9999.
pub open spec fn iso_text(d: Date) -> Seq<char> {
    year_text(d.year as int) + seq!['-'] + padded_digits(d.month as nat, 2) + seq!['-']
        + padded_digits(d.day as nat, 2)
}

impl Date {
    pub open spec fn wf(self) -> bool {
        valid_ymd(self.year as int, self.month as int, self.day as int)
    }

    /// The date `year-month-day`, or `None` when it is not a day of the
    /// calendar or falls outside the years chrono covers.
    pub fn from_ymd_opt(year: i32, month: u32, day: u32) -> (r: Option<Date>)
        ensures
            r is Some <==> valid_ymd(year as int, month as int, day as int),
            r matches Some(d) ==> d.year == year && d.month == month && d.day == day,
    {
        if year < -262143 || year > 262142 || month < 1 || month > 12 || day < 1 {
            return None;
        }
        let leap = year % 4 == 0 && (year % 100 != 0 || year % 400 == 0);
        let days: u32 = if month == 2 {
            if leap { 29 } else { 28 }
        } else if month == 4 || month == 6 || month == 9 || month == 11 {
            30
        } else {
            31
        };
        if day > days {
            None
        } else {
            Some(Date { year, month, day })
        }
    }

    /// Whether the date is a day of the calendar within the years chrono
    /// covers.
    pub fn is_valid(&self) -> (r: bool)
        ensures
            r == self.wf(),
    {
        match Date::from_ymd_opt(self.year, self.month, self.day) {
            Some(_) => true,
            None => false,
        }
    }

    /// Whether `self` comes strictly before `other`.
    pub fn is_before(&self, other: &Date) -> (r: bool)
        ensures
            r == date_before(*self, *other),
    {
        self.year < other.year || (self.year == other.year && (self.month < other.month || (
        self.month == other.month && self.day < other.day)))
    }

    /// `YYYY-MM-DD`, as the date is stored and fingerprinted.
    pub fn to_iso_string(&self) -> (r: String)
        requires
            self.wf(),
        ensures
            r@ == iso_text(*self),
    {
        let mut out = String::new();
        push_year(self.year, &mut out);
        push_char(&mut out, '-');
        push_padded(self.month as u64, 2, &mut out);
        push_char(&mut out, '-');
        push_padded(self.day as u64, 2, &mut out);
        out
    }
}

/// Days of the years before `year`, counted from the start of year 0 and
/// negative for the years before it: 365 a year plus one per leap year.
pub open spec fn days_before_year(year: int) -> int {
    365 * year + (year + 3) / 4 - (year + 99) / 100 + (year + 399) / 400
}

/// Days of the months of `year` before `month`.
pub open spec fn days_before_month(year: int, month: int) -> int {
    let common: int = if month <= 1 {
        0
    } else if month == 2 {
        31
    } else if month == 3 {
        59
    } else if month == 4 {
        90
    } else if month == 5 {
        120
    } else if month == 6 {
        151
    } else if month == 7 {
        181
    } else if month == 8 {
        212
    } else if month == 9 {
        243
    } else if month == 10 {
        273
    } else if month == 11 {
        304
    } else {
        334
    };
    common + if month > 2 && is_leap_year(year) {
        1int
    } else {
        0
    }
}

/// Position of a day in the proleptic Gregorian calendar, 0000-01-01 being
/// day 0.
pub open spec fn day_number(d: Date) -> int {
    days_before_year(d.year as int) + days_before_month(d.year as int, d.month as int) + d.day - 1
}

/// Signed number of days from `b` to `a`.
pub open spec fn day_difference(a: Date, b: Date) -> int {
    day_number(a) - day_number(b)
}

/// A day of the years chrono covers is within a hundred million days of
/// 0000-01-01.
pub proof fn lemma_day_number_bounds(d: Date)
    requires
        chrono_date(d),
    ensures
        -100_000_000 <= day_number(d) <= 100_000_000,
{
}

/// `(a - b).num_days()` of chrono's `NaiveDate`: chrono documents the
/// difference of two dates as the exact, integral number of days from `b`
/// to `a` in the proleptic Gregorian calendar, which never overflows.
#[verifier::external_body]
fn chrono_days_between(a: &Date, b: &Date) -> (r: i64)
    requires
        chrono_date(*a),
        chrono_date(*b),
    ensures
        r as int == day_difference(*a, *b),
{
    let a = chrono::NaiveDate::from_ymd_opt(a.year, a.month, a.day).unwrap();
    let b = chrono::NaiveDate::from_ymd_opt(b.year, b.month, b.day).unwrap();
    (a - b).num_days()
}

/// Signed number of days from `b` to `a`, as chrono counts them; within 200
/// million days either way.
pub(crate) fn days_between(a: &Date, b: &Date) -> (r: i64)
    requires
        chrono_date(*a),
        chrono_date(*b),
    ensures
        r as int == day_difference(*a, *b),
        -200_000_000 <= r <= 200_000_000,
{
    proof {
        lemma_day_number_bounds(*a);
        lemma_day_number_bounds(*b);
    }
    chrono_days_between(a, b)
}

fn digit_char_of(d: u64) -> (c: char)
    requires
        d < 10,
    ensures
        c == digit_char(d as int),
{
    let c = ((d as u8) + 48u8) as char;
    assert(c as int == d + 48);
    c
}

/// Appends `n` with at least four digits.
fn push_four_or_more(n: u64, out: &mut String)
    ensures
        final(out)@ == old(out)@ + four_or_more_digits(n as nat),
{
    if n < 1000 {
        push_padded(n, 4, out);
    } else {
        push_decimal(n, out);
    }
}

/// Appends the year as `year_text` writes it.
fn push_year(year: i32, out: &mut String)
    requires
        -262143 <= year <= 262142,
    ensures
        final(out)@ == old(out)@ + year_text(year as int),
{
    if 0 <= year && year <= 9999 {
        push_padded(year as u64, 4, out);
    } else if year < 0 {
        push_char(out, '-');
        let magnitude: u64 = (-year) as u64;
        push_four_or_more(magnitude, out);
        assert(old(out)@ + year_text(year as int) =~= old(out)@.push('-') + four_or_more_digits(magnitude as nat));
    } else {
        push_char(out, '+');
        push_four_or_more(year as u64, out);
        assert(old(out)@ + year_text(year as int) =~= old(out)@.push('+') + four_or_more_digits(year as nat));
    }
}

/// Appends `n` with exactly `width` digits.
fn push_padded(n: u64, width: u64, out: &mut String)
    requires
        width <= 20,
    ensures
        final(out)@ == old(out)@ + padded_digits(n as nat, width as nat),
    decreases width,
{
    if width > 0 {
        push_padded(n / 10, width - 1, out);
        push_char(out, digit_char_of(n % 10));
        assert(old(out)@ + padded_digits((n / 10) as nat, (width - 1) as nat) + seq![digit_char((n % 10) as int)]
            =~= old(out)@ + padded_digits(n as nat, width as nat));
    } else {
        assert(old(out)@ + padded_digits(n as nat, 0) =~= old(out)@);
    }
}

} // verus!
