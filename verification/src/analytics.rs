//! The arithmetic behind the dashboard widgets: totals in minor units,
//! rates and shares in basis points, so that no float enters the core.
use vstd::prelude::*;

use crate::domain::CategoryId;
use crate::money::{decimal_digits, push_decimal, Money};
use crate::text::{ascii_digit, chars_of, push_char};

verus! {

/// Totals of the period asked for.
#[derive(Debug, Clone, Copy, PartialEq, Eq, Structural)]
pub struct FlowTotals {
    pub income: Money,
    /// Positive: the magnitude spent, not the signed amount.
    pub expense: Money,
    pub net: Money,
    /// Share of the income saved, in basis points (2550 = 25.5 %).
    pub savings_rate_bps: i64,
}

/// Income and expense of a calendar month.
#[derive(Debug, Clone, PartialEq, Eq)]
pub struct MonthlyFlow {
    /// `YYYY-MM`.
    pub month: String,
    pub income: Money,
    pub expense: Money,
    pub net: Money,
}

/// Weight of a category within the period.
#[derive(Debug, Clone, PartialEq, Eq)]
pub struct CategorySlice {
    pub category_id: Option<CategoryId>,
    pub name: String,
    pub color: String,
    pub total: Money,
    pub share_bps: i64,
    pub transactions: i64,
}

/// Summary per bank: the view the user has in mind when organising money.
#[derive(Debug, Clone, PartialEq, Eq)]
pub struct BankSummary {
    pub bank: String,
    pub accounts: i64,
    pub balance: Money,
    pub income: Money,
    pub expense: Money,
}

/// A recurring merchant or counterparty, by accumulated amount.
#[derive(Debug, Clone, PartialEq, Eq)]
pub struct CounterpartyTotal {
    pub label: String,
    pub total: Money,
    pub transactions: i64,
}

/// Integer division rounding toward zero, as Rust's `/` does.
pub open spec fn div_toward_zero(a: int, b: int) -> int {
    if a >= 0 {
        a / b
    } else {
        -((-a) / b)
    }
}

/// Savings rate in basis points; with no income there is no rate.
pub open spec fn savings_rate(income: int, expense: int) -> int {
    if income <= 0 {
        0
    } else {
        div_toward_zero((income - expense) * 10000, income)
    }
}

/// Whether the savings rate of these totals can be computed in 64 bits.
pub open spec fn rate_fits(income: int, expense: int) -> bool {
    income <= 0 || (i64::MIN <= income - expense <= i64::MAX && i64::MIN <= (income - expense)
        * 10000 <= i64::MAX)
}

/// Savings rate in basis points. Without income there is no rate to compute.
pub fn savings_rate_bps(income: i64, expense: i64) -> (r: i64)
    requires
        rate_fits(income as int, expense as int),
    ensures
        r == savings_rate(income as int, expense as int),
{
    if income <= 0 {
        return 0;
    }
    let saved = income - expense;
    let scaled = saved * 10000;
    let r = scaled / income;
    assert(r == div_toward_zero(scaled as int, income as int));
    r
}

/// The totals of a period from its summed income and expense.
pub fn flow_totals_from(income: i64, expense: i64) -> (r: FlowTotals)
    requires
        i64::MIN <= income - expense <= i64::MAX,
        rate_fits(income as int, expense as int),
    ensures
        r.income == Money(income),
        r.expense == Money(expense),
        r.net.0 == income - expense,
        r.savings_rate_bps == savings_rate(income as int, expense as int),
{
    FlowTotals {
        income: Money::from_minor_units(income),
        expense: Money::from_minor_units(expense),
        net: Money::from_minor_units(income - expense),
        savings_rate_bps: savings_rate_bps(income, expense),
    }
}

/// A month of the series from its summed income and expense.
pub fn monthly_flow_from(month: String, income: i64, expense: i64) -> (r: MonthlyFlow)
    requires
        i64::MIN <= income - expense <= i64::MAX,
    ensures
        r.month@ == month@,
        r.income == Money(income),
        r.expense == Money(expense),
        r.net.0 == income - expense,
{
    MonthlyFlow {
        month,
        income: Money::from_minor_units(income),
        expense: Money::from_minor_units(expense),
        net: Money::from_minor_units(income - expense),
    }
}

/// Sum of the totals of `slices`.
pub open spec fn slices_total(slices: Seq<CategorySlice>) -> int
    decreases slices.len(),
{
    if slices.len() == 0 {
        0
    } else {
        slices_total(slices.drop_last()) + slices.last().total.0
    }
}

/// Whether every partial sum of the totals fits in 64 bits.
pub open spec fn partial_sums_fit(slices: Seq<CategorySlice>) -> bool {
    forall|k: int| 0 <= k <= slices.len() ==> i64::MIN <= #[trigger] slices_total(slices.take(k)) <= i64::MAX
}

/// The share of a slice, in basis points of the grand total; nothing is
/// shared out when the grand total is not positive.
pub open spec fn share_of(total: int, grand_total: int) -> int {
    if grand_total > 0 {
        div_toward_zero(total * 10000, grand_total)
    } else {
        0
    }
}

/// Fills in the share of every slice, in basis points of the grand total.
pub fn with_shares(slices: Vec<CategorySlice>) -> (r: Vec<CategorySlice>)
    requires
        partial_sums_fit(slices@),
        forall|k: int|
            0 <= k < slices@.len() ==> i64::MIN <= (#[trigger] slices@[k]).total.0 * 10000 <= i64::MAX,
    ensures
        r@.len() == slices@.len(),
        forall|k: int|
            0 <= k < r@.len() ==> {
                &&& (#[trigger] r@[k]).category_id == slices@[k].category_id
                &&& r@[k].name == slices@[k].name
                &&& r@[k].color == slices@[k].color
                &&& r@[k].total == slices@[k].total
                &&& r@[k].transactions == slices@[k].transactions
                &&& r@[k].share_bps == share_of(slices@[k].total.0 as int, slices_total(slices@))
            },
{
    let ghost given = slices@;
    let mut grand_total: i64 = 0;
    let mut i: usize = 0;
    assert(given.take(0) =~= Seq::<CategorySlice>::empty());
    while i < slices.len()
        invariant
            i <= slices.len(),
            slices@ == given,
            partial_sums_fit(given),
            grand_total == slices_total(given.take(i as int)),
        decreases slices.len() - i,
    {
        assert(given.take(i + 1).drop_last() =~= given.take(i as int));
        assert(i64::MIN <= slices_total(given.take(i + 1)) <= i64::MAX);
        grand_total = grand_total + slices[i].total.0;
        i = i + 1;
    }
    assert(given.take(i as int) =~= given);
    let mut out: Vec<CategorySlice> = Vec::new();
    let mut rest = slices;
    let mut k: usize = 0;
    let n = rest.len();
    while rest.len() > 0
        invariant
            k <= given.len(),
            n == given.len(),
            rest.len() + k == n,
            rest@ == given.skip(k as int),
            grand_total == slices_total(given),
            forall|j: int|
                0 <= j < given.len() ==> i64::MIN <= (#[trigger] given[j]).total.0 * 10000 <= i64::MAX,
            out@.len() == k,
            forall|j: int|
                0 <= j < k ==> {
                    &&& (#[trigger] out@[j]).category_id == given[j].category_id
                    &&& out@[j].name == given[j].name
                    &&& out@[j].color == given[j].color
                    &&& out@[j].total == given[j].total
                    &&& out@[j].transactions == given[j].transactions
                    &&& out@[j].share_bps == share_of(given[j].total.0 as int, grand_total as int)
                },
        decreases rest.len(),
    {
        let mut slice = rest.remove(0);
        assert(slice == given[k as int]);
        if grand_total > 0 {
            let scaled = slice.total.0 * 10000;
            let share = scaled / grand_total;
            assert(share == div_toward_zero(scaled as int, grand_total as int));
            slice.share_bps = share;
        } else {
            slice.share_bps = 0;
        }
        out.push(slice);
        k = k + 1;
        assert(rest@ =~= given.skip(k as int));
    }
    out
}

/// Sum of the shares of `slices`, in basis points of `grand_total`.
pub open spec fn shares_sum(slices: Seq<CategorySlice>, grand_total: int) -> int
    decreases slices.len(),
{
    if slices.len() == 0 {
        0
    } else {
        shares_sum(slices.drop_last(), grand_total) + share_of(slices.last().total.0 as int, grand_total)
    }
}

proof fn lemma_shares_sum_scaled(slices: Seq<CategorySlice>, grand_total: int)
    requires
        grand_total > 0,
        forall|k: int| 0 <= k < slices.len() ==> (#[trigger] slices[k]).total.0 >= 0,
    ensures
        0 <= shares_sum(slices, grand_total),
        shares_sum(slices, grand_total) * grand_total <= slices_total(slices) * 10000,
    decreases slices.len(),
{
    if slices.len() > 0 {
        let init = slices.drop_last();
        assert forall|k: int| 0 <= k < init.len() implies (#[trigger] init[k]).total.0 >= 0 by {
            assert(init[k] == slices[k]);
        }
        lemma_shares_sum_scaled(init, grand_total);
        let t = slices.last().total.0 as int;
        assert(t == slices[slices.len() - 1].total.0);
        let q = share_of(t, grand_total);
        let a = shares_sum(init, grand_total);
        let b = slices_total(init);
        assert(q == (t * 10000) / grand_total);
        assert(0 <= q && q * grand_total <= t * 10000) by (nonlinear_arith)
            requires
                t >= 0,
                grand_total > 0,
                q == (t * 10000) / grand_total,
        ;
        assert((a + q) * grand_total <= (b + t) * 10000) by (nonlinear_arith)
            requires
                a * grand_total <= b * 10000,
                q * grand_total <= t * 10000,
        ;
    }
}

proof fn lemma_shares_sum_without_total(slices: Seq<CategorySlice>, grand_total: int)
    ensures
        grand_total <= 0 ==> shares_sum(slices, grand_total) == 0,
    decreases slices.len(),
{
    if slices.len() > 0 {
        lemma_shares_sum_without_total(slices.drop_last(), grand_total);
    }
}

/// Shares are parts of one whole: when no slice is negative, each share
/// lies between 0 and 10000 basis points and all of them together never add
/// up to more than 10000.
pub proof fn lemma_shares_never_exceed_the_whole(slices: Seq<CategorySlice>)
    requires
        forall|k: int| 0 <= k < slices.len() ==> (#[trigger] slices[k]).total.0 >= 0,
    ensures
        forall|k: int|
            0 <= k < slices.len() ==> 0 <= #[trigger] share_of(slices[k].total.0 as int, slices_total(slices))
                <= 10000,
        0 <= shares_sum(slices, slices_total(slices)) <= 10000,
{
    let g = slices_total(slices);
    lemma_shares_sum_without_total(slices, g);
    if g > 0 {
        lemma_shares_sum_scaled(slices, g);
        let s = shares_sum(slices, g);
        assert(s <= 10000) by (nonlinear_arith)
            requires
                s * g <= g * 10000,
                g > 0,
        ;
        assert forall|k: int| 0 <= k < slices.len() implies 0 <= #[trigger] share_of(
            slices[k].total.0 as int,
            g,
        ) <= 10000 by {
            lemma_slice_within_total(slices, k);
            let t = slices[k].total.0 as int;
            assert(0 <= (t * 10000) / g <= 10000) by (nonlinear_arith)
                requires
                    0 <= t <= g,
                    g > 0,
            ;
        }
    }
}

proof fn lemma_slice_within_total(slices: Seq<CategorySlice>, k: int)
    requires
        0 <= k < slices.len(),
        forall|j: int| 0 <= j < slices.len() ==> (#[trigger] slices[j]).total.0 >= 0,
    ensures
        0 <= slices[k].total.0 <= slices_total(slices),
        0 <= slices_total(slices),
    decreases slices.len(),
{
    let init = slices.drop_last();
    assert forall|j: int| 0 <= j < init.len() implies (#[trigger] init[j]).total.0 >= 0 by {
        assert(init[j] == slices[j]);
    }
    assert(slices.last() == slices[slices.len() - 1]);
    if init.len() > 0 {
        lemma_slice_within_total(init, if k < init.len() { k } else { 0 });
    } else {
        assert(slices_total(init) == 0);
    }
    if k < init.len() {
        assert(init[k] == slices[k]);
    }
}

// ---------------------------------------------------------------------------
// Renumbering placeholders
// ---------------------------------------------------------------------------

/// Length of the run of ASCII digits at the start of `s`.
pub open spec fn digit_run(s: Seq<char>) -> nat
    decreases s.len(),
{
    if s.len() > 0 && ascii_digit(s[0]) {
        1 + digit_run(s.drop_first())
    } else {
        0
    }
}

/// The number ASCII digits write, most significant first.
pub open spec fn digits_value(d: Seq<char>) -> nat
    decreases d.len(),
{
    if d.len() == 0 {
        0
    } else {
        digits_value(d.drop_last()) * 10 + ((d.last() as int) - ('0' as int)) as nat
    }
}

/// `s` with every `?n` placeholder renumbered `?(n + offset)`. A `?` that is
/// not followed by a number that fits in a `usize` is kept as written.
pub open spec fn shifted(s: Seq<char>, offset: nat) -> Seq<char>
    decreases s.len(),
{
    if s.len() == 0 {
        Seq::empty()
    } else if s[0] != '?' {
        seq![s[0]] + shifted(s.drop_first(), offset)
    } else {
        let n = digit_run(s.drop_first());
        proof {
            lemma_digit_run_bound(s.drop_first());
        }
        let d = s.subrange(1, 1 + n as int);
        let rest = s.skip(1 + n as int);
        (if n > 0 && digits_value(d) <= usize::MAX {
            seq!['?'] + decimal_digits(digits_value(d) + offset)
        } else {
            seq!['?'] + d
        }) + shifted(rest, offset)
    }
}

/// Whether every renumbered placeholder still fits in a `usize`.
pub open spec fn shift_fits(s: Seq<char>, offset: nat) -> bool
    decreases s.len(),
{
    if s.len() == 0 {
        true
    } else if s[0] != '?' {
        shift_fits(s.drop_first(), offset)
    } else {
        let n = digit_run(s.drop_first());
        proof {
            lemma_digit_run_bound(s.drop_first());
        }
        let d = s.subrange(1, 1 + n as int);
        (n > 0 && digits_value(d) <= usize::MAX ==> digits_value(d) + offset <= usize::MAX)
            && shift_fits(s.skip(1 + n as int), offset)
    }
}

/// The digit run at the start of a text is made of digits and stops at one
/// that is not.
pub proof fn lemma_digit_run_bound(s: Seq<char>)
    ensures
        digit_run(s) <= s.len(),
        forall|j: int| 0 <= j < digit_run(s) ==> ascii_digit(#[trigger] s[j]),
        digit_run(s) < s.len() ==> !ascii_digit(s[digit_run(s) as int]),
    decreases s.len(),
{
    if s.len() > 0 && ascii_digit(s[0]) {
        lemma_digit_run_bound(s.drop_first());
        assert forall|j: int| 0 <= j < digit_run(s) implies ascii_digit(#[trigger] s[j]) by {
            if j > 0 {
                assert(s[j] == s.drop_first()[j - 1]);
            }
        }
        if digit_run(s) < s.len() {
            assert(s[digit_run(s) as int] == s.drop_first()[digit_run(s.drop_first()) as int]);
        }
    }
}

proof fn lemma_digit_run_of_prefix(s: Seq<char>, j: int)
    requires
        0 <= j <= s.len(),
        forall|k: int| 0 <= k < j ==> ascii_digit(#[trigger] s[k]),
        j == s.len() || !ascii_digit(s[j]),
    ensures
        digit_run(s) == j,
    decreases j,
{
    if j > 0 {
        lemma_digit_run_of_prefix(s.drop_first(), j - 1);
    }
}

/// Renumbers `?1`, `?2`... by adding `offset`, to reuse one `WHERE` in two
/// subqueries with different parameters.
pub fn shift_placeholders(clause: &str, offset: usize) -> (r: String)
    requires
        shift_fits(clause@, offset as nat),
    ensures
        offset == 0 ==> r@ == clause@,
        offset > 0 ==> r@ == shifted(clause@, offset as nat),
{
    if offset == 0 {
        return crate::text::string_from_str(clause);
    }
    let chars = chars_of(clause);
    let ghost s = chars@;
    let mut result = String::new();
    let mut i: usize = 0;
    assert(s.skip(0) =~= s);
    while i < chars.len()
        invariant
            i <= chars.len(),
            s == chars@,
            s == clause@,
            offset > 0,
            result@ + shifted(s.skip(i as int), offset as nat) == shifted(s, offset as nat),
            shift_fits(s.skip(i as int), offset as nat),
        decreases chars.len() - i,
    {
        let ghost rest = s.skip(i as int);
        assert(rest[0] == s[i as int]);
        let ch = chars[i];
        if ch != '?' {
            assert(rest.drop_first() =~= s.skip(i + 1));
            let ghost before = result@;
            push_char(&mut result, ch);
            assert(result@ + shifted(s.skip(i + 1), offset as nat) =~= before + shifted(rest, offset as nat));
            i = i + 1;
        } else {
            let start = i + 1;
            let mut j = start;
            let mut value: u128 = 0;
            let mut too_big = false;
            let ghost tail = rest.drop_first();
            assert(tail =~= s.skip(start as int));
            while j < chars.len() && '0' <= chars[j] && chars[j] <= '9'
                invariant
                    start <= j <= chars.len(),
                    s == chars@,
                    tail == s.skip(start as int),
                    forall|k: int| start <= k < j ==> ascii_digit(#[trigger] s[k]),
                    !too_big ==> value == digits_value(s.subrange(start as int, j as int)),
                    !too_big ==> value <= usize::MAX,
                    too_big ==> digits_value(s.subrange(start as int, j as int)) > usize::MAX,
                decreases chars.len() - j,
            {
                let digit = (chars[j] as u32 - '0' as u32) as u128;
                assert(s.subrange(start as int, j + 1).drop_last() =~= s.subrange(start as int, j as int));
                assert(s.subrange(start as int, j + 1).last() == chars[j as int]);
                if !too_big {
                    let next = value * 10 + digit;
                    if next > usize::MAX as u128 {
                        too_big = true;
                    } else {
                        value = next;
                    }
                }
                j = j + 1;
            }
            proof {
                lemma_digit_run_of_prefix(tail, (j - start) as int);
                assert forall|k: int| 0 <= k < j - start implies ascii_digit(#[trigger] tail[k]) by {
                    assert(tail[k] == s[start + k]);
                }
                if j < chars.len() {
                    assert(tail[j - start] == s[j as int]);
                }
                assert(tail.subrange(0, (j - start) as int) =~= s.subrange(start as int, j as int));
                assert(rest.subrange(1, 1 + (j - start)) =~= s.subrange(start as int, j as int));
                assert(rest.skip(1 + (j - start)) =~= s.skip(j as int));
            }
            let ghost before = result@;
            push_char(&mut result, '?');
            if j > start && !too_big {
                let index = value as usize;
                push_decimal((index + offset) as u64, &mut result);
            } else {
                let mut k = start;
                while k < j
                    invariant
                        start <= k <= j <= chars.len(),
                        s == chars@,
                        result@ == before.push('?') + s.subrange(start as int, k as int),
                    decreases j - k,
                {
                    push_char(&mut result, chars[k]);
                    assert(s.subrange(start as int, k + 1) =~= s.subrange(start as int, k as int).push(s[k as int]));
                    k = k + 1;
                }
            }
            assert(result@ + shifted(s.skip(j as int), offset as nat) =~= before + shifted(rest, offset as nat));
            i = j;
        }
    }
    assert(s.skip(i as int) =~= Seq::<char>::empty());
    assert(result@ + Seq::<char>::empty() =~= result@);
    result
}

/// Whether renumbering the placeholders of `clause` by `offset` keeps every
/// number within a `usize`.
pub fn placeholders_fit(clause: &str, offset: usize) -> (r: bool)
    ensures
        r == shift_fits(clause@, offset as nat),
{
    let chars = chars_of(clause);
    let ghost s = chars@;
    let mut i: usize = 0;
    assert(s.skip(0) =~= s);
    while i < chars.len()
        invariant
            i <= chars.len(),
            s == chars@,
            s == clause@,
            shift_fits(s, offset as nat) == shift_fits(s.skip(i as int), offset as nat),
        decreases chars.len() - i,
    {
        let ghost rest = s.skip(i as int);
        assert(rest[0] == s[i as int]);
        if chars[i] != '?' {
            assert(rest.drop_first() =~= s.skip(i + 1));
            i = i + 1;
        } else {
            let start = i + 1;
            let mut j = start;
            let mut value: u128 = 0;
            let mut too_big = false;
            let ghost tail = rest.drop_first();
            assert(tail =~= s.skip(start as int));
            while j < chars.len() && '0' <= chars[j] && chars[j] <= '9'
                invariant
                    start <= j <= chars.len(),
                    s == chars@,
                    tail == s.skip(start as int),
                    forall|k: int| start <= k < j ==> ascii_digit(#[trigger] s[k]),
                    !too_big ==> value == digits_value(s.subrange(start as int, j as int)),
                    !too_big ==> value <= usize::MAX,
                    too_big ==> digits_value(s.subrange(start as int, j as int)) > usize::MAX,
                decreases chars.len() - j,
            {
                let digit = (chars[j] as u32 - '0' as u32) as u128;
                assert(s.subrange(start as int, j + 1).drop_last() =~= s.subrange(start as int, j as int));
                assert(s.subrange(start as int, j + 1).last() == chars[j as int]);
                if !too_big {
                    let next = value * 10 + digit;
                    if next > usize::MAX as u128 {
                        too_big = true;
                    } else {
                        value = next;
                    }
                }
                j = j + 1;
            }
            proof {
                lemma_digit_run_of_prefix(tail, (j - start) as int);
                assert forall|k: int| 0 <= k < j - start implies ascii_digit(#[trigger] tail[k]) by {
                    assert(tail[k] == s[start + k]);
                }
                if j < chars.len() {
                    assert(tail[j - start] == s[j as int]);
                }
                assert(tail.subrange(0, (j - start) as int) =~= s.subrange(start as int, j as int));
                assert(rest.subrange(1, 1 + (j - start)) =~= s.subrange(start as int, j as int));
                assert(rest.skip(1 + (j - start)) =~= s.skip(j as int));
            }
            if j > start && !too_big && value + offset as u128 > usize::MAX as u128 {
                return false;
            }
            i = j;
        }
    }
    true
}

} // verus!
