//! Transfers between the user's own accounts.
//!
//! Moving 300 from the checking account to the savings account is neither an
//! expense nor an income: it is the same money in another place. The detector
//! pairs the two sides of such a movement (same amount, opposite sign,
//! different accounts, a few days apart) so that the totals can leave them out.
use vstd::prelude::*;

use crate::date::{chrono_date, date_before, day_difference, day_number, days_between, Date};
use crate::domain::{AccountId, TransactionId, TransferLinkId};
use crate::storage::{is_corrupt, parse_date, stored_date, StorageError};
use crate::money::Money;

verus! {

/// Key of the setting that switches detection on and off.
pub const SETTINGS_KEY: &'static str = "transfers.detection";

/// Days of margin between the two sides of a transfer: between banks the
/// credit usually arrives one or two days after the debit.
pub const WINDOW_DAYS: i64 = 2;

/// Outcome of running the detector over the whole history.
#[derive(Debug, Clone, Copy, Default, PartialEq, Eq, Structural)]
pub struct TransferDetection {
    /// New pairs found in this run.
    pub linked: usize,
    /// Transfers recognised in total, dismissed ones left out.
    pub active: i64,
}

/// A movement not yet paired, with just what the detector reads.
#[derive(Debug, Clone, Copy, PartialEq, Eq, Structural)]
pub struct TransferCandidate {
    pub id: TransactionId,
    pub account_id: AccountId,
    pub booked_on: Date,
    pub amount: Money,
}

// ---------------------------------------------------------------------------
// Specification
// ---------------------------------------------------------------------------

/// A candidate the detector can handle: a real date and an amount whose
/// opposite is an amount too.
pub open spec fn candidate_ok(c: TransferCandidate) -> bool {
    chrono_date(c.booked_on) && c.amount.0 != i64::MIN
}

pub open spec fn candidates_ok(cs: Seq<TransferCandidate>) -> bool {
    forall|i: int| 0 <= i < cs.len() ==> candidate_ok(#[trigger] cs[i])
}

/// The money leaving an account, in input order.
pub open spec fn outgoing_of(cs: Seq<TransferCandidate>) -> Seq<TransferCandidate>
    decreases cs.len(),
{
    if cs.len() == 0 {
        Seq::empty()
    } else if cs.last().amount.0 < 0 {
        outgoing_of(cs.drop_last()).push(cs.last())
    } else {
        outgoing_of(cs.drop_last())
    }
}

/// The money entering an account, in input order (a zero amount is neither).
pub open spec fn incoming_of(cs: Seq<TransferCandidate>) -> Seq<TransferCandidate>
    decreases cs.len(),
{
    if cs.len() == 0 {
        Seq::empty()
    } else if cs.last().amount.0 > 0 {
        incoming_of(cs.drop_last()).push(cs.last())
    } else {
        incoming_of(cs.drop_last())
    }
}

/// Order in which outgoing movements look for a partner: earlier date first,
/// then the smaller id.
pub open spec fn out_before(a: TransferCandidate, b: TransferCandidate) -> bool {
    date_before(a.booked_on, b.booked_on) || (a.booked_on == b.booked_on && a.id.0 < b.id.0)
}

/// Inserts `c` into `s` after every candidate it does not strictly precede.
pub open spec fn insert_outgoing(s: Seq<TransferCandidate>, c: TransferCandidate) -> Seq<
    TransferCandidate,
>
    decreases s.len(),
{
    if s.len() == 0 {
        seq![c]
    } else if out_before(c, s.last()) {
        insert_outgoing(s.drop_last(), c).push(s.last())
    } else {
        s.push(c)
    }
}

/// Stable sort of `s` by date and id.
pub open spec fn sort_outgoing(s: Seq<TransferCandidate>) -> Seq<TransferCandidate>
    decreases s.len(),
{
    if s.len() == 0 {
        Seq::empty()
    } else {
        insert_outgoing(sort_outgoing(s.drop_last()), s.last())
    }
}

/// The outgoing movements in the order in which they are served.
pub open spec fn served_outgoing(cs: Seq<TransferCandidate>) -> Seq<TransferCandidate> {
    sort_outgoing(outgoing_of(cs))
}

pub open spec fn abs_int(x: int) -> int {
    if x < 0 { -x } else { x }
}

/// Days between the two sides, whichever comes first.
pub open spec fn gap_days(incoming: TransferCandidate, outgoing: TransferCandidate) -> int {
    abs_int(day_difference(incoming.booked_on, outgoing.booked_on))
}

/// Whether the incoming movement at position `k` can be the other side of `out`:
/// still free, the same amount with the opposite sign, another account, and at
/// most `window` days apart.
pub open spec fn fits(
    inc: Seq<TransferCandidate>,
    taken: Set<int>,
    out: TransferCandidate,
    window: int,
    k: int,
) -> bool {
    &&& 0 <= k < inc.len()
    &&& !taken.contains(k)
    &&& inc[k].amount.0 == -out.amount.0
    &&& inc[k].account_id != out.account_id
    &&& gap_days(inc[k], out) <= window
}

/// Preference between two incoming movements for `out`: the closer in time,
/// then the smaller id, then the earlier position.
pub open spec fn ranks_no_later(
    inc: Seq<TransferCandidate>,
    out: TransferCandidate,
    j: int,
    k: int,
) -> bool {
    let gj = gap_days(inc[j], out);
    let gk = gap_days(inc[k], out);
    gj < gk || (gj == gk && (inc[j].id.0 < inc[k].id.0 || (inc[j].id.0 == inc[k].id.0 && j <= k)))
}

/// `j` fits and is preferred to every other incoming movement that fits.
pub open spec fn is_best(
    inc: Seq<TransferCandidate>,
    taken: Set<int>,
    out: TransferCandidate,
    window: int,
    j: int,
) -> bool {
    fits(inc, taken, out, window, j) && forall|k: int|
        #[trigger] fits(inc, taken, out, window, k) ==> ranks_no_later(inc, out, j, k)
}

/// The partner `out` gets, if any incoming movement fits.
pub open spec fn best_match(
    inc: Seq<TransferCandidate>,
    taken: Set<int>,
    out: TransferCandidate,
    window: int,
) -> Option<int> {
    if exists|j: int| is_best(inc, taken, out, window, j) {
        Some(choose|j: int| is_best(inc, taken, out, window, j))
    } else {
        None
    }
}

/// Serving the outgoing movements `outs` in order: the incoming positions
/// already used, and each pair as (position in `outs`, position in `inc`).
pub open spec fn pairing(outs: Seq<TransferCandidate>, inc: Seq<TransferCandidate>, window: int) -> (
    Set<int>,
    Seq<(int, int)>,
)
    decreases outs.len(),
{
    if outs.len() == 0 {
        (Set::empty(), Seq::empty())
    } else {
        let prev = pairing(outs.drop_last(), inc, window);
        match best_match(inc, prev.0, outs.last(), window) {
            Some(j) => (prev.0.insert(j), prev.1.push((outs.len() - 1, j))),
            None => prev,
        }
    }
}

/// The pairs as ids: (outgoing, incoming).
pub open spec fn pair_ids(
    outs: Seq<TransferCandidate>,
    inc: Seq<TransferCandidate>,
    m: Seq<(int, int)>,
) -> Seq<(TransactionId, TransactionId)> {
    Seq::new(m.len(), |p: int| (outs[m[p].0].id, inc[m[p].1].id))
}

/// The pairs the detector finds among `cs`.
pub open spec fn transfer_pairs(cs: Seq<TransferCandidate>, window: int) -> Seq<
    (TransactionId, TransactionId),
> {
    let outs = served_outgoing(cs);
    let inc = incoming_of(cs);
    pair_ids(outs, inc, pairing(outs, inc, window).1)
}

// ---------------------------------------------------------------------------
// Laws
// ---------------------------------------------------------------------------

/// No two candidates share an id, as no two stored movements do.
pub open spec fn ids_distinct(cs: Seq<TransferCandidate>) -> bool {
    forall|i: int, j: int| 0 <= i < j < cs.len() ==> #[trigger] cs[i].id != #[trigger] cs[j].id
}

proof fn lemma_best_fits(inc: Seq<TransferCandidate>, taken: Set<int>, out: TransferCandidate, window: int)
    ensures
        best_match(inc, taken, out, window) matches Some(j) ==> fits(inc, taken, out, window, j),
{
    if exists|j: int| is_best(inc, taken, out, window, j) {
        let c = choose|j: int| is_best(inc, taken, out, window, j);
        assert(is_best(inc, taken, out, window, c));
    }
}

/// What serving `outs` in order produces: every pair fits, outgoing positions
/// increase, and no incoming position is used twice.
proof fn lemma_pairing_facts(outs: Seq<TransferCandidate>, inc: Seq<TransferCandidate>, window: int)
    ensures
        forall|p: int| 0 <= p < pairing(outs, inc, window).1.len() ==> {
            let e = #[trigger] pairing(outs, inc, window).1[p];
            &&& 0 <= e.0 < outs.len()
            &&& 0 <= e.1 < inc.len()
            &&& pairing(outs, inc, window).0.contains(e.1)
            &&& inc[e.1].amount.0 == -outs[e.0].amount.0
            &&& inc[e.1].account_id != outs[e.0].account_id
            &&& gap_days(inc[e.1], outs[e.0]) <= window
        },
        forall|p: int, q: int|
            0 <= p < q < pairing(outs, inc, window).1.len() ==> {
                let a = #[trigger] pairing(outs, inc, window).1[p];
                let b = #[trigger] pairing(outs, inc, window).1[q];
                a.0 < b.0 && a.1 != b.1
            },
    decreases outs.len(),
{
    if outs.len() > 0 {
        let prefix = outs.drop_last();
        lemma_pairing_facts(prefix, inc, window);
        let prev = pairing(prefix, inc, window);
        lemma_best_fits(inc, prev.0, outs.last(), window);
        let now = pairing(outs, inc, window);
        assert forall|p: int| 0 <= p < prev.1.len() implies outs[(#[trigger] prev.1[p]).0] == prefix[prev.1[p].0] by {}
        match best_match(inc, prev.0, outs.last(), window) {
            Some(j) => {
                assert(now.1 == prev.1.push((outs.len() - 1, j)));
                assert forall|p: int| 0 <= p < now.1.len() implies {
                    let e = #[trigger] now.1[p];
                    &&& 0 <= e.0 < outs.len()
                    &&& 0 <= e.1 < inc.len()
                    &&& now.0.contains(e.1)
                    &&& inc[e.1].amount.0 == -outs[e.0].amount.0
                    &&& inc[e.1].account_id != outs[e.0].account_id
                    &&& gap_days(inc[e.1], outs[e.0]) <= window
                } by {
                    if p < prev.1.len() {
                        assert(now.1[p] == prev.1[p]);
                        assert(outs[prev.1[p].0] == prefix[prev.1[p].0]);
                    }
                }
                assert forall|p: int, q: int| 0 <= p < q < now.1.len() implies {
                    let a = #[trigger] now.1[p];
                    let b = #[trigger] now.1[q];
                    a.0 < b.0 && a.1 != b.1
                } by {
                    assert(now.1[p] == prev.1[p]);
                    if q < prev.1.len() {
                        assert(now.1[q] == prev.1[q]);
                    } else {
                        assert(prev.0.contains(prev.1[p].1));
                    }
                }
            },
            None => {
                assert forall|p: int| 0 <= p < now.1.len() implies {
                    let e = #[trigger] now.1[p];
                    &&& 0 <= e.0 < outs.len()
                    &&& 0 <= e.1 < inc.len()
                    &&& now.0.contains(e.1)
                    &&& inc[e.1].amount.0 == -outs[e.0].amount.0
                    &&& inc[e.1].account_id != outs[e.0].account_id
                    &&& gap_days(inc[e.1], outs[e.0]) <= window
                } by {
                    assert(outs[prev.1[p].0] == prefix[prev.1[p].0]);
                }
            },
        }
    }
}

proof fn lemma_outgoing_of_facts(cs: Seq<TransferCandidate>)
    ensures
        forall|k: int|
            0 <= k < outgoing_of(cs).len() ==> cs.contains(#[trigger] outgoing_of(cs)[k])
                && outgoing_of(cs)[k].amount.0 < 0,
        cs.no_duplicates() ==> outgoing_of(cs).no_duplicates(),
    decreases cs.len(),
{
    if cs.len() > 0 {
        let prefix = cs.drop_last();
        lemma_outgoing_of_facts(prefix);
        let o = outgoing_of(prefix);
        assert forall|k: int| 0 <= k < o.len() implies cs.contains(#[trigger] o[k]) by {
            let a = choose|a: int| 0 <= a < prefix.len() && prefix[a] == o[k];
            assert(cs[a] == o[k]);
        }
        assert(cs[cs.len() - 1] == cs.last());
        if cs.no_duplicates() {
            assert(prefix.no_duplicates()) by {
                assert forall|i: int, j: int| 0 <= i < prefix.len() && 0 <= j < prefix.len() && i != j implies prefix[i] != prefix[j] by {
                    assert(prefix[i] == cs[i] && prefix[j] == cs[j]);
                }
            }
            if cs.last().amount.0 < 0 {
                assert(!o.contains(cs.last())) by {
                    if o.contains(cs.last()) {
                        let k = choose|k: int| 0 <= k < o.len() && o[k] == cs.last();
                        assert(prefix.contains(o[k]));
                        let a = choose|a: int| 0 <= a < prefix.len() && prefix[a] == o[k];
                        assert(cs[a] == cs[cs.len() - 1]);
                    }
                }
                let n = o.push(cs.last());
                assert forall|i: int, j: int| 0 <= i < n.len() && 0 <= j < n.len() && i != j implies n[i] != n[j] by {
                    if i < o.len() && j < o.len() {
                        assert(n[i] == o[i] && n[j] == o[j]);
                    } else if i < o.len() {
                        assert(n[i] == o[i]);
                    } else {
                        assert(n[j] == o[j]);
                    }
                }
            }
        }
    }
}

proof fn lemma_incoming_of_facts(cs: Seq<TransferCandidate>)
    ensures
        forall|k: int|
            0 <= k < incoming_of(cs).len() ==> cs.contains(#[trigger] incoming_of(cs)[k])
                && incoming_of(cs)[k].amount.0 > 0,
        cs.no_duplicates() ==> incoming_of(cs).no_duplicates(),
    decreases cs.len(),
{
    if cs.len() > 0 {
        let prefix = cs.drop_last();
        lemma_incoming_of_facts(prefix);
        let o = incoming_of(prefix);
        assert forall|k: int| 0 <= k < o.len() implies cs.contains(#[trigger] o[k]) by {
            let a = choose|a: int| 0 <= a < prefix.len() && prefix[a] == o[k];
            assert(cs[a] == o[k]);
        }
        assert(cs[cs.len() - 1] == cs.last());
        if cs.no_duplicates() {
            assert(prefix.no_duplicates()) by {
                assert forall|i: int, j: int| 0 <= i < prefix.len() && 0 <= j < prefix.len() && i != j implies prefix[i] != prefix[j] by {
                    assert(prefix[i] == cs[i] && prefix[j] == cs[j]);
                }
            }
            if cs.last().amount.0 > 0 {
                assert(!o.contains(cs.last())) by {
                    if o.contains(cs.last()) {
                        let k = choose|k: int| 0 <= k < o.len() && o[k] == cs.last();
                        assert(prefix.contains(o[k]));
                        let a = choose|a: int| 0 <= a < prefix.len() && prefix[a] == o[k];
                        assert(cs[a] == cs[cs.len() - 1]);
                    }
                }
                let n = o.push(cs.last());
                assert forall|i: int, j: int| 0 <= i < n.len() && 0 <= j < n.len() && i != j implies n[i] != n[j] by {
                    if i < o.len() && j < o.len() {
                        assert(n[i] == o[i] && n[j] == o[j]);
                    } else if i < o.len() {
                        assert(n[i] == o[i]);
                    } else {
                        assert(n[j] == o[j]);
                    }
                }
            }
        }
    }
}

proof fn lemma_insert_outgoing_facts(s: Seq<TransferCandidate>, c: TransferCandidate)
    ensures
        insert_outgoing(s, c).len() == s.len() + 1,
        forall|k: int|
            0 <= k < insert_outgoing(s, c).len() ==> s.contains(#[trigger] insert_outgoing(s, c)[k])
                || insert_outgoing(s, c)[k] == c,
        s.no_duplicates() && !s.contains(c) ==> insert_outgoing(s, c).no_duplicates(),
    decreases s.len(),
{
    if s.len() > 0 && out_before(c, s.last()) {
        let prefix = s.drop_last();
        lemma_insert_outgoing_facts(prefix, c);
        let q = insert_outgoing(prefix, c);
        let n = q.push(s.last());
        assert(s[s.len() - 1] == s.last());
        assert forall|k: int| 0 <= k < n.len() implies s.contains(#[trigger] n[k]) || n[k] == c by {
            if k < q.len() {
                assert(n[k] == q[k]);
                if prefix.contains(q[k]) {
                    let a = choose|a: int| 0 <= a < prefix.len() && prefix[a] == q[k];
                    assert(s[a] == q[k]);
                }
            }
        }
        if s.no_duplicates() && !s.contains(c) {
            assert(prefix.no_duplicates()) by {
                assert forall|i: int, j: int| 0 <= i < prefix.len() && 0 <= j < prefix.len() && i != j implies prefix[i] != prefix[j] by {
                    assert(prefix[i] == s[i] && prefix[j] == s[j]);
                }
            }
            assert(!prefix.contains(c)) by {
                if prefix.contains(c) {
                    let a = choose|a: int| 0 <= a < prefix.len() && prefix[a] == c;
                    assert(s[a] == c);
                }
            }
            assert forall|k: int| 0 <= k < q.len() implies q[k] != s.last() by {
                if prefix.contains(q[k]) {
                    let a = choose|a: int| 0 <= a < prefix.len() && prefix[a] == q[k];
                    assert(s[a] == q[k]);
                } else {
                    assert(q[k] == c);
                }
            }
            assert forall|i: int, j: int| 0 <= i < n.len() && 0 <= j < n.len() && i != j implies n[i] != n[j] by {
                if i < q.len() && j < q.len() {
                    assert(n[i] == q[i] && n[j] == q[j]);
                } else if i < q.len() {
                    assert(n[i] == q[i]);
                } else {
                    assert(n[j] == q[j]);
                }
            }
        }
    } else if s.len() > 0 {
        let n = s.push(c);
        assert forall|k: int| 0 <= k < n.len() implies s.contains(#[trigger] n[k]) || n[k] == c by {
            if k < s.len() {
                assert(n[k] == s[k]);
            }
        }
        if s.no_duplicates() && !s.contains(c) {
            assert forall|i: int, j: int| 0 <= i < n.len() && 0 <= j < n.len() && i != j implies n[i] != n[j] by {
                if i < s.len() && j < s.len() {
                    assert(n[i] == s[i] && n[j] == s[j]);
                } else if i < s.len() {
                    assert(n[i] == s[i]);
                } else {
                    assert(n[j] == s[j]);
                }
            }
        }
    } else {
        assert(insert_outgoing(s, c) == seq![c]);
    }
}

proof fn lemma_sort_outgoing_facts(s: Seq<TransferCandidate>)
    ensures
        sort_outgoing(s).len() == s.len(),
        forall|k: int| 0 <= k < sort_outgoing(s).len() ==> s.contains(#[trigger] sort_outgoing(s)[k]),
        s.no_duplicates() ==> sort_outgoing(s).no_duplicates(),
    decreases s.len(),
{
    if s.len() > 0 {
        let prefix = s.drop_last();
        lemma_sort_outgoing_facts(prefix);
        let q = sort_outgoing(prefix);
        lemma_insert_outgoing_facts(q, s.last());
        let n = sort_outgoing(s);
        assert(s[s.len() - 1] == s.last());
        assert forall|k: int| 0 <= k < n.len() implies s.contains(#[trigger] n[k]) by {
            if q.contains(n[k]) {
                let a = choose|a: int| 0 <= a < q.len() && q[a] == n[k];
                assert(prefix.contains(q[a]));
                let b = choose|b: int| 0 <= b < prefix.len() && prefix[b] == q[a];
                assert(s[b] == n[k]);
            }
        }
        if s.no_duplicates() {
            assert(prefix.no_duplicates()) by {
                assert forall|i: int, j: int| 0 <= i < prefix.len() && 0 <= j < prefix.len() && i != j implies prefix[i] != prefix[j] by {
                    assert(prefix[i] == s[i] && prefix[j] == s[j]);
                }
            }
            assert(!q.contains(s.last())) by {
                if q.contains(s.last()) {
                    let a = choose|a: int| 0 <= a < q.len() && q[a] == s.last();
                    assert(prefix.contains(q[a]));
                    let b = choose|b: int| 0 <= b < prefix.len() && prefix[b] == q[a];
                    assert(s[b] == s[s.len() - 1]);
                }
            }
        }
    }
}

proof fn lemma_distinct_members_have_distinct_ids(
    cs: Seq<TransferCandidate>,
    x: TransferCandidate,
    y: TransferCandidate,
)
    requires
        ids_distinct(cs),
        cs.contains(x),
        cs.contains(y),
        x != y,
    ensures
        x.id != y.id,
{
    let a = choose|a: int| 0 <= a < cs.len() && cs[a] == x;
    let b = choose|b: int| 0 <= b < cs.len() && cs[b] == y;
    if a < b {
        assert(cs[a].id != cs[b].id);
    } else {
        assert(cs[b].id != cs[a].id);
    }
}

/// `pair` is the ids of `o` and `i`, two of the candidates that form a
/// transfer: `o` sends money, `i` receives the same amount on another account,
/// at most `window` days apart.
pub open spec fn is_transfer_between(
    cs: Seq<TransferCandidate>,
    window: int,
    pair: (TransactionId, TransactionId),
    o: TransferCandidate,
    i: TransferCandidate,
) -> bool {
    &&& cs.contains(o)
    &&& cs.contains(i)
    &&& pair == (o.id, i.id)
    &&& o.amount.0 < 0
    &&& i.amount.0 == -o.amount.0
    &&& i.account_id != o.account_id
    &&& gap_days(i, o) <= window
}

/// Every pair found is a transfer: it is made of an outgoing and an incoming
/// movement among the candidates (returned here), the same amount with the
/// opposite sign (never zero), on different accounts and at most `window` days
/// apart.
pub proof fn lemma_pairs_are_transfers(cs: Seq<TransferCandidate>, window: int, p: int) -> (sides: (
    TransferCandidate,
    TransferCandidate,
))
    requires
        0 <= p < transfer_pairs(cs, window).len(),
    ensures
        is_transfer_between(cs, window, transfer_pairs(cs, window)[p], sides.0, sides.1),
{
    let outs = served_outgoing(cs);
    let inc = incoming_of(cs);
    let m = pairing(outs, inc, window).1;
    lemma_pairing_facts(outs, inc, window);
    lemma_outgoing_of_facts(cs);
    lemma_sort_outgoing_facts(outgoing_of(cs));
    lemma_incoming_of_facts(cs);
    let e = m[p];
    let o = outs[e.0];
    let i = inc[e.1];
    assert(outgoing_of(cs).contains(o));
    let k = choose|k: int| 0 <= k < outgoing_of(cs).len() && outgoing_of(cs)[k] == o;
    assert(cs.contains(outgoing_of(cs)[k]));
    assert(cs.contains(inc[e.1]));
    assert(transfer_pairs(cs, window)[p] == (o.id, i.id));
    (o, i)
}

/// The two sides of every pair are at most `window` calendar days apart,
/// whichever of them is booked first: the incoming side may come before or
/// after the outgoing one, but never further away than the window.
pub proof fn lemma_pairs_within_the_window(cs: Seq<TransferCandidate>, window: int, p: int) -> (sides: (
    TransferCandidate,
    TransferCandidate,
))
    requires
        0 <= p < transfer_pairs(cs, window).len(),
    ensures
        cs.contains(sides.0) && cs.contains(sides.1),
        transfer_pairs(cs, window)[p] == (sides.0.id, sides.1.id),
        day_number(sides.1.booked_on) - day_number(sides.0.booked_on) <= window,
        day_number(sides.0.booked_on) - day_number(sides.1.booked_on) <= window,
{
    lemma_pairs_are_transfers(cs, window, p)
}

/// Each movement enters at most one pair: among candidates with distinct ids,
/// no outgoing id and no incoming id appears in two pairs, and no movement is
/// on both sides.
pub proof fn lemma_each_movement_in_at_most_one_pair(cs: Seq<TransferCandidate>, window: int)
    requires
        ids_distinct(cs),
    ensures
        forall|p: int, q: int|
            0 <= p < q < transfer_pairs(cs, window).len() ==> (#[trigger] transfer_pairs(cs, window)[p]).0
                != (#[trigger] transfer_pairs(cs, window)[q]).0 && transfer_pairs(cs, window)[p].1
                != transfer_pairs(cs, window)[q].1,
        forall|p: int, q: int|
            0 <= p < transfer_pairs(cs, window).len() && 0 <= q < transfer_pairs(cs, window).len()
                ==> (#[trigger] transfer_pairs(cs, window)[p]).0 != (
            #[trigger] transfer_pairs(cs, window)[q]).1,
{
    let outs = served_outgoing(cs);
    let inc = incoming_of(cs);
    let m = pairing(outs, inc, window).1;
    let r = transfer_pairs(cs, window);
    lemma_pairing_facts(outs, inc, window);
    lemma_outgoing_of_facts(cs);
    lemma_sort_outgoing_facts(outgoing_of(cs));
    lemma_incoming_of_facts(cs);
    assert(cs.no_duplicates()) by {
        assert forall|i: int, j: int| 0 <= i < cs.len() && 0 <= j < cs.len() && i != j implies cs[i] != cs[j] by {
            if i < j {
                assert(cs[i].id != cs[j].id);
            } else {
                assert(cs[j].id != cs[i].id);
            }
        }
    }
    assert forall|k: int| 0 <= k < outs.len() implies cs.contains(#[trigger] outs[k]) && outs[k].amount.0 < 0 by {
        assert(outgoing_of(cs).contains(outs[k]));
        let a = choose|a: int| 0 <= a < outgoing_of(cs).len() && outgoing_of(cs)[a] == outs[k];
        assert(cs.contains(outgoing_of(cs)[a]));
    }
    assert forall|p: int, q: int| 0 <= p < q < r.len() implies (#[trigger] r[p]).0 != (#[trigger] r[q]).0
        && r[p].1 != r[q].1 by {
        let a = m[p];
        let b = m[q];
        assert(a.0 < b.0 && a.1 != b.1);
        assert(outs[a.0] != outs[b.0]);
        assert(inc[a.1] != inc[b.1]);
        lemma_distinct_members_have_distinct_ids(cs, outs[a.0], outs[b.0]);
        lemma_distinct_members_have_distinct_ids(cs, inc[a.1], inc[b.1]);
    }
    assert forall|p: int, q: int| 0 <= p < r.len() && 0 <= q < r.len() implies (#[trigger] r[p]).0 != (
    #[trigger] r[q]).1 by {
        let a = m[p];
        let b = m[q];
        assert(outs[a.0].amount.0 < 0);
        assert(inc[b.1].amount.0 > 0);
        lemma_distinct_members_have_distinct_ids(cs, outs[a.0], inc[b.1]);
    }
}

// ---------------------------------------------------------------------------
// The pairs do not depend on the order of the rows
// ---------------------------------------------------------------------------

/// Whether `k` is preferred to `b`: closer in time, or as close with a
/// smaller id.
pub open spec fn closer(inc: Seq<TransferCandidate>, out: TransferCandidate, k: int, b: int) -> bool {
    gap_days(inc[k], out) < gap_days(inc[b], out) || (gap_days(inc[k], out) == gap_days(inc[b], out)
        && inc[k].id.0 < inc[b].id.0)
}

/// The best fitting position among the first `n`.
pub open spec fn best_among(
    inc: Seq<TransferCandidate>,
    taken: Set<int>,
    out: TransferCandidate,
    window: int,
    n: int,
) -> Option<int>
    decreases n,
{
    if n <= 0 {
        None
    } else {
        let b = best_among(inc, taken, out, window, n - 1);
        if fits(inc, taken, out, window, n - 1) && (b is None || closer(inc, out, n - 1, b->0)) {
            Some(n - 1)
        } else {
            b
        }
    }
}

proof fn lemma_best_among(
    inc: Seq<TransferCandidate>,
    taken: Set<int>,
    out: TransferCandidate,
    window: int,
    n: int,
)
    requires
        0 <= n <= inc.len(),
    ensures
        match best_among(inc, taken, out, window, n) {
            None => forall|k: int| 0 <= k < n ==> !#[trigger] fits(inc, taken, out, window, k),
            Some(b) => 0 <= b < n && fits(inc, taken, out, window, b) && forall|k: int|
                0 <= k < n && #[trigger] fits(inc, taken, out, window, k) ==> ranks_no_later(
                    inc,
                    out,
                    b,
                    k,
                ),
        },
    decreases n,
{
    if n > 0 {
        lemma_best_among(inc, taken, out, window, n - 1);
    }
}

/// There is a best partner exactly when some incoming movement fits.
proof fn lemma_best_match_exists(
    inc: Seq<TransferCandidate>,
    taken: Set<int>,
    out: TransferCandidate,
    window: int,
)
    ensures
        best_match(inc, taken, out, window) is None <==> forall|k: int|
            !#[trigger] fits(inc, taken, out, window, k),
        best_match(inc, taken, out, window) matches Some(j) ==> is_best(inc, taken, out, window, j),
{
    lemma_best_among(inc, taken, out, window, inc.len() as int);
    match best_among(inc, taken, out, window, inc.len() as int) {
        Some(b) => {
            assert(is_best(inc, taken, out, window, b));
            lemma_best_unique(inc, taken, out, window, b);
        },
        None => {
            assert forall|k: int| !#[trigger] fits(inc, taken, out, window, k) by {
                if 0 <= k < inc.len() {
                } else {
                    assert(!fits(inc, taken, out, window, k));
                }
            }
            assert(!exists|j: int| is_best(inc, taken, out, window, j));
        },
    }
    if best_match(inc, taken, out, window) is Some {
        let c = choose|j: int| is_best(inc, taken, out, window, j);
        assert(is_best(inc, taken, out, window, c));
    }
}

/// The movements at the positions in `taken`.
pub open spec fn taken_movements(inc: Seq<TransferCandidate>, taken: Set<int>) -> Set<TransferCandidate> {
    Set::new(|c: TransferCandidate| exists|j: int| 0 <= j < inc.len() && taken.contains(j) && inc[j] == c)
}

/// Two lists hold the same movements, none twice, and no two movements of
/// them share an id.
pub open spec fn same_movements(a: Seq<TransferCandidate>, b: Seq<TransferCandidate>) -> bool {
    &&& a.no_duplicates()
    &&& b.no_duplicates()
    &&& forall|c: TransferCandidate| a.contains(c) <==> b.contains(c)
    &&& forall|i: int, j: int|
        0 <= i < a.len() && 0 <= j < a.len() && #[trigger] a[i].id == #[trigger] a[j].id ==> i == j
    &&& forall|i: int, j: int|
        0 <= i < b.len() && 0 <= j < b.len() && #[trigger] b[i].id == #[trigger] b[j].id ==> i == j
}

proof fn lemma_fits_carries_over(
    a: Seq<TransferCandidate>,
    ta: Set<int>,
    b: Seq<TransferCandidate>,
    tb: Set<int>,
    out: TransferCandidate,
    window: int,
    ka: int,
    kb: int,
)
    requires
        same_movements(a, b),
        taken_movements(a, ta) == taken_movements(b, tb),
        0 <= ka < a.len(),
        0 <= kb < b.len(),
        a[ka] == b[kb],
        fits(a, ta, out, window, ka),
    ensures
        fits(b, tb, out, window, kb),
{
    if tb.contains(kb) {
        assert(taken_movements(b, tb).contains(b[kb]));
        assert(taken_movements(a, ta).contains(a[ka]));
        let j = choose|j: int| 0 <= j < a.len() && ta.contains(j) && a[j] == a[ka];
        assert(j == ka);
    }
}

proof fn lemma_position_of(s: Seq<TransferCandidate>, c: TransferCandidate) -> (k: int)
    requires
        s.contains(c),
    ensures
        0 <= k < s.len(),
        s[k] == c,
{
    choose|k: int| 0 <= k < s.len() && s[k] == c
}

/// The partner an outgoing movement gets depends on the movements free,
/// not on where they sit in the list.
proof fn lemma_best_match_carries_over(
    a: Seq<TransferCandidate>,
    ta: Set<int>,
    b: Seq<TransferCandidate>,
    tb: Set<int>,
    out: TransferCandidate,
    window: int,
)
    requires
        same_movements(a, b),
        taken_movements(a, ta) == taken_movements(b, tb),
    ensures
        best_match(a, ta, out, window) is None <==> best_match(b, tb, out, window) is None,
        best_match(a, ta, out, window) matches Some(ja) ==> best_match(b, tb, out, window) matches Some(
            jb,
        ) && a[ja] == b[jb],
{
    lemma_best_match_exists(a, ta, out, window);
    lemma_best_match_exists(b, tb, out, window);
    assert(same_movements(b, a));
    if best_match(a, ta, out, window) is None && best_match(b, tb, out, window) is Some {
        let jb = best_match(b, tb, out, window)->0;
        let ka = lemma_position_of(a, b[jb]);
        lemma_fits_carries_over(b, tb, a, ta, out, window, jb, ka);
    }
    if let Some(ja) = best_match(a, ta, out, window) {
        let c = a[ja];
        let jb = lemma_position_of(b, c);
        lemma_fits_carries_over(a, ta, b, tb, out, window, ja, jb);
        assert forall|k: int| #[trigger] fits(b, tb, out, window, k) implies ranks_no_later(
            b,
            out,
            jb,
            k,
        ) by {
            let ka = lemma_position_of(a, b[k]);
            lemma_fits_carries_over(b, tb, a, ta, out, window, k, ka);
            assert(ranks_no_later(a, out, ja, ka));
            if a[ja].id == a[ka].id {
                assert(ja == ka);
                let kb2 = k;
                assert(b[jb] == b[kb2]);
                assert(jb == k);
            }
        }
        assert(is_best(b, tb, out, window, jb));
        lemma_best_unique(b, tb, out, window, jb);
    }
}

proof fn lemma_taken_grows(a: Seq<TransferCandidate>, ta: Set<int>, j: int)
    requires
        0 <= j < a.len(),
    ensures
        taken_movements(a, ta.insert(j)) == taken_movements(a, ta).insert(a[j]),
{
    assert forall|c: TransferCandidate| #[trigger] taken_movements(a, ta.insert(j)).contains(c)
        <==> taken_movements(a, ta).insert(a[j]).contains(c) by {
        if taken_movements(a, ta.insert(j)).contains(c) {
            let k = choose|k: int| 0 <= k < a.len() && ta.insert(j).contains(k) && a[k] == c;
            if k != j {
                assert(taken_movements(a, ta).contains(c));
            }
        }
        if taken_movements(a, ta).insert(a[j]).contains(c) {
            if c != a[j] {
                let k = choose|k: int| 0 <= k < a.len() && ta.contains(k) && a[k] == c;
                assert(ta.insert(j).contains(k));
            } else {
                assert(ta.insert(j).contains(j));
            }
        }
    }
    assert(taken_movements(a, ta.insert(j)) =~= taken_movements(a, ta).insert(a[j]));
}

/// Serving the same outgoing movements against two lists of the same
/// incoming movements pairs each outgoing movement with the same partner.
proof fn lemma_pairing_carries_over(
    outs: Seq<TransferCandidate>,
    a: Seq<TransferCandidate>,
    b: Seq<TransferCandidate>,
    window: int,
)
    requires
        same_movements(a, b),
    ensures
        taken_movements(a, pairing(outs, a, window).0) == taken_movements(b, pairing(outs, b, window).0),
        pairing(outs, a, window).1.len() == pairing(outs, b, window).1.len(),
        forall|p: int|
            0 <= p < pairing(outs, a, window).1.len() ==> (#[trigger] pairing(outs, a, window).1[p]).0
                == pairing(outs, b, window).1[p].0 && a[pairing(outs, a, window).1[p].1]
                == b[pairing(outs, b, window).1[p].1],
    decreases outs.len(),
{
    if outs.len() == 0 {
        assert(taken_movements(a, Set::empty()) =~= taken_movements(b, Set::empty()));
    } else {
        let prefix = outs.drop_last();
        lemma_pairing_carries_over(prefix, a, b, window);
        let pa = pairing(prefix, a, window);
        let pb = pairing(prefix, b, window);
        lemma_best_match_carries_over(a, pa.0, b, pb.0, outs.last(), window);
        lemma_best_match_exists(a, pa.0, outs.last(), window);
        lemma_best_match_exists(b, pb.0, outs.last(), window);
        match best_match(a, pa.0, outs.last(), window) {
            Some(ja) => {
                let jb = best_match(b, pb.0, outs.last(), window)->0;
                lemma_taken_grows(a, pa.0, ja);
                lemma_taken_grows(b, pb.0, jb);
                let na = pairing(outs, a, window);
                let nb = pairing(outs, b, window);
                assert(na.1 == pa.1.push((outs.len() - 1, ja)));
                assert(nb.1 == pb.1.push((outs.len() - 1, jb)));
                assert forall|p: int| 0 <= p < na.1.len() implies (#[trigger] na.1[p]).0 == nb.1[p].0
                    && a[na.1[p].1] == b[nb.1[p].1] by {
                    if p < pa.1.len() {
                        assert(na.1[p] == pa.1[p]);
                        assert(nb.1[p] == pb.1[p]);
                    }
                }
            },
            None => {},
        }
    }
}

/// No candidate of `s` is served before an earlier one.
pub open spec fn outgoing_sorted(s: Seq<TransferCandidate>) -> bool {
    forall|i: int, j: int| 0 <= i < j < s.len() ==> !out_before(#[trigger] s[j], #[trigger] s[i])
}

/// No two positions of `s` hold candidates with the same id.
pub open spec fn ids_unique(s: Seq<TransferCandidate>) -> bool {
    forall|i: int, j: int| 0 <= i < s.len() && 0 <= j < s.len() && #[trigger] s[i].id == #[trigger] s[j].id ==> i == j
}

proof fn lemma_out_before_order(a: TransferCandidate, b: TransferCandidate, c: TransferCandidate)
    ensures
        !out_before(a, a),
        !(out_before(a, b) && out_before(b, a)),
        !out_before(a, b) && !out_before(b, a) ==> a.booked_on == b.booked_on && a.id == b.id,
        out_before(a, b) && out_before(b, c) ==> out_before(a, c),
{
}

proof fn lemma_insert_outgoing_keeps(s: Seq<TransferCandidate>, c: TransferCandidate)
    requires
        outgoing_sorted(s),
    ensures
        insert_outgoing(s, c).contains(c),
        forall|k: int| 0 <= k < s.len() ==> insert_outgoing(s, c).contains(#[trigger] s[k]),
        outgoing_sorted(insert_outgoing(s, c)),
    decreases s.len(),
{
    lemma_insert_outgoing_facts(s, c);
    if s.len() == 0 {
        assert(insert_outgoing(s, c)[0] == c);
    } else if out_before(c, s.last()) {
        let prefix = s.drop_last();
        let last = s.last();
        assert(outgoing_sorted(prefix)) by {
            assert forall|i: int, j: int| 0 <= i < j < prefix.len() implies !out_before(
                #[trigger] prefix[j],
                #[trigger] prefix[i],
            ) by {
                assert(prefix[i] == s[i] && prefix[j] == s[j]);
            }
        }
        lemma_insert_outgoing_keeps(prefix, c);
        lemma_insert_outgoing_facts(prefix, c);
        let q = insert_outgoing(prefix, c);
        let n = q.push(last);
        assert(s[s.len() - 1] == last);
        let w = choose|w: int| 0 <= w < q.len() && q[w] == c;
        assert(n[w] == c);
        assert forall|k: int| 0 <= k < s.len() implies n.contains(#[trigger] s[k]) by {
            if k < prefix.len() {
                assert(prefix[k] == s[k]);
                assert(q.contains(prefix[k]));
                let w2 = choose|w2: int| 0 <= w2 < q.len() && q[w2] == prefix[k];
                assert(n[w2] == s[k]);
            } else {
                assert(n[q.len() as int] == s[k]);
            }
        }
        assert forall|i: int| 0 <= i < q.len() implies !out_before(last, #[trigger] q[i]) by {
            lemma_out_before_order(last, q[i], c);
            if q[i] != c {
                assert(prefix.contains(q[i]));
                let a = choose|a: int| 0 <= a < prefix.len() && prefix[a] == q[i];
                assert(s[a] == prefix[a]);
                assert(!out_before(s[s.len() - 1], s[a]));
            }
        }
        assert forall|i: int, j: int| 0 <= i < j < n.len() implies !out_before(
            #[trigger] n[j],
            #[trigger] n[i],
        ) by {
            if j < q.len() {
                assert(n[j] == q[j] && n[i] == q[i]);
            } else {
                assert(n[i] == q[i]);
            }
        }
    } else {
        let n = s.push(c);
        assert(n[s.len() as int] == c);
        assert forall|k: int| 0 <= k < s.len() implies n.contains(#[trigger] s[k]) by {
            assert(n[k] == s[k]);
        }
        assert forall|i: int, j: int| 0 <= i < j < n.len() implies !out_before(
            #[trigger] n[j],
            #[trigger] n[i],
        ) by {
            if j < s.len() {
                assert(n[j] == s[j] && n[i] == s[i]);
            } else {
                assert(n[i] == s[i]);
                lemma_out_before_order(c, s[i], s.last());
                if i < s.len() - 1 {
                    assert(!out_before(s[s.len() - 1], s[i]));
                }
            }
        }
    }
}

/// The served order holds every outgoing movement and is sorted.
proof fn lemma_sort_outgoing_keeps(s: Seq<TransferCandidate>)
    ensures
        forall|k: int| 0 <= k < s.len() ==> sort_outgoing(s).contains(#[trigger] s[k]),
        outgoing_sorted(sort_outgoing(s)),
    decreases s.len(),
{
    if s.len() > 0 {
        let prefix = s.drop_last();
        lemma_sort_outgoing_keeps(prefix);
        let q = sort_outgoing(prefix);
        lemma_insert_outgoing_keeps(q, s.last());
        let n = sort_outgoing(s);
        assert(s[s.len() - 1] == s.last());
        assert forall|k: int| 0 <= k < s.len() implies n.contains(#[trigger] s[k]) by {
            if k < prefix.len() {
                assert(prefix[k] == s[k]);
                assert(q.contains(prefix[k]));
                let a = choose|a: int| 0 <= a < q.len() && q[a] == prefix[k];
                assert(n.contains(q[a]));
            }
        }
    }
}

/// Two sorted lists of the same movements, none twice and no id shared,
/// are the same list.
proof fn lemma_sorted_unique(s1: Seq<TransferCandidate>, s2: Seq<TransferCandidate>)
    requires
        outgoing_sorted(s1),
        outgoing_sorted(s2),
        same_movements(s1, s2),
    ensures
        s1 == s2,
    decreases s1.len(),
{
    if s1.len() == 0 {
        if s2.len() > 0 {
            assert(s2.contains(s2[0]));
        }
        assert(s1 =~= s2);
    } else {
        assert(s1.contains(s1[0]));
        let x = s1[0];
        let l = lemma_position_of(s2, x);
        let y = s2[0];
        assert(s2.contains(y));
        let k = lemma_position_of(s1, y);
        if x != y {
            assert(k > 0 && l > 0);
            assert(!out_before(s1[k], s1[0]));
            assert(!out_before(s2[l], s2[0]));
            lemma_out_before_order(x, y, x);
            if x.booked_on == y.booked_on && x.id == y.id {
                assert(s1[k].id == s1[0].id);
            }
        }
        let t1 = s1.drop_first();
        let t2 = s2.drop_first();
        assert forall|c: TransferCandidate| t1.contains(c) <==> t2.contains(c) by {
            if t1.contains(c) {
                let i = lemma_position_of(t1, c);
                assert(s1[i + 1] == c);
                assert(c != x);
                assert(s2.contains(c));
                let j = lemma_position_of(s2, c);
                assert(j != 0);
                assert(t2[j - 1] == c);
            }
            if t2.contains(c) {
                let i = lemma_position_of(t2, c);
                assert(s2[i + 1] == c);
                assert(c != y);
                assert(s1.contains(c));
                let j = lemma_position_of(s1, c);
                assert(j != 0);
                assert(t1[j - 1] == c);
            }
        }
        assert(same_movements(t1, t2)) by {
            assert forall|i: int, j: int| 0 <= i < t1.len() && 0 <= j < t1.len() && i != j implies t1[i] != t1[j] by {
                assert(t1[i] == s1[i + 1] && t1[j] == s1[j + 1]);
            }
            assert forall|i: int, j: int| 0 <= i < t2.len() && 0 <= j < t2.len() && i != j implies t2[i] != t2[j] by {
                assert(t2[i] == s2[i + 1] && t2[j] == s2[j + 1]);
            }
            assert forall|i: int, j: int|
                0 <= i < t1.len() && 0 <= j < t1.len() && #[trigger] t1[i].id == #[trigger] t1[j].id implies i == j by {
                assert(t1[i] == s1[i + 1] && t1[j] == s1[j + 1]);
            }
            assert forall|i: int, j: int|
                0 <= i < t2.len() && 0 <= j < t2.len() && #[trigger] t2[i].id == #[trigger] t2[j].id implies i == j by {
                assert(t2[i] == s2[i + 1] && t2[j] == s2[j + 1]);
            }
        }
        assert(outgoing_sorted(t1)) by {
            assert forall|i: int, j: int| 0 <= i < j < t1.len() implies !out_before(#[trigger] t1[j], #[trigger] t1[i]) by {
                assert(t1[i] == s1[i + 1] && t1[j] == s1[j + 1]);
            }
        }
        assert(outgoing_sorted(t2)) by {
            assert forall|i: int, j: int| 0 <= i < j < t2.len() implies !out_before(#[trigger] t2[j], #[trigger] t2[i]) by {
                assert(t2[i] == s2[i + 1] && t2[j] == s2[j + 1]);
            }
        }
        lemma_sorted_unique(t1, t2);
        assert(s1 =~= seq![x] + t1);
        assert(s2 =~= seq![y] + t2);
    }
}

proof fn lemma_outgoing_of_holds(cs: Seq<TransferCandidate>)
    ensures
        forall|c: TransferCandidate|
            #[trigger] outgoing_of(cs).contains(c) <==> cs.contains(c) && c.amount.0 < 0,
        forall|c: TransferCandidate|
            #[trigger] incoming_of(cs).contains(c) <==> cs.contains(c) && c.amount.0 > 0,
    decreases cs.len(),
{
    lemma_outgoing_of_facts(cs);
    lemma_incoming_of_facts(cs);
    if cs.len() > 0 {
        let prefix = cs.drop_last();
        lemma_outgoing_of_holds(prefix);
        assert forall|c: TransferCandidate| cs.contains(c) implies prefix.contains(c) || c == cs.last() by {
            let k = lemma_position_of(cs, c);
            if k < cs.len() - 1 {
                assert(prefix[k] == c);
            }
        }
        assert(cs[cs.len() - 1] == cs.last());
        let o = outgoing_of(prefix);
        let i = incoming_of(prefix);
        assert forall|c: TransferCandidate| #[trigger] outgoing_of(cs).contains(c) <==> cs.contains(c)
            && c.amount.0 < 0 by {
            if outgoing_of(cs).contains(c) {
                let k = lemma_position_of(outgoing_of(cs), c);
                assert(cs.contains(outgoing_of(cs)[k]));
            }
            if cs.contains(c) && c.amount.0 < 0 {
                if c == cs.last() {
                    assert(outgoing_of(cs) == o.push(c));
                    assert(o.push(c)[o.len() as int] == c);
                } else {
                    assert(prefix.contains(c));
                    assert(o.contains(c));
                    let k = lemma_position_of(o, c);
                    if cs.last().amount.0 < 0 {
                        assert(o.push(cs.last())[k] == c);
                    }
                }
            }
        }
        assert forall|c: TransferCandidate| #[trigger] incoming_of(cs).contains(c) <==> cs.contains(c)
            && c.amount.0 > 0 by {
            if incoming_of(cs).contains(c) {
                let k = lemma_position_of(incoming_of(cs), c);
                assert(cs.contains(incoming_of(cs)[k]));
            }
            if cs.contains(c) && c.amount.0 > 0 {
                if c == cs.last() {
                    assert(incoming_of(cs) == i.push(c));
                    assert(i.push(c)[i.len() as int] == c);
                } else {
                    assert(prefix.contains(c));
                    assert(i.contains(c));
                    let k = lemma_position_of(i, c);
                    if cs.last().amount.0 > 0 {
                        assert(i.push(cs.last())[k] == c);
                    }
                }
            }
        }
    }
}

proof fn lemma_ids_unique_within(cs: Seq<TransferCandidate>, s: Seq<TransferCandidate>)
    requires
        ids_distinct(cs),
        s.no_duplicates(),
        forall|k: int| 0 <= k < s.len() ==> cs.contains(#[trigger] s[k]),
    ensures
        ids_unique(s),
{
    assert forall|i: int, j: int|
        0 <= i < s.len() && 0 <= j < s.len() && #[trigger] s[i].id == #[trigger] s[j].id implies i == j by {
        let a = lemma_position_of(cs, s[i]);
        let b = lemma_position_of(cs, s[j]);
        if a < b {
            assert(cs[a].id != cs[b].id);
        } else if b < a {
            assert(cs[b].id != cs[a].id);
        }
    }
}

proof fn lemma_no_duplicates_of_distinct_ids(cs: Seq<TransferCandidate>)
    requires
        ids_distinct(cs),
    ensures
        cs.no_duplicates(),
{
    assert forall|i: int, j: int| 0 <= i < cs.len() && 0 <= j < cs.len() && i != j implies cs[i] != cs[j] by {
        if i < j {
            assert(cs[i].id != cs[j].id);
        } else {
            assert(cs[j].id != cs[i].id);
        }
    }
}

/// The outgoing movements of `cs`, in serving order: what they hold, once
/// each, sorted.
proof fn lemma_served_outgoing_facts(cs: Seq<TransferCandidate>)
    requires
        ids_distinct(cs),
    ensures
        forall|c: TransferCandidate|
            #[trigger] served_outgoing(cs).contains(c) <==> cs.contains(c) && c.amount.0 < 0,
        served_outgoing(cs).no_duplicates(),
        ids_unique(served_outgoing(cs)),
        outgoing_sorted(served_outgoing(cs)),
        incoming_of(cs).no_duplicates(),
        ids_unique(incoming_of(cs)),
        forall|c: TransferCandidate|
            #[trigger] incoming_of(cs).contains(c) <==> cs.contains(c) && c.amount.0 > 0,
{
    lemma_no_duplicates_of_distinct_ids(cs);
    lemma_outgoing_of_holds(cs);
    let o = outgoing_of(cs);
    let outs = served_outgoing(cs);
    lemma_sort_outgoing_facts(o);
    lemma_sort_outgoing_keeps(o);
    lemma_outgoing_of_facts(cs);
    lemma_incoming_of_facts(cs);
    assert forall|c: TransferCandidate| #[trigger] outs.contains(c) <==> cs.contains(c) && c.amount.0 < 0 by {
        if outs.contains(c) {
            let k = lemma_position_of(outs, c);
            assert(o.contains(outs[k]));
        }
        if cs.contains(c) && c.amount.0 < 0 {
            assert(o.contains(c));
            let k = lemma_position_of(o, c);
            assert(outs.contains(o[k]));
        }
    }
    assert forall|k: int| 0 <= k < outs.len() implies cs.contains(#[trigger] outs[k]) by {
        assert(outs.contains(outs[k]));
    }
    lemma_ids_unique_within(cs, outs);
    assert forall|k: int| 0 <= k < incoming_of(cs).len() implies cs.contains(#[trigger] incoming_of(cs)[k]) by {
        assert(incoming_of(cs).contains(incoming_of(cs)[k]));
    }
    lemma_ids_unique_within(cs, incoming_of(cs));
}

/// The pairs do not depend on the order in which the rows arrive: among
/// movements with distinct ids, any reordering gives the same pairs.
pub proof fn lemma_pairs_do_not_depend_on_input_order(
    cs1: Seq<TransferCandidate>,
    cs2: Seq<TransferCandidate>,
    window: int,
)
    requires
        ids_distinct(cs1),
        ids_distinct(cs2),
        cs1.to_multiset() == cs2.to_multiset(),
    ensures
        transfer_pairs(cs1, window) == transfer_pairs(cs2, window),
{
    broadcast use vstd::seq_lib::group_to_multiset_ensures;

    assert forall|c: TransferCandidate| cs1.contains(c) <==> cs2.contains(c) by {
        assert(cs1.contains(c) <==> cs1.to_multiset().count(c) > 0);
        assert(cs2.contains(c) <==> cs2.to_multiset().count(c) > 0);
    }
    lemma_served_outgoing_facts(cs1);
    lemma_served_outgoing_facts(cs2);
    let outs1 = served_outgoing(cs1);
    let outs2 = served_outgoing(cs2);
    let inc1 = incoming_of(cs1);
    let inc2 = incoming_of(cs2);
    assert(same_movements(outs1, outs2));
    lemma_sorted_unique(outs1, outs2);
    assert(same_movements(inc1, inc2));
    lemma_pairing_carries_over(outs1, inc1, inc2, window);
    let m1 = pairing(outs1, inc1, window).1;
    let m2 = pairing(outs1, inc2, window).1;
    assert(transfer_pairs(cs1, window) =~= transfer_pairs(cs2, window)) by {
        assert forall|p: int| 0 <= p < m1.len() implies transfer_pairs(cs1, window)[p] == transfer_pairs(
            cs2,
            window,
        )[p] by {
            assert(m1[p].0 == m2[p].0);
            assert(inc1[m1[p].1] == inc2[m2[p].1]);
        }
    }
}

// ---------------------------------------------------------------------------
// A second run finds nothing new
// ---------------------------------------------------------------------------

/// Whether the movement `id` is on either side of a pair found among `cs`.
pub open spec fn is_paired(cs: Seq<TransferCandidate>, window: int, id: TransactionId) -> bool {
    exists|p: int|
        0 <= p < transfer_pairs(cs, window).len() && ((#[trigger] transfer_pairs(cs, window)[p]).0 == id
            || transfer_pairs(cs, window)[p].1 == id)
}

/// Serving a prefix of `outs` takes a subset of the positions serving all of
/// them takes, and finds a prefix of its pairs.
proof fn lemma_pairing_prefix(outs: Seq<TransferCandidate>, inc: Seq<TransferCandidate>, window: int, n: int)
    requires
        0 <= n <= outs.len(),
    ensures
        forall|j: int| pairing(outs.take(n), inc, window).0.contains(j) ==> #[trigger] pairing(outs, inc, window).0.contains(j),
        pairing(outs.take(n), inc, window).1.len() <= pairing(outs, inc, window).1.len(),
        forall|p: int|
            0 <= p < pairing(outs.take(n), inc, window).1.len() ==> #[trigger] pairing(outs.take(n), inc, window).1[p]
                == pairing(outs, inc, window).1[p],
    decreases outs.len(),
{
    if n == outs.len() {
        assert(outs.take(n) =~= outs);
    } else {
        let prefix = outs.drop_last();
        assert(prefix.take(n) =~= outs.take(n));
        lemma_pairing_prefix(prefix, inc, window, n);
    }
}

/// Every position taken is the incoming side of some pair.
proof fn lemma_taken_are_paired(outs: Seq<TransferCandidate>, inc: Seq<TransferCandidate>, window: int)
    ensures
        forall|j: int|
            #[trigger] pairing(outs, inc, window).0.contains(j) ==> exists|p: int|
                0 <= p < pairing(outs, inc, window).1.len() && pairing(outs, inc, window).1[p].1 == j,
    decreases outs.len(),
{
    if outs.len() > 0 {
        let prefix = outs.drop_last();
        lemma_taken_are_paired(prefix, inc, window);
        let prev = pairing(prefix, inc, window);
        let now = pairing(outs, inc, window);
        assert forall|j: int| #[trigger] now.0.contains(j) implies exists|p: int|
            0 <= p < now.1.len() && now.1[p].1 == j by {
            match best_match(inc, prev.0, outs.last(), window) {
                Some(b) => {
                    if j == b {
                        assert(now.1[now.1.len() - 1].1 == j);
                    } else {
                        let p = choose|p: int| 0 <= p < prev.1.len() && prev.1[p].1 == j;
                        assert(now.1[p] == prev.1[p]);
                    }
                },
                None => {},
            }
        }
    }
}

/// When nothing fits any outgoing movement from the start, serving them
/// pairs nothing.
proof fn lemma_pairing_finds_nothing(outs: Seq<TransferCandidate>, inc: Seq<TransferCandidate>, window: int)
    requires
        forall|i: int, k: int| 0 <= i < outs.len() ==> !#[trigger] fits(inc, Set::empty(), outs[i], window, k),
    ensures
        pairing(outs, inc, window).0 == Set::<int>::empty(),
        pairing(outs, inc, window).1.len() == 0,
    decreases outs.len(),
{
    if outs.len() > 0 {
        let prefix = outs.drop_last();
        assert forall|i: int, k: int| 0 <= i < prefix.len() implies !#[trigger] fits(
            inc,
            Set::empty(),
            prefix[i],
            window,
            k,
        ) by {
            assert(prefix[i] == outs[i]);
        }
        lemma_pairing_finds_nothing(prefix, inc, window);
        lemma_best_match_exists(inc, Set::empty(), outs.last(), window);
        assert forall|k: int| !#[trigger] fits(inc, Set::empty(), outs.last(), window, k) by {
            assert(outs.last() == outs[outs.len() - 1]);
        }
    }
}

/// An outgoing and an incoming movement that could form a transfer do not
/// both stay unpaired: when the outgoing one was served, either the incoming
/// one was already taken or it fitted.
proof fn lemma_unpaired_do_not_fit(
    cs: Seq<TransferCandidate>,
    window: int,
    o: TransferCandidate,
    x: TransferCandidate,
)
    requires
        ids_distinct(cs),
        cs.contains(o),
        cs.contains(x),
        o.amount.0 < 0,
        x.amount.0 > 0,
        x.amount.0 == -o.amount.0,
        x.account_id != o.account_id,
        gap_days(x, o) <= window,
    ensures
        is_paired(cs, window, o.id) || is_paired(cs, window, x.id),
{
    let outs = served_outgoing(cs);
    let inc = incoming_of(cs);
    let all = pairing(outs, inc, window);
    lemma_served_outgoing_facts(cs);
    let i = lemma_position_of(outs, o);
    let kx = lemma_position_of(inc, x);
    lemma_pairing_prefix(outs, inc, window, i);
    lemma_pairing_prefix(outs, inc, window, i + 1);
    lemma_taken_are_paired(outs, inc, window);
    let pre = pairing(outs.take(i), inc, window);
    let step = outs.take(i + 1);
    assert(step.drop_last() =~= outs.take(i));
    assert(step.last() == o);
    let r = transfer_pairs(cs, window);
    if pre.0.contains(kx) {
        assert(all.0.contains(kx));
        let p = choose|p: int| 0 <= p < all.1.len() && all.1[p].1 == kx;
        assert(r[p].1 == x.id);
        assert(is_paired(cs, window, x.id));
    } else {
        assert(fits(inc, pre.0, o, window, kx));
        lemma_best_match_exists(inc, pre.0, o, window);
        let j = best_match(inc, pre.0, o, window)->0;
        let next = pairing(step, inc, window);
        assert(next.1 == pre.1.push((i, j)));
        let p = pre.1.len() as int;
        assert(next.1[p] == (i, j));
        assert(all.1[p] == (i, j));
        assert(r[p].0 == o.id);
        assert(is_paired(cs, window, o.id));
    }
}

/// Running the detector again over movements it left unpaired finds no new
/// pair: whatever could be paired was. Already paired movements stop being
/// candidates, so detecting twice changes nothing.
pub proof fn lemma_a_second_run_finds_nothing(
    cs: Seq<TransferCandidate>,
    rest: Seq<TransferCandidate>,
    window: int,
)
    requires
        ids_distinct(cs),
        forall|c: TransferCandidate| #[trigger] rest.contains(c) ==> cs.contains(c) && !is_paired(cs, window, c.id),
    ensures
        transfer_pairs(rest, window).len() == 0,
{
    let outs = served_outgoing(rest);
    let inc = incoming_of(rest);
    lemma_sort_outgoing_facts(outgoing_of(rest));
    lemma_outgoing_of_facts(rest);
    lemma_incoming_of_facts(rest);
    assert forall|i: int, k: int| 0 <= i < outs.len() implies !#[trigger] fits(
        inc,
        Set::empty(),
        outs[i],
        window,
        k,
    ) by {
        if fits(inc, Set::empty(), outs[i], window, k) {
            let o = outs[i];
            assert(outgoing_of(rest).contains(o));
            let a = lemma_position_of(outgoing_of(rest), o);
            assert(rest.contains(outgoing_of(rest)[a]));
            assert(rest.contains(inc[k]));
            lemma_unpaired_do_not_fit(cs, window, o, inc[k]);
        }
    }
    lemma_pairing_finds_nothing(outs, inc, window);
}

// ---------------------------------------------------------------------------
// Executable
// ---------------------------------------------------------------------------

fn out_before_exec(a: &TransferCandidate, b: &TransferCandidate) -> (r: bool)
    ensures
        r == out_before(*a, *b),
{
    a.booked_on.is_before(&b.booked_on) || (a.booked_on == b.booked_on && a.id.0 < b.id.0)
}

proof fn lemma_insert_outgoing_at(s: Seq<TransferCandidate>, c: TransferCandidate, p: int)
    requires
        0 <= p <= s.len(),
        forall|k: int| p <= k < s.len() ==> out_before(c, #[trigger] s[k]),
        p > 0 ==> !out_before(c, s[p - 1]),
    ensures
        insert_outgoing(s, c) == s.take(p).push(c) + s.skip(p),
    decreases s.len(),
{
    if s.len() == 0 {
        assert(s.take(p).push(c) + s.skip(p) =~= seq![c]);
    } else if p == s.len() {
        assert(s.take(p) =~= s);
        assert(s.skip(p) =~= Seq::<TransferCandidate>::empty());
        assert(s.take(p).push(c) + s.skip(p) =~= s.push(c));
    } else {
        assert(out_before(c, s[s.len() - 1]));
        lemma_insert_outgoing_at(s.drop_last(), c, p);
        assert(s.drop_last().take(p) =~= s.take(p));
        assert((s.drop_last().take(p).push(c) + s.drop_last().skip(p)).push(s.last()) =~= s.take(
            p,
        ).push(c) + s.skip(p));
    }
}

/// The outgoing movements, sorted by date and id (stable).
fn served_outgoing_exec(candidates: &[TransferCandidate]) -> (r: Vec<TransferCandidate>)
    requires
        candidates_ok(candidates@),
    ensures
        r@ == served_outgoing(candidates@),
        candidates_ok(r@),
        forall|k: int| 0 <= k < r@.len() ==> (#[trigger] r@[k]).amount.0 < 0,
{
    let ghost cs = candidates@;
    let mut ordered: Vec<TransferCandidate> = Vec::new();
    let mut i: usize = 0;
    assert(cs.take(0) =~= Seq::<TransferCandidate>::empty());
    while i < candidates.len()
        invariant
            i <= candidates.len(),
            cs == candidates@,
            candidates_ok(cs),
            ordered@ == sort_outgoing(outgoing_of(cs.take(i as int))),
            candidates_ok(ordered@),
            forall|k: int| 0 <= k < ordered@.len() ==> (#[trigger] ordered@[k]).amount.0 < 0,
        decreases candidates.len() - i,
    {
        let c = candidates[i];
        assert(cs.take(i + 1).drop_last() =~= cs.take(i as int));
        assert(cs.take(i + 1).last() == c);
        if c.amount.0 < 0 {
            let ghost before = ordered@;
            let mut p: usize = ordered.len();
            while p > 0 && out_before_exec(&c, &ordered[p - 1])
                invariant
                    p <= ordered.len(),
                    ordered@ == before,
                    forall|j: int| p <= j < ordered.len() ==> out_before(c, #[trigger] ordered@[j]),
                decreases p,
            {
                p = p - 1;
            }
            proof {
                lemma_insert_outgoing_at(before, c, p as int);
                let o = outgoing_of(cs.take(i as int));
                assert(outgoing_of(cs.take(i + 1)) == o.push(c));
                assert(o.push(c).drop_last() =~= o);
            }
            ordered.insert(p, c);
            assert(ordered@ =~= before.take(p as int).push(c) + before.skip(p as int));
            assert(candidate_ok(cs[i as int]));
            assert forall|k: int| 0 <= k < ordered@.len() implies candidate_ok(#[trigger] ordered@[k])
                && ordered@[k].amount.0 < 0 by {
                if k < p {
                    assert(ordered@[k] == before[k]);
                } else if k > p {
                    assert(ordered@[k] == before[k - 1]);
                }
            }
        }
        i = i + 1;
    }
    assert(cs.take(i as int) =~= cs);
    ordered
}

/// The incoming movements, in input order.
fn incoming_exec(candidates: &[TransferCandidate]) -> (r: Vec<TransferCandidate>)
    requires
        candidates_ok(candidates@),
    ensures
        r@ == incoming_of(candidates@),
        candidates_ok(r@),
{
    let ghost cs = candidates@;
    let mut incoming: Vec<TransferCandidate> = Vec::new();
    let mut i: usize = 0;
    assert(cs.take(0) =~= Seq::<TransferCandidate>::empty());
    while i < candidates.len()
        invariant
            i <= candidates.len(),
            cs == candidates@,
            candidates_ok(cs),
            incoming@ == incoming_of(cs.take(i as int)),
            candidates_ok(incoming@),
        decreases candidates.len() - i,
    {
        let c = candidates[i];
        assert(cs.take(i + 1).drop_last() =~= cs.take(i as int));
        assert(cs.take(i + 1).last() == c);
        assert(candidate_ok(cs[i as int]));
        if c.amount.0 > 0 {
            incoming.push(c);
        }
        i = i + 1;
    }
    assert(cs.take(i as int) =~= cs);
    incoming
}

/// Days between two dates, whichever comes first.
fn gap_exec(incoming: &TransferCandidate, outgoing: &TransferCandidate) -> (r: i128)
    requires
        candidate_ok(*incoming),
        candidate_ok(*outgoing),
    ensures
        r == gap_days(*incoming, *outgoing),
{
    let d = days_between(&incoming.booked_on, &outgoing.booked_on) as i128;
    if d < 0 {
        -d
    } else {
        d
    }
}

proof fn lemma_best_unique(
    inc: Seq<TransferCandidate>,
    taken: Set<int>,
    out: TransferCandidate,
    window: int,
    j: int,
)
    requires
        is_best(inc, taken, out, window, j),
    ensures
        best_match(inc, taken, out, window) == Some(j),
{
    let c = choose|x: int| is_best(inc, taken, out, window, x);
    assert(is_best(inc, taken, out, window, c));
    assert(fits(inc, taken, out, window, j));
    assert(fits(inc, taken, out, window, c));
    assert(ranks_no_later(inc, out, c, j));
    assert(ranks_no_later(inc, out, j, c));
}

/// Position of the partner of `out` among `incoming`, if any fits.
fn best_incoming(
    incoming: &Vec<TransferCandidate>,
    taken: &Vec<bool>,
    out: &TransferCandidate,
    window_days: i64,
    Ghost(used): Ghost<Set<int>>,
) -> (r: Option<usize>)
    requires
        candidates_ok(incoming@),
        candidate_ok(*out),
        taken@.len() == incoming@.len(),
        forall|k: int| 0 <= k < taken@.len() ==> taken@[k] == used.contains(k),
    ensures
        match r {
            Some(j) => best_match(incoming@, used, *out, window_days as int) == Some(j as int),
            None => best_match(incoming@, used, *out, window_days as int) is None,
        },
{
    let ghost inc = incoming@;
    let ghost w = window_days as int;
    let mut best: Option<usize> = None;
    let mut best_gap: i128 = 0;
    let mut best_id: i64 = 0;
    let wanted = -out.amount.0;
    let mut k: usize = 0;
    while k < incoming.len()
        invariant
            k <= incoming.len(),
            inc == incoming@,
            w == window_days as int,
            candidates_ok(inc),
            candidate_ok(*out),
            wanted == -out.amount.0,
            taken@.len() == inc.len(),
            forall|x: int| 0 <= x < taken@.len() ==> taken@[x] == used.contains(x),
            match best {
                None => forall|x: int| 0 <= x < k ==> !fits(inc, used, *out, w, x),
                Some(b) => {
                    &&& b < k
                    &&& fits(inc, used, *out, w, b as int)
                    &&& best_gap == gap_days(inc[b as int], *out)
                    &&& best_id == inc[b as int].id.0
                    &&& forall|x: int|
                        0 <= x < k && #[trigger] fits(inc, used, *out, w, x) ==> ranks_no_later(
                            inc,
                            *out,
                            b as int,
                            x,
                        )
                },
            },
        decreases incoming.len() - k,
    {
        let c = &incoming[k];
        assert(candidate_ok(inc[k as int]));
        let mut candidate_fits = false;
        let mut g: i128 = 0;
        if !taken[k] && c.amount.0 == wanted && c.account_id.0 != out.account_id.0 {
            g = gap_exec(c, out);
            candidate_fits = g <= window_days as i128;
        }
        assert(candidate_fits == fits(inc, used, *out, w, k as int));
        if candidate_fits {
            let better = match best {
                None => true,
                Some(_) => g < best_gap || (g == best_gap && c.id.0 < best_id),
            };
            if better {
                proof {
                    assert forall|x: int|
                        0 <= x < k + 1 && #[trigger] fits(inc, used, *out, w, x) implies ranks_no_later(
                        inc,
                        *out,
                        k as int,
                        x,
                    ) by {
                        if x < k {
                            let b = best->0;
                            assert(ranks_no_later(inc, *out, b as int, x));
                        }
                    }
                }
                best = Some(k);
                best_gap = g;
                best_id = c.id.0;
            } else {
                proof {
                    let b = best->0;
                    assert(ranks_no_later(inc, *out, b as int, k as int));
                }
            }
        }
        k = k + 1;
    }
    match best {
        Some(b) => {
            proof {
                assert(is_best(inc, used, *out, w, b as int));
                lemma_best_unique(inc, used, *out, w, b as int);
            }
            Some(b)
        },
        None => {
            proof {
                assert(!exists|j: int| is_best(inc, used, *out, w, j));
            }
            None
        },
    }
}

/// Pairs outgoing with incoming movements: the same amount with the opposite
/// sign, different accounts and at most `window_days` apart.
///
/// Each movement enters at most one pair. Outgoing movements are served by
/// date and id; when several incoming movements fit the same outgoing one, the
/// closest in time wins, and among equally close ones the smaller id.
pub fn pair_transfers(candidates: &[TransferCandidate], window_days: i64) -> (r: Vec<
    (TransactionId, TransactionId),
>)
    requires
        candidates_ok(candidates@),
    ensures
        r@ == transfer_pairs(candidates@, window_days as int),
{
    let outgoing = served_outgoing_exec(candidates);
    let incoming = incoming_exec(candidates);
    let ghost outs = outgoing@;
    let ghost inc = incoming@;
    let ghost w = window_days as int;
    let mut taken: Vec<bool> = Vec::new();
    let mut t: usize = 0;
    while t < incoming.len()
        invariant
            t <= incoming.len(),
            taken@.len() == t,
            forall|x: int| 0 <= x < t ==> !taken@[x],
        decreases incoming.len() - t,
    {
        taken.push(false);
        t = t + 1;
    }
    let mut pairs: Vec<(TransactionId, TransactionId)> = Vec::new();
    let mut i: usize = 0;
    assert(outs.take(0) =~= Seq::<TransferCandidate>::empty());
    assert(pair_ids(outs, inc, Seq::empty()) =~= Seq::<(TransactionId, TransactionId)>::empty());
    while i < outgoing.len()
        invariant
            i <= outgoing.len(),
            outs == outgoing@,
            inc == incoming@,
            w == window_days as int,
            candidates_ok(outs),
            candidates_ok(inc),
            taken@.len() == inc.len(),
            forall|x: int|
                0 <= x < taken@.len() ==> taken@[x] == pairing(outs.take(i as int), inc, w).0.contains(x),
            pairs@ == pair_ids(outs, inc, pairing(outs.take(i as int), inc, w).1),
            forall|p: int|
                0 <= p < pairing(outs.take(i as int), inc, w).1.len() ==> {
                    let e = #[trigger] pairing(outs.take(i as int), inc, w).1[p];
                    0 <= e.0 < i && 0 <= e.1 < inc.len()
                },
        decreases outgoing.len() - i,
    {
        let out = &outgoing[i];
        let ghost prev = pairing(outs.take(i as int), inc, w);
        assert(outs.take(i + 1).drop_last() =~= outs.take(i as int));
        assert(outs.take(i + 1).last() == outs[i as int]);
        assert(candidate_ok(outs[i as int]));
        let chosen = best_incoming(&incoming, &taken, out, window_days, Ghost(prev.0));
        match chosen {
            Some(j) => {
                proof {
                    assert(fits(inc, prev.0, outs[i as int], w, j as int)) by {
                        let c = choose|x: int| is_best(inc, prev.0, outs[i as int], w, x);
                        assert(is_best(inc, prev.0, outs[i as int], w, c));
                    }
                }
                taken.set(j, true);
                pairs.push((out.id, incoming[j].id));
                proof {
                    let now = pairing(outs.take(i + 1), inc, w);
                    assert(now.1 == prev.1.push((i as int, j as int)));
                    assert(pairs@ =~= pair_ids(outs, inc, now.1));
                }
            },
            None => {},
        }
        i = i + 1;
    }
    assert(outs.take(i as int) =~= outs);
    pairs
}

/// Whether the stored setting switches detection on. Absent is off: the app
/// does not change what the widgets show unless the user asks.
pub fn detection_enabled(setting: Option<&str>) -> (r: bool)
    ensures
        r == (setting matches Some(s) && s@ == "true"@),
{
    match setting {
        Some(s) => crate::text::str_eq(s, "true"),
        None => false,
    }
}

/// The text the setting is stored as.
pub open spec fn setting_text(enabled: bool) -> Seq<char> {
    if enabled {
        "true"@
    } else {
        "false"@
    }
}

/// Reading the stored setting back gives the switch that was stored.
pub proof fn lemma_setting_reads_back(enabled: bool)
    ensures
        (setting_text(enabled) == "true"@) == enabled,
{
    reveal_strlit("true");
    reveal_strlit("false");
    assert("true"@.len() != "false"@.len());
}

/// The stored form of the setting.
pub fn detection_setting(enabled: bool) -> (r: &'static str)
    ensures
        r@ == setting_text(enabled),
{
    if enabled {
        "true"
    } else {
        "false"
    }
}

// ---------------------------------------------------------------------------
// Stored links
// ---------------------------------------------------------------------------

/// The two sides of a transfer, as the settings list shows them.
#[derive(Debug, Clone, PartialEq, Eq)]
pub struct TransferLink {
    pub id: TransferLinkId,
    pub dismissed: bool,
    pub outgoing_id: TransactionId,
    pub incoming_id: TransactionId,
    /// Date of the outgoing side: the one the list is ordered by.
    pub booked_on: Date,
    /// Days between the two sides. The larger, the less evident the pair.
    pub day_gap: i64,
    /// The amount moved, positive.
    pub amount: Money,
    pub from_account: String,
    pub to_account: String,
    pub outgoing_description: String,
    pub incoming_description: String,
}

/// A stored link joined with its two movements, as the columns hold it.
#[derive(Debug, Clone, PartialEq, Eq)]
pub struct TransferLinkRow {
    pub id: i64,
    pub dismissed: i64,
    pub outgoing_id: i64,
    pub incoming_id: i64,
    pub outgoing_date: String,
    pub incoming_date: String,
    pub outgoing_amount: i64,
    pub from_account: String,
    pub to_account: String,
    pub outgoing_description: String,
    pub incoming_description: String,
}

/// The link a stored row describes: the gap in days between its sides and
/// the magnitude moved. A date that does not read back is corrupt data, the
/// outgoing one checked first.
pub fn transfer_link_from_row(row: &TransferLinkRow) -> (r: Result<TransferLink, StorageError>)
    requires
        row.outgoing_amount != i64::MIN,
    ensures
        match stored_date(row.outgoing_date@) {
            None => r matches Err(e) && is_corrupt(e, "date"@, row.outgoing_date@),
            Some(out) => match stored_date(row.incoming_date@) {
                None => r matches Err(e) && is_corrupt(e, "date"@, row.incoming_date@),
                Some(inc) => r matches Ok(link) && link.id == TransferLinkId(row.id) && link.dismissed
                    == (row.dismissed != 0) && link.outgoing_id == TransactionId(row.outgoing_id)
                    && link.incoming_id == TransactionId(row.incoming_id) && link.booked_on == out
                    && link.day_gap == abs_int(day_difference(inc, out)) && link.amount.0 == abs_int(
                    row.outgoing_amount as int,
                ) && link.from_account@ == row.from_account@ && link.to_account@
                    == row.to_account@ && link.outgoing_description@ == row.outgoing_description@
                    && link.incoming_description@ == row.incoming_description@,
            },
        },
{
    let booked_on = match parse_date(row.outgoing_date.as_str()) {
        Ok(d) => d,
        Err(e) => return Err(e),
    };
    let incoming_on = match parse_date(row.incoming_date.as_str()) {
        Ok(d) => d,
        Err(e) => return Err(e),
    };
    let days = days_between(&incoming_on, &booked_on);
    let day_gap = if days < 0 {
        -days
    } else {
        days
    };
    let amount = if row.outgoing_amount < 0 {
        -row.outgoing_amount
    } else {
        row.outgoing_amount
    };
    Ok(
        TransferLink {
            id: TransferLinkId(row.id),
            dismissed: row.dismissed != 0,
            outgoing_id: TransactionId(row.outgoing_id),
            incoming_id: TransactionId(row.incoming_id),
            booked_on,
            day_gap,
            amount: Money::from_minor_units(amount),
            from_account: crate::text::string_from_str(row.from_account.as_str()),
            to_account: crate::text::string_from_str(row.to_account.as_str()),
            outgoing_description: crate::text::string_from_str(row.outgoing_description.as_str()),
            incoming_description: crate::text::string_from_str(row.incoming_description.as_str()),
        },
    )
}

/// A stored movement not yet paired, as a candidate; a date that does not
/// read back is corrupt data.
pub fn candidate_from_row(id: i64, account_id: i64, booked_on: &str, amount: i64) -> (r: Result<
    TransferCandidate,
    StorageError,
>)
    ensures
        match stored_date(booked_on@) {
            None => r matches Err(e) && is_corrupt(e, "date"@, booked_on@),
            Some(d) => r == Ok::<TransferCandidate, StorageError>(
                TransferCandidate {
                    id: TransactionId(id),
                    account_id: AccountId(account_id),
                    booked_on: d,
                    amount: Money(amount),
                },
            ),
        },
        r matches Ok(c) ==> chrono_date(c.booked_on),
{
    match parse_date(booked_on) {
        Ok(d) => Ok(
            TransferCandidate {
                id: TransactionId(id),
                account_id: AccountId(account_id),
                booked_on: d,
                amount: Money::from_minor_units(amount),
            },
        ),
        Err(e) => Err(e),
    }
}

} // verus!
