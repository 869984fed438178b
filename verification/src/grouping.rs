//! Grouping the pending movements by merchant.
//!
//! Asking the model movement by movement does not scale, but thousands of
//! pending movements are a few hundred repeated merchants, and accepting a
//! suggestion learns the rule that files the whole group. So the model is
//! shown one representative per merchant, the groups that move the most
//! movements first.
use vstd::prelude::*;

use crate::domain::{
    normalize_description, normalized_description, opt_text, same_transaction, Transaction,
};
use crate::learning::{suggest_pattern, suggested_pattern};
use crate::money::{decimal_digits, magnitude, push_decimal};
use crate::text::{chars_of, push_char, string_from_chars};

verus! {

/// Pending movements that share a merchant.
#[derive(Debug, Clone, PartialEq, Eq)]
pub struct PendingGroup {
    /// The pattern the rule would learn on accepting the suggestion; also the
    /// key of the group, so one rule covers it whole.
    pub pattern: String,
    /// The movement shown to the model on behalf of the group.
    pub representative: Transaction,
    /// How many pending movements it covers.
    pub count: usize,
}

// ---------------------------------------------------------------------------
// Specification
// ---------------------------------------------------------------------------

/// Decimal text of an integer, with a minus sign when negative.
pub open spec fn int_text(v: int) -> Seq<char> {
    if v < 0 {
        seq!['-'] + decimal_digits(magnitude(v))
    } else {
        decimal_digits(v as nat)
    }
}

/// The key of a movement's group: the pattern its rule would learn; the
/// normalised description when there is none; and when even that is empty,
/// the movement goes alone under its id (grouping all of them under an empty
/// key would drag unrelated movements along with one suggestion).
pub open spec fn group_key_of(t: Transaction) -> Seq<char> {
    match suggested_pattern(t.description@, opt_text(t.counterparty)) {
        Some(p) => p,
        None => {
            let n = normalized_description(t.description@);
            if n.len() == 0 {
                seq!['#'] + int_text(t.id.0 as int)
            } else {
                n
            }
        },
    }
}

pub open spec fn keys_of(ts: Seq<Transaction>) -> Seq<Seq<char>> {
    ts.map_values(|t: Transaction| group_key_of(t))
}

/// A group while gathering: key, position of its first movement, count.
pub type GroupSpec = (Seq<char>, int, nat);

/// Position of the group with `key`, if there is one.
pub open spec fn key_position(groups: Seq<GroupSpec>, key: Seq<char>) -> Option<int>
    decreases groups.len(),
{
    if groups.len() == 0 {
        None
    } else {
        match key_position(groups.drop_last(), key) {
            Some(p) => Some(p),
            None => if groups.last().0 == key {
                Some(groups.len() - 1)
            } else {
                None
            },
        }
    }
}

/// The groups of `keys`, in order of first appearance.
pub open spec fn gather(keys: Seq<Seq<char>>) -> Seq<GroupSpec>
    decreases keys.len(),
{
    if keys.len() == 0 {
        Seq::empty()
    } else {
        let g = gather(keys.drop_last());
        let k = keys.last();
        match key_position(g, k) {
            Some(p) => g.update(p, (g[p].0, g[p].1, g[p].2 + 1)),
            None => g.push((k, keys.len() - 1, 1)),
        }
    }
}

/// Lexicographic order of texts, character by character (the order of
/// `String`).
pub open spec fn text_less(a: Seq<char>, b: Seq<char>) -> bool
    decreases a.len(),
{
    if a.len() == 0 {
        b.len() > 0
    } else if b.len() == 0 {
        false
    } else if a[0] != b[0] {
        a[0] < b[0]
    } else {
        text_less(a.drop_first(), b.drop_first())
    }
}

/// Presentation order: more movements first, then alphabetical, so that two
/// calls in a row propose the same thing.
pub open spec fn group_before(a: GroupSpec, b: GroupSpec) -> bool {
    a.2 > b.2 || (a.2 == b.2 && text_less(a.0, b.0))
}

pub open spec fn insert_group(s: Seq<GroupSpec>, g: GroupSpec) -> Seq<GroupSpec>
    decreases s.len(),
{
    if s.len() == 0 {
        seq![g]
    } else if group_before(g, s.last()) {
        insert_group(s.drop_last(), g).push(s.last())
    } else {
        s.push(g)
    }
}

pub open spec fn sort_groups(s: Seq<GroupSpec>) -> Seq<GroupSpec>
    decreases s.len(),
{
    if s.len() == 0 {
        Seq::empty()
    } else {
        insert_group(sort_groups(s.drop_last()), s.last())
    }
}

/// The groups of the pending movements `ts`, in presentation order.
pub open spec fn pending_groups(ts: Seq<Transaction>) -> Seq<GroupSpec> {
    sort_groups(gather(keys_of(ts)))
}

/// How many of `keys` are `key`.
pub open spec fn occurrences(keys: Seq<Seq<char>>, key: Seq<char>) -> nat
    decreases keys.len(),
{
    if keys.len() == 0 {
        0
    } else {
        occurrences(keys.drop_last(), key) + if keys.last() == key {
            1nat
        } else {
            0nat
        }
    }
}

pub open spec fn groups_sorted(s: Seq<GroupSpec>) -> bool {
    forall|i: int, j: int| 0 <= i < j < s.len() ==> !group_before(#[trigger] s[j], #[trigger] s[i])
}

// ---------------------------------------------------------------------------
// Laws
// ---------------------------------------------------------------------------

proof fn lemma_text_less_irreflexive(a: Seq<char>)
    ensures
        !text_less(a, a),
    decreases a.len(),
{
    if a.len() > 0 {
        lemma_text_less_irreflexive(a.drop_first());
    }
}

proof fn lemma_text_less_asymmetric(a: Seq<char>, b: Seq<char>)
    ensures
        !(text_less(a, b) && text_less(b, a)),
    decreases a.len(),
{
    if a.len() > 0 && b.len() > 0 && a[0] == b[0] {
        lemma_text_less_asymmetric(a.drop_first(), b.drop_first());
    }
}

proof fn lemma_text_less_total(a: Seq<char>, b: Seq<char>)
    ensures
        a != b ==> text_less(a, b) || text_less(b, a),
    decreases a.len(),
{
    if a.len() > 0 && b.len() > 0 && a[0] == b[0] {
        lemma_text_less_total(a.drop_first(), b.drop_first());
        if a.drop_first() == b.drop_first() {
            assert(a =~= seq![a[0]] + a.drop_first());
            assert(b =~= seq![b[0]] + b.drop_first());
        }
    } else if a.len() == 0 && b.len() == 0 {
        assert(a =~= b);
    }
}

proof fn lemma_text_less_transitive(a: Seq<char>, b: Seq<char>, c: Seq<char>)
    requires
        text_less(a, b),
        text_less(b, c),
    ensures
        text_less(a, c),
    decreases a.len(),
{
    if a.len() > 0 && b.len() > 0 && c.len() > 0 && a[0] == b[0] && b[0] == c[0] {
        lemma_text_less_transitive(a.drop_first(), b.drop_first(), c.drop_first());
    }
}

/// Presentation order is a strict total order on (count, key).
proof fn lemma_group_before_order(a: GroupSpec, b: GroupSpec, c: GroupSpec)
    ensures
        !group_before(a, a),
        !(group_before(a, b) && group_before(b, a)),
        !group_before(a, b) && !group_before(b, a) ==> a.2 == b.2 && a.0 == b.0,
        group_before(a, b) && group_before(b, c) ==> group_before(a, c),
{
    lemma_text_less_irreflexive(a.0);
    lemma_text_less_asymmetric(a.0, b.0);
    lemma_text_less_total(a.0, b.0);
    if a.2 == b.2 && b.2 == c.2 && text_less(a.0, b.0) && text_less(b.0, c.0) {
        lemma_text_less_transitive(a.0, b.0, c.0);
    }
}

proof fn lemma_insert_group_facts(s: Seq<GroupSpec>, g: GroupSpec)
    requires
        groups_sorted(s),
    ensures
        insert_group(s, g).len() == s.len() + 1,
        groups_sorted(insert_group(s, g)),
        forall|k: int|
            0 <= k < insert_group(s, g).len() ==> s.contains(#[trigger] insert_group(s, g)[k])
                || insert_group(s, g)[k] == g,
        insert_group(s, g).contains(g),
        forall|k: int| 0 <= k < s.len() ==> insert_group(s, g).contains(#[trigger] s[k]),
        s.no_duplicates() && !s.contains(g) ==> insert_group(s, g).no_duplicates(),
    decreases s.len(),
{
    if s.len() == 0 {
        assert(insert_group(s, g) == seq![g]);
        assert(insert_group(s, g)[0] == g);
    } else if group_before(g, s.last()) {
        let prefix = s.drop_last();
        let last = s.last();
        assert(groups_sorted(prefix)) by {
            assert forall|i: int, j: int| 0 <= i < j < prefix.len() implies !group_before(
                #[trigger] prefix[j],
                #[trigger] prefix[i],
            ) by {
                assert(prefix[i] == s[i] && prefix[j] == s[j]);
            }
        }
        lemma_insert_group_facts(prefix, g);
        let q = insert_group(prefix, g);
        let n = q.push(last);
        assert(s[s.len() - 1] == last);
        assert forall|k: int| 0 <= k < n.len() implies s.contains(#[trigger] n[k]) || n[k] == g by {
            if k < q.len() {
                assert(n[k] == q[k]);
                if prefix.contains(q[k]) {
                    let a = choose|a: int| 0 <= a < prefix.len() && prefix[a] == q[k];
                    assert(s[a] == q[k]);
                }
            }
        }
        assert forall|i: int| 0 <= i < q.len() implies !group_before(last, #[trigger] q[i]) by {
            lemma_group_before_order(last, q[i], g);
            if q[i] != g {
                assert(prefix.contains(q[i]));
                let a = choose|a: int| 0 <= a < prefix.len() && prefix[a] == q[i];
                assert(s[a] == prefix[a]);
                assert(!group_before(s[s.len() - 1], s[a]));
            }
        }
        assert forall|i: int, j: int| 0 <= i < j < n.len() implies !group_before(
            #[trigger] n[j],
            #[trigger] n[i],
        ) by {
            if j < q.len() {
                assert(n[j] == q[j] && n[i] == q[i]);
            } else {
                assert(n[i] == q[i]);
            }
        }
        assert(q.contains(g));
        let w = choose|w: int| 0 <= w < q.len() && q[w] == g;
        assert(n[w] == g);
        assert forall|k: int| 0 <= k < s.len() implies n.contains(#[trigger] s[k]) by {
            if k < prefix.len() {
                assert(prefix[k] == s[k]);
                assert(q.contains(prefix[k]));
                let w2 = choose|w2: int| 0 <= w2 < q.len() && q[w2] == prefix[k];
                assert(n[w2] == s[k]);
            } else {
                assert(n[q.len() as int] == s[k]);
            }
        }
        if s.no_duplicates() && !s.contains(g) {
            assert(prefix.no_duplicates()) by {
                assert forall|i: int, j: int| 0 <= i < prefix.len() && 0 <= j < prefix.len() && i != j implies prefix[i] != prefix[j] by {
                    assert(prefix[i] == s[i] && prefix[j] == s[j]);
                }
            }
            assert(!prefix.contains(g)) by {
                if prefix.contains(g) {
                    let a = choose|a: int| 0 <= a < prefix.len() && prefix[a] == g;
                    assert(s[a] == g);
                }
            }
            assert forall|k: int| 0 <= k < q.len() implies q[k] != last by {
                if prefix.contains(q[k]) {
                    let a = choose|a: int| 0 <= a < prefix.len() && prefix[a] == q[k];
                    assert(s[a] == q[k]);
                } else {
                    assert(q[k] == g);
                }
            }
            assert forall|i: int, j: int| 0 <= i < n.len() && 0 <= j < n.len() && i != j implies n[i] != n[j] by {
                if i < q.len() && j < q.len() {
                    assert(n[i] == q[i] && n[j] == q[j]);
                } else if i < q.len() {
                    assert(n[i] == q[i]);
                } else {
                    assert(n[j] == q[j]);
                }
            }
        }
    } else {
        let n = s.push(g);
        assert(s[s.len() - 1] == s.last());
        assert forall|k: int| 0 <= k < n.len() implies s.contains(#[trigger] n[k]) || n[k] == g by {
            if k < s.len() {
                assert(n[k] == s[k]);
            }
        }
        assert forall|i: int, j: int| 0 <= i < j < n.len() implies !group_before(
            #[trigger] n[j],
            #[trigger] n[i],
        ) by {
            if j < s.len() {
                assert(n[j] == s[j] && n[i] == s[i]);
            } else {
                assert(n[i] == s[i]);
                lemma_group_before_order(g, s[i], s.last());
                lemma_group_before_order(s.last(), s[i], g);
                lemma_group_before_order(g, s.last(), s[i]);
                if i < s.len() - 1 {
                    assert(!group_before(s[s.len() - 1], s[i]));
                }
            }
        }
        assert(n[s.len() as int] == g);
        assert forall|k: int| 0 <= k < s.len() implies n.contains(#[trigger] s[k]) by {
            assert(n[k] == s[k]);
        }
        if s.no_duplicates() && !s.contains(g) {
            assert forall|i: int, j: int| 0 <= i < n.len() && 0 <= j < n.len() && i != j implies n[i] != n[j] by {
                if i < s.len() && j < s.len() {
                    assert(n[i] == s[i] && n[j] == s[j]);
                } else if i < s.len() {
                    assert(n[i] == s[i]);
                } else {
                    assert(n[j] == s[j]);
                }
            }
        }
    }
}

proof fn lemma_sort_groups_facts(s: Seq<GroupSpec>)
    ensures
        sort_groups(s).len() == s.len(),
        groups_sorted(sort_groups(s)),
        forall|k: int| 0 <= k < sort_groups(s).len() ==> s.contains(#[trigger] sort_groups(s)[k]),
        forall|k: int| 0 <= k < s.len() ==> sort_groups(s).contains(#[trigger] s[k]),
        s.no_duplicates() ==> sort_groups(s).no_duplicates(),
    decreases s.len(),
{
    if s.len() > 0 {
        let prefix = s.drop_last();
        lemma_sort_groups_facts(prefix);
        let q = sort_groups(prefix);
        lemma_insert_group_facts(q, s.last());
        let n = sort_groups(s);
        assert(s[s.len() - 1] == s.last());
        assert forall|k: int| 0 <= k < n.len() implies s.contains(#[trigger] n[k]) by {
            if q.contains(n[k]) {
                let a = choose|a: int| 0 <= a < q.len() && q[a] == n[k];
                assert(prefix.contains(q[a]));
                let b = choose|b: int| 0 <= b < prefix.len() && prefix[b] == q[a];
                assert(s[b] == n[k]);
            }
        }
        assert forall|k: int| 0 <= k < s.len() implies n.contains(#[trigger] s[k]) by {
            if k < prefix.len() {
                assert(prefix[k] == s[k]);
                assert(q.contains(prefix[k]));
                let a = choose|a: int| 0 <= a < q.len() && q[a] == prefix[k];
                assert(n.contains(q[a]));
            }
        }
        if s.no_duplicates() {
            assert(prefix.no_duplicates()) by {
                assert forall|i: int, j: int| 0 <= i < prefix.len() && 0 <= j < prefix.len() && i != j implies prefix[i] != prefix[j] by {
                    assert(prefix[i] == s[i] && prefix[j] == s[j]);
                }
            }
            assert(!q.contains(s.last())) by {
                if q.contains(s.last()) {
                    let a = choose|a: int| 0 <= a < q.len() && q[a] == s.last();
                    assert(prefix.contains(q[a]));
                    let b = choose|b: int| 0 <= b < prefix.len() && prefix[b] == q[a];
                    assert(s[b] == s[s.len() - 1]);
                }
            }
        }
    }
}

proof fn lemma_key_position_facts(g: Seq<GroupSpec>, key: Seq<char>)
    ensures
        match key_position(g, key) {
            Some(p) => 0 <= p < g.len() && g[p].0 == key,
            None => forall|q: int| 0 <= q < g.len() ==> (#[trigger] g[q]).0 != key,
        },
    decreases g.len(),
{
    if g.len() > 0 {
        lemma_key_position_facts(g.drop_last(), key);
        assert forall|q: int| 0 <= q < g.len() - 1 implies g[q] == g.drop_last()[q] by {}
    }
}

proof fn lemma_occurrences_absent(keys: Seq<Seq<char>>, key: Seq<char>)
    requires
        forall|i: int| 0 <= i < keys.len() ==> keys[i] != key,
    ensures
        occurrences(keys, key) == 0,
    decreases keys.len(),
{
    if keys.len() > 0 {
        lemma_occurrences_absent(keys.drop_last(), key);
    }
}

/// `e` sits at the first of `keys` equal to its key.
pub open spec fn at_first_occurrence(keys: Seq<Seq<char>>, e: GroupSpec) -> bool {
    &&& 0 <= e.1 < keys.len()
    &&& keys[e.1] == e.0
    &&& forall|j: int| 0 <= j < e.1 ==> keys[j] != e.0
}

pub open spec fn keys_distinct(g: Seq<GroupSpec>) -> bool {
    forall|p: int, q: int| 0 <= p < q < g.len() ==> (#[trigger] g[p]).0 != (#[trigger] g[q]).0
}

pub open spec fn covers(g: Seq<GroupSpec>, keys: Seq<Seq<char>>) -> bool {
    forall|i: int|
        #![trigger keys[i]]
        0 <= i < keys.len() ==> exists|p: int| 0 <= p < g.len() && (#[trigger] g[p]).0 == keys[i]
}

proof fn lemma_gather_distinct_and_covering(keys: Seq<Seq<char>>)
    ensures
        keys_distinct(gather(keys)),
        covers(gather(keys), keys),
    decreases keys.len(),
{
    if keys.len() > 0 {
        let prefix = keys.drop_last();
        let k = keys.last();
        lemma_gather_distinct_and_covering(prefix);
        let g = gather(prefix);
        let n = gather(keys);
        lemma_key_position_facts(g, k);
        assert(keys[keys.len() - 1] == k);
        match key_position(g, k) {
            Some(p) => {
                assert(n == g.update(p, (g[p].0, g[p].1, g[p].2 + 1)));
                assert forall|a: int, b: int| 0 <= a < b < n.len() implies (#[trigger] n[a]).0 != (
                #[trigger] n[b]).0 by {
                    assert(n[a].0 == g[a].0 && n[b].0 == g[b].0);
                }
                assert forall|i: int| #![trigger keys[i]] 0 <= i < keys.len() implies exists|r: int|
                    0 <= r < n.len() && (#[trigger] n[r]).0 == keys[i] by {
                    if i < prefix.len() {
                        assert(prefix[i] == keys[i]);
                        let r = choose|r: int| 0 <= r < g.len() && (#[trigger] g[r]).0 == prefix[i];
                        assert(n[r].0 == g[r].0);
                    } else {
                        assert(n[p].0 == k);
                    }
                }
            },
            None => {
                assert(n == g.push((k, keys.len() - 1, 1nat)));
                assert forall|a: int, b: int| 0 <= a < b < n.len() implies (#[trigger] n[a]).0 != (
                #[trigger] n[b]).0 by {
                    assert(n[a] == g[a]);
                    if b < g.len() {
                        assert(n[b] == g[b]);
                    }
                }
                assert forall|i: int| #![trigger keys[i]] 0 <= i < keys.len() implies exists|r: int|
                    0 <= r < n.len() && (#[trigger] n[r]).0 == keys[i] by {
                    if i < prefix.len() {
                        assert(prefix[i] == keys[i]);
                        let r = choose|r: int| 0 <= r < g.len() && (#[trigger] g[r]).0 == prefix[i];
                        assert(n[r] == g[r]);
                    } else {
                        assert(n[g.len() as int].0 == k);
                    }
                }
            },
        }
    }
}

/// A key with no group does not occur among the keys gathered.
proof fn lemma_absent_key(keys: Seq<Seq<char>>, k: Seq<char>)
    requires
        key_position(gather(keys), k) is None,
    ensures
        forall|i: int| 0 <= i < keys.len() ==> keys[i] != k,
        occurrences(keys, k) == 0,
{
    lemma_gather_distinct_and_covering(keys);
    lemma_key_position_facts(gather(keys), k);
    let g = gather(keys);
    assert forall|i: int| 0 <= i < keys.len() implies keys[i] != k by {
        if keys[i] == k {
            let r = choose|r: int| 0 <= r < g.len() && (#[trigger] g[r]).0 == keys[i];
            assert(g[r].0 != k);
        }
    }
    lemma_occurrences_absent(keys, k);
}

proof fn lemma_gather_first(keys: Seq<Seq<char>>)
    ensures
        forall|p: int|
            0 <= p < gather(keys).len() ==> at_first_occurrence(keys, #[trigger] gather(keys)[p]),
    decreases keys.len(),
{
    if keys.len() > 0 {
        let prefix = keys.drop_last();
        let k = keys.last();
        lemma_gather_first(prefix);
        let g = gather(prefix);
        let n = gather(keys);
        assert(keys[keys.len() - 1] == k);
        lemma_key_position_facts(g, k);
        match key_position(g, k) {
            Some(p) => {
                assert(n == g.update(p, (g[p].0, g[p].1, g[p].2 + 1)));
                assert forall|q: int| 0 <= q < n.len() implies at_first_occurrence(keys, #[trigger] n[q]) by {
                    let e = g[q];
                    assert(at_first_occurrence(prefix, e));
                    assert(prefix[e.1] == keys[e.1]);
                    assert forall|j: int| 0 <= j < e.1 implies keys[j] != e.0 by {
                        assert(prefix[j] == keys[j]);
                    }
                    assert(n[q].0 == e.0 && n[q].1 == e.1);
                }
            },
            None => {
                assert(n == g.push((k, keys.len() - 1, 1nat)));
                lemma_absent_key(prefix, k);
                assert forall|q: int| 0 <= q < n.len() implies at_first_occurrence(keys, #[trigger] n[q]) by {
                    if q < g.len() {
                        let e = g[q];
                        assert(n[q] == e);
                        assert(at_first_occurrence(prefix, e));
                        assert(prefix[e.1] == keys[e.1]);
                        assert forall|j: int| 0 <= j < e.1 implies keys[j] != e.0 by {
                            assert(prefix[j] == keys[j]);
                        }
                    } else {
                        assert forall|j: int| 0 <= j < keys.len() - 1 implies keys[j] != k by {
                            assert(prefix[j] == keys[j]);
                        }
                    }
                }
            },
        }
    }
}

proof fn lemma_gather_counts(keys: Seq<Seq<char>>)
    ensures
        forall|p: int|
            0 <= p < gather(keys).len() ==> (#[trigger] gather(keys)[p]).2 == occurrences(
                keys,
                gather(keys)[p].0,
            ),
    decreases keys.len(),
{
    if keys.len() > 0 {
        let prefix = keys.drop_last();
        let k = keys.last();
        lemma_gather_counts(prefix);
        lemma_gather_distinct_and_covering(prefix);
        let g = gather(prefix);
        let n = gather(keys);
        lemma_key_position_facts(g, k);
        match key_position(g, k) {
            Some(p) => {
                assert(n == g.update(p, (g[p].0, g[p].1, g[p].2 + 1)));
                assert forall|q: int| 0 <= q < n.len() implies (#[trigger] n[q]).2 == occurrences(
                    keys,
                    n[q].0,
                ) by {
                    if q != p {
                        if q < p {
                            assert(g[q].0 != g[p].0);
                        } else {
                            assert(g[p].0 != g[q].0);
                        }
                    }
                }
            },
            None => {
                assert(n == g.push((k, keys.len() - 1, 1nat)));
                lemma_absent_key(prefix, k);
                assert forall|q: int| 0 <= q < n.len() implies (#[trigger] n[q]).2 == occurrences(
                    keys,
                    n[q].0,
                ) by {
                    if q < g.len() {
                        assert(n[q] == g[q]);
                        assert(g[q].0 != k);
                    }
                }
            },
        }
    }
}

/// The groups come in presentation order: none has more movements than an
/// earlier one, and among equally large groups the keys go alphabetically.
pub proof fn lemma_groups_in_presentation_order(ts: Seq<Transaction>)
    ensures
        groups_sorted(pending_groups(ts)),
{
    lemma_sort_groups_facts(gather(keys_of(ts)));
}

/// One group per merchant: no two groups share a key; every pending
/// movement has the group of its key; and each group counts exactly the
/// movements with its key, the first of them as representative.
pub proof fn lemma_one_group_per_merchant(ts: Seq<Transaction>)
    ensures
        forall|p: int, q: int|
            0 <= p < q < pending_groups(ts).len() ==> (#[trigger] pending_groups(ts)[p]).0 != (
            #[trigger] pending_groups(ts)[q]).0,
        forall|i: int|
            #![trigger ts[i]]
            0 <= i < ts.len() ==> exists|p: int|
                0 <= p < pending_groups(ts).len() && (#[trigger] pending_groups(ts)[p]).0
                    == group_key_of(ts[i]),
        forall|p: int|
            0 <= p < pending_groups(ts).len() ==> {
                let g = #[trigger] pending_groups(ts)[p];
                &&& 0 <= g.1 < ts.len()
                &&& group_key_of(ts[g.1]) == g.0
                &&& forall|j: int| 0 <= j < g.1 ==> group_key_of(ts[j]) != g.0
                &&& g.2 == occurrences(keys_of(ts), g.0)
                &&& g.2 >= 1
            },
{
    let keys = keys_of(ts);
    let g = gather(keys);
    let s = pending_groups(ts);
    lemma_sorted_groups_distinct(keys);
    lemma_sorted_groups_cover(ts);
    lemma_sorted_groups_facts(ts);
}

/// The movements the groups hold between them.
pub open spec fn counts_total(groups: Seq<GroupSpec>) -> int
    decreases groups.len(),
{
    if groups.len() == 0 {
        0
    } else {
        counts_total(groups.drop_last()) + groups.last().2
    }
}

proof fn lemma_counts_total_bump(g: Seq<GroupSpec>, p: int)
    requires
        0 <= p < g.len(),
    ensures
        counts_total(g.update(p, (g[p].0, g[p].1, g[p].2 + 1))) == counts_total(g) + 1,
    decreases g.len(),
{
    let u = g.update(p, (g[p].0, g[p].1, g[p].2 + 1));
    if p == g.len() - 1 {
        assert(u.drop_last() =~= g.drop_last());
    } else {
        lemma_counts_total_bump(g.drop_last(), p);
        assert(u.drop_last() =~= g.drop_last().update(p, (g[p].0, g[p].1, g[p].2 + 1)));
    }
}

proof fn lemma_gather_counts_every_key(keys: Seq<Seq<char>>)
    ensures
        counts_total(gather(keys)) == keys.len(),
    decreases keys.len(),
{
    if keys.len() > 0 {
        let g = gather(keys.drop_last());
        lemma_gather_counts_every_key(keys.drop_last());
        lemma_key_position_in_range(g, keys.last());
        match key_position(g, keys.last()) {
            Some(p) => lemma_counts_total_bump(g, p),
            None => {
                assert(g.push((keys.last(), keys.len() - 1, 1nat)).drop_last() =~= g);
            },
        }
    }
}

proof fn lemma_key_position_in_range(g: Seq<GroupSpec>, key: Seq<char>)
    ensures
        key_position(g, key) matches Some(p) ==> 0 <= p < g.len(),
    decreases g.len(),
{
    if g.len() > 0 {
        lemma_key_position_in_range(g.drop_last(), key);
    }
}

proof fn lemma_insert_group_counts(s: Seq<GroupSpec>, g: GroupSpec)
    ensures
        counts_total(insert_group(s, g)) == counts_total(s) + g.2,
    decreases s.len(),
{
    if s.len() > 0 {
        if group_before(g, s.last()) {
            let inner = insert_group(s.drop_last(), g);
            lemma_insert_group_counts(s.drop_last(), g);
            assert(insert_group(s, g) == inner.push(s.last()));
            assert(inner.push(s.last()).drop_last() =~= inner);
            assert(counts_total(inner.push(s.last())) == counts_total(inner) + s.last().2);
        } else {
            assert(insert_group(s, g) == s.push(g));
            assert(s.push(g).drop_last() =~= s);
            assert(counts_total(s.push(g)) == counts_total(s) + g.2);
        }
    } else {
        assert(insert_group(s, g) == seq![g]);
        assert(seq![g].drop_last() =~= Seq::<GroupSpec>::empty());
        assert(counts_total(seq![g]) == counts_total(Seq::<GroupSpec>::empty()) + g.2);
    }
}

proof fn lemma_sort_groups_counts(s: Seq<GroupSpec>)
    ensures
        counts_total(sort_groups(s)) == counts_total(s),
    decreases s.len(),
{
    if s.len() > 0 {
        lemma_sort_groups_counts(s.drop_last());
        lemma_insert_group_counts(sort_groups(s.drop_last()), s.last());
    }
}

/// The groups hold every pending movement exactly once: their counts add
/// up to the number of movements grouped.
pub proof fn lemma_groups_hold_every_movement(ts: Seq<Transaction>)
    ensures
        counts_total(pending_groups(ts)) == ts.len(),
{
    lemma_gather_counts_every_key(keys_of(ts));
    lemma_sort_groups_counts(gather(keys_of(ts)));
}

proof fn lemma_gather_no_duplicates(keys: Seq<Seq<char>>)
    ensures
        gather(keys).no_duplicates(),
        keys_distinct(gather(keys)),
{
    lemma_gather_distinct_and_covering(keys);
    let g = gather(keys);
    assert forall|a: int, b: int| 0 <= a < g.len() && 0 <= b < g.len() && a != b implies g[a] != g[b] by {
        if a < b {
            assert(g[a].0 != g[b].0);
        } else {
            assert(g[b].0 != g[a].0);
        }
    }
}

proof fn lemma_sorted_groups_distinct(keys: Seq<Seq<char>>)
    ensures
        keys_distinct(sort_groups(gather(keys))),
{
    let g = gather(keys);
    let s = sort_groups(g);
    lemma_gather_no_duplicates(keys);
    lemma_sort_groups_facts(g);
    assert forall|p: int, q: int| 0 <= p < q < s.len() implies (#[trigger] s[p]).0 != (#[trigger] s[q]).0 by {
        assert(g.contains(s[p]));
        assert(g.contains(s[q]));
        let a = choose|a: int| 0 <= a < g.len() && g[a] == s[p];
        let b = choose|b: int| 0 <= b < g.len() && g[b] == s[q];
        assert(s[p] != s[q]);
        if a < b {
            assert(g[a].0 != g[b].0);
        } else if b < a {
            assert(g[b].0 != g[a].0);
        }
    }
}

proof fn lemma_sorted_groups_cover(ts: Seq<Transaction>)
    ensures
        forall|i: int|
            #![trigger ts[i]]
            0 <= i < ts.len() ==> exists|p: int|
                0 <= p < pending_groups(ts).len() && (#[trigger] pending_groups(ts)[p]).0
                    == group_key_of(ts[i]),
{
    let keys = keys_of(ts);
    let g = gather(keys);
    let s = pending_groups(ts);
    lemma_gather_distinct_and_covering(keys);
    lemma_sort_groups_facts(g);
    assert forall|i: int| #![trigger ts[i]] 0 <= i < ts.len() implies exists|p: int|
        0 <= p < s.len() && (#[trigger] s[p]).0 == group_key_of(ts[i]) by {
        assert(keys[i] == group_key_of(ts[i]));
        let r = choose|r: int| 0 <= r < g.len() && (#[trigger] g[r]).0 == keys[i];
        assert(s.contains(g[r]));
        let p = choose|p: int| 0 <= p < s.len() && s[p] == g[r];
        assert(s[p].0 == group_key_of(ts[i]));
    }
}

proof fn lemma_sorted_groups_facts(ts: Seq<Transaction>)
    ensures
        forall|p: int|
            0 <= p < pending_groups(ts).len() ==> {
                let g = #[trigger] pending_groups(ts)[p];
                &&& 0 <= g.1 < ts.len()
                &&& group_key_of(ts[g.1]) == g.0
                &&& forall|j: int| 0 <= j < g.1 ==> group_key_of(ts[j]) != g.0
                &&& g.2 == occurrences(keys_of(ts), g.0)
                &&& g.2 >= 1
            },
{
    let keys = keys_of(ts);
    let g = gather(keys);
    let s = pending_groups(ts);
    lemma_gather_first(keys);
    lemma_gather_counts(keys);
    lemma_sort_groups_facts(g);
    assert forall|p: int| 0 <= p < s.len() implies {
        let e = #[trigger] s[p];
        &&& 0 <= e.1 < ts.len()
        &&& group_key_of(ts[e.1]) == e.0
        &&& forall|j: int| 0 <= j < e.1 ==> group_key_of(ts[j]) != e.0
        &&& e.2 == occurrences(keys_of(ts), e.0)
        &&& e.2 >= 1
    } by {
        assert(g.contains(s[p]));
        let a = choose|a: int| 0 <= a < g.len() && g[a] == s[p];
        let e = g[a];
        assert(at_first_occurrence(keys, e));
        assert(keys[e.1] == group_key_of(ts[e.1]));
        assert forall|j: int| 0 <= j < e.1 implies group_key_of(ts[j]) != e.0 by {
            assert(keys[j] == group_key_of(ts[j]));
        }
        lemma_occurrences_positive(keys, e.1);
    }
}

proof fn lemma_occurrences_positive(keys: Seq<Seq<char>>, i: int)
    requires
        0 <= i < keys.len(),
    ensures
        occurrences(keys, keys[i]) >= 1,
    decreases keys.len(),
{
    if i < keys.len() - 1 {
        lemma_occurrences_positive(keys.drop_last(), i);
        assert(keys.drop_last()[i] == keys[i]);
    }
}

// ---------------------------------------------------------------------------
// Executable
// ---------------------------------------------------------------------------

/// Decimal text of an id.
fn int_string(v: i64) -> (r: String)
    ensures
        r@ == int_text(v as int),
{
    let mut out = String::new();
    if v < 0 {
        push_char(&mut out, '-');
    }
    let magnitude_of: u64 = if v == i64::MIN {
        9223372036854775808u64
    } else if v < 0 {
        (-v) as u64
    } else {
        v as u64
    };
    push_decimal(magnitude_of, &mut out);
    out
}

/// The key of a movement's group.
fn group_key(transaction: &Transaction) -> (r: String)
    ensures
        r@ == group_key_of(*transaction),
{
    let counterparty = match &transaction.counterparty {
        Some(c) => Some(c.as_str()),
        None => None,
    };
    if let Some(pattern) = suggest_pattern(transaction.description.as_str(), counterparty) {
        return pattern;
    }
    let normalized = normalize_description(transaction.description.as_str());
    if normalized.as_str().is_empty() {
        let mut key = String::new();
        push_char(&mut key, '#');
        let id = int_string(transaction.id.0);
        crate::text::push_str(&mut key, id.as_str());
        return key;
    }
    normalized
}

pub open spec fn group_views(v: Seq<(Vec<char>, usize, usize)>) -> Seq<GroupSpec> {
    v.map_values(|g: (Vec<char>, usize, usize)| (g.0@, g.1 as int, g.2 as nat))
}

fn text_less_exec(a: &Vec<char>, b: &Vec<char>) -> (r: bool)
    ensures
        r == text_less(a@, b@),
{
    let mut i: usize = 0;
    assert(a@.skip(0) =~= a@);
    assert(b@.skip(0) =~= b@);
    while i < a.len() && i < b.len() && a[i] == b[i]
        invariant
            i <= a.len(),
            i <= b.len(),
            text_less(a@, b@) == text_less(a@.skip(i as int), b@.skip(i as int)),
        decreases a.len() - i,
    {
        let ghost ra = a@.skip(i as int);
        let ghost rb = b@.skip(i as int);
        assert(ra.drop_first() =~= a@.skip(i + 1));
        assert(rb.drop_first() =~= b@.skip(i + 1));
        assert(ra[0] == a@[i as int] && rb[0] == b@[i as int]);
        i = i + 1;
    }
    let ghost ra = a@.skip(i as int);
    let ghost rb = b@.skip(i as int);
    if i == a.len() {
        assert(ra.len() == 0);
        i < b.len()
    } else if i == b.len() {
        assert(rb.len() == 0);
        false
    } else {
        assert(ra[0] == a@[i as int] && rb[0] == b@[i as int]);
        a[i] < b[i]
    }
}

fn group_before_exec(a: &(Vec<char>, usize, usize), b: &(Vec<char>, usize, usize)) -> (r: bool)
    ensures
        r == group_before((a.0@, a.1 as int, a.2 as nat), (b.0@, b.1 as int, b.2 as nat)),
{
    a.2 > b.2 || (a.2 == b.2 && text_less_exec(&a.0, &b.0))
}

proof fn lemma_insert_group_at(s: Seq<GroupSpec>, g: GroupSpec, p: int)
    requires
        0 <= p <= s.len(),
        forall|k: int| p <= k < s.len() ==> group_before(g, #[trigger] s[k]),
        p > 0 ==> !group_before(g, s[p - 1]),
    ensures
        insert_group(s, g) == s.take(p).push(g) + s.skip(p),
    decreases s.len(),
{
    if s.len() == 0 {
        assert(s.take(p).push(g) + s.skip(p) =~= seq![g]);
    } else if p == s.len() {
        assert(s.take(p) =~= s);
        assert(s.skip(p) =~= Seq::<GroupSpec>::empty());
        assert(s.take(p).push(g) + s.skip(p) =~= s.push(g));
    } else {
        assert(group_before(g, s[s.len() - 1]));
        lemma_insert_group_at(s.drop_last(), g, p);
        assert(s.drop_last().take(p) =~= s.take(p));
        assert((s.drop_last().take(p).push(g) + s.drop_last().skip(p)).push(s.last()) =~= s.take(
            p,
        ).push(g) + s.skip(p));
    }
}

/// Groups the pending movements by merchant, most movements first, then
/// alphabetically.
pub fn group_pending(transactions: &[Transaction]) -> (r: Vec<PendingGroup>)
    ensures
        r@.len() == pending_groups(transactions@).len(),
        forall|i: int|
            0 <= i < r@.len() ==> {
                let g = #[trigger] pending_groups(transactions@)[i];
                &&& r@[i].pattern@ == g.0
                &&& r@[i].count == g.2
                &&& 0 <= g.1 < transactions@.len()
                &&& same_transaction(r@[i].representative, transactions@[g.1])
            },
{
    let ghost ts = transactions@;
    let ghost keys = keys_of(ts);
    let mut groups: Vec<(Vec<char>, usize, usize)> = Vec::new();
    let mut i: usize = 0;
    assert(keys.take(0) =~= Seq::<Seq<char>>::empty());
    assert(group_views(groups@) =~= Seq::<GroupSpec>::empty());
    while i < transactions.len()
        invariant
            i <= transactions.len(),
            ts == transactions@,
            keys == keys_of(ts),
            group_views(groups@) == gather(keys.take(i as int)),
            forall|p: int| 0 <= p < groups@.len() ==> (#[trigger] groups@[p]).2 <= i && groups@[p].1 < i,
        decreases transactions.len() - i,
    {
        let key = chars_of(group_key(&transactions[i]).as_str());
        let ghost g = gather(keys.take(i as int));
        assert(keys.take(i + 1).drop_last() =~= keys.take(i as int));
        assert(keys.take(i + 1).last() == key@);
        // Find the group of this key.
        let mut p: usize = 0;
        assert(g.take(0) =~= Seq::<GroupSpec>::empty());
        while p < groups.len() && !crate::text::same_chars(&groups[p].0, &key)
            invariant
                p <= groups.len(),
                group_views(groups@) == g,
                key_position(g.take(p as int), key@) is None,
            decreases groups.len() - p,
        {
            assert(g.take(p + 1).drop_last() =~= g.take(p as int));
            assert(g.take(p + 1).last() == g[p as int]);
            p = p + 1;
        }
        if p < groups.len() {
            proof {
                assert(g.take(p + 1).drop_last() =~= g.take(p as int));
                assert(g[p as int].0 == key@);
                lemma_key_position_prefix(g, key@, p + 1);
            }
            let ghost before = groups@;
            let (k, first, count) = groups.remove(p);
            groups.insert(p, (k, first, count + 1));
            assert(group_views(groups@) =~= g.update(p as int, (g[p as int].0, g[p as int].1, g[p as int].2 + 1)));
            assert forall|q: int| 0 <= q < groups@.len() implies (#[trigger] groups@[q]).2 <= i + 1 && groups@[q].1 < i + 1 by {
                if q != p {
                    assert(groups@[q] == before[q]);
                }
            }
        } else {
            proof {
                assert(g.take(p as int) =~= g);
            }
            let ghost before = groups@;
            groups.push((key, i, 1));
            assert(group_views(groups@) =~= g.push((key@, i as int, 1nat)));
            assert forall|q: int| 0 <= q < groups@.len() implies (#[trigger] groups@[q]).2 <= i + 1 && groups@[q].1 < i + 1 by {
                if q < before.len() {
                    assert(groups@[q] == before[q]);
                }
            }
        }
        i = i + 1;
    }
    assert(keys.take(i as int) =~= keys);
    // Stable insertion sort into presentation order.
    let ghost gathered = group_views(groups@);
    let n = groups.len();
    let mut pending = groups;
    let mut ordered: Vec<(Vec<char>, usize, usize)> = Vec::new();
    let mut k: usize = 0;
    assert(gathered.take(0) =~= Seq::<GroupSpec>::empty());
    assert(group_views(ordered@) =~= Seq::<GroupSpec>::empty());
    while pending.len() > 0
        invariant
            k <= n,
            n == gathered.len(),
            pending.len() + k == n,
            group_views(pending@) == gathered.skip(k as int),
            group_views(ordered@) == sort_groups(gathered.take(k as int)),
            forall|q: int| 0 <= q < pending@.len() ==> (#[trigger] pending@[q]).1 < transactions@.len(),
            forall|q: int| 0 <= q < ordered@.len() ==> (#[trigger] ordered@[q]).1 < transactions@.len(),
        decreases pending.len(),
    {
        let ghost before_pending = pending@;
        let g = pending.remove(0);
        assert(group_views(before_pending)[0] == gathered[k as int]);
        let ghost gv = (g.0@, g.1 as int, g.2 as nat);
        let ghost sorted_before = group_views(ordered@);
        let ghost raw_before = ordered@;
        let mut p: usize = ordered.len();
        while p > 0 && group_before_exec(&g, &ordered[p - 1])
            invariant
                p <= ordered.len(),
                group_views(ordered@) == sorted_before,
                gv == (g.0@, g.1 as int, g.2 as nat),
                forall|j: int| p <= j < ordered.len() ==> group_before(gv, #[trigger] sorted_before[j]),
            decreases p,
        {
            assert(sorted_before[p - 1] == (ordered@[p - 1].0@, ordered@[p - 1].1 as int, ordered@[p
                - 1].2 as nat));
            p = p - 1;
        }
        proof {
            if p > 0 {
                assert(sorted_before[p - 1] == (ordered@[p - 1].0@, ordered@[p - 1].1 as int, ordered@[p
                    - 1].2 as nat));
            }
            lemma_insert_group_at(sorted_before, gv, p as int);
            assert(gathered.take(k + 1).drop_last() =~= gathered.take(k as int));
            assert(gathered.take(k + 1).last() == gv);
        }
        ordered.insert(p, g);
        assert(group_views(ordered@) =~= sorted_before.take(p as int).push(gv) + sorted_before.skip(p as int));
        assert forall|q: int| 0 <= q < ordered@.len() implies (#[trigger] ordered@[q]).1 < transactions@.len() by {
            if q < p {
                assert(ordered@[q] == raw_before[q]);
            } else if q > p {
                assert(ordered@[q] == raw_before[q - 1]);
            } else {
                assert(before_pending[0] == g);
            }
        }
        assert(pending@ =~= before_pending.subrange(1, before_pending.len() as int));
        assert(group_views(pending@) =~= group_views(before_pending).subrange(
            1,
            before_pending.len() as int,
        ));
        assert(group_views(before_pending).subrange(1, before_pending.len() as int) =~= gathered.skip(
            k + 1,
        ));
        k = k + 1;
        assert forall|q: int| 0 <= q < pending@.len() implies (#[trigger] pending@[q]).1 < transactions@.len() by {
            assert(pending@[q] == before_pending[q + 1]);
        }
    }
    assert(gathered.take(k as int) =~= gathered);
    // One group per merchant, its first movement as representative.
    let mut result: Vec<PendingGroup> = Vec::new();
    let mut j: usize = 0;
    while j < ordered.len()
        invariant
            j <= ordered.len(),
            group_views(ordered@) == pending_groups(transactions@),
            forall|q: int| 0 <= q < ordered@.len() ==> (#[trigger] ordered@[q]).1 < transactions@.len(),
            result@.len() == j,
            forall|q: int|
                0 <= q < j ==> {
                    let g = #[trigger] pending_groups(transactions@)[q];
                    &&& result@[q].pattern@ == g.0
                    &&& result@[q].count == g.2
                    &&& 0 <= g.1 < transactions@.len()
                    &&& same_transaction(result@[q].representative, transactions@[g.1])
                },
        decreases ordered.len() - j,
    {
        let entry = &ordered[j];
        assert(group_views(ordered@)[j as int] == (entry.0@, entry.1 as int, entry.2 as nat));
        let representative = transactions[entry.1].duplicate();
        result.push(
            PendingGroup { pattern: string_from_chars(&entry.0), representative, count: entry.2 },
        );
        j = j + 1;
    }
    assert(group_views(ordered@).len() == ordered@.len());
    result
}

proof fn lemma_key_position_prefix(g: Seq<GroupSpec>, key: Seq<char>, n: int)
    requires
        0 <= n <= g.len(),
        key_position(g.take(n), key) is Some,
    ensures
        key_position(g, key) == key_position(g.take(n), key),
    decreases g.len() - n,
{
    if n < g.len() {
        assert(g.take(n + 1).drop_last() =~= g.take(n));
        lemma_key_position_prefix(g, key, n + 1);
    } else {
        assert(g.take(n) =~= g);
    }
}

} // verus!
