//! Deterministic categorisation: the user's rules applied in priority order.
use vstd::prelude::*;

use crate::domain::{
    direction_of, normalize_description, normalized_description, AccountId, CategoryId,
    Direction, NewRule, NewTransaction, Rule, RuleId, RuleMatcher, RuleOrigin, Transaction,
    TransactionId,
};
use crate::money::{magnitude, saturate, Money};
use crate::text::{
    chars_of, contains_chars, contains_seq, ends_with_seq, occurs_at, occurs_at_exec,
    push_char, push_str, starts_with_seq, trim, trimmed_chars,
};

verus! {

/// Priority of a learned rule: below the rules the user writes by hand, so
/// that an explicit rule always wins.
pub const LEARNED_RULE_PRIORITY: i64 = 50;

/// Default priority of a rule written by hand.
pub const USER_RULE_PRIORITY: i64 = 100;

/// What the engine needs of a movement to decide; the same for stored
/// movements and for freshly imported rows.
#[derive(Debug, Clone, Copy)]
pub struct RuleInput<'a> {
    pub account_id: AccountId,
    pub description: &'a str,
    pub counterparty: Option<&'a str>,
    pub amount: Money,
}

impl<'a> RuleInput<'a> {
    /// The input of a stored movement.
    pub fn from_transaction(transaction: &'a Transaction) -> (r: RuleInput<'a>)
        ensures
            r.account_id == transaction.account_id,
            r.description@ == transaction.description@,
            r.amount == transaction.amount,
            match transaction.counterparty {
                Some(c) => r.counterparty matches Some(rc) && rc@ == c@,
                None => r.counterparty is None,
            },
    {
        RuleInput {
            account_id: transaction.account_id,
            description: transaction.description.as_str(),
            counterparty: match &transaction.counterparty {
                Some(c) => Some(c.as_str()),
                None => None,
            },
            amount: transaction.amount,
        }
    }

    /// The input of a movement about to be stored.
    pub fn from_new_transaction(transaction: &'a NewTransaction) -> (r: RuleInput<'a>)
        ensures
            r.account_id == transaction.account_id,
            r.description@ == transaction.description@,
            r.amount == transaction.amount,
            match transaction.counterparty {
                Some(c) => r.counterparty matches Some(rc) && rc@ == c@,
                None => r.counterparty is None,
            },
    {
        RuleInput {
            account_id: transaction.account_id,
            description: transaction.description.as_str(),
            counterparty: match &transaction.counterparty {
                Some(c) => Some(c.as_str()),
                None => None,
            },
            amount: transaction.amount,
        }
    }
}

#[derive(Debug, Clone, Copy, PartialEq, Eq, Structural)]
pub struct RuleMatch {
    pub rule_id: RuleId,
    pub category_id: CategoryId,
}

// ---------------------------------------------------------------------------
// Specification
// ---------------------------------------------------------------------------

/// The text the patterns are searched in: description and counterparty
/// together, normalised, because the merchant is sometimes only in one of them.
pub open spec fn searchable_text(description: Seq<char>, counterparty: Option<Seq<char>>) -> Seq<
    char,
> {
    match counterparty {
        Some(c) => if trim(c).len() > 0 {
            normalized_description(description + seq![' '] + c)
        } else {
            normalized_description(description)
        },
        None => normalized_description(description),
    }
}

/// The view of an optional string slice.
pub open spec fn opt_view(s: Option<&str>) -> Option<Seq<char>> {
    match s {
        Some(c) => Some(c@),
        None => None,
    }
}

/// Whether `rule` applies to a movement of `account` and `amount` whose
/// searchable text is `haystack`.
pub open spec fn rule_matches(rule: Rule, account: AccountId, amount: int, haystack: Seq<char>) -> bool {
    let mag = saturate(magnitude(amount) as int);
    let pattern = normalized_description(rule.pattern@);
    &&& rule.account_id matches Some(a) ==> a == account
    &&& rule.direction matches Some(d) ==> d == direction_of(amount)
    &&& rule.min_amount matches Some(m) ==> mag >= saturate(magnitude(m.0 as int) as int)
    &&& rule.max_amount matches Some(m) ==> mag <= saturate(magnitude(m.0 as int) as int)
    &&& pattern.len() > 0
    &&& match rule.matcher {
        RuleMatcher::Contains => contains_seq(haystack, pattern),
        RuleMatcher::StartsWith => starts_with_seq(haystack, pattern),
        RuleMatcher::EndsWith => ends_with_seq(haystack, pattern),
        RuleMatcher::Equals => haystack == pattern,
    }
}

/// Position of the first rule of `rules` that applies, if any.
pub open spec fn first_match_index(
    rules: Seq<Rule>,
    account: AccountId,
    amount: int,
    haystack: Seq<char>,
) -> Option<int>
    decreases rules.len(),
{
    if rules.len() == 0 {
        None
    } else if rule_matches(rules[0], account, amount, haystack) {
        Some(0int)
    } else {
        match first_match_index(rules.drop_first(), account, amount, haystack) {
            Some(i) => Some(i + 1),
            None => None,
        }
    }
}

/// Size of an amount whatever its sign, as `Money::abs` gives it: the size
/// of `i64::MIN`, which does not fit an `i64`, counts as `i64::MAX`.
pub open spec fn amount_size(x: i64) -> int {
    if x == i64::MIN {
        i64::MAX as int
    } else if x < 0 {
        -(x as int)
    } else {
        x as int
    }
}

/// When a rule applies to a movement, criterion by criterion: its account if
/// it names one; its direction if it names one (an expense is a negative
/// amount); the size of the amount, whatever its sign, at least the minimum
/// and at most the maximum the rule sets, both also taken without sign; and
/// its normalised pattern, which must not be empty, found in the text as the
/// matcher says. A one-rule engine picks the rule exactly then.
pub proof fn lemma_when_a_rule_applies(rule: Rule, account: AccountId, amount: i64, haystack: Seq<char>)
    ensures
        ({
            let pattern = normalized_description(rule.pattern@);
            rule_matches(rule, account, amount as int, haystack) <==> {
                &&& rule.account_id matches Some(a) ==> a == account
                &&& rule.direction matches Some(d) ==> ((d == Direction::Expense) <==> amount < 0)
                &&& rule.min_amount matches Some(m) ==> amount_size(amount) >= amount_size(m.0)
                &&& rule.max_amount matches Some(m) ==> amount_size(amount) <= amount_size(m.0)
                &&& pattern.len() > 0
                &&& match rule.matcher {
                    RuleMatcher::Contains => exists|at: int|
                        0 <= at && at + pattern.len() <= haystack.len() && #[trigger] haystack.subrange(
                            at,
                            at + pattern.len(),
                        ) == pattern,
                    RuleMatcher::StartsWith => pattern.len() <= haystack.len() && haystack.subrange(
                        0,
                        pattern.len() as int,
                    ) == pattern,
                    RuleMatcher::EndsWith => pattern.len() <= haystack.len() && haystack.subrange(
                        haystack.len() - pattern.len(),
                        haystack.len() as int,
                    ) == pattern,
                    RuleMatcher::Equals => haystack == pattern,
                }
            }
        }),
        first_match_index(seq![rule], account, amount as int, haystack) == (if rule_matches(
            rule,
            account,
            amount as int,
            haystack,
        ) {
            Some(0int)
        } else {
            None
        }),
{
    let pattern = normalized_description(rule.pattern@);
    assert(saturate(magnitude(amount as int) as int) == amount_size(amount));
    if let Some(m) = rule.min_amount {
        assert(saturate(magnitude(m.0 as int) as int) == amount_size(m.0));
    }
    if let Some(m) = rule.max_amount {
        assert(saturate(magnitude(m.0 as int) as int) == amount_size(m.0));
    }
    if rule.matcher == RuleMatcher::Contains {
        if contains_seq(haystack, pattern) {
            let at = choose|at: int| occurs_at(haystack, pattern, at);
            assert(haystack.subrange(at, at + pattern.len()) == pattern);
        }
        if exists|at: int|
            0 <= at && at + pattern.len() <= haystack.len() && #[trigger] haystack.subrange(at, at + pattern.len())
                == pattern {
            let at = choose|at: int|
                0 <= at && at + pattern.len() <= haystack.len() && #[trigger] haystack.subrange(
                    at,
                    at + pattern.len(),
                ) == pattern;
            assert(occurs_at(haystack, pattern, at));
        }
    }
    let one = seq![rule];
    assert(one[0] == rule);
    assert(one.drop_first() =~= Seq::<Rule>::empty());
    assert(first_match_index(one.drop_first(), account, amount as int, haystack) is None);
}

/// Evaluation order: higher priority first, then the older rule (smaller id).
pub open spec fn rule_before(a: Rule, b: Rule) -> bool {
    a.priority > b.priority || (a.priority == b.priority && a.id.0 < b.id.0)
}

/// Inserts `r` into `s`, after every rule it does not strictly precede.
pub open spec fn insert_rule(s: Seq<Rule>, r: Rule) -> Seq<Rule>
    decreases s.len(),
{
    if s.len() == 0 {
        seq![r]
    } else if rule_before(r, s.last()) {
        insert_rule(s.drop_last(), r).push(s.last())
    } else {
        s.push(r)
    }
}

/// Stable insertion sort of `s` into evaluation order.
pub open spec fn sort_rules(s: Seq<Rule>) -> Seq<Rule>
    decreases s.len(),
{
    if s.len() == 0 {
        Seq::empty()
    } else {
        insert_rule(sort_rules(s.drop_last()), s.last())
    }
}

/// No rule of `s` strictly precedes an earlier one.
pub open spec fn rules_sorted(s: Seq<Rule>) -> bool {
    forall|i: int, j: int| 0 <= i < j < s.len() ==> !rule_before(#[trigger] s[j], #[trigger] s[i])
}

// ---------------------------------------------------------------------------
// Lemmas
// ---------------------------------------------------------------------------

proof fn lemma_rule_before_total(a: Rule, b: Rule)
    ensures
        !rule_before(a, b) && !rule_before(b, a) ==> a.priority == b.priority && a.id.0 == b.id.0,
        rule_before(a, b) ==> !rule_before(b, a),
{
}

proof fn lemma_insert_rule_facts(s: Seq<Rule>, r: Rule)
    requires
        rules_sorted(s),
    ensures
        rules_sorted(insert_rule(s, r)),
        insert_rule(s, r).to_multiset() == s.to_multiset().insert(r),
        insert_rule(s, r).len() == s.len() + 1,
    decreases s.len(),
{
    broadcast use vstd::seq_lib::group_to_multiset_ensures;
    if s.len() == 0 {
        assert(insert_rule(s, r) =~= seq![r]);
        assert(seq![r] =~= Seq::<Rule>::empty().push(r));
    } else if rule_before(r, s.last()) {
        let p = s.drop_last();
        assert(rules_sorted(p));
        lemma_insert_rule_facts(p, r);
        let q = insert_rule(p, r);
        let out = q.push(s.last());
        assert(s =~= p.push(s.last()));
        // Every element of q is an element of p or r, none of which the last
        // element of s strictly precedes.
        assert forall|i: int| 0 <= i < q.len() implies !rule_before(s.last(), #[trigger] q[i]) by {
            assert(q.to_multiset().count(q[i]) > 0);
            if q[i] != r {
                assert(p.to_multiset().count(q[i]) > 0);
                assert(p.contains(q[i]));
                let k = choose|k: int| 0 <= k < p.len() && p[k] == q[i];
                assert(s[k] == p[k]);
                assert(!rule_before(s[s.len() - 1], s[k]));
            } else {
                lemma_rule_before_total(r, s.last());
            }
        }
        assert forall|i: int, j: int| 0 <= i < j < out.len() implies !rule_before(
            #[trigger] out[j],
            #[trigger] out[i],
        ) by {
            if j < q.len() {
                assert(out[j] == q[j] && out[i] == q[i]);
            } else {
                assert(out[j] == s.last());
                assert(out[i] == q[i]);
            }
        }
        assert(out.to_multiset() =~= s.to_multiset().insert(r));
    } else {
        let out = s.push(r);
        assert forall|i: int, j: int| 0 <= i < j < out.len() implies !rule_before(
            #[trigger] out[j],
            #[trigger] out[i],
        ) by {
            if j < s.len() {
                assert(out[j] == s[j] && out[i] == s[i]);
            } else {
                assert(out[j] == r);
                assert(out[i] == s[i]);
                if i < s.len() - 1 {
                    // s[i] does not strictly follow s.last(), and r does not precede s.last().
                    assert(!rule_before(s[s.len() - 1], s[i]));
                    lemma_rule_before_total(r, s.last());
                    lemma_rule_before_total(s.last(), s[i]);
                }
            }
        }
    }
}

/// The evaluation order holds every rule it was given, each as many times,
/// and no rule in it strictly precedes an earlier one.
pub proof fn lemma_sort_rules(s: Seq<Rule>)
    ensures
        rules_sorted(sort_rules(s)),
        sort_rules(s).to_multiset() == s.to_multiset(),
        sort_rules(s).len() == s.len(),
    decreases s.len(),
{
    broadcast use vstd::seq_lib::group_to_multiset_ensures;
    if s.len() > 0 {
        lemma_sort_rules(s.drop_last());
        lemma_insert_rule_facts(sort_rules(s.drop_last()), s.last());
        assert(s =~= s.drop_last().push(s.last()));
    }
}

/// Whether rules of `m` that share an id are the same rule.
pub open spec fn ids_identify(m: vstd::multiset::Multiset<Rule>) -> bool {
    forall|a: Rule, b: Rule| #[trigger] m.count(a) > 0 && #[trigger] m.count(b) > 0 && a.id == b.id ==> a == b
}

/// Two sequences in evaluation order that hold the same rules, no two of
/// them sharing an id, are the same sequence.
proof fn lemma_sorted_rules_unique(x: Seq<Rule>, y: Seq<Rule>)
    requires
        rules_sorted(x),
        rules_sorted(y),
        x.to_multiset() == y.to_multiset(),
        ids_identify(x.to_multiset()),
    ensures
        x == y,
    decreases x.len(),
{
    broadcast use vstd::seq_lib::group_to_multiset_ensures;
    broadcast use vstd::multiset::group_multiset_axioms;
    let m = x.to_multiset();
    assert(x.len() == m.len() && y.len() == m.len());
    if x.len() == 0 {
        assert(x =~= y);
    } else {
        let a = x[0];
        let b = y[0];
        assert(x.contains(a) && y.contains(b));
        assert(m.count(a) > 0 && m.count(b) > 0);
        assert(y.contains(a) && x.contains(b));
        if a != b {
            assert(a.id != b.id);
            lemma_rule_before_total(a, b);
            let k = choose|k: int| 0 <= k < y.len() && y[k] == a;
            let j = choose|j: int| 0 <= j < x.len() && x[j] == b;
            assert(k != 0 && j != 0);
            assert(!rule_before(y[k], y[0]));
            assert(!rule_before(x[j], x[0]));
            assert(false);
        }
        let xs = x.drop_first();
        let ys = y.drop_first();
        assert(x.remove(0) =~= xs);
        assert(y.remove(0) =~= ys);
        assert(xs.to_multiset() == m.remove(a));
        assert(ys.to_multiset() == m.remove(a));
        assert(rules_sorted(xs)) by {
            assert forall|i: int, j: int| 0 <= i < j < xs.len() implies !rule_before(#[trigger] xs[j], #[trigger] xs[i]) by {
                assert(xs[j] == x[j + 1] && xs[i] == x[i + 1]);
            }
        }
        assert(rules_sorted(ys)) by {
            assert forall|i: int, j: int| 0 <= i < j < ys.len() implies !rule_before(#[trigger] ys[j], #[trigger] ys[i]) by {
                assert(ys[j] == y[j + 1] && ys[i] == y[i + 1]);
            }
        }
        assert(ids_identify(m.remove(a))) by {
            assert forall|c: Rule, d: Rule|
                #[trigger] m.remove(a).count(c) > 0 && #[trigger] m.remove(a).count(d) > 0 && c.id == d.id implies c == d by {
                assert(m.count(c) > 0 && m.count(d) > 0);
            }
        }
        lemma_sorted_rules_unique(xs, ys);
        assert(x =~= seq![a] + xs);
        assert(y =~= seq![a] + ys);
    }
}

/// The order in which the rules are given does not matter: rules with
/// distinct ids, given in any order, are put in the same evaluation order,
/// so two engines built from them categorise every movement alike.
pub proof fn lemma_order_of_rules_does_not_matter(a: Seq<Rule>, b: Seq<Rule>)
    requires
        forall|i: int, j: int| 0 <= i < j < a.len() ==> (#[trigger] a[i]).id != (#[trigger] a[j]).id,
        a.to_multiset() == b.to_multiset(),
    ensures
        sort_rules(a) == sort_rules(b),
{
    broadcast use vstd::seq_lib::group_to_multiset_ensures;
    lemma_sort_rules(a);
    lemma_sort_rules(b);
    let m = a.to_multiset();
    assert(ids_identify(m)) by {
        assert forall|c: Rule, d: Rule| #[trigger] m.count(c) > 0 && #[trigger] m.count(d) > 0 && c.id == d.id implies c == d by {
            assert(a.contains(c) && a.contains(d));
            let i = choose|i: int| 0 <= i < a.len() && a[i] == c;
            let j = choose|j: int| 0 <= j < a.len() && a[j] == d;
            if i < j {
                assert(a[i].id != a[j].id);
            } else if j < i {
                assert(a[j].id != a[i].id);
            }
        }
    }
    lemma_sorted_rules_unique(sort_rules(a), sort_rules(b));
}

/// `insert_rule` places `r` at the first position from the end that it does
/// not strictly precede.
proof fn lemma_insert_rule_at(s: Seq<Rule>, r: Rule, p: int)
    requires
        0 <= p <= s.len(),
        forall|k: int| p <= k < s.len() ==> rule_before(r, #[trigger] s[k]),
        p > 0 ==> !rule_before(r, s[p - 1]),
    ensures
        insert_rule(s, r) == s.take(p).push(r) + s.skip(p),
    decreases s.len(),
{
    if s.len() == 0 {
        assert(s.take(p).push(r) + s.skip(p) =~= seq![r]);
    } else if p == s.len() {
        assert(s.take(p) =~= s);
        assert(s.skip(p) =~= Seq::<Rule>::empty());
        assert(s.take(p).push(r) + s.skip(p) =~= s.push(r));
    } else {
        assert(rule_before(r, s[s.len() - 1]));
        lemma_insert_rule_at(s.drop_last(), r, p);
        assert(s.drop_last().take(p) =~= s.take(p));
        assert((s.drop_last().take(p).push(r) + s.drop_last().skip(p)).push(s.last()) =~= s.take(
            p,
        ).push(r) + s.skip(p));
    }
}

/// The highest-priority rule that applies is the one chosen: no rule that
/// strictly precedes the chosen one applies, and no applying rule was skipped.
pub proof fn lemma_first_match_is_first(
    rules: Seq<Rule>,
    account: AccountId,
    amount: int,
    haystack: Seq<char>,
)
    ensures
        match first_match_index(rules, account, amount, haystack) {
            Some(i) => 0 <= i < rules.len() && rule_matches(rules[i], account, amount, haystack)
                && forall|k: int| 0 <= k < i ==> !rule_matches(#[trigger] rules[k], account, amount, haystack),
            None => forall|k: int| 0 <= k < rules.len() ==> !rule_matches(#[trigger] rules[k], account, amount, haystack),
        },
    decreases rules.len(),
{
    if rules.len() > 0 && !rule_matches(rules[0], account, amount, haystack) {
        lemma_first_match_is_first(rules.drop_first(), account, amount, haystack);
        match first_match_index(rules.drop_first(), account, amount, haystack) {
            Some(i) => {
                assert forall|k: int| 0 <= k < i + 1 implies !rule_matches(#[trigger] rules[k], account, amount, haystack) by {
                    if k > 0 {
                        assert(rules[k] == rules.drop_first()[k - 1]);
                    }
                }
                assert(rules[i + 1] == rules.drop_first()[i]);
            },
            None => {
                assert forall|k: int| 0 <= k < rules.len() implies !rule_matches(#[trigger] rules[k], account, amount, haystack) by {
                    if k > 0 {
                        assert(rules[k] == rules.drop_first()[k - 1]);
                    }
                }
            },
        }
    }
}

// ---------------------------------------------------------------------------
// The engine
// ---------------------------------------------------------------------------

/// Evaluates the user's rules in priority order and returns the first that
/// applies: fast, offline and fully predictable.
pub struct RuleEngine {
    rules: Vec<Rule>,
}

impl View for RuleEngine {
    type V = Seq<Rule>;

    closed spec fn view(&self) -> Seq<Rule> {
        self.rules@
    }
}

fn rule_before_exec(a: &Rule, b: &Rule) -> (r: bool)
    ensures
        r == rule_before(*a, *b),
{
    a.priority > b.priority || (a.priority == b.priority && a.id.0 < b.id.0)
}

impl RuleEngine {
    /// Orders the rules for evaluation (priority first, then the oldest).
    pub fn new(rules: Vec<Rule>) -> (r: RuleEngine)
        ensures
            r@ == sort_rules(rules@),
    {
        let n = rules.len();
        let ghost given = rules@;
        let mut pending = rules;
        let mut ordered: Vec<Rule> = Vec::new();
        let mut k: usize = 0;
        while pending.len() > 0
            invariant
                k <= given.len(),
                given.len() <= usize::MAX,
                pending.len() + k == given.len(),
                pending@ == given.skip(k as int),
                ordered@ == sort_rules(given.take(k as int)),
            decreases pending.len(),
        {
            let rule = pending.remove(0);
            let ghost sorted_before = ordered@;
            let mut p: usize = ordered.len();
            while p > 0 && rule_before_exec(&rule, &ordered[p - 1])
                invariant
                    p <= ordered.len(),
                    ordered@ == sorted_before,
                    forall|j: int| p <= j < ordered.len() ==> rule_before(rule, #[trigger] ordered@[j]),
                decreases p,
            {
                p = p - 1;
            }
            proof {
                lemma_insert_rule_at(sorted_before, rule, p as int);
                assert(given.take(k + 1).drop_last() =~= given.take(k as int));
                assert(given.take(k + 1).last() == rule) by {
                    assert(given.skip(k as int)[0] == given[k as int]);
                }
            }
            ordered.insert(p, rule);
            assert(ordered@ =~= sorted_before.take(p as int).push(rule) + sorted_before.skip(p as int));
            k = k + 1;
            assert(pending@ =~= given.skip(k as int));
        }
        assert(given.take(k as int) =~= given);
        RuleEngine { rules: ordered }
    }

    pub fn is_empty(&self) -> (r: bool)
        ensures
            r == (self@.len() == 0),
    {
        self.rules.len() == 0
    }

    /// The first rule, in evaluation order, that applies to `input`.
    pub fn categorize(&self, input: &RuleInput) -> (r: Option<RuleMatch>)
        ensures
            r == (match first_match_index(
                self@,
                input.account_id,
                input.amount.0 as int,
                searchable_text(input.description@, opt_view(input.counterparty)),
            ) {
                Some(i) => Some(RuleMatch { rule_id: self@[i].id, category_id: self@[i].category_id }),
                None => None,
            }),
    {
        let haystack = build_searchable_text(input);
        let ghost h = haystack@;
        let mut i: usize = 0;
        assert(self.rules@.skip(0) =~= self.rules@);
        while i < self.rules.len()
            invariant
                i <= self.rules.len(),
                haystack@ == h,
                h == searchable_text(input.description@, opt_view(input.counterparty)),
                first_match_index(self.rules@, input.account_id, input.amount.0 as int, h)
                    == match first_match_index(
                    self.rules@.skip(i as int),
                    input.account_id,
                    input.amount.0 as int,
                    h,
                ) {
                    Some(j) => Some(j + i),
                    None => None,
                },
            decreases self.rules.len() - i,
        {
            let rule = &self.rules[i];
            let ghost rest = self.rules@.skip(i as int);
            assert(rest[0] == self.rules@[i as int]);
            assert(rest.drop_first() =~= self.rules@.skip(i + 1));
            assert(rest.len() > 0);
            assert(*rule == rest[0]);
            assert(haystack@ == h);
            let is_match = matches(rule, input, &haystack);
            assert(is_match == rule_matches(rest[0], input.account_id, input.amount.0 as int, h));
            if is_match {
                assert(first_match_index(rest, input.account_id, input.amount.0 as int, h) == Some(0int));
                return Some(RuleMatch { rule_id: rule.id, category_id: rule.category_id });
            }
            assert(first_match_index(rest, input.account_id, input.amount.0 as int, h) == match first_match_index(
                rest.drop_first(),
                input.account_id,
                input.amount.0 as int,
                h,
            ) {
                Some(j) => Some(j + 1),
                None => None,
            });
            i = i + 1;
        }
        proof {
            assert(self.rules@.skip(i as int) =~= Seq::<Rule>::empty());
        }
        None
    }
}

/// Whether the text of `s` is blank (`str::trim` leaves nothing).
pub fn is_blank(s: &str) -> (r: bool)
    ensures
        r == (trim(s@).len() == 0),
{
    let t = trimmed_chars(s);
    t.len() == 0
}

fn build_searchable_text(input: &RuleInput) -> (r: Vec<char>)
    ensures
        r@ == searchable_text(input.description@, opt_view(input.counterparty)),
{
    let text = match input.counterparty {
        Some(counterparty) => {
            if !is_blank(counterparty) {
                let mut joined = String::new();
                push_str(&mut joined, input.description);
                push_char(&mut joined, ' ');
                push_str(&mut joined, counterparty);
                assert(joined@ =~= input.description@ + seq![' '] + counterparty@);
                normalize_description(joined.as_str())
            } else {
                normalize_description(input.description)
            }
        },
        None => normalize_description(input.description),
    };
    chars_of(text.as_str())
}

fn abs_value(m: Money) -> (r: i64)
    ensures
        r == saturate(magnitude(m.0 as int) as int),
{
    m.abs().0
}

fn matches(rule: &Rule, input: &RuleInput, haystack: &Vec<char>) -> (r: bool)
    ensures
        r == rule_matches(*rule, input.account_id, input.amount.0 as int, haystack@),
{
    if let Some(account_id) = rule.account_id {
        if account_id.0 != input.account_id.0 {
            return false;
        }
    }
    if let Some(direction) = rule.direction {
        let actual = if input.amount.is_negative() {
            Direction::Expense
        } else {
            Direction::Income
        };
        if direction != actual {
            return false;
        }
    }
    // Bounds compare magnitudes: "expenses between 10 and 50" reads better
    // than "between -50 and -10".
    let magnitude = abs_value(input.amount);
    if let Some(min) = rule.min_amount {
        if magnitude < abs_value(min) {
            return false;
        }
    }
    if let Some(max) = rule.max_amount {
        if magnitude > abs_value(max) {
            return false;
        }
    }
    let pattern_text = normalize_description(rule.pattern.as_str());
    let pattern = chars_of(pattern_text.as_str());
    if pattern.len() == 0 {
        return false;
    }
    match rule.matcher {
        RuleMatcher::Contains => contains_chars(haystack, &pattern),
        RuleMatcher::StartsWith => occurs_at_exec(haystack, &pattern, 0),
        RuleMatcher::EndsWith => {
            if pattern.len() > haystack.len() {
                false
            } else {
                occurs_at_exec(haystack, &pattern, haystack.len() - pattern.len())
            }
        },
        RuleMatcher::Equals => {
            let r = haystack.len() == pattern.len() && occurs_at_exec(haystack, &pattern, 0);
            proof {
                if haystack@.len() == pattern@.len() {
                    assert(haystack@.subrange(0, pattern@.len() as int) =~= haystack@);
                }
            }
            r
        },
    }
}

// ---------------------------------------------------------------------------
// Applying the rules and learning new ones
// ---------------------------------------------------------------------------

#[derive(Debug, Clone, Copy, Default, PartialEq, Eq, Structural)]
pub struct CategorizationSummary {
    /// Movements that got a category in this run.
    pub categorized: usize,
    /// Movements still without category, waiting for review.
    pub pending: usize,
}

/// The rule the engine applies to a stored movement, if any.
pub open spec fn engine_match(rules: Seq<Rule>, t: Transaction) -> Option<RuleMatch> {
    match first_match_index(
        rules,
        t.account_id,
        t.amount.0 as int,
        searchable_text(t.description@, crate::domain::opt_text(t.counterparty)),
    ) {
        Some(i) => Some(RuleMatch { rule_id: rules[i].id, category_id: rules[i].category_id }),
        None => None,
    }
}

/// Movements per category, in order of first appearance.
pub type Buckets = Seq<(CategoryId, Seq<TransactionId>)>;

pub open spec fn bucket_position(b: Buckets, c: CategoryId) -> Option<int>
    decreases b.len(),
{
    if b.len() == 0 {
        None
    } else {
        match bucket_position(b.drop_last(), c) {
            Some(p) => Some(p),
            None => if b.last().0 == c {
                Some(b.len() - 1)
            } else {
                None
            },
        }
    }
}

/// The movements of `ts` the rules file, grouped by category.
pub open spec fn buckets(rules: Seq<Rule>, ts: Seq<Transaction>) -> Buckets
    decreases ts.len(),
{
    if ts.len() == 0 {
        Seq::empty()
    } else {
        let b = buckets(rules, ts.drop_last());
        match engine_match(rules, ts.last()) {
            None => b,
            Some(m) => match bucket_position(b, m.category_id) {
                Some(p) => b.update(p, (m.category_id, b[p].1.push(ts.last().id))),
                None => b.push((m.category_id, seq![ts.last().id])),
            },
        }
    }
}

pub open spec fn hit_position(h: Seq<(RuleId, int)>, r: RuleId) -> Option<int>
    decreases h.len(),
{
    if h.len() == 0 {
        None
    } else {
        match hit_position(h.drop_last(), r) {
            Some(p) => Some(p),
            None => if h.last().0 == r {
                Some(h.len() - 1)
            } else {
                None
            },
        }
    }
}

/// How many of `ts` each rule files, in order of first appearance.
pub open spec fn hit_counts(rules: Seq<Rule>, ts: Seq<Transaction>) -> Seq<(RuleId, int)>
    decreases ts.len(),
{
    if ts.len() == 0 {
        Seq::empty()
    } else {
        let h = hit_counts(rules, ts.drop_last());
        match engine_match(rules, ts.last()) {
            None => h,
            Some(m) => match hit_position(h, m.rule_id) {
                Some(p) => h.update(p, (m.rule_id, h[p].1 + 1)),
                None => h.push((m.rule_id, 1)),
            },
        }
    }
}

/// What applying the rules to the pending movements changes.
pub struct CategorizationPlan {
    /// Movements to file under each category.
    pub by_category: Vec<(CategoryId, Vec<TransactionId>)>,
    /// How many movements each rule filed.
    pub hits: Vec<(RuleId, i64)>,
}

pub open spec fn bucket_views(v: Seq<(CategoryId, Vec<TransactionId>)>) -> Buckets {
    v.map_values(|e: (CategoryId, Vec<TransactionId>)| (e.0, e.1@))
}

pub open spec fn hit_views(v: Seq<(RuleId, i64)>) -> Seq<(RuleId, int)> {
    v.map_values(|e: (RuleId, i64)| (e.0, e.1 as int))
}

proof fn lemma_bucket_position_facts(b: Buckets, c: CategoryId)
    ensures
        bucket_position(b, c) matches Some(p) ==> 0 <= p < b.len() && b[p].0 == c,
        bucket_position(b, c) is None ==> forall|p: int| 0 <= p < b.len() ==> (#[trigger] b[p]).0 != c,
    decreases b.len(),
{
    if b.len() > 0 {
        lemma_bucket_position_facts(b.drop_last(), c);
        if bucket_position(b, c) is None {
            assert forall|p: int| 0 <= p < b.len() implies (#[trigger] b[p]).0 != c by {
                if p < b.len() - 1 {
                    assert(b.drop_last()[p] == b[p]);
                }
            }
        }
    }
}

proof fn lemma_hit_position_facts(h: Seq<(RuleId, int)>, r: RuleId)
    ensures
        hit_position(h, r) matches Some(p) ==> 0 <= p < h.len() && h[p].0 == r,
    decreases h.len(),
{
    if h.len() > 0 {
        lemma_hit_position_facts(h.drop_last(), r);
    }
}

proof fn lemma_bucket_position_prefix(b: Buckets, c: CategoryId, n: int)
    requires
        0 <= n <= b.len(),
        bucket_position(b.take(n), c) is Some,
    ensures
        bucket_position(b, c) == bucket_position(b.take(n), c),
    decreases b.len() - n,
{
    if n < b.len() {
        assert(b.take(n + 1).drop_last() =~= b.take(n));
        lemma_bucket_position_prefix(b, c, n + 1);
    } else {
        assert(b.take(n) =~= b);
    }
}

proof fn lemma_hit_position_prefix(h: Seq<(RuleId, int)>, r: RuleId, n: int)
    requires
        0 <= n <= h.len(),
        hit_position(h.take(n), r) is Some,
    ensures
        hit_position(h, r) == hit_position(h.take(n), r),
    decreases h.len() - n,
{
    if n < h.len() {
        assert(h.take(n + 1).drop_last() =~= h.take(n));
        lemma_hit_position_prefix(h, r, n + 1);
    } else {
        assert(h.take(n) =~= h);
    }
}

/// Files `id` under `category`.
fn file_under(buckets: &mut Vec<(CategoryId, Vec<TransactionId>)>, category: CategoryId, id: TransactionId)
    ensures
        bucket_views(final(buckets)@) == match bucket_position(bucket_views(old(buckets)@), category) {
            Some(p) => bucket_views(old(buckets)@).update(
                p,
                (category, bucket_views(old(buckets)@)[p].1.push(id)),
            ),
            None => bucket_views(old(buckets)@).push((category, seq![id])),
        },
{
    let ghost b = bucket_views(buckets@);
    let mut p: usize = 0;
    assert(b.take(0) =~= Seq::<(CategoryId, Seq<TransactionId>)>::empty());
    while p < buckets.len() && buckets[p].0.0 != category.0
        invariant
            p <= buckets.len(),
            bucket_views(buckets@) == b,
            bucket_position(b.take(p as int), category) is None,
        decreases buckets.len() - p,
    {
        assert(b.take(p + 1).drop_last() =~= b.take(p as int));
        assert(b.take(p + 1).last() == b[p as int]);
        p = p + 1;
    }
    if p < buckets.len() {
        proof {
            assert(b.take(p + 1).drop_last() =~= b.take(p as int));
            assert(b[p as int].0 == category);
            lemma_bucket_position_prefix(b, category, p + 1);
        }
        let (c, mut ids) = buckets.remove(p);
        ids.push(id);
        buckets.insert(p, (c, ids));
        assert(bucket_views(buckets@) =~= b.update(p as int, (category, b[p as int].1.push(id))));
    } else {
        assert(b.take(p as int) =~= b);
        let mut ids: Vec<TransactionId> = Vec::new();
        ids.push(id);
        buckets.push((category, ids));
        assert(bucket_views(buckets@) =~= b.push((category, seq![id])));
    }
}

/// Counts one more hit of `rule`.
fn count_hit(hits: &mut Vec<(RuleId, i64)>, rule: RuleId)
    requires
        forall|k: int| 0 <= k < old(hits)@.len() ==> (#[trigger] old(hits)@[k]).1 < i64::MAX,
    ensures
        hit_views(final(hits)@) == match hit_position(hit_views(old(hits)@), rule) {
            Some(p) => hit_views(old(hits)@).update(p, (rule, hit_views(old(hits)@)[p].1 + 1)),
            None => hit_views(old(hits)@).push((rule, 1)),
        },
{
    let ghost h = hit_views(hits@);
    let mut p: usize = 0;
    assert(h.take(0) =~= Seq::<(RuleId, int)>::empty());
    while p < hits.len() && hits[p].0.0 != rule.0
        invariant
            p <= hits.len(),
            hit_views(hits@) == h,
            hit_position(h.take(p as int), rule) is None,
        decreases hits.len() - p,
    {
        assert(h.take(p + 1).drop_last() =~= h.take(p as int));
        assert(h.take(p + 1).last() == h[p as int]);
        p = p + 1;
    }
    if p < hits.len() {
        proof {
            assert(h.take(p + 1).drop_last() =~= h.take(p as int));
            assert(h[p as int].0 == rule);
            lemma_hit_position_prefix(h, rule, p + 1);
        }
        let (r, n) = hits.remove(p);
        hits.insert(p, (r, n + 1));
        assert(hit_views(hits@) =~= h.update(p as int, (rule, h[p as int].1 + 1)));
    } else {
        assert(h.take(p as int) =~= h);
        hits.push((rule, 1));
        assert(hit_views(hits@) =~= h.push((rule, 1)));
    }
}

proof fn lemma_hit_counts_bounded(rules: Seq<Rule>, ts: Seq<Transaction>)
    ensures
        forall|k: int| 0 <= k < hit_counts(rules, ts).len() ==> (#[trigger] hit_counts(rules, ts)[k]).1 <= ts.len(),
    decreases ts.len(),
{
    if ts.len() > 0 {
        lemma_hit_counts_bounded(rules, ts.drop_last());
        let h = hit_counts(rules, ts.drop_last());
        match engine_match(rules, ts.last()) {
            None => {},
            Some(m) => {
                lemma_hit_position_facts(h, m.rule_id);
            },
        }
    }
}

/// Applies the engine to the pending movements: which movements go under
/// which category, and how many each rule filed.
pub fn plan_categorization(engine: &RuleEngine, pending: &[Transaction]) -> (r: CategorizationPlan)
    requires
        pending.len() < i64::MAX,
    ensures
        bucket_views(r.by_category@) == buckets(engine@, pending@),
        hit_views(r.hits@) == hit_counts(engine@, pending@),
{
    let mut by_category: Vec<(CategoryId, Vec<TransactionId>)> = Vec::new();
    let mut hits: Vec<(RuleId, i64)> = Vec::new();
    let mut i: usize = 0;
    assert(pending@.take(0) =~= Seq::<Transaction>::empty());
    assert(bucket_views(by_category@) =~= Seq::<(CategoryId, Seq<TransactionId>)>::empty());
    assert(hit_views(hits@) =~= Seq::<(RuleId, int)>::empty());
    while i < pending.len()
        invariant
            i <= pending.len() < i64::MAX,
            bucket_views(by_category@) == buckets(engine@, pending@.take(i as int)),
            hit_views(hits@) == hit_counts(engine@, pending@.take(i as int)),
        decreases pending.len() - i,
    {
        let transaction = &pending[i];
        assert(pending@.take(i + 1).drop_last() =~= pending@.take(i as int));
        assert(pending@.take(i + 1).last() == *transaction);
        let input = RuleInput::from_transaction(transaction);
        assert(opt_view(input.counterparty) == crate::domain::opt_text(transaction.counterparty));
        if let Some(matched) = engine.categorize(&input) {
            file_under(&mut by_category, matched.category_id, transaction.id);
            proof {
                lemma_hit_counts_bounded(engine@, pending@.take(i as int));
                assert forall|k: int| 0 <= k < hits@.len() implies (#[trigger] hits@[k]).1 < i64::MAX by {
                    assert(hit_views(hits@)[k].1 == hits@[k].1);
                }
            }
            count_hit(&mut hits, matched.rule_id);
        }
        i = i + 1;
    }
    assert(pending@.take(i as int) =~= pending@);
    CategorizationPlan { by_category, hits }
}

/// The rule a manual correction teaches: "contains" the pattern the movement
/// suggests, below the rules written by hand. `None` when no reliable pattern
/// can be drawn.
pub fn learned_rule(transaction: &Transaction, category_id: CategoryId) -> (r: Option<NewRule>)
    ensures
        match crate::learning::suggested_pattern(
            transaction.description@,
            crate::domain::opt_text(transaction.counterparty),
        ) {
            None => r is None,
            Some(p) => r matches Some(rule) && rule.matcher == RuleMatcher::Contains && rule.pattern@
                == p && rule.account_id is None && rule.direction is None && rule.min_amount is None
                && rule.max_amount is None && rule.category_id == category_id && rule.priority
                == LEARNED_RULE_PRIORITY && rule.origin == RuleOrigin::Learned,
        },
{
    let counterparty = match &transaction.counterparty {
        Some(c) => Some(c.as_str()),
        None => None,
    };
    match crate::learning::suggest_pattern(transaction.description.as_str(), counterparty) {
        None => None,
        Some(pattern) => Some(
            NewRule {
                matcher: RuleMatcher::Contains,
                pattern,
                account_id: None,
                direction: None,
                min_amount: None,
                max_amount: None,
                category_id,
                priority: LEARNED_RULE_PRIORITY,
                origin: RuleOrigin::Learned,
            },
        ),
    }
}

/// A learned rule looks at nothing but the text: whatever the account, the
/// sign or the size of a movement, it applies exactly when the movement's
/// searchable text contains its normalised pattern, so it files every past
/// and future movement of that merchant.
pub proof fn lemma_learned_rule_looks_only_at_the_text(
    rule: Rule,
    account: AccountId,
    amount: int,
    haystack: Seq<char>,
)
    requires
        rule.matcher == RuleMatcher::Contains,
        rule.account_id is None,
        rule.direction is None,
        rule.min_amount is None,
        rule.max_amount is None,
    ensures
        rule_matches(rule, account, amount, haystack) <==> (normalized_description(rule.pattern@).len() > 0
            && contains_seq(haystack, normalized_description(rule.pattern@))),
{
}

/// How many of `ts` some rule files.
pub open spec fn filed_count(rules: Seq<Rule>, ts: Seq<Transaction>) -> nat
    decreases ts.len(),
{
    if ts.len() == 0 {
        0
    } else {
        filed_count(rules, ts.drop_last()) + if engine_match(rules, ts.last()) is Some {
            1nat
        } else {
            0nat
        }
    }
}

/// Movements in all the buckets together.
pub open spec fn bucket_total(b: Buckets) -> nat
    decreases b.len(),
{
    if b.len() == 0 {
        0
    } else {
        bucket_total(b.drop_last()) + b.last().1.len()
    }
}

/// Hits of all the rules together.
pub open spec fn hit_total(h: Seq<(RuleId, int)>) -> int
    decreases h.len(),
{
    if h.len() == 0 {
        0
    } else {
        hit_total(h.drop_last()) + h.last().1
    }
}

proof fn lemma_bucket_total_grows(b: Buckets, p: int, id: TransactionId)
    requires
        0 <= p < b.len(),
    ensures
        bucket_total(b.update(p, (b[p].0, b[p].1.push(id)))) == bucket_total(b) + 1,
    decreases b.len(),
{
    let n = b.update(p, (b[p].0, b[p].1.push(id)));
    if p == b.len() - 1 {
        assert(n.drop_last() =~= b.drop_last());
    } else {
        lemma_bucket_total_grows(b.drop_last(), p, id);
        assert(n.drop_last() =~= b.drop_last().update(p, (b[p].0, b[p].1.push(id))));
    }
}

proof fn lemma_hit_total_grows(h: Seq<(RuleId, int)>, p: int)
    requires
        0 <= p < h.len(),
    ensures
        hit_total(h.update(p, (h[p].0, h[p].1 + 1))) == hit_total(h) + 1,
    decreases h.len(),
{
    let n = h.update(p, (h[p].0, h[p].1 + 1));
    if p == h.len() - 1 {
        assert(n.drop_last() =~= h.drop_last());
    } else {
        lemma_hit_total_grows(h.drop_last(), p);
        assert(n.drop_last() =~= h.drop_last().update(p, (h[p].0, h[p].1 + 1)));
    }
}

/// Whether movement `id` stands in the bucket of category `c`.
pub open spec fn filed_under(b: Buckets, id: TransactionId, c: CategoryId) -> bool {
    exists|p: int| 0 <= p < b.len() && (#[trigger] b[p]).0 == c && b[p].1.contains(id)
}

/// Whether no two of `ts` share an id, as no two stored movements do.
pub open spec fn ids_distinct(ts: Seq<Transaction>) -> bool {
    forall|i: int, j: int| 0 <= i < j < ts.len() ==> (#[trigger] ts[i]).id != (#[trigger] ts[j]).id
}

/// The shape of the buckets: every id in them is one of the movements', no
/// category has two buckets, and each movement stands under the category of
/// the rule that applies to it, and under no other.
proof fn lemma_buckets_shape(rules: Seq<Rule>, ts: Seq<Transaction>)
    requires
        ids_distinct(ts),
    ensures
        forall|p: int, x: TransactionId|
            0 <= p < buckets(rules, ts).len() && #[trigger] buckets(rules, ts)[p].1.contains(x) ==> exists|k: int|
                0 <= k < ts.len() && (#[trigger] ts[k]).id == x,
        forall|p: int, q: int|
            0 <= p < q < buckets(rules, ts).len() ==> (#[trigger] buckets(rules, ts)[p]).0 != (#[trigger] buckets(
                rules,
                ts,
            )[q]).0,
        forall|k: int, c: CategoryId|
            0 <= k < ts.len() ==> (#[trigger] filed_under(buckets(rules, ts), ts[k].id, c) <==> (engine_match(
                rules,
                ts[k],
            ) matches Some(m) && m.category_id == c)),
    decreases ts.len(),
{
    if ts.len() > 0 {
        let prev = ts.drop_last();
        let t = ts.last();
        assert(ids_distinct(prev)) by {
            assert forall|i: int, j: int| 0 <= i < j < prev.len() implies (#[trigger] prev[i]).id != (
            #[trigger] prev[j]).id by {
                assert(prev[i] == ts[i] && prev[j] == ts[j]);
            }
        }
        lemma_buckets_shape(rules, prev);
        let b = buckets(rules, prev);
        let nb = buckets(rules, ts);
        assert(forall|k: int| 0 <= k < prev.len() ==> (#[trigger] prev[k]) == ts[k]);
        assert(forall|k: int| 0 <= k < prev.len() ==> (#[trigger] prev[k]).id != t.id) by {
            assert forall|k: int| 0 <= k < prev.len() implies (#[trigger] prev[k]).id != t.id by {
                assert(ts[k].id != ts[ts.len() - 1].id);
            }
        }
        // the new movement's id is in no old bucket
        assert forall|p: int| 0 <= p < b.len() implies !(#[trigger] b[p]).1.contains(t.id) by {
            if b[p].1.contains(t.id) {
                let k = choose|k: int| 0 <= k < prev.len() && (#[trigger] prev[k]).id == t.id;
            }
        }
        match engine_match(rules, t) {
            None => {
                assert forall|k: int, c: CategoryId| 0 <= k < ts.len() implies (#[trigger] filed_under(
                    nb,
                    ts[k].id,
                    c,
                ) <==> (engine_match(rules, ts[k]) matches Some(m) && m.category_id == c)) by {
                    if k < prev.len() {
                        assert(filed_under(b, prev[k].id, c) <==> (engine_match(rules, prev[k]) matches Some(m)
                            && m.category_id == c));
                    } else {
                        assert(ts[k] == t);
                        if filed_under(nb, t.id, c) {
                            let p = choose|p: int| 0 <= p < b.len() && (#[trigger] b[p]).0 == c && b[p].1.contains(t.id);
                            assert(!b[p].1.contains(t.id));
                        }
                    }
                }
                assert forall|p: int, x: TransactionId|
                    0 <= p < nb.len() && #[trigger] nb[p].1.contains(x) implies exists|k: int|
                    0 <= k < ts.len() && (#[trigger] ts[k]).id == x by {
                    let k = choose|k: int| 0 <= k < prev.len() && (#[trigger] prev[k]).id == x;
                    assert(ts[k] == prev[k]);
                }
            },
            Some(m) => {
                let c = m.category_id;
                lemma_bucket_position_facts(b, c);
                // an old id is where it was; the new one only under `c`
                assert forall|p: int| 0 <= p < b.len() implies (#[trigger] nb[p]).0 == b[p].0 by {
                    match bucket_position(b, c) {
                        Some(p0) => {},
                        None => {
                            assert(nb[p] == b[p]);
                        },
                    }
                }
                assert forall|p: int, x: TransactionId| 0 <= p < nb.len() && x != t.id implies (#[trigger] nb[p].1.contains(x)
                    <==> (p < b.len() && b[p].1.contains(x))) by {
                    match bucket_position(b, c) {
                        Some(p0) => {
                            if p == p0 {
                                assert(nb[p].1 == b[p].1.push(t.id));
                                assert(b[p].1.push(t.id).contains(x) ==> b[p].1.contains(x)) by {
                                    if b[p].1.push(t.id).contains(x) {
                                        let i = choose|i: int| 0 <= i < b[p].1.push(t.id).len() && b[p].1.push(t.id)[i] == x;
                                        assert(b[p].1[i] == x);
                                    }
                                }
                                assert(b[p].1.contains(x) ==> b[p].1.push(t.id).contains(x)) by {
                                    if b[p].1.contains(x) {
                                        let i = choose|i: int| 0 <= i < b[p].1.len() && b[p].1[i] == x;
                                        assert(b[p].1.push(t.id)[i] == x);
                                    }
                                }
                            }
                        },
                        None => {
                            if p == b.len() {
                                assert(nb[p].1 == seq![t.id]);
                                assert(!seq![t.id].contains(x)) by {
                                    if seq![t.id].contains(x) {
                                        let i = choose|i: int| 0 <= i < seq![t.id].len() && seq![t.id][i] == x;
                                    }
                                }
                            }
                        },
                    }
                }
                let pc: int = match bucket_position(b, c) {
                    Some(p0) => p0,
                    None => b.len() as int,
                };
                assert(0 <= pc < nb.len() && nb[pc].0 == c && nb[pc].1.contains(t.id)) by {
                    match bucket_position(b, c) {
                        Some(p0) => {
                            assert(nb[pc].1 == b[pc].1.push(t.id));
                            assert(nb[pc].1[b[pc].1.len() as int] == t.id);
                        },
                        None => {
                            assert(nb[pc].1 == seq![t.id]);
                            assert(nb[pc].1[0] == t.id);
                        },
                    }
                }
                assert forall|p: int| 0 <= p < nb.len() && (#[trigger] nb[p]).1.contains(t.id) implies p == pc by {
                    if p != pc {
                        match bucket_position(b, c) {
                            Some(p0) => {
                                assert(nb[p] == b[p]);
                            },
                            None => {
                                assert(nb[p] == b[p]);
                            },
                        }
                        assert(!b[p].1.contains(t.id));
                    }
                }
                assert forall|k: int, c2: CategoryId| 0 <= k < ts.len() implies (#[trigger] filed_under(
                    nb,
                    ts[k].id,
                    c2,
                ) <==> (engine_match(rules, ts[k]) matches Some(m2) && m2.category_id == c2)) by {
                    if k < prev.len() {
                        let x = prev[k].id;
                        assert(ts[k] == prev[k]);
                        assert(filed_under(b, x, c2) <==> (engine_match(rules, prev[k]) matches Some(m2)
                            && m2.category_id == c2));
                        if filed_under(nb, x, c2) {
                            let p = choose|p: int| 0 <= p < nb.len() && (#[trigger] nb[p]).0 == c2 && nb[p].1.contains(x);
                            assert(p < b.len() && b[p].1.contains(x) && b[p].0 == c2);
                            assert(filed_under(b, x, c2));
                        }
                        if filed_under(b, x, c2) {
                            let p = choose|p: int| 0 <= p < b.len() && (#[trigger] b[p]).0 == c2 && b[p].1.contains(x);
                            assert(nb[p].1.contains(x) && nb[p].0 == c2);
                            assert(filed_under(nb, x, c2));
                        }
                    } else {
                        assert(ts[k] == t);
                        if filed_under(nb, t.id, c2) {
                            let p = choose|p: int| 0 <= p < nb.len() && (#[trigger] nb[p]).0 == c2 && nb[p].1.contains(t.id);
                            assert(p == pc);
                        }
                        if c2 == c {
                            assert(nb[pc].0 == c2);
                        }
                    }
                }
                assert forall|p: int, x: TransactionId|
                    0 <= p < nb.len() && #[trigger] nb[p].1.contains(x) implies exists|k: int|
                    0 <= k < ts.len() && (#[trigger] ts[k]).id == x by {
                    if x == t.id {
                        assert(ts[ts.len() - 1].id == x);
                    } else {
                        let k = choose|k: int| 0 <= k < prev.len() && (#[trigger] prev[k]).id == x;
                        assert(ts[k] == prev[k]);
                    }
                }
                assert forall|p: int, q: int| 0 <= p < q < nb.len() implies (#[trigger] nb[p]).0 != (#[trigger] nb[q]).0 by {
                    match bucket_position(b, c) {
                        Some(p0) => {
                            assert(nb[p].0 == b[p].0 && nb[q].0 == b[q].0);
                        },
                        None => {
                            if q == b.len() {
                                assert(nb[q].0 == c && nb[p] == b[p]);
                            } else {
                                assert(nb[p] == b[p] && nb[q] == b[q]);
                            }
                        },
                    }
                }
            },
        }
    }
}

/// Where applying the rules files each pending movement: under the category
/// of the first rule that applies to it, and under no other; a movement no
/// rule applies to stays out of every bucket. With no rules nothing is filed.
pub proof fn lemma_each_movement_filed_under_its_rule(rules: Seq<Rule>, ts: Seq<Transaction>)
    requires
        ids_distinct(ts),
    ensures
        forall|k: int, c: CategoryId|
            0 <= k < ts.len() ==> (#[trigger] filed_under(buckets(rules, ts), ts[k].id, c) <==> (engine_match(
                rules,
                ts[k],
            ) matches Some(m) && m.category_id == c)),
        rules.len() == 0 ==> buckets(rules, ts).len() == 0 && hit_counts(rules, ts).len() == 0,
    decreases ts.len(),
{
    lemma_buckets_shape(rules, ts);
    if rules.len() == 0 && ts.len() > 0 {
        lemma_each_movement_filed_under_its_rule(rules, ts.drop_last());
        assert(first_match_index(
            rules,
            ts.last().account_id,
            ts.last().amount.0 as int,
            searchable_text(ts.last().description@, crate::domain::opt_text(ts.last().counterparty)),
        ) is None);
    }
}

/// Applying the rules files every movement a rule applies to exactly once:
/// the buckets hold as many movements as the rules file, and the hits
/// recorded for the rules add up to the same number.
pub proof fn lemma_every_filed_movement_counted_once(rules: Seq<Rule>, ts: Seq<Transaction>)
    ensures
        bucket_total(buckets(rules, ts)) == filed_count(rules, ts),
        hit_total(hit_counts(rules, ts)) == filed_count(rules, ts),
    decreases ts.len(),
{
    if ts.len() > 0 {
        let prefix = ts.drop_last();
        lemma_every_filed_movement_counted_once(rules, prefix);
        let b = buckets(rules, prefix);
        let h = hit_counts(rules, prefix);
        match engine_match(rules, ts.last()) {
            None => {},
            Some(m) => {
                lemma_bucket_position_facts(b, m.category_id);
                lemma_hit_position_facts(h, m.rule_id);
                match bucket_position(b, m.category_id) {
                    Some(p) => {
                        lemma_bucket_total_grows(b, p, ts.last().id);
                    },
                    None => {
                        let n = b.push((m.category_id, seq![ts.last().id]));
                        assert(n.drop_last() =~= b);
                    },
                }
                match hit_position(h, m.rule_id) {
                    Some(p) => {
                        lemma_hit_total_grows(h, p);
                    },
                    None => {
                        let n = h.push((m.rule_id, 1));
                        assert(n.drop_last() =~= h);
                    },
                }
            },
        }
    }
}

} // verus!
