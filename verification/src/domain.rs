//! Accounts, categories, rules and transactions, with their typed ids.
use vstd::prelude::*;

use crate::date::Date;
use crate::money::Money;
use crate::text::{
    ascii_alphanumeric, ascii_digit, ascii_lower, ascii_to_lower, ascii_whitespace, chars_of,
    is_alphanumeric, is_ascii, is_whitespace, str_eq, string_from_chars, to_lowercase, trim_end,
    unicode_alphanumeric, unicode_lowercase,
};

verus! {

// ---------------------------------------------------------------------------
// Typed ids
// ---------------------------------------------------------------------------

#[derive(Debug, Clone, Copy, PartialEq, Eq, Structural, PartialOrd, Ord, Hash)]
pub struct AccountId(pub i64);

#[derive(Debug, Clone, Copy, PartialEq, Eq, Structural, PartialOrd, Ord, Hash)]
pub struct CategoryId(pub i64);

#[derive(Debug, Clone, Copy, PartialEq, Eq, Structural, PartialOrd, Ord, Hash)]
pub struct TransactionId(pub i64);

#[derive(Debug, Clone, Copy, PartialEq, Eq, Structural, PartialOrd, Ord, Hash)]
pub struct RuleId(pub i64);

#[derive(Debug, Clone, Copy, PartialEq, Eq, Structural, PartialOrd, Ord, Hash)]
pub struct ImportId(pub i64);

#[derive(Debug, Clone, Copy, PartialEq, Eq, Structural, PartialOrd, Ord, Hash)]
pub struct TransferLinkId(pub i64);

impl AccountId {
    pub fn value(self) -> (r: i64)
        ensures
            r == self.0,
    {
        self.0
    }
}

impl CategoryId {
    pub fn value(self) -> (r: i64)
        ensures
            r == self.0,
    {
        self.0
    }
}

impl TransactionId {
    pub fn value(self) -> (r: i64)
        ensures
            r == self.0,
    {
        self.0
    }
}

impl RuleId {
    pub fn value(self) -> (r: i64)
        ensures
            r == self.0,
    {
        self.0
    }
}

impl ImportId {
    pub fn value(self) -> (r: i64)
        ensures
            r == self.0,
    {
        self.0
    }
}

impl TransferLinkId {
    pub fn value(self) -> (r: i64)
        ensures
            r == self.0,
    {
        self.0
    }
}

// ---------------------------------------------------------------------------
// Accounts
// ---------------------------------------------------------------------------

/// Kind of account; it decides how the balance reads.
#[derive(Debug, Clone, Copy, PartialEq, Eq, Structural)]
pub enum AccountKind {
    Checking,
    Savings,
    Credit,
    Cash,
    Investment,
}

pub open spec fn account_kind_text(k: AccountKind) -> Seq<char> {
    match k {
        AccountKind::Checking => "checking"@,
        AccountKind::Savings => "savings"@,
        AccountKind::Credit => "credit"@,
        AccountKind::Cash => "cash"@,
        AccountKind::Investment => "investment"@,
    }
}

pub open spec fn account_kind_from_text(s: Seq<char>) -> Option<AccountKind> {
    if s == "checking"@ {
        Some(AccountKind::Checking)
    } else if s == "savings"@ {
        Some(AccountKind::Savings)
    } else if s == "credit"@ {
        Some(AccountKind::Credit)
    } else if s == "cash"@ {
        Some(AccountKind::Cash)
    } else if s == "investment"@ {
        Some(AccountKind::Investment)
    } else {
        None
    }
}

impl AccountKind {
    pub fn as_str(self) -> (r: &'static str)
        ensures
            r@ == account_kind_text(self),
    {
        match self {
            AccountKind::Checking => "checking",
            AccountKind::Savings => "savings",
            AccountKind::Credit => "credit",
            AccountKind::Cash => "cash",
            AccountKind::Investment => "investment",
        }
    }

    pub fn from_str_opt(raw: &str) -> (r: Option<AccountKind>)
        ensures
            r == account_kind_from_text(raw@),
    {
        if str_eq(raw, "checking") {
            Some(AccountKind::Checking)
        } else if str_eq(raw, "savings") {
            Some(AccountKind::Savings)
        } else if str_eq(raw, "credit") {
            Some(AccountKind::Credit)
        } else if str_eq(raw, "cash") {
            Some(AccountKind::Cash)
        } else if str_eq(raw, "investment") {
            Some(AccountKind::Investment)
        } else {
            None
        }
    }
}

/// Reading back the text of an account kind gives the same kind, and no
/// other text reads as that kind.
pub proof fn lemma_account_kind_round_trip(k: AccountKind, s: Seq<char>)
    ensures
        account_kind_from_text(account_kind_text(k)) == Some(k),
        account_kind_from_text(s) == Some(k) ==> s == account_kind_text(k),
{
    reveal_strlit("checking");
    assert("checking"@.len() == 8);
    reveal_strlit("savings");
    assert("savings"@.len() == 7);
    reveal_strlit("credit");
    assert("credit"@.len() == 6);
    reveal_strlit("cash");
    assert("cash"@.len() == 4);
    reveal_strlit("investment");
    assert("investment"@.len() == 10);
}

/// A bank account of the user. `bank` is kept apart from the name because
/// every view groups money by bank.
#[derive(Debug, Clone, PartialEq, Eq)]
pub struct Account {
    pub id: AccountId,
    pub name: String,
    pub bank: String,
    pub kind: AccountKind,
    /// ISO 4217 code in upper case (`"EUR"`).
    pub currency: String,
    pub opening_balance: Money,
    pub archived: bool,
}

#[derive(Debug, Clone, PartialEq, Eq)]
pub struct NewAccount {
    pub name: String,
    pub bank: String,
    pub kind: AccountKind,
    pub currency: String,
    pub opening_balance: Money,
}

// ---------------------------------------------------------------------------
// Categories
// ---------------------------------------------------------------------------

/// Side of the flow a category belongs to.
#[derive(Debug, Clone, Copy, PartialEq, Eq, Structural)]
pub enum CategoryKind {
    Income,
    Expense,
    /// Money moved between the user's own accounts: neither income nor expense.
    Transfer,
}

pub open spec fn category_kind_text(k: CategoryKind) -> Seq<char> {
    match k {
        CategoryKind::Income => "income"@,
        CategoryKind::Expense => "expense"@,
        CategoryKind::Transfer => "transfer"@,
    }
}

pub open spec fn category_kind_from_text(s: Seq<char>) -> Option<CategoryKind> {
    if s == "income"@ {
        Some(CategoryKind::Income)
    } else if s == "expense"@ {
        Some(CategoryKind::Expense)
    } else if s == "transfer"@ {
        Some(CategoryKind::Transfer)
    } else {
        None
    }
}

impl CategoryKind {
    pub fn as_str(self) -> (r: &'static str)
        ensures
            r@ == category_kind_text(self),
    {
        match self {
            CategoryKind::Income => "income",
            CategoryKind::Expense => "expense",
            CategoryKind::Transfer => "transfer",
        }
    }

    pub fn from_str_opt(raw: &str) -> (r: Option<CategoryKind>)
        ensures
            r == category_kind_from_text(raw@),
    {
        if str_eq(raw, "income") {
            Some(CategoryKind::Income)
        } else if str_eq(raw, "expense") {
            Some(CategoryKind::Expense)
        } else if str_eq(raw, "transfer") {
            Some(CategoryKind::Transfer)
        } else {
            None
        }
    }
}

/// Reading back the text of a category kind gives the same kind, and no
/// other text reads as that kind.
pub proof fn lemma_category_kind_round_trip(k: CategoryKind, s: Seq<char>)
    ensures
        category_kind_from_text(category_kind_text(k)) == Some(k),
        category_kind_from_text(s) == Some(k) ==> s == category_kind_text(k),
{
    reveal_strlit("income");
    assert("income"@.len() == 6);
    reveal_strlit("expense");
    assert("expense"@.len() == 7);
    reveal_strlit("transfer");
    assert("transfer"@.len() == 8);
}

#[derive(Debug, Clone, PartialEq, Eq)]
pub struct Category {
    pub id: CategoryId,
    pub name: String,
    pub kind: CategoryKind,
    /// Hex colour (`"#e0b0ff"`) used by the dashboard widgets.
    pub color: String,
    pub is_system: bool,
}

#[derive(Debug, Clone, PartialEq, Eq)]
pub struct NewCategory {
    pub name: String,
    pub kind: CategoryKind,
    pub color: String,
}

// ---------------------------------------------------------------------------
// Rules
// ---------------------------------------------------------------------------

/// How a rule compares its pattern with the text of a movement.
#[derive(Debug, Clone, Copy, PartialEq, Eq, Structural)]
pub enum RuleMatcher {
    Contains,
    StartsWith,
    EndsWith,
    Equals,
}

pub open spec fn rule_matcher_text(k: RuleMatcher) -> Seq<char> {
    match k {
        RuleMatcher::Contains => "contains"@,
        RuleMatcher::StartsWith => "starts_with"@,
        RuleMatcher::EndsWith => "ends_with"@,
        RuleMatcher::Equals => "equals"@,
    }
}

pub open spec fn rule_matcher_from_text(s: Seq<char>) -> Option<RuleMatcher> {
    if s == "contains"@ {
        Some(RuleMatcher::Contains)
    } else if s == "starts_with"@ {
        Some(RuleMatcher::StartsWith)
    } else if s == "ends_with"@ {
        Some(RuleMatcher::EndsWith)
    } else if s == "equals"@ {
        Some(RuleMatcher::Equals)
    } else {
        None
    }
}

impl RuleMatcher {
    pub fn as_str(self) -> (r: &'static str)
        ensures
            r@ == rule_matcher_text(self),
    {
        match self {
            RuleMatcher::Contains => "contains",
            RuleMatcher::StartsWith => "starts_with",
            RuleMatcher::EndsWith => "ends_with",
            RuleMatcher::Equals => "equals",
        }
    }

    pub fn from_str_opt(raw: &str) -> (r: Option<RuleMatcher>)
        ensures
            r == rule_matcher_from_text(raw@),
    {
        if str_eq(raw, "contains") {
            Some(RuleMatcher::Contains)
        } else if str_eq(raw, "starts_with") {
            Some(RuleMatcher::StartsWith)
        } else if str_eq(raw, "ends_with") {
            Some(RuleMatcher::EndsWith)
        } else if str_eq(raw, "equals") {
            Some(RuleMatcher::Equals)
        } else {
            None
        }
    }
}

/// Reading back the text of a matcher gives the same matcher, and no other
/// text reads as that matcher.
pub proof fn lemma_rule_matcher_round_trip(k: RuleMatcher, s: Seq<char>)
    ensures
        rule_matcher_from_text(rule_matcher_text(k)) == Some(k),
        rule_matcher_from_text(s) == Some(k) ==> s == rule_matcher_text(k),
{
    reveal_strlit("contains");
    assert("contains"@.len() == 8);
    reveal_strlit("starts_with");
    assert("starts_with"@.len() == 11);
    reveal_strlit("ends_with");
    assert("ends_with"@.len() == 9);
    reveal_strlit("equals");
    assert("equals"@.len() == 6);
}

/// Where a rule came from.
#[derive(Debug, Clone, Copy, PartialEq, Eq, Structural)]
pub enum RuleOrigin {
    /// Written by hand in the interface.
    User,
    /// Learned from a correction of the user on one movement.
    Learned,
    /// Accepted from a proposal of the assistant.
    Assistant,
}

pub open spec fn rule_origin_text(k: RuleOrigin) -> Seq<char> {
    match k {
        RuleOrigin::User => "user"@,
        RuleOrigin::Learned => "learned"@,
        RuleOrigin::Assistant => "assistant"@,
    }
}

pub open spec fn rule_origin_from_text(s: Seq<char>) -> Option<RuleOrigin> {
    if s == "user"@ {
        Some(RuleOrigin::User)
    } else if s == "learned"@ {
        Some(RuleOrigin::Learned)
    } else if s == "assistant"@ {
        Some(RuleOrigin::Assistant)
    } else {
        None
    }
}

impl RuleOrigin {
    pub fn as_str(self) -> (r: &'static str)
        ensures
            r@ == rule_origin_text(self),
    {
        match self {
            RuleOrigin::User => "user",
            RuleOrigin::Learned => "learned",
            RuleOrigin::Assistant => "assistant",
        }
    }

    pub fn from_str_opt(raw: &str) -> (r: Option<RuleOrigin>)
        ensures
            r == rule_origin_from_text(raw@),
    {
        if str_eq(raw, "user") {
            Some(RuleOrigin::User)
        } else if str_eq(raw, "learned") {
            Some(RuleOrigin::Learned)
        } else if str_eq(raw, "assistant") {
            Some(RuleOrigin::Assistant)
        } else {
            None
        }
    }
}

/// Reading back the text of an origin gives the same origin, and no other
/// text reads as that origin.
pub proof fn lemma_rule_origin_round_trip(k: RuleOrigin, s: Seq<char>)
    ensures
        rule_origin_from_text(rule_origin_text(k)) == Some(k),
        rule_origin_from_text(s) == Some(k) ==> s == rule_origin_text(k),
{
    reveal_strlit("user");
    assert("user"@.len() == 4);
    reveal_strlit("learned");
    assert("learned"@.len() == 7);
    reveal_strlit("assistant");
    assert("assistant"@.len() == 9);
}

/// Direction of a movement, from the sign of its amount.
#[derive(Debug, Clone, Copy, PartialEq, Eq, Structural)]
pub enum Direction {
    Income,
    Expense,
}

/// The direction of a movement of `amount` minor units: negative is expense.
pub open spec fn direction_of(amount: int) -> Direction {
    if amount < 0 {
        Direction::Expense
    } else {
        Direction::Income
    }
}

/// An automatic categorisation rule. Every condition present must hold;
/// absent ones do not restrict.
#[derive(Debug, Clone, PartialEq, Eq)]
pub struct Rule {
    pub id: RuleId,
    pub matcher: RuleMatcher,
    pub pattern: String,
    pub account_id: Option<AccountId>,
    pub direction: Option<Direction>,
    pub min_amount: Option<Money>,
    pub max_amount: Option<Money>,
    pub category_id: CategoryId,
    /// Higher priority is evaluated first; ties go to the oldest rule.
    pub priority: i64,
    pub origin: RuleOrigin,
    pub hits: i64,
}

#[derive(Debug, Clone, PartialEq, Eq)]
pub struct NewRule {
    pub matcher: RuleMatcher,
    pub pattern: String,
    pub account_id: Option<AccountId>,
    pub direction: Option<Direction>,
    pub min_amount: Option<Money>,
    pub max_amount: Option<Money>,
    pub category_id: CategoryId,
    pub priority: i64,
    pub origin: RuleOrigin,
}

// ---------------------------------------------------------------------------
// Transactions
// ---------------------------------------------------------------------------

/// Where a movement came from, so that an import can be undone without
/// touching what the user typed by hand.
#[derive(Debug, Clone, Copy, PartialEq, Eq, Structural)]
pub enum TransactionSource {
    Imported,
    Manual,
}

pub open spec fn transaction_source_text(k: TransactionSource) -> Seq<char> {
    match k {
        TransactionSource::Imported => "imported"@,
        TransactionSource::Manual => "manual"@,
    }
}

pub open spec fn transaction_source_from_text(s: Seq<char>) -> Option<TransactionSource> {
    if s == "imported"@ {
        Some(TransactionSource::Imported)
    } else if s == "manual"@ {
        Some(TransactionSource::Manual)
    } else {
        None
    }
}

impl TransactionSource {
    pub fn as_str(self) -> (r: &'static str)
        ensures
            r@ == transaction_source_text(self),
    {
        match self {
            TransactionSource::Imported => "imported",
            TransactionSource::Manual => "manual",
        }
    }

    pub fn from_str_opt(raw: &str) -> (r: Option<TransactionSource>)
        ensures
            r == transaction_source_from_text(raw@),
    {
        if str_eq(raw, "imported") {
            Some(TransactionSource::Imported)
        } else if str_eq(raw, "manual") {
            Some(TransactionSource::Manual)
        } else {
            None
        }
    }
}

/// Reading back the text of a source gives the same source, and no other
/// text reads as that source.
pub proof fn lemma_transaction_source_round_trip(k: TransactionSource, s: Seq<char>)
    ensures
        transaction_source_from_text(transaction_source_text(k)) == Some(k),
        transaction_source_from_text(s) == Some(k) ==> s == transaction_source_text(k),
{
    reveal_strlit("imported");
    assert("imported"@.len() == 8);
    reveal_strlit("manual");
    assert("manual"@.len() == 6);
}

#[derive(Debug, Clone, PartialEq, Eq)]
pub struct Transaction {
    pub id: TransactionId,
    pub account_id: AccountId,
    /// Booking date, the one the bank orders the statement by.
    pub booked_on: Date,
    /// Value date, when the statement carries it apart.
    pub value_on: Option<Date>,
    pub description: String,
    pub counterparty: Option<String>,
    /// Positive for income, negative for expenses.
    pub amount: Money,
    pub balance_after: Option<Money>,
    pub category_id: Option<CategoryId>,
    pub notes: Option<String>,
    pub source: TransactionSource,
    pub import_id: Option<ImportId>,
    /// Stable fingerprint of the movement, used to skip it on re-import.
    pub fingerprint: String,
}

/// The text of an optional string.
pub open spec fn opt_text(s: Option<String>) -> Option<Seq<char>> {
    match s {
        Some(t) => Some(t@),
        None => None,
    }
}

/// Two movements that hold the same values, text compared by its characters.
pub open spec fn same_transaction(a: Transaction, b: Transaction) -> bool {
    &&& a.id == b.id
    &&& a.account_id == b.account_id
    &&& a.booked_on == b.booked_on
    &&& a.value_on == b.value_on
    &&& a.description@ == b.description@
    &&& opt_text(a.counterparty) == opt_text(b.counterparty)
    &&& a.amount == b.amount
    &&& a.balance_after == b.balance_after
    &&& a.category_id == b.category_id
    &&& opt_text(a.notes) == opt_text(b.notes)
    &&& a.source == b.source
    &&& a.import_id == b.import_id
    &&& a.fingerprint@ == b.fingerprint@
}

fn copy_opt_text(s: &Option<String>) -> (r: Option<String>)
    ensures
        opt_text(r) == opt_text(*s),
{
    match s {
        Some(t) => Some(crate::text::string_from_str(t.as_str())),
        None => None,
    }
}

impl Transaction {
    /// A copy of the movement.
    pub fn duplicate(&self) -> (r: Transaction)
        ensures
            same_transaction(r, *self),
    {
        Transaction {
            id: self.id,
            account_id: self.account_id,
            booked_on: self.booked_on,
            value_on: self.value_on,
            description: crate::text::string_from_str(self.description.as_str()),
            counterparty: copy_opt_text(&self.counterparty),
            amount: self.amount,
            balance_after: self.balance_after,
            category_id: self.category_id,
            notes: copy_opt_text(&self.notes),
            source: self.source,
            import_id: self.import_id,
            fingerprint: crate::text::string_from_str(self.fingerprint.as_str()),
        }
    }

    pub fn direction(&self) -> (r: Direction)
        ensures
            r == direction_of(self.amount.0 as int),
    {
        if self.amount.is_negative() {
            Direction::Expense
        } else {
            Direction::Income
        }
    }
}

#[derive(Debug, Clone, PartialEq, Eq)]
pub struct NewTransaction {
    pub account_id: AccountId,
    pub booked_on: Date,
    pub value_on: Option<Date>,
    pub description: String,
    pub counterparty: Option<String>,
    pub amount: Money,
    pub balance_after: Option<Money>,
    pub category_id: Option<CategoryId>,
    pub notes: Option<String>,
    pub source: TransactionSource,
    pub import_id: Option<ImportId>,
}

// ---------------------------------------------------------------------------
// Description normalisation
// ---------------------------------------------------------------------------

/// Output so far and whether it ends in a word break, after reading `s`:
/// alphanumerics go in lower case, any other run becomes one space, and
/// leading noise is dropped.
pub open spec fn normalize_state(s: Seq<char>) -> (Seq<char>, bool)
    decreases s.len(),
{
    if s.len() == 0 {
        (Seq::empty(), true)
    } else {
        let (out, last_was_space) = normalize_state(s.drop_last());
        let c = s.last();
        if unicode_alphanumeric(c) {
            (out + unicode_lowercase(c), false)
        } else if !last_was_space {
            (out.push(' '), true)
        } else {
            (out, last_was_space)
        }
    }
}

/// The description as it is compared: lower case, punctuation and runs of
/// spaces folded into single spaces, no leading or trailing space.
pub open spec fn normalized_description(s: Seq<char>) -> Seq<char> {
    trim_end(normalize_state(s).0)
}

/// Whether every character of `s` is ASCII.
pub open spec fn all_ascii(s: Seq<char>) -> bool {
    forall|i: int| 0 <= i < s.len() ==> is_ascii(#[trigger] s[i])
}

/// `normalize_state` on ASCII text, where letters, digits, case and
/// whitespace are the plain ASCII ones.
pub open spec fn ascii_normalize_state(s: Seq<char>) -> (Seq<char>, bool)
    decreases s.len(),
{
    if s.len() == 0 {
        (Seq::empty(), true)
    } else {
        let (out, last_was_space) = ascii_normalize_state(s.drop_last());
        let c = s.last();
        if ascii_alphanumeric(c) {
            (out.push(ascii_to_lower(c)), false)
        } else if !last_was_space {
            (out.push(' '), true)
        } else {
            (out, last_was_space)
        }
    }
}

/// `s` without its trailing ASCII whitespace.
pub open spec fn ascii_trim_end(s: Seq<char>) -> Seq<char>
    decreases s.len(),
{
    if s.len() > 0 && ascii_whitespace(s.last()) {
        ascii_trim_end(s.drop_last())
    } else {
        s
    }
}

/// The normalised form of an ASCII description.
pub open spec fn ascii_normalized(s: Seq<char>) -> Seq<char> {
    ascii_trim_end(ascii_normalize_state(s).0)
}

/// A character that a normalised ASCII description can hold.
pub open spec fn normal_char(c: char) -> bool {
    ascii_lower(c) || ascii_digit(c) || c == ' '
}

/// Only lower-case letters, digits and spaces, no leading space and never two
/// spaces in a row.
pub open spec fn tidy_spacing(t: Seq<char>) -> bool {
    &&& forall|i: int| 0 <= i < t.len() ==> normal_char(#[trigger] t[i])
    &&& t.len() > 0 ==> t[0] != ' '
    &&& forall|i: int| 0 <= i < t.len() - 1 ==> !(#[trigger] t[i] == ' ' && t[i + 1] == ' ')
}

/// What the normalising pass has written so far is tidy, and it stands after
/// a word break exactly when it is empty or ends in a space.
proof fn lemma_ascii_state_is_tidy(s: Seq<char>)
    ensures
        tidy_spacing(ascii_normalize_state(s).0),
        ascii_normalize_state(s).1 == (ascii_normalize_state(s).0.len() == 0
            || ascii_normalize_state(s).0.last() == ' '),
    decreases s.len(),
{
    if s.len() > 0 {
        lemma_ascii_state_is_tidy(s.drop_last());
        let (out, _) = ascii_normalize_state(s.drop_last());
        let now = ascii_normalize_state(s).0;
        assert(forall|i: int| 0 <= i < out.len() ==> now[i] == out[i] || now == out);
    }
}

/// Trimming trailing ASCII whitespace keeps a prefix that does not end in
/// whitespace.
proof fn lemma_ascii_trim_end_is_prefix(s: Seq<char>)
    ensures
        ascii_trim_end(s).len() <= s.len(),
        ascii_trim_end(s) == s.take(ascii_trim_end(s).len() as int),
        ascii_trim_end(s).len() > 0 ==> !ascii_whitespace(ascii_trim_end(s).last()),
    decreases s.len(),
{
    if s.len() > 0 && ascii_whitespace(s.last()) {
        lemma_ascii_trim_end_is_prefix(s.drop_last());
        let t = ascii_trim_end(s.drop_last());
        assert(s.drop_last().take(t.len() as int) =~= s.take(t.len() as int));
    } else {
        assert(s.take(s.len() as int) =~= s);
    }
}

/// On tidy text the normalising pass copies its input.
proof fn lemma_ascii_state_of_tidy(t: Seq<char>)
    requires
        tidy_spacing(t),
    ensures
        ascii_normalize_state(t) == (t, t.len() == 0 || t.last() == ' '),
    decreases t.len(),
{
    if t.len() > 0 {
        let p = t.drop_last();
        assert(tidy_spacing(p)) by {
            assert forall|i: int| 0 <= i < p.len() - 1 implies !(#[trigger] p[i] == ' ' && p[i + 1] == ' ') by {
                assert(p[i] == t[i] && p[i + 1] == t[i + 1]);
            }
            assert forall|i: int| 0 <= i < p.len() implies normal_char(#[trigger] p[i]) by {
                assert(p[i] == t[i]);
            }
        }
        lemma_ascii_state_of_tidy(p);
        let c = t.last();
        assert(normal_char(t[t.len() - 1]));
        if c == ' ' {
            assert(t.len() > 1);
            assert(!(t[t.len() - 2] == ' ' && t[t.len() - 1] == ' '));
            assert(p.last() == t[t.len() - 2]);
        }
        assert(p.push(c) =~= t);
    }
}

/// A normalised ASCII description holds only lower-case letters, digits and
/// single spaces between words, with no space at either end; normalising it
/// again changes nothing.
pub proof fn lemma_normalized_ascii_is_tidy_and_stable(s: Seq<char>)
    ensures
        tidy_spacing(ascii_normalized(s)),
        ascii_normalized(s).len() > 0 ==> ascii_normalized(s).last() != ' ',
        all_ascii(ascii_normalized(s)),
        ascii_normalized(ascii_normalized(s)) == ascii_normalized(s),
{
    let o = ascii_normalize_state(s).0;
    let n = ascii_normalized(s);
    lemma_ascii_state_is_tidy(s);
    lemma_ascii_trim_end_is_prefix(o);
    assert(tidy_spacing(n)) by {
        assert forall|i: int| 0 <= i < n.len() - 1 implies !(#[trigger] n[i] == ' ' && n[i + 1] == ' ') by {
            assert(n[i] == o[i] && n[i + 1] == o[i + 1]);
        }
        assert forall|i: int| 0 <= i < n.len() implies normal_char(#[trigger] n[i]) by {
            assert(n[i] == o[i]);
        }
        if n.len() > 0 {
            assert(n[0] == o[0]);
        }
    }
    assert(all_ascii(n)) by {
        assert forall|i: int| 0 <= i < n.len() implies is_ascii(#[trigger] n[i]) by {
            assert(normal_char(n[i]));
        }
    }
    lemma_ascii_state_of_tidy(n);
    if n.len() > 0 {
        assert(normal_char(n[n.len() - 1]));
    }
}

/// Normalises a description for comparison: banks change spaces, case and
/// punctuation between exports of the same movement. On ASCII text it is
/// exactly the ASCII model above.
pub fn normalize_description(description: &str) -> (r: String)
    ensures
        r@ == normalized_description(description@),
        all_ascii(description@) ==> r@ == ascii_normalized(description@),
{
    let chars = chars_of(description);
    let mut normalized: Vec<char> = Vec::new();
    let mut last_was_space = true;
    let mut i: usize = 0;
    while i < chars.len()
        invariant
            i <= chars.len(),
            chars@ == description@,
            (normalized@, last_was_space) == normalize_state(description@.take(i as int)),
            all_ascii(description@) ==> (normalized@, last_was_space) == ascii_normalize_state(
                description@.take(i as int),
            ),
        decreases chars.len() - i,
    {
        let ch = chars[i];
        assert(ch == description@[i as int]);
        assert(description@.take(i + 1).drop_last() =~= description@.take(i as int));
        if is_alphanumeric(ch) {
            let lower = to_lowercase(ch);
            let mut k: usize = 0;
            let ghost before = normalized@;
            while k < lower.len()
                invariant
                    k <= lower.len(),
                    normalized@ == before + lower@.take(k as int),
                decreases lower.len() - k,
            {
                normalized.push(lower[k]);
                assert(before + lower@.take(k + 1) =~= (before + lower@.take(k as int)).push(lower@[k as int]));
                k = k + 1;
            }
            assert(lower@.take(lower.len() as int) =~= lower@);
            last_was_space = false;
        } else if !last_was_space {
            normalized.push(' ');
            last_was_space = true;
        }
        i = i + 1;
    }
    assert(description@.take(description@.len() as int) =~= description@);
    let ghost written = normalized@;
    proof {
        lemma_ascii_state_is_tidy(description@);
    }
    while normalized.len() > 0 && is_whitespace(normalized[normalized.len() - 1])
        invariant
            trim_end(normalized@) == trim_end(written),
            normalized.len() <= written.len(),
            normalized@ == written.take(normalized.len() as int),
            all_ascii(description@) ==> written == ascii_normalize_state(description@).0,
            all_ascii(description@) ==> tidy_spacing(written),
            all_ascii(description@) ==> ascii_trim_end(normalized@) == ascii_trim_end(written),
        decreases normalized.len(),
    {
        let ghost before = normalized@;
        proof {
            if all_ascii(description@) {
                assert(before.last() == written[before.len() - 1]);
                assert(normal_char(written[before.len() - 1]));
            }
        }
        normalized.pop();
        assert(normalized@ =~= before.drop_last());
        assert(written.take(normalized.len() as int) =~= before.drop_last());
    }
    proof {
        if all_ascii(description@) && normalized.len() > 0 {
            assert(normalized@.last() == written[normalized.len() - 1]);
            assert(normal_char(written[normalized.len() - 1]));
        }
    }
    string_from_chars(&normalized)
}

} // verus!
