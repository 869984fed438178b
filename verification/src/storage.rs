//! What the storage layer decides without touching the database: which
//! stored values read back as domain values, and the `WHERE` clause that the
//! listing, the counts and the aggregations share.
use chrono::Datelike;
use vstd::prelude::*;

use crate::date::{iso_text, Date};
use crate::domain::{
    account_kind_from_text, category_kind_from_text, rule_matcher_from_text,
    rule_origin_from_text, transaction_source_from_text, Account, AccountId, AccountKind,
    Category, CategoryId, CategoryKind, Direction, ImportId, Rule, RuleId, RuleMatcher,
    RuleOrigin, Transaction, TransactionId, TransactionSource, NewTransaction, NewRule, NewAccount,
    NewCategory,
    transaction_source_text,
};
use crate::fingerprint::fingerprint_text;
use crate::money::{decimal_digits, push_decimal, Money};
use crate::text::{
    push_char, push_str, str_eq, string_from_chars, string_from_str, trim, trimmed_chars, unicode_uppercase_text,
    uppercase_str,
};

verus! {

/// Why a storage operation failed, with the values the message needs.
#[derive(Debug, Clone, PartialEq, Eq)]
pub enum StorageError {
    /// The database engine refused the operation.
    Sqlite { message: String },
    /// A schema migration failed.
    Migration { version: i64, name: &'static str, message: String },
    /// The row asked for does not exist.
    NotFound { entity: &'static str, id: i64 },
    /// A stored value does not read back as what it should be.
    CorruptValue { field: &'static str, value: String },
}

/// The message of an error.
pub open spec fn storage_error_text(e: StorageError) -> Seq<char> {
    match e {
        StorageError::Sqlite { message } => "database error: "@ + message@,
        StorageError::Migration { version, name, message } => "migration "@ + int_digits(
            version as int,
        ) + " ("@ + name@ + ") failed: "@ + message@,
        StorageError::NotFound { entity, id } => entity@ + " with id "@ + int_digits(id as int)
            + " does not exist"@,
        StorageError::CorruptValue { field, value } => "stored value `"@ + value@
            + "` is not a valid "@ + field@,
    }
}

/// Decimal text of an integer, with a minus sign when negative.
pub open spec fn int_digits(v: int) -> Seq<char> {
    if v < 0 {
        seq!['-'] + decimal_digits((-v) as nat)
    } else {
        decimal_digits(v as nat)
    }
}

/// Appends the decimal text of `v`.
pub fn push_int(v: i64, out: &mut String)
    ensures
        final(out)@ == old(out)@ + int_digits(v as int),
{
    if v < 0 {
        push_char(out, '-');
        let magnitude: u64 = if v == i64::MIN {
            9223372036854775808u64
        } else {
            (-v) as u64
        };
        push_decimal(magnitude, out);
    } else {
        push_decimal(v as u64, out);
    }
}

impl StorageError {
    /// The message shown for this error.
    pub fn message(&self) -> (r: String)
        ensures
            r@ == storage_error_text(*self),
    {
        match self {
            StorageError::Sqlite { message } => {
                let mut text = string_from_str("database error: ");
                push_str(&mut text, message.as_str());
                text
            },
            StorageError::Migration { version, name, message } => {
                let mut text = string_from_str("migration ");
                push_int(*version, &mut text);
                push_str(&mut text, " (");
                push_str(&mut text, name);
                push_str(&mut text, ") failed: ");
                push_str(&mut text, message.as_str());
                text
            },
            StorageError::NotFound { entity, id } => {
                let mut text = string_from_str(entity);
                push_str(&mut text, " with id ");
                push_int(*id, &mut text);
                push_str(&mut text, " does not exist");
                text
            },
            StorageError::CorruptValue { field, value } => {
                let mut text = string_from_str("stored value `");
                push_str(&mut text, value.as_str());
                push_str(&mut text, "` is not a valid ");
                push_str(&mut text, field);
                text
            },
        }
    }
}

/// Outcome of inserting a batch of imported movements.
#[derive(Debug, Clone, Copy, Default, PartialEq, Eq, Structural)]
pub struct InsertSummary {
    pub inserted: usize,
    pub duplicates: usize,
}

/// What was found out about a brand when it was looked up outside. A `None`
/// summary means "asked, nothing useful", stored so as not to ask again.
#[derive(Debug, Clone, PartialEq, Eq)]
pub struct BrandLookup {
    pub term: String,
    pub summary: Option<String>,
    pub looked_up_at: String,
}

/// Position of a widget on the dashboard grid, in grid units.
#[derive(Debug, Clone, Copy, PartialEq, Eq, Structural)]
pub struct WidgetPlacement {
    pub x: i64,
    pub y: i64,
    pub w: i64,
    pub h: i64,
}

// ---------------------------------------------------------------------------
// Reading rows back
// ---------------------------------------------------------------------------

/// A stored account, as the columns hold it.
#[derive(Debug, Clone, PartialEq, Eq)]
pub struct AccountRow {
    pub id: i64,
    pub name: String,
    pub bank: String,
    pub kind: String,
    pub currency: String,
    pub opening_balance: i64,
    pub archived: i64,
}

/// A stored category, as the columns hold it.
#[derive(Debug, Clone, PartialEq, Eq)]
pub struct CategoryRow {
    pub id: i64,
    pub name: String,
    pub kind: String,
    pub color: String,
    pub is_system: i64,
}

/// A stored rule, as the columns hold it.
#[derive(Debug, Clone, PartialEq, Eq)]
pub struct RuleRow {
    pub id: i64,
    pub matcher: String,
    pub pattern: String,
    pub account_id: Option<i64>,
    pub direction: Option<String>,
    pub min_amount: Option<i64>,
    pub max_amount: Option<i64>,
    pub category_id: i64,
    pub priority: i64,
    pub origin: String,
    pub hits: i64,
}

/// A stored movement, as the columns hold it.
#[derive(Debug, Clone, PartialEq, Eq)]
pub struct TransactionRow {
    pub id: i64,
    pub account_id: i64,
    pub booked_on: String,
    pub value_on: Option<String>,
    pub description: String,
    pub counterparty: Option<String>,
    pub amount: i64,
    pub balance_after: Option<i64>,
    pub category_id: Option<i64>,
    pub notes: Option<String>,
    pub source: String,
    pub import_id: Option<i64>,
    pub fingerprint: String,
}

/// Whether `e` is the error for a stored `value` that is not a valid `field`.
pub open spec fn is_corrupt(e: StorageError, field: Seq<char>, value: Seq<char>) -> bool {
    e matches StorageError::CorruptValue { field: f, value: v } && f@ == field && v@ == value
}

fn corrupt(field: &'static str, value: &str) -> (e: StorageError)
    ensures
        is_corrupt(e, field@, value@),
{
    StorageError::CorruptValue { field, value: string_from_str(value) }
}

/// Whether `row` holds what storing account `n` writes: name and bank
/// trimmed, the currency trimmed and in upper case, the kind by name, not
/// archived.
pub open spec fn stores_account(row: AccountRow, n: NewAccount) -> bool {
    &&& row.name@ == trim(n.name@)
    &&& row.bank@ == trim(n.bank@)
    &&& row.kind@ == crate::domain::account_kind_text(n.kind)
    &&& row.currency@ == unicode_uppercase_text(trim(n.currency@))
    &&& row.opening_balance == n.opening_balance.0
    &&& row.archived == 0
}

/// The columns that storing `account` writes, under row `id`.
pub fn account_row(account: &NewAccount, id: i64) -> (r: AccountRow)
    ensures
        r.id == id,
        stores_account(r, *account),
{
    let currency = string_from_chars(&trimmed_chars(account.currency.as_str()));
    AccountRow {
        id,
        name: string_from_chars(&trimmed_chars(account.name.as_str())),
        bank: string_from_chars(&trimmed_chars(account.bank.as_str())),
        kind: string_from_str(account.kind.as_str()),
        currency: uppercase_str(currency.as_str()),
        opening_balance: account.opening_balance.0,
        archived: 0,
    }
}

/// Whether `row` holds what storing category `n` writes: name and colour
/// trimmed, the kind by name, and never a system category.
pub open spec fn stores_category(row: CategoryRow, n: NewCategory) -> bool {
    &&& row.name@ == trim(n.name@)
    &&& row.kind@ == crate::domain::category_kind_text(n.kind)
    &&& row.color@ == trim(n.color@)
    &&& row.is_system == 0
}

/// The columns that storing `category` writes, under row `id`: a category
/// the user creates is never a system one.
pub fn category_row(category: &NewCategory, id: i64) -> (r: CategoryRow)
    ensures
        r.id == id,
        stores_category(r, *category),
{
    CategoryRow {
        id,
        name: string_from_chars(&trimmed_chars(category.name.as_str())),
        kind: string_from_str(category.kind.as_str()),
        color: string_from_chars(&trimmed_chars(category.color.as_str())),
        is_system: 0,
    }
}

/// The account a stored row describes; an unknown kind is corrupt data.
pub fn account_from_row(row: &AccountRow) -> (r: Result<Account, StorageError>)
    ensures
        match account_kind_from_text(row.kind@) {
            None => r matches Err(e) && is_corrupt(e, "account kind"@, row.kind@),
            Some(kind) => r matches Ok(a) && a.id == AccountId(row.id) && a.name@ == row.name@
                && a.bank@ == row.bank@ && a.kind == kind && a.currency@ == row.currency@
                && a.opening_balance == Money(row.opening_balance) && a.archived == (row.archived != 0),
        },
        forall|n: NewAccount| #[trigger] stores_account(*row, n) ==> (r matches Ok(a) && {
            &&& a.id == AccountId(row.id)
            &&& a.name@ == trim(n.name@)
            &&& a.bank@ == trim(n.bank@)
            &&& a.kind == n.kind
            &&& a.currency@ == unicode_uppercase_text(trim(n.currency@))
            &&& a.opening_balance == n.opening_balance
            &&& !a.archived
        }),
{
    let kind = match AccountKind::from_str_opt(row.kind.as_str()) {
        Some(kind) => kind,
        None => {
            proof {
                assert forall|n: NewAccount| #[trigger] stores_account(*row, n) implies false by {
                    crate::domain::lemma_account_kind_round_trip(n.kind, row.kind@);
                }
            }
            return Err(corrupt("account kind", row.kind.as_str()));
        },
    };
    proof {
        assert forall|n: NewAccount| #[trigger] stores_account(*row, n) implies n.kind == kind by {
            crate::domain::lemma_account_kind_round_trip(n.kind, row.kind@);
        }
    }
    Ok(
        Account {
            id: AccountId(row.id),
            name: string_from_str(row.name.as_str()),
            bank: string_from_str(row.bank.as_str()),
            kind,
            currency: string_from_str(row.currency.as_str()),
            opening_balance: Money::from_minor_units(row.opening_balance),
            archived: row.archived != 0,
        },
    )
}

/// The category a stored row describes; an unknown kind is corrupt data.
pub fn category_from_row(row: &CategoryRow) -> (r: Result<Category, StorageError>)
    ensures
        match category_kind_from_text(row.kind@) {
            None => r matches Err(e) && is_corrupt(e, "category kind"@, row.kind@),
            Some(kind) => r matches Ok(c) && c.id == CategoryId(row.id) && c.name@ == row.name@
                && c.kind == kind && c.color@ == row.color@ && c.is_system == (row.is_system != 0),
        },
        forall|n: NewCategory| #[trigger] stores_category(*row, n) ==> (r matches Ok(c) && {
            &&& c.id == CategoryId(row.id)
            &&& c.name@ == trim(n.name@)
            &&& c.kind == n.kind
            &&& c.color@ == trim(n.color@)
            &&& !c.is_system
        }),
{
    let kind = match CategoryKind::from_str_opt(row.kind.as_str()) {
        Some(kind) => kind,
        None => {
            proof {
                assert forall|n: NewCategory| #[trigger] stores_category(*row, n) implies false by {
                    crate::domain::lemma_category_kind_round_trip(n.kind, row.kind@);
                }
            }
            return Err(corrupt("category kind", row.kind.as_str()));
        },
    };
    proof {
        assert forall|n: NewCategory| #[trigger] stores_category(*row, n) implies n.kind == kind by {
            crate::domain::lemma_category_kind_round_trip(n.kind, row.kind@);
        }
    }
    Ok(
        Category {
            id: CategoryId(row.id),
            name: string_from_str(row.name.as_str()),
            kind,
            color: string_from_str(row.color.as_str()),
            is_system: row.is_system != 0,
        },
    )
}

/// The stored text of a direction.
pub open spec fn direction_from_text(s: Seq<char>) -> Option<Direction> {
    if s == "income"@ {
        Some(Direction::Income)
    } else if s == "expense"@ {
        Some(Direction::Expense)
    } else {
        None
    }
}

/// The stored text of a direction.
pub open spec fn direction_text(d: Direction) -> Seq<char> {
    match d {
        Direction::Income => "income"@,
        Direction::Expense => "expense"@,
    }
}

/// The text a direction is stored as.
pub fn direction_as_str(direction: Direction) -> (r: &'static str)
    ensures
        r@ == direction_text(direction),
{
    match direction {
        Direction::Income => "income",
        Direction::Expense => "expense",
    }
}

proof fn lemma_direction_round_trip(d: Direction)
    ensures
        direction_from_text(direction_text(d)) == Some(d),
{
    reveal_strlit("income");
    reveal_strlit("expense");
    assert("income"@.len() != "expense"@.len());
}

/// Whether `row` holds what storing rule `n` writes: its pattern trimmed,
/// its matcher, direction and origin by name, and no hits yet.
pub open spec fn stores_rule(row: RuleRow, n: NewRule) -> bool {
    &&& row.matcher@ == crate::domain::rule_matcher_text(n.matcher)
    &&& row.pattern@ == trim(n.pattern@)
    &&& row.account_id == (match n.account_id {
        Some(a) => Some(a.0),
        None => None,
    })
    &&& crate::domain::opt_text(row.direction) == (match n.direction {
        Some(d) => Some(direction_text(d)),
        None => None,
    })
    &&& row.min_amount == (match n.min_amount {
        Some(m) => Some(m.0),
        None => None,
    })
    &&& row.max_amount == (match n.max_amount {
        Some(m) => Some(m.0),
        None => None,
    })
    &&& row.category_id == n.category_id.0
    &&& row.priority == n.priority
    &&& row.origin@ == crate::domain::rule_origin_text(n.origin)
}

/// Whether `rule` is rule `n` as stored under `id` with `hits` hits: the same
/// conditions, with the pattern trimmed.
pub open spec fn rule_reads_back(rule: Rule, id: i64, hits: i64, n: NewRule) -> bool {
    &&& rule.id == RuleId(id)
    &&& rule.matcher == n.matcher
    &&& rule.pattern@ == trim(n.pattern@)
    &&& rule.account_id == n.account_id
    &&& rule.direction == n.direction
    &&& rule.min_amount == n.min_amount
    &&& rule.max_amount == n.max_amount
    &&& rule.category_id == n.category_id
    &&& rule.priority == n.priority
    &&& rule.origin == n.origin
    &&& rule.hits == hits
}

/// The columns that storing `rule` writes, under row `id`: a new rule has
/// no hits.
pub fn rule_row(rule: &NewRule, id: i64) -> (r: RuleRow)
    ensures
        r.id == id,
        r.hits == 0,
        stores_rule(r, *rule),
{
    RuleRow {
        id,
        matcher: string_from_str(rule.matcher.as_str()),
        pattern: string_from_chars(&trimmed_chars(rule.pattern.as_str())),
        account_id: match rule.account_id {
            Some(a) => Some(a.0),
            None => None,
        },
        direction: match rule.direction {
            Some(d) => Some(string_from_str(direction_as_str(d))),
            None => None,
        },
        min_amount: match rule.min_amount {
            Some(m) => Some(m.0),
            None => None,
        },
        max_amount: match rule.max_amount {
            Some(m) => Some(m.0),
            None => None,
        },
        category_id: rule.category_id.0,
        priority: rule.priority,
        origin: string_from_str(rule.origin.as_str()),
        hits: 0,
    }
}

/// The rule a stored row describes. An unknown matcher, direction or origin
/// is corrupt data; they are checked in that order.
pub fn rule_from_row(row: &RuleRow) -> (r: Result<Rule, StorageError>)
    ensures
        match rule_matcher_from_text(row.matcher@) {
            None => r matches Err(e) && is_corrupt(e, "rule matcher"@, row.matcher@),
            Some(matcher) => match row.direction {
                Some(d) if direction_from_text(d@) is None => r matches Err(e) && is_corrupt(
                    e,
                    "rule direction"@,
                    d@,
                ),
                _ => match rule_origin_from_text(row.origin@) {
                    None => r matches Err(e) && is_corrupt(e, "rule origin"@, row.origin@),
                    Some(origin) => r matches Ok(rule) && rule.id == RuleId(row.id) && rule.matcher
                        == matcher && rule.pattern@ == row.pattern@ && rule.account_id == (match row.account_id {
                        Some(a) => Some(AccountId(a)),
                        None => None,
                    }) && rule.direction == (match row.direction {
                        Some(d) => direction_from_text(d@),
                        None => None,
                    }) && rule.min_amount == (match row.min_amount {
                        Some(m) => Some(Money(m)),
                        None => None,
                    }) && rule.max_amount == (match row.max_amount {
                        Some(m) => Some(Money(m)),
                        None => None,
                    }) && rule.category_id == CategoryId(row.category_id) && rule.priority
                        == row.priority && rule.origin == origin && rule.hits == row.hits,
                },
            },
        },
        forall|n: NewRule| #[trigger] stores_rule(*row, n) ==> (r matches Ok(rule) && rule_reads_back(
            rule,
            row.id,
            row.hits,
            n,
        )),
{
    let matcher = match RuleMatcher::from_str_opt(row.matcher.as_str()) {
        Some(matcher) => matcher,
        None => return Err(corrupt("rule matcher", row.matcher.as_str())),
    };
    let direction = match &row.direction {
        Some(raw) => {
            if str_eq(raw.as_str(), "income") {
                Some(Direction::Income)
            } else if str_eq(raw.as_str(), "expense") {
                Some(Direction::Expense)
            } else {
                return Err(corrupt("rule direction", raw.as_str()));
            }
        },
        None => None,
    };
    proof {
        assert forall|n: NewRule| #[trigger] stores_rule(*row, n) implies n.matcher == matcher
            && n.direction == direction by {
            crate::domain::lemma_rule_matcher_round_trip(n.matcher, row.matcher@);
            if let Some(d) = n.direction {
                lemma_direction_round_trip(d);
            }
        }
    }
    let origin = match RuleOrigin::from_str_opt(row.origin.as_str()) {
        Some(origin) => origin,
        None => {
            proof {
                assert forall|n: NewRule| #[trigger] stores_rule(*row, n) implies false by {
                    crate::domain::lemma_rule_origin_round_trip(n.origin, row.origin@);
                }
            }
            return Err(corrupt("rule origin", row.origin.as_str()));
        },
    };
    proof {
        assert forall|n: NewRule| #[trigger] stores_rule(*row, n) implies n.origin == origin by {
            crate::domain::lemma_rule_origin_round_trip(n.origin, row.origin@);
        }
    }
    Ok(
        Rule {
            id: RuleId(row.id),
            matcher,
            pattern: string_from_str(row.pattern.as_str()),
            account_id: match row.account_id {
                Some(a) => Some(AccountId(a)),
                None => None,
            },
            direction,
            min_amount: match row.min_amount {
                Some(m) => Some(Money::from_minor_units(m)),
                None => None,
            },
            max_amount: match row.max_amount {
                Some(m) => Some(Money::from_minor_units(m)),
                None => None,
            },
            category_id: CategoryId(row.category_id),
            priority: row.priority,
            origin,
            hits: row.hits,
        },
    )
}

/// What chrono's `NaiveDate::parse_from_str(raw, "%Y-%m-%d")` makes of a
/// stored date.
pub uninterp spec fn stored_date(raw: Seq<char>) -> Option<Date>;

/// A stored date, read with chrono's `NaiveDate::parse_from_str` and the
/// format `%Y-%m-%d`. What it accepts is left to chrono; what it returns is
/// the date's year, month and day, which chrono only builds for a real day
/// within the years it covers. A valid day written as `iso_text` writes it
/// (four digits of year within 0..=9999, otherwise a sign and at least four
/// digits; then two of month and two of day) reads back as that day: `%Y`
/// takes an optional sign and its digits, `%m` and `%d` two digits each.
#[verifier::external_body]
fn parse_stored_date(raw: &str) -> (r: Option<Date>)
    ensures
        r == stored_date(raw@),
        r matches Some(d) ==> crate::date::chrono_date(d),
        forall|d: Date| d.wf() && #[trigger] iso_text(d) == raw@ ==> r == Some(d),
{
    match chrono::NaiveDate::parse_from_str(raw, "%Y-%m-%d") {
        Ok(d) => Some(Date { year: d.year(), month: d.month(), day: d.day() }),
        Err(_) => None,
    }
}

/// A stored date, or the corrupt-data error for it. A date written by
/// `format_date` reads back as itself.
pub fn parse_date(raw: &str) -> (r: Result<Date, StorageError>)
    ensures
        forall|d: Date| d.wf() && #[trigger] iso_text(d) == raw@ ==> stored_date(raw@) == Some(d),
        r matches Ok(d) ==> crate::date::chrono_date(d),
        match stored_date(raw@) {
            Some(d) => r == Ok::<Date, StorageError>(d),
            None => r matches Err(e) && is_corrupt(e, "date"@, raw@),
        },
{
    match parse_stored_date(raw) {
        Some(d) => Ok(d),
        None => Err(corrupt("date", raw)),
    }
}

/// A date as it is stored (`YYYY-MM-DD`).
pub fn format_date(date: &Date) -> (r: String)
    requires
        date.wf(),
    ensures
        r@ == iso_text(*date),
{
    date.to_iso_string()
}

/// The text of an optional string, trimmed.
pub open spec fn trimmed_opt(s: Option<String>) -> Option<Seq<char>> {
    match s {
        Some(t) => Some(trim(t@)),
        None => None,
    }
}

/// Whether `row` holds what storing `t` writes: its dates as `YYYY-MM-DD`,
/// its description and counterparty trimmed, its source by name and its
/// fingerprint.
pub open spec fn stores(row: TransactionRow, t: NewTransaction) -> bool {
    &&& row.account_id == t.account_id.0
    &&& t.booked_on.wf()
    &&& row.booked_on@ == iso_text(t.booked_on)
    &&& match t.value_on {
        Some(d) => d.wf() && (row.value_on matches Some(v) && v@ == iso_text(d)),
        None => row.value_on is None,
    }
    &&& row.description@ == trim(t.description@)
    &&& crate::domain::opt_text(row.counterparty) == trimmed_opt(t.counterparty)
    &&& row.amount == t.amount.0
    &&& row.balance_after == (match t.balance_after {
        Some(m) => Some(m.0),
        None => None,
    })
    &&& row.category_id == (match t.category_id {
        Some(c) => Some(c.0),
        None => None,
    })
    &&& crate::domain::opt_text(row.notes) == crate::domain::opt_text(t.notes)
    &&& row.source@ == transaction_source_text(t.source)
    &&& row.import_id == (match t.import_id {
        Some(i) => Some(i.0),
        None => None,
    })
    &&& row.fingerprint@ == fingerprint_text(t.account_id, t.booked_on, t.amount, t.description@, 0)
}

/// Whether `read` is movement `t` as stored under `id`: the same values,
/// with the description and the counterparty trimmed.
pub open spec fn reads_back(read: Transaction, id: i64, t: NewTransaction) -> bool {
    &&& read.id == TransactionId(id)
    &&& read.account_id == t.account_id
    &&& read.booked_on == t.booked_on
    &&& read.value_on == t.value_on
    &&& read.description@ == trim(t.description@)
    &&& crate::domain::opt_text(read.counterparty) == trimmed_opt(t.counterparty)
    &&& read.amount == t.amount
    &&& read.balance_after == t.balance_after
    &&& read.category_id == t.category_id
    &&& crate::domain::opt_text(read.notes) == crate::domain::opt_text(t.notes)
    &&& read.source == t.source
    &&& read.import_id == t.import_id
    &&& read.fingerprint@ == fingerprint_text(t.account_id, t.booked_on, t.amount, t.description@, 0)
}

/// The columns that storing `transaction` writes, under row `id`.
pub fn transaction_row(transaction: &NewTransaction, id: i64) -> (r: TransactionRow)
    requires
        transaction.booked_on.wf(),
        transaction.value_on matches Some(d) ==> d.wf(),
    ensures
        r.id == id,
        stores(r, *transaction),
{
    TransactionRow {
        id,
        account_id: transaction.account_id.0,
        booked_on: format_date(&transaction.booked_on),
        value_on: match &transaction.value_on {
            Some(d) => Some(format_date(d)),
            None => None,
        },
        description: string_from_chars(&trimmed_chars(transaction.description.as_str())),
        counterparty: match &transaction.counterparty {
            Some(c) => Some(string_from_chars(&trimmed_chars(c.as_str()))),
            None => None,
        },
        amount: transaction.amount.0,
        balance_after: match transaction.balance_after {
            Some(m) => Some(m.0),
            None => None,
        },
        category_id: match transaction.category_id {
            Some(c) => Some(c.0),
            None => None,
        },
        notes: match &transaction.notes {
            Some(n) => Some(string_from_str(n.as_str())),
            None => None,
        },
        source: string_from_str(transaction.source.as_str()),
        import_id: match transaction.import_id {
            Some(i) => Some(i.0),
            None => None,
        },
        fingerprint: transaction.fingerprint(),
    }
}

/// The movement a stored row describes. A booking date, a value date or a
/// source that does not read back is corrupt data; they are checked in that
/// order.
pub fn transaction_from_row(row: &TransactionRow) -> (r: Result<Transaction, StorageError>)
    ensures
        match stored_date(row.booked_on@) {
            None => r matches Err(e) && is_corrupt(e, "date"@, row.booked_on@),
            Some(booked_on) => match row.value_on {
                Some(v) if stored_date(v@) is None => r matches Err(e) && is_corrupt(e, "date"@, v@),
                _ => match transaction_source_from_text(row.source@) {
                    None => r matches Err(e) && is_corrupt(e, "transaction source"@, row.source@),
                    Some(source) => r matches Ok(t) && t.id == TransactionId(row.id) && t.account_id
                        == AccountId(row.account_id) && t.booked_on == booked_on && t.value_on == (
                    match row.value_on {
                        Some(v) => stored_date(v@),
                        None => None,
                    }) && t.description@ == row.description@ && crate::domain::opt_text(
                        t.counterparty,
                    ) == crate::domain::opt_text(row.counterparty) && t.amount == Money(row.amount)
                        && t.balance_after == (match row.balance_after {
                        Some(m) => Some(Money(m)),
                        None => None,
                    }) && t.category_id == (match row.category_id {
                        Some(c) => Some(CategoryId(c)),
                        None => None,
                    }) && crate::domain::opt_text(t.notes) == crate::domain::opt_text(row.notes)
                        && t.source == source && t.import_id == (match row.import_id {
                        Some(i) => Some(ImportId(i)),
                        None => None,
                    }) && t.fingerprint@ == row.fingerprint@,
                },
            },
        },
        forall|n: NewTransaction| #[trigger] stores(*row, n) ==> (r matches Ok(t) && reads_back(t, row.id, n)),
{
    let booked_on = match parse_date(row.booked_on.as_str()) {
        Ok(date) => date,
        Err(error) => return Err(error),
    };
    let value_on = match &row.value_on {
        Some(raw) => match parse_date(raw.as_str()) {
            Ok(date) => Some(date),
            Err(error) => return Err(error),
        },
        None => None,
    };
    let source = match TransactionSource::from_str_opt(row.source.as_str()) {
        Some(source) => source,
        None => {
            proof {
                assert forall|n: NewTransaction| #[trigger] stores(*row, n) implies false by {
                    crate::domain::lemma_transaction_source_round_trip(n.source, row.source@);
                }
            }
            return Err(corrupt("transaction source", row.source.as_str()));
        },
    };
    proof {
        assert forall|n: NewTransaction| #[trigger] stores(*row, n) implies n.source == source && n.booked_on
            == booked_on && n.value_on == value_on by {
            crate::domain::lemma_transaction_source_round_trip(n.source, row.source@);
            match n.value_on {
                Some(d) => {
                    assert(iso_text(d) == row.value_on->0@);
                },
                None => {},
            }
        }
    }
    Ok(
        Transaction {
            id: TransactionId(row.id),
            account_id: AccountId(row.account_id),
            booked_on,
            value_on,
            description: string_from_str(row.description.as_str()),
            counterparty: match &row.counterparty {
                Some(c) => Some(string_from_str(c.as_str())),
                None => None,
            },
            amount: Money::from_minor_units(row.amount),
            balance_after: match row.balance_after {
                Some(m) => Some(Money::from_minor_units(m)),
                None => None,
            },
            category_id: match row.category_id {
                Some(c) => Some(CategoryId(c)),
                None => None,
            },
            notes: match &row.notes {
                Some(n) => Some(string_from_str(n.as_str())),
                None => None,
            },
            source,
            import_id: match row.import_id {
                Some(i) => Some(ImportId(i)),
                None => None,
            },
            fingerprint: string_from_str(row.fingerprint.as_str()),
        },
    )
}

/// A dashboard widget. `kind` names the component that draws it and `config`
/// is its configuration, kept as an opaque JSON document: each kind of widget
/// defines its own options and the core does not need to know them.
#[derive(Debug, Clone, PartialEq, Eq)]
pub struct Widget {
    pub id: i64,
    pub kind: String,
    pub title: String,
    /// The configuration's JSON text, as stored.
    pub config: String,
    pub placement: WidgetPlacement,
}

/// A widget to be placed on the dashboard.
#[derive(Debug, Clone, PartialEq, Eq)]
pub struct NewWidget {
    pub kind: String,
    pub title: String,
    /// The configuration's JSON text.
    pub config: String,
    pub placement: WidgetPlacement,
}

/// A stored widget, as the columns hold it.
#[derive(Debug, Clone, PartialEq, Eq)]
pub struct WidgetRow {
    pub id: i64,
    pub kind: String,
    pub title: String,
    pub config: String,
    pub x: i64,
    pub y: i64,
    pub w: i64,
    pub h: i64,
}

/// Whether serde_json reads `raw` as a JSON document.
pub uninterp spec fn json_document(raw: Seq<char>) -> bool;

/// Whether `raw` is a JSON document, as serde_json's `from_str` into a
/// `serde_json::Value` decides it. Which texts it accepts is serde_json's
/// grammar and is left to it.
#[verifier::external_body]
fn is_json_document(raw: &str) -> (r: bool)
    ensures
        r == json_document(raw@),
{
    serde_json::from_str::<serde_json::Value>(raw).is_ok()
}

/// The widget a stored row describes; a configuration that is not a JSON
/// document is corrupt data.
pub fn widget_from_row(row: &WidgetRow) -> (r: Result<Widget, StorageError>)
    ensures
        if json_document(row.config@) {
            r matches Ok(w) && {
                &&& w.id == row.id
                &&& w.kind@ == row.kind@
                &&& w.title@ == row.title@
                &&& w.config@ == row.config@
                &&& w.placement == (WidgetPlacement { x: row.x, y: row.y, w: row.w, h: row.h })
            }
        } else {
            r matches Err(e) && is_corrupt(e, "widget config"@, row.config@)
        },
{
    if !is_json_document(row.config.as_str()) {
        return Err(corrupt("widget config", row.config.as_str()));
    }
    Ok(
        Widget {
            id: row.id,
            kind: string_from_str(row.kind.as_str()),
            title: string_from_str(row.title.as_str()),
            config: string_from_str(row.config.as_str()),
            placement: WidgetPlacement { x: row.x, y: row.y, w: row.w, h: row.h },
        },
    )
}

/// A point in time in UTC: whole seconds since the Unix epoch and the
/// nanoseconds past them.
#[derive(Debug, Clone, Copy, PartialEq, Eq, Structural)]
pub struct UtcInstant {
    pub seconds: i64,
    pub nanos: u32,
}

/// A statement import, kept so that it can be reviewed and undone.
#[derive(Debug, Clone, PartialEq, Eq)]
pub struct ImportRecord {
    pub id: ImportId,
    pub account_id: AccountId,
    /// Name of the imported file (not its path: no disk path is stored).
    pub source_name: String,
    pub imported_at: UtcInstant,
    pub imported_count: i64,
    pub duplicate_count: i64,
}

/// A stored import, as the columns hold it.
#[derive(Debug, Clone, PartialEq, Eq)]
pub struct ImportRow {
    pub id: i64,
    pub account_id: i64,
    pub source_name: String,
    pub imported_at: String,
    pub imported_count: i64,
    pub duplicate_count: i64,
}

/// What chrono's `DateTime::parse_from_rfc3339` makes of a stored timestamp,
/// taken to UTC.
pub uninterp spec fn rfc3339_instant(raw: Seq<char>) -> Option<UtcInstant>;

/// A stored RFC 3339 timestamp, read with chrono's
/// `DateTime::parse_from_rfc3339` and taken to UTC. Which texts it accepts,
/// and the instant each names, are chrono's and are left to it.
#[verifier::external_body]
fn parse_rfc3339(raw: &str) -> (r: Option<UtcInstant>)
    ensures
        r == rfc3339_instant(raw@),
{
    match chrono::DateTime::parse_from_rfc3339(raw) {
        Ok(moment) => {
            let utc = moment.with_timezone(&chrono::Utc);
            Some(UtcInstant { seconds: utc.timestamp(), nanos: utc.timestamp_subsec_nanos() })
        },
        Err(_) => None,
    }
}

/// The import a stored row describes; a timestamp that does not read back
/// is corrupt data.
pub fn import_from_row(row: &ImportRow) -> (r: Result<ImportRecord, StorageError>)
    ensures
        match rfc3339_instant(row.imported_at@) {
            Some(t) => r matches Ok(i) && {
                &&& i.id == ImportId(row.id)
                &&& i.account_id == AccountId(row.account_id)
                &&& i.source_name@ == row.source_name@
                &&& i.imported_at == t
                &&& i.imported_count == row.imported_count
                &&& i.duplicate_count == row.duplicate_count
            },
            None => r matches Err(e) && is_corrupt(e, "import timestamp"@, row.imported_at@),
        },
{
    match parse_rfc3339(row.imported_at.as_str()) {
        None => Err(corrupt("import timestamp", row.imported_at.as_str())),
        Some(imported_at) => Ok(
            ImportRecord {
                id: ImportId(row.id),
                account_id: AccountId(row.account_id),
                source_name: string_from_str(row.source_name.as_str()),
                imported_at,
                imported_count: row.imported_count,
                duplicate_count: row.duplicate_count,
            },
        ),
    }
}

// ---------------------------------------------------------------------------
// The shared WHERE clause
// ---------------------------------------------------------------------------

/// A positional parameter of a query.
#[derive(Debug, Clone, PartialEq, Eq)]
pub enum SqlValue {
    Integer(i64),
    Text(String),
}

/// What a parameter holds.
pub enum SqlParam {
    Integer(i64),
    Text(Seq<char>),
}

impl View for SqlValue {
    type V = SqlParam;

    open spec fn view(&self) -> SqlParam {
        match self {
            SqlValue::Integer(i) => SqlParam::Integer(*i),
            SqlValue::Text(s) => SqlParam::Text(s@),
        }
    }
}

pub open spec fn params_view(v: Seq<SqlValue>) -> Seq<SqlParam> {
    v.map_values(|x: SqlValue| x@)
}

/// Criteria shared by the movements table and the widgets.
#[derive(Debug, Clone)]
pub struct TransactionFilter {
    pub account_ids: Vec<AccountId>,
    pub category_ids: Vec<CategoryId>,
    pub from: Option<Date>,
    pub to: Option<Date>,
    pub direction: Option<Direction>,
    /// Search in description or counterparty.
    pub search: Option<String>,
    /// Only movements still without category, for the review tray.
    pub uncategorized_only: bool,
    pub limit: Option<u32>,
    pub offset: Option<u32>,
}

impl Default for TransactionFilter {
    fn default() -> (r: TransactionFilter)
        ensures
            r.account_ids@.len() == 0,
            r.category_ids@.len() == 0,
            r.from is None,
            r.to is None,
            r.direction is None,
            r.search is None,
            !r.uncategorized_only,
            r.limit is None,
            r.offset is None,
    {
        TransactionFilter {
            account_ids: Vec::new(),
            category_ids: Vec::new(),
            from: None,
            to: None,
            direction: None,
            search: None,
            uncategorized_only: false,
            limit: None,
            offset: None,
        }
    }
}

/// `?n`.
pub open spec fn placeholder(n: nat) -> Seq<char> {
    seq!['?'] + decimal_digits(n)
}

/// `?start, ?start+1, ...`, `count` of them.
pub open spec fn placeholder_list(start: nat, count: nat) -> Seq<char>
    decreases count,
{
    if count == 0 {
        Seq::empty()
    } else if count == 1 {
        placeholder(start)
    } else {
        placeholder_list(start, (count - 1) as nat) + ", "@ + placeholder((start + count - 1) as nat)
    }
}

/// `parts` joined with `sep`.
pub open spec fn join_text(parts: Seq<Seq<char>>, sep: Seq<char>) -> Seq<char>
    decreases parts.len(),
{
    if parts.len() == 0 {
        Seq::empty()
    } else if parts.len() == 1 {
        parts[0]
    } else {
        join_text(parts.drop_last(), sep) + sep + parts.last()
    }
}

/// Clauses so far, and the parameters they number.
pub type WhereState = (Seq<Seq<char>>, Seq<SqlParam>);

pub open spec fn with_ids(st: WhereState, column: Seq<char>, ids: Seq<i64>) -> WhereState {
    if ids.len() == 0 {
        st
    } else {
        (
            st.0.push(column + " IN ("@ + placeholder_list((st.1.len() + 1) as nat, ids.len()) + ")"@),
            st.1 + ids.map_values(|i: i64| SqlParam::Integer(i)),
        )
    }
}

pub open spec fn with_date(st: WhereState, comparison: Seq<char>, date: Option<Date>) -> WhereState {
    match date {
        None => st,
        Some(d) => (
            st.0.push(comparison + placeholder((st.1.len() + 1) as nat)),
            st.1.push(SqlParam::Text(iso_text(d))),
        ),
    }
}

pub open spec fn with_direction(st: WhereState, direction: Option<Direction>) -> WhereState {
    match direction {
        None => st,
        Some(Direction::Income) => (st.0.push("t.amount > 0"@), st.1),
        Some(Direction::Expense) => (st.0.push("t.amount < 0"@), st.1),
    }
}

pub open spec fn with_uncategorized(st: WhereState, only: bool) -> WhereState {
    if only {
        (st.0.push("t.category_id IS NULL"@), st.1)
    } else {
        st
    }
}

/// A search looks for its trimmed text, in any case, inside the description
/// or the counterparty; a blank search is no criterion.
pub open spec fn with_search(st: WhereState, search: Option<Seq<char>>) -> WhereState {
    match search {
        Some(raw) if trim(raw).len() > 0 => {
            let i = (st.1.len() + 1) as nat;
            (
                st.0.push("(t.description LIKE "@ + placeholder(i)
                    + " COLLATE NOCASE OR IFNULL(t.counterparty, '') LIKE "@ + placeholder(i)
                    + " COLLATE NOCASE)"@),
                st.1.push(SqlParam::Text("%"@ + trim(raw) + "%"@)),
            )
        },
        _ => st,
    }
}

pub open spec fn account_id_values(ids: Seq<AccountId>) -> Seq<i64> {
    ids.map_values(|a: AccountId| a.0)
}

pub open spec fn category_id_values(ids: Seq<CategoryId>) -> Seq<i64> {
    ids.map_values(|c: CategoryId| c.0)
}

/// Clauses and parameters of a filter, in the order they are written.
pub open spec fn where_state(filter: TransactionFilter) -> WhereState {
    let s0: WhereState = (Seq::empty(), Seq::empty());
    let s1 = with_ids(s0, "t.account_id"@, account_id_values(filter.account_ids@));
    let s2 = with_ids(s1, "t.category_id"@, category_id_values(filter.category_ids@));
    let s3 = with_date(s2, "t.booked_on >= "@, filter.from);
    let s4 = with_date(s3, "t.booked_on <= "@, filter.to);
    let s5 = with_direction(s4, filter.direction);
    let s6 = with_uncategorized(s5, filter.uncategorized_only);
    with_search(s6, crate::domain::opt_text(filter.search))
}

/// The `WHERE` text of a filter: nothing when it has no criterion.
pub open spec fn where_text(filter: TransactionFilter) -> Seq<char> {
    let clauses = where_state(filter).0;
    if clauses.len() == 0 {
        Seq::empty()
    } else {
        " WHERE "@ + join_text(clauses, " AND "@)
    }
}

fn push_placeholder(n: usize, out: &mut String)
    ensures
        final(out)@ == old(out)@ + placeholder(n as nat),
{
    push_char(out, '?');
    push_decimal(n as u64, out);
    assert(final(out)@ =~= old(out)@ + placeholder(n as nat));
}

pub open spec fn clause_views(v: Seq<String>) -> Seq<Seq<char>> {
    v.map_values(|c: String| c@)
}

/// The state the clause and value vectors stand for.
pub open spec fn state_of(clauses: Seq<String>, values: Seq<SqlValue>) -> WhereState {
    (clause_views(clauses), params_view(values))
}

/// Adds the `IN` clause of `ids` on `column`, if there are ids.
fn push_id_clause(
    column: &str,
    ids: &Vec<i64>,
    clauses: &mut Vec<String>,
    values: &mut Vec<SqlValue>,
)
    requires
        old(values).len() + ids.len() + 1 < usize::MAX,
    ensures
        state_of(final(clauses)@, final(values)@) == with_ids(
            state_of(old(clauses)@, old(values)@),
            column@,
            ids@,
        ),
        final(values)@.len() == old(values)@.len() + ids@.len(),
{
    if ids.len() == 0 {
        return;
    }
    let start = values.len() + 1;
    let mut text = string_from_str(column);
    push_str(&mut text, " IN (");
    let ghost head = text@;
    let ghost before = params_view(values@);
    let mut k: usize = 0;
    assert(ids@.take(0).map_values(|i: i64| SqlParam::Integer(i)) =~= Seq::<SqlParam>::empty());
    assert(before + Seq::<SqlParam>::empty() =~= before);
    while k < ids.len()
        invariant
            k <= ids.len(),
            start == old(values)@.len() + 1,
            start + ids.len() < usize::MAX,
            text@ == head + placeholder_list(start as nat, k as nat),
            values@.len() == old(values)@.len() + k,
            params_view(values@) == before + ids@.take(k as int).map_values(|i: i64| SqlParam::Integer(i)),
            before == params_view(old(values)@),
        decreases ids.len() - k,
    {
        if k > 0 {
            push_str(&mut text, ", ");
        }
        push_placeholder(start + k, &mut text);
        proof {
            if k == 0 {
                assert(placeholder_list(start as nat, 0) =~= Seq::<char>::empty());
                assert(text@ =~= head + placeholder_list(start as nat, 1));
            } else {
                assert(text@ =~= head + placeholder_list(start as nat, (k + 1) as nat));
            }
        }
        let ghost prev = values@;
        values.push(SqlValue::Integer(ids[k]));
        assert(params_view(values@) =~= params_view(prev).push(SqlParam::Integer(ids@[k as int])));
        assert(ids@.take(k + 1).map_values(|i: i64| SqlParam::Integer(i)) =~= ids@.take(k as int).map_values(
            |i: i64| SqlParam::Integer(i),
        ).push(SqlParam::Integer(ids@[k as int])));
        assert(params_view(values@) =~= before + ids@.take(k + 1).map_values(|i: i64| SqlParam::Integer(i)));
        k = k + 1;
    }
    push_str(&mut text, ")");
    assert(ids@.take(ids.len() as int) =~= ids@);
    let ghost before_clauses = clauses@;
    clauses.push(text);
    assert(clause_views(clauses@) =~= clause_views(before_clauses).push(text@));
}

/// Adds a date comparison, if there is a date.
fn push_date_clause(
    comparison: &str,
    date: &Option<Date>,
    clauses: &mut Vec<String>,
    values: &mut Vec<SqlValue>,
)
    requires
        date matches Some(d) ==> d.wf(),
        old(values).len() + 1 < usize::MAX,
    ensures
        state_of(final(clauses)@, final(values)@) == with_date(
            state_of(old(clauses)@, old(values)@),
            comparison@,
            *date,
        ),
        final(values)@.len() <= old(values)@.len() + 1,
{
    if let Some(d) = date {
        let ghost prev_values = values@;
        let ghost prev_clauses = clauses@;
        values.push(SqlValue::Text(format_date(d)));
        let mut clause = string_from_str(comparison);
        push_placeholder(values.len(), &mut clause);
        clauses.push(clause);
        assert(params_view(values@) =~= params_view(prev_values).push(SqlParam::Text(iso_text(*d))));
        assert(clause_views(clauses@) =~= clause_views(prev_clauses).push(comparison@ + placeholder(
            (prev_values.len() + 1) as nat,
        )));
    }
}

/// Adds the search clause, if the search says something.
fn push_search_clause(search: &Option<String>, clauses: &mut Vec<String>, values: &mut Vec<SqlValue>)
    requires
        old(values).len() + 1 < usize::MAX,
    ensures
        state_of(final(clauses)@, final(values)@) == with_search(
            state_of(old(clauses)@, old(values)@),
            crate::domain::opt_text(*search),
        ),
{
    if let Some(raw) = search {
        let trimmed = string_from_chars(&trimmed_chars(raw.as_str()));
        if !trimmed.as_str().is_empty() {
            let ghost prev_values = values@;
            let ghost prev_clauses = clauses@;
            let mut pattern = string_from_str("%");
            push_str(&mut pattern, trimmed.as_str());
            push_str(&mut pattern, "%");
            values.push(SqlValue::Text(pattern));
            let index = values.len();
            let mut clause = string_from_str("(t.description LIKE ");
            push_placeholder(index, &mut clause);
            push_str(&mut clause, " COLLATE NOCASE OR IFNULL(t.counterparty, '') LIKE ");
            push_placeholder(index, &mut clause);
            push_str(&mut clause, " COLLATE NOCASE)");
            clauses.push(clause);
            assert(params_view(values@) =~= params_view(prev_values).push(
                SqlParam::Text("%"@ + trim(raw@) + "%"@),
            ));
            assert(clause_views(clauses@) =~= clause_views(prev_clauses).push(clause_views(clauses@).last()));
        }
    }
}

/// Adds a fixed clause.
fn push_fixed_clause(text: &str, clauses: &mut Vec<String>)
    ensures
        clause_views(final(clauses)@) == clause_views(old(clauses)@).push(text@),
{
    clauses.push(string_from_str(text));
    assert(clause_views(final(clauses)@) =~= clause_views(old(clauses)@).push(text@));
}

/// ` WHERE a AND b ...`, or nothing without clauses.
fn where_from_clauses(clauses: &Vec<String>) -> (r: String)
    ensures
        r@ == (if clauses@.len() == 0 {
            Seq::empty()
        } else {
            " WHERE "@ + join_text(clause_views(clauses@), " AND "@)
        }),
{
    if clauses.len() == 0 {
        return String::new();
    }
    let mut text = string_from_str(" WHERE ");
    let ghost head = text@;
    let ghost views = clause_views(clauses@);
    let mut k: usize = 0;
    while k < clauses.len()
        invariant
            k <= clauses.len(),
            views == clause_views(clauses@),
            k > 0 ==> text@ == head + join_text(views.take(k as int), " AND "@),
            k == 0 ==> text@ == head,
        decreases clauses.len() - k,
    {
        assert(views.take(k + 1).drop_last() =~= views.take(k as int));
        assert(views.take(k + 1).last() == clauses@[k as int]@);
        if k > 0 {
            push_str(&mut text, " AND ");
        }
        push_str(&mut text, clauses[k].as_str());
        proof {
            if k == 0 {
                assert(views.take(1) =~= seq![views[0]]);
                assert(text@ =~= head + join_text(views.take(1), " AND "@));
            } else {
                assert(text@ =~= head + join_text(views.take(k + 1), " AND "@));
            }
        }
        k = k + 1;
    }
    assert(views.take(k as int) =~= views);
    text
}

fn account_id_list(ids: &Vec<AccountId>) -> (r: Vec<i64>)
    ensures
        r@ == account_id_values(ids@),
{
    let mut out: Vec<i64> = Vec::new();
    let mut k: usize = 0;
    while k < ids.len()
        invariant
            k <= ids.len(),
            out@ == account_id_values(ids@).take(k as int),
        decreases ids.len() - k,
    {
        out.push(ids[k].0);
        assert(out@ =~= account_id_values(ids@).take(k + 1));
        k = k + 1;
    }
    assert(out@ =~= account_id_values(ids@));
    out
}

fn category_id_list(ids: &Vec<CategoryId>) -> (r: Vec<i64>)
    ensures
        r@ == category_id_values(ids@),
{
    let mut out: Vec<i64> = Vec::new();
    let mut k: usize = 0;
    while k < ids.len()
        invariant
            k <= ids.len(),
            out@ == category_id_values(ids@).take(k as int),
        decreases ids.len() - k,
    {
        out.push(ids[k].0);
        assert(out@ =~= category_id_values(ids@).take(k + 1));
        k = k + 1;
    }
    assert(out@ =~= category_id_values(ids@));
    out
}

/// Builds the `WHERE` clause of a filter and its positional parameters. It
/// is shared by the listing, the count and the analytics queries, so every
/// placeholder is numbered after the parameters before it.
pub fn build_where(filter: &TransactionFilter) -> (r: (String, Vec<SqlValue>))
    requires
        filter.from matches Some(d) ==> d.wf(),
        filter.to matches Some(d) ==> d.wf(),
        filter.account_ids.len() + filter.category_ids.len() + 8 < usize::MAX,
    ensures
        r.0@ == where_text(*filter),
        params_view(r.1@) == where_state(*filter).1,
{
    let mut clauses: Vec<String> = Vec::new();
    let mut values: Vec<SqlValue> = Vec::new();
    assert(state_of(clauses@, values@) =~= (Seq::<Seq<char>>::empty(), Seq::<SqlParam>::empty()));
    let accounts = account_id_list(&filter.account_ids);
    push_id_clause("t.account_id", &accounts, &mut clauses, &mut values);
    let categories = category_id_list(&filter.category_ids);
    push_id_clause("t.category_id", &categories, &mut clauses, &mut values);
    push_date_clause("t.booked_on >= ", &filter.from, &mut clauses, &mut values);
    push_date_clause("t.booked_on <= ", &filter.to, &mut clauses, &mut values);
    match filter.direction {
        Some(Direction::Income) => push_fixed_clause("t.amount > 0", &mut clauses),
        Some(Direction::Expense) => push_fixed_clause("t.amount < 0", &mut clauses),
        None => {},
    }
    if filter.uncategorized_only {
        push_fixed_clause("t.category_id IS NULL", &mut clauses);
    }
    push_search_clause(&filter.search, &mut clauses, &mut values);
    let text = where_from_clauses(&clauses);
    (text, values)
}

/// Whether a filter asks for anything at all.
pub open spec fn has_criteria(filter: TransactionFilter) -> bool {
    ||| filter.account_ids@.len() > 0
    ||| filter.category_ids@.len() > 0
    ||| filter.from is Some
    ||| filter.to is Some
    ||| filter.direction is Some
    ||| filter.uncategorized_only
    ||| (filter.search matches Some(t) && trim(t@).len() > 0)
}

/// How many parameters a filter binds: one per account, one per category,
/// one per date bound and one for a search that is not blank.
pub open spec fn parameter_count(filter: TransactionFilter) -> int {
    filter.account_ids@.len() + filter.category_ids@.len() + (if filter.from is Some { 1int } else { 0 })
        + (if filter.to is Some { 1int } else { 0 }) + (if (filter.search matches Some(t) && trim(
        t@,
    ).len() > 0) {
        1int
    } else {
        0
    })
}

/// The `WHERE` of a filter binds exactly one parameter per account, per
/// category, per date bound and per non-blank search, and it is empty
/// exactly when the filter asks for nothing, so an empty filter lists every
/// movement.
pub proof fn lemma_one_parameter_per_criterion(filter: TransactionFilter)
    ensures
        where_state(filter).1.len() == parameter_count(filter),
        where_text(filter).len() == 0 <==> !has_criteria(filter),
{
    let s0: WhereState = (Seq::empty(), Seq::empty());
    let s1 = with_ids(s0, "t.account_id"@, account_id_values(filter.account_ids@));
    let s2 = with_ids(s1, "t.category_id"@, category_id_values(filter.category_ids@));
    let s3 = with_date(s2, "t.booked_on >= "@, filter.from);
    let s4 = with_date(s3, "t.booked_on <= "@, filter.to);
    let s5 = with_direction(s4, filter.direction);
    let s6 = with_uncategorized(s5, filter.uncategorized_only);
    let s7 = with_search(s6, crate::domain::opt_text(filter.search));
    assert(s1.0.len() == (if filter.account_ids@.len() > 0 { 1int } else { 0 }));
    assert(s2.0.len() == s1.0.len() + (if filter.category_ids@.len() > 0 { 1int } else { 0 }));
    assert(s7.0.len() >= s6.0.len() >= s5.0.len() >= s4.0.len() >= s3.0.len() >= s2.0.len());
    if has_criteria(filter) {
        assert(s7.0.len() > 0);
        assert(where_text(filter) == " WHERE "@ + join_text(s7.0, " AND "@));
        reveal_strlit(" WHERE ");
        assert(where_text(filter).len() >= 7);
    }
}

} // verus!
