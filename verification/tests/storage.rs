use moneywatcher::money::Money;
use moneywatcher::date::Date;
use moneywatcher::domain::{ImportId, NewAccount, NewCategory, NewRule, NewTransaction, RuleId, TransactionId, AccountId, AccountKind, CategoryId, CategoryKind, Direction, RuleMatcher, RuleOrigin, TransactionSource};
use moneywatcher::storage::{
    account_from_row, build_where, category_from_row, format_date, parse_date, rule_from_row, transaction_from_row,
    account_row, category_row, direction_as_str, import_from_row, rule_row, transaction_row, widget_from_row, AccountRow, CategoryRow, ImportRow, RuleRow, SqlValue, StorageError,
    TransactionFilter, TransactionRow, UtcInstant, WidgetPlacement, WidgetRow,
};

fn sample_rule_row() -> RuleRow {
    RuleRow {
        id: 4,
        matcher: "contains".into(),
        pattern: "mercadona".into(),
        account_id: Some(2),
        direction: Some("expense".into()),
        min_amount: None,
        max_amount: Some(5_000),
        category_id: 9,
        priority: 100,
        origin: "user".into(),
        hits: 3,
    }
}

fn sample_transaction_row() -> TransactionRow {
    TransactionRow {
        id: 1,
        account_id: 2,
        booked_on: "2026-03-14".into(),
        value_on: None,
        description: "MERCADONA".into(),
        counterparty: None,
        amount: -4_512,
        balance_after: Some(100),
        category_id: None,
        notes: None,
        source: "imported".into(),
        import_id: Some(31),
        fingerprint: "abc".into(),
    }
}

#[test]
fn a_stored_rule_reads_back() {
    let rule = rule_from_row(&sample_rule_row()).unwrap();
    assert_eq!(rule.matcher, RuleMatcher::Contains);
    assert_eq!(rule.direction, Some(Direction::Expense));
    assert_eq!(rule.account_id, Some(AccountId(2)));
    assert_eq!(rule.origin, RuleOrigin::User);
    assert_eq!(rule.hits, 3);
}

#[test]
fn an_unknown_stored_value_is_corrupt_data() {
    let bad = RuleRow { direction: Some("sideways".into()), ..sample_rule_row() };
    assert_eq!(
        rule_from_row(&bad).unwrap_err(),
        StorageError::CorruptValue { field: "rule direction", value: "sideways".into() }
    );
    let bad_matcher = RuleRow { matcher: "regex".into(), ..sample_rule_row() };
    assert!(matches!(rule_from_row(&bad_matcher), Err(StorageError::CorruptValue { field: "rule matcher", .. })));
    let bad_kind = AccountRow {
        id: 1,
        name: "Main".into(),
        bank: "Santander".into(),
        kind: "piggy".into(),
        currency: "EUR".into(),
        opening_balance: 0,
        archived: 0,
    };
    assert!(account_from_row(&bad_kind).is_err());
}

#[test]
fn stored_accounts_and_categories_read_back() {
    let account = account_from_row(&AccountRow {
        id: 1,
        name: "Main".into(),
        bank: "Santander".into(),
        kind: "checking".into(),
        currency: "EUR".into(),
        opening_balance: 1_000,
        archived: 1,
    })
    .unwrap();
    assert_eq!(account.kind, AccountKind::Checking);
    assert!(account.archived);
    let category = category_from_row(&CategoryRow {
        id: 3,
        name: "Supermercado".into(),
        kind: "expense".into(),
        color: "#00ff00".into(),
        is_system: 1,
    })
    .unwrap();
    assert_eq!(category.id, CategoryId(3));
    assert_eq!(category.kind, CategoryKind::Expense);
    assert!(category.is_system);
}

#[test]
fn a_stored_movement_reads_back() {
    let t = transaction_from_row(&sample_transaction_row()).unwrap();
    assert_eq!(t.booked_on, Date::from_ymd_opt(2026, 3, 14).unwrap());
    assert_eq!(t.source, TransactionSource::Imported);
    assert_eq!(t.amount.minor_units(), -4_512);
    let broken = TransactionRow { booked_on: "14/03/2026".into(), ..sample_transaction_row() };
    assert_eq!(
        transaction_from_row(&broken).unwrap_err(),
        StorageError::CorruptValue { field: "date", value: "14/03/2026".into() }
    );
}

#[test]
fn stored_dates_round_trip() {
    let date = Date::from_ymd_opt(2026, 3, 4).unwrap();
    let text = format_date(&date);
    assert_eq!(text, "2026-03-04");
    assert_eq!(parse_date(&text).unwrap(), date);
}

#[test]
fn storage_errors_explain_themselves() {
    assert_eq!(
        StorageError::NotFound { entity: "transaction", id: -3 }.message(),
        "transaction with id -3 does not exist"
    );
    assert_eq!(
        StorageError::CorruptValue { field: "date", value: "x".into() }.message(),
        "stored value `x` is not a valid date"
    );
    assert_eq!(
        StorageError::Migration { version: 6, name: "transfer_links", message: "boom".into() }.message(),
        "migration 6 (transfer_links) failed: boom"
    );
}

#[test]
fn an_empty_filter_has_no_where_clause() {
    let (clause, values) = build_where(&TransactionFilter::default());
    assert_eq!(clause, "");
    assert!(values.is_empty());
}

#[test]
fn placeholders_follow_the_parameters_in_order() {
    let filter = TransactionFilter {
        account_ids: vec![AccountId(1), AccountId(2)],
        category_ids: vec![CategoryId(7)],
        from: Date::from_ymd_opt(2026, 3, 1),
        to: Date::from_ymd_opt(2026, 3, 31),
        direction: Some(Direction::Expense),
        search: Some("  spoti ".into()),
        uncategorized_only: true,
        limit: None,
        offset: None,
    };
    let (clause, values) = build_where(&filter);
    assert_eq!(
        clause,
        " WHERE t.account_id IN (?1, ?2) AND t.category_id IN (?3) AND t.booked_on >= ?4 AND \
         t.booked_on <= ?5 AND t.amount < 0 AND t.category_id IS NULL AND (t.description LIKE ?6 \
         COLLATE NOCASE OR IFNULL(t.counterparty, '') LIKE ?6 COLLATE NOCASE)"
    );
    assert_eq!(
        values,
        vec![
            SqlValue::Integer(1),
            SqlValue::Integer(2),
            SqlValue::Integer(7),
            SqlValue::Text("2026-03-01".into()),
            SqlValue::Text("2026-03-31".into()),
            SqlValue::Text("%spoti%".into()),
        ]
    );
}

#[test]
fn a_blank_search_is_no_criterion() {
    let filter = TransactionFilter { search: Some("   ".into()), direction: Some(Direction::Income), ..TransactionFilter::default() };
    let (clause, values) = build_where(&filter);
    assert_eq!(clause, " WHERE t.amount > 0");
    assert!(values.is_empty());
}

#[test]
fn a_blank_search_asks_for_nothing() {
    let filter = TransactionFilter { search: Some("   ".into()), ..TransactionFilter::default() };
    let (clause, values) = build_where(&filter);
    assert_eq!(clause, "");
    assert!(values.is_empty());
    let direction_only = TransactionFilter { direction: Some(Direction::Income), ..TransactionFilter::default() };
    let (clause, values) = build_where(&direction_only);
    assert_eq!(clause, " WHERE t.amount > 0");
    assert!(values.is_empty());
}

fn widget_row(config: &str) -> WidgetRow {
    WidgetRow { id: 3, kind: "monthly-flow".into(), title: "Flujo".into(), config: config.into(), x: 0, y: 2, w: 6, h: 4 }
}

#[test]
fn a_widget_keeps_its_configuration_as_a_json_document() {
    let widget = widget_from_row(&widget_row("{\"months\": 6}")).unwrap();
    assert_eq!(widget.config, "{\"months\": 6}");
    assert_eq!(widget.placement, WidgetPlacement { x: 0, y: 2, w: 6, h: 4 });
    assert_eq!(widget.kind, "monthly-flow");
    match widget_from_row(&widget_row("{months: 6")) {
        Err(StorageError::CorruptValue { field, value }) => {
            assert_eq!(field, "widget config");
            assert_eq!(value, "{months: 6");
        }
        other => panic!("unexpected {other:?}"),
    }
}

fn import_row(imported_at: &str) -> ImportRow {
    ImportRow {
        id: 31,
        account_id: 2,
        source_name: "extracto.csv".into(),
        imported_at: imported_at.into(),
        imported_count: 40,
        duplicate_count: 2,
    }
}

#[test]
fn an_import_timestamp_reads_back_in_utc() {
    let record = import_from_row(&import_row("2026-03-14T10:00:00+01:00")).unwrap();
    assert_eq!(record.imported_at, UtcInstant { seconds: 1_773_478_800, nanos: 0 });
    assert_eq!(record.id, ImportId(31));
    assert_eq!(record.account_id, AccountId(2));
    assert_eq!(record.imported_count, 40);
    match import_from_row(&import_row("14/03/2026")) {
        Err(StorageError::CorruptValue { field, .. }) => assert_eq!(field, "import timestamp"),
        other => panic!("unexpected {other:?}"),
    }
}

#[test]
fn a_stored_movement_reads_back_as_itself() {
    let new = NewTransaction {
        account_id: AccountId(2),
        booked_on: Date::from_ymd_opt(2026, 3, 3).unwrap(),
        value_on: Date::from_ymd_opt(2026, 3, 4),
        description: "  MERCADONA  ".into(),
        counterparty: Some(" Mercadona S.A. ".into()),
        amount: Money::from_minor_units(-4_512),
        balance_after: Some(Money::from_minor_units(100_000)),
        category_id: Some(CategoryId(6)),
        notes: Some("compra semanal".into()),
        source: TransactionSource::Imported,
        import_id: Some(ImportId(31)),
    };
    let row = transaction_row(&new, 7);
    assert_eq!(row.booked_on, "2026-03-03");
    assert_eq!(row.value_on.as_deref(), Some("2026-03-04"));
    assert_eq!(row.description, "MERCADONA");
    assert_eq!(row.source, "imported");
    assert_eq!(row.fingerprint, new.fingerprint());
    let read = transaction_from_row(&row).unwrap();
    assert_eq!(read.id, TransactionId(7));
    assert_eq!(read.booked_on, new.booked_on);
    assert_eq!(read.value_on, new.value_on);
    assert_eq!(read.description, "MERCADONA");
    assert_eq!(read.counterparty.as_deref(), Some("Mercadona S.A."));
    assert_eq!(read.amount, new.amount);
    assert_eq!(read.balance_after, new.balance_after);
    assert_eq!(read.category_id, new.category_id);
    assert_eq!(read.notes, new.notes);
    assert_eq!(read.source, new.source);
    assert_eq!(read.import_id, new.import_id);
}

#[test]
fn a_stored_rule_reads_back_with_no_hits() {
    let new = NewRule {
        matcher: RuleMatcher::Contains,
        pattern: "  mercadona ".into(),
        account_id: Some(AccountId(2)),
        direction: Some(Direction::Expense),
        min_amount: None,
        max_amount: Some(Money::from_minor_units(5_000)),
        category_id: CategoryId(9),
        priority: 100,
        origin: RuleOrigin::Learned,
    };
    let row = rule_row(&new, 4);
    assert_eq!(row.pattern, "mercadona");
    assert_eq!(row.direction.as_deref(), Some("expense"));
    assert_eq!(row.origin, "learned");
    assert_eq!(row.hits, 0);
    assert_eq!(direction_as_str(Direction::Income), "income");
    let rule = rule_from_row(&row).unwrap();
    assert_eq!(rule.id, RuleId(4));
    assert_eq!(rule.matcher, new.matcher);
    assert_eq!(rule.pattern, "mercadona");
    assert_eq!(rule.account_id, new.account_id);
    assert_eq!(rule.direction, new.direction);
    assert_eq!(rule.max_amount, new.max_amount);
    assert_eq!(rule.category_id, new.category_id);
    assert_eq!(rule.origin, new.origin);
    assert_eq!(rule.hits, 0);
}

#[test]
fn a_stored_account_reads_back_trimmed_with_its_currency_in_capitals() {
    let new = NewAccount {
        name: " Nómina ".into(),
        bank: " Santander".into(),
        kind: AccountKind::Checking,
        currency: " eur ".into(),
        opening_balance: Money::from_minor_units(150_000),
    };
    let row = account_row(&new, 2);
    assert_eq!(row.currency, "EUR");
    assert_eq!(row.kind, "checking");
    assert_eq!(row.archived, 0);
    let account = account_from_row(&row).unwrap();
    assert_eq!(account.name, "Nómina");
    assert_eq!(account.bank, "Santander");
    assert_eq!(account.currency, "EUR");
    assert_eq!(account.kind, AccountKind::Checking);
    assert_eq!(account.opening_balance, Money::from_minor_units(150_000));
    assert!(!account.archived);
}

#[test]
fn a_category_the_user_creates_is_never_a_system_one() {
    let new = NewCategory { name: "Mascotas ".into(), kind: CategoryKind::Expense, color: " #e0b0ff".into() };
    let row = category_row(&new, 30);
    assert_eq!(row.is_system, 0);
    let category = category_from_row(&row).unwrap();
    assert_eq!(category.id, CategoryId(30));
    assert_eq!(category.name, "Mascotas");
    assert_eq!(category.color, "#e0b0ff");
    assert_eq!(category.kind, CategoryKind::Expense);
    assert!(!category.is_system);
}

#[test]
fn years_beyond_four_digits_are_signed_and_read_back() {
    let far = Date::from_ymd_opt(12345, 6, 7).unwrap();
    assert_eq!(format_date(&far), "+12345-06-07");
    assert_eq!(parse_date("+12345-06-07").unwrap(), far);
    let before_zero = Date::from_ymd_opt(-1, 1, 1).unwrap();
    assert_eq!(format_date(&before_zero), "-0001-01-01");
    assert_eq!(parse_date("-0001-01-01").unwrap(), before_zero);
    assert_eq!(format_date(&Date::from_ymd_opt(7, 3, 9).unwrap()), "0007-03-09");
    assert!(Date::from_ymd_opt(262142, 12, 31).is_some());
    assert!(Date::from_ymd_opt(262143, 1, 1).is_none());
    assert!(Date::from_ymd_opt(-262143, 1, 1).is_some());
    assert!(Date::from_ymd_opt(-262144, 12, 31).is_none());
}
