use moneywatcher::ai::{AiError, Suggestion};
use moneywatcher::csv_statement::ImportError;
use moneywatcher::commands::{plan_batch, resolve_data_directory, suggestion_views, CommandError, SUGGESTION_BATCH};
use moneywatcher::date::Date;
use moneywatcher::domain::{AccountId, Category, CategoryId, CategoryKind, Transaction, TransactionId, TransactionSource};
use moneywatcher::grouping::PendingGroup;
use moneywatcher::money::Money;
use moneywatcher::storage::StorageError;

#[test]
fn keeps_the_system_directory_when_the_environment_says_nothing() {
    let system = "/data/moneywatcher".to_string();
    assert_eq!(resolve_data_directory(None, system.clone()), system);
}

#[test]
fn an_empty_variable_does_not_move_the_database() {
    let system = "/data/moneywatcher".to_string();
    assert_eq!(resolve_data_directory(Some("   "), system.clone()), system);
}

#[test]
fn the_environment_wins_when_it_names_a_directory() {
    let system = "/data/moneywatcher".to_string();
    assert_eq!(resolve_data_directory(Some("/tmp/demo"), system), "/tmp/demo");
}

#[test]
fn errors_carry_a_stable_code() {
    assert_eq!(CommandError::poisoned().code, "state_poisoned");
    assert_eq!(CommandError::from_ai(&AiError::Disabled).code, "ai_disabled");
    let error = CommandError::from_storage(&StorageError::NotFound { entity: "account", id: 9 });
    assert_eq!(error.code, "not_found");
    assert_eq!(error.message, "account with id 9 does not exist");
}

fn group(pattern: &str, id: i64, count: usize) -> PendingGroup {
    PendingGroup {
        pattern: pattern.to_string(),
        representative: Transaction {
            id: TransactionId(id),
            account_id: AccountId(1),
            booked_on: Date::from_ymd_opt(2026, 3, 1).unwrap(),
            value_on: None,
            description: format!("COMPRA {pattern}"),
            counterparty: None,
            amount: Money::from_minor_units(-100),
            balance_after: None,
            category_id: None,
            notes: None,
            source: TransactionSource::Imported,
            import_id: None,
            fingerprint: String::new(),
        },
        count,
    }
}

#[test]
fn a_batch_skips_what_was_asked_and_counts_what_is_left() {
    let groups: Vec<PendingGroup> = (0..30).map(|i| group(&format!("m{i}"), i, 1)).collect();
    let plan = plan_batch(&groups, &["m0".to_string(), "m5".to_string()]);
    assert_eq!(plan.batch.len(), SUGGESTION_BATCH);
    assert_eq!(plan.batch[0], 1);
    assert!(!plan.batch.contains(&5));
    assert_eq!(plan.remaining, 3);
    let small = plan_batch(&groups[..3], &[]);
    assert_eq!(small.batch, vec![0, 1, 2]);
    assert_eq!(small.remaining, 0);
}

#[test]
fn suggestions_are_shown_with_their_group() {
    let groups = vec![group("mercadona", 10, 4), group("iberdrola", 20, 1)];
    let categories = vec![Category {
        id: CategoryId(3),
        name: "Supermercado".into(),
        kind: CategoryKind::Expense,
        color: "#000".into(),
        is_system: true,
    }];
    let suggestions = vec![
        Suggestion { index: 0, category_name: "Supermercado".into(), confidence: 40 },
        Suggestion { index: 5, category_name: "Supermercado".into(), confidence: 90 },
        Suggestion { index: 1, category_name: "Desconocida".into(), confidence: 90 },
    ];
    let views = suggestion_views(&suggestions, &groups, &[0, 1], &categories);
    assert_eq!(views.len(), 1);
    assert_eq!(views[0].transaction_id, TransactionId(10));
    assert_eq!(views[0].category_id, CategoryId(3));
    assert!(views[0].needs_review);
    assert_eq!(views[0].transaction_count, 4);
    assert_eq!(views[0].pattern, "mercadona");
}

#[test]
fn successive_batches_walk_every_merchant_once() {
    let groups: Vec<PendingGroup> = (0..60).map(|i| group(&format!("m{i}"), i, 1)).collect();
    let mut asked: Vec<String> = Vec::new();
    let mut seen: Vec<usize> = Vec::new();
    loop {
        let plan = plan_batch(&groups, &asked);
        if plan.batch.is_empty() {
            break;
        }
        for index in &plan.batch {
            assert!(!seen.contains(index));
            seen.push(*index);
            asked.push(groups[*index].pattern.clone());
        }
        assert_eq!(plan.remaining, 60 - seen.len());
    }
    assert_eq!(seen, (0..60).collect::<Vec<usize>>());
}

#[test]
fn import_errors_cross_with_a_stable_code() {
    assert_eq!(CommandError::from_import(&ImportError::Empty).code, "import_empty");
    assert_eq!(CommandError::from_import(&ImportError::HeaderNotFound).code, "import_header_not_found");
    assert_eq!(CommandError::from_import(&ImportError::NoValidRows).code, "import_no_rows");
    let malformed = CommandError::from_import(&ImportError::Csv("line 3: bad quote".into()));
    assert_eq!(malformed.code, "import_malformed");
    assert_eq!(malformed.message, "the CSV file could not be read: line 3: bad quote");
    assert_eq!(CommandError::from_import(&ImportError::Excel("zip".into())).code, "import_malformed");
}
