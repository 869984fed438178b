use moneywatcher::date::Date;
use moneywatcher::domain::{AccountId, Transaction, TransactionId, TransactionSource};
use moneywatcher::grouping::group_pending;
use moneywatcher::money::Money;

fn transaction(id: i64, description: &str, minor: i64) -> Transaction {
    Transaction {
        id: TransactionId(id),
        account_id: AccountId(1),
        booked_on: Date::from_ymd_opt(2026, 3, 1).unwrap(),
        value_on: None,
        description: description.to_string(),
        counterparty: None,
        amount: Money::from_minor_units(minor),
        balance_after: None,
        category_id: None,
        notes: None,
        source: TransactionSource::Imported,
        import_id: None,
        fingerprint: format!("fingerprint-{id}"),
    }
}

#[test]
fn the_same_merchant_travels_as_one_group() {
    let pending = [
        transaction(1, "COMPRA TARJ. *1234 MERCADONA VALENCIA", -4_512),
        transaction(2, "COMPRA TARJ. *1234 MERCADONA CENTRO", -2_010),
        transaction(3, "RECIBO IBERDROLA", -6_120),
    ];
    let groups = group_pending(&pending);
    assert_eq!(groups.len(), 2);
    assert_eq!(groups[0].pattern, "mercadona");
    assert_eq!(groups[0].count, 2);
    assert_eq!(groups[0].representative.id, TransactionId(1));
    assert_eq!(groups[1].pattern, "iberdrola");
    assert_eq!(groups[1].count, 1);
}

#[test]
fn the_merchant_that_moves_more_movements_goes_first() {
    let pending = [
        transaction(1, "PEAJE AP-7", -1_240),
        transaction(2, "MERCADONA VALENCIA", -4_512),
        transaction(3, "MERCADONA CENTRO", -2_010),
        transaction(4, "MERCADONA PUERTO", -1_010),
    ];
    let groups = group_pending(&pending);
    assert_eq!(groups[0].pattern, "mercadona");
    assert_eq!(groups[0].count, 3);
}

#[test]
fn a_movement_without_anything_to_group_by_travels_alone() {
    let pending = [transaction(1, "*** 4417", -1_240), transaction(2, "###", -900), transaction(3, "///", -700)];
    let groups = group_pending(&pending);
    assert_eq!(groups.len(), 3);
    assert!(groups.iter().all(|group| group.count == 1));
}

#[test]
fn the_counterparty_wins_over_the_bank_noise_of_the_description() {
    let mut first = transaction(1, "ADEUDO SEPA RECIBO 0987/2026", -3_500);
    first.counterparty = Some("VODAFONE ESPANA SAU".into());
    let mut second = transaction(2, "ADEUDO SEPA RECIBO 1201/2026", -3_500);
    second.counterparty = Some("VODAFONE ESPANA SAU".into());
    let groups = group_pending(&[first, second]);
    assert_eq!(groups.len(), 1);
    assert_eq!(groups[0].pattern, "vodafone");
    assert_eq!(groups[0].count, 2);
}

#[test]
fn two_runs_over_the_same_data_propose_the_same_order() {
    let pending = [
        transaction(1, "MERCADONA VALENCIA", -4_512),
        transaction(2, "IBERDROLA", -6_120),
        transaction(3, "PEAJE AP-7", -1_240),
    ];
    assert_eq!(group_pending(&pending), group_pending(&pending));
}

#[test]
fn equally_large_groups_go_alphabetically() {
    let pending = [
        transaction(1, "PEAJE AP-7", -1_240),
        transaction(2, "IBERDROLA", -6_120),
        transaction(3, "MERCADONA VALENCIA", -4_512),
    ];
    let patterns: Vec<String> = group_pending(&pending).into_iter().map(|g| g.pattern).collect();
    assert_eq!(patterns, vec!["iberdrola", "mercadona", "peaje"]);
}

#[test]
fn a_movement_with_nothing_to_read_goes_alone_under_its_id() {
    let groups = group_pending(&[transaction(-42, "***", -100)]);
    assert_eq!(groups[0].pattern, "#-42");
}

#[test]
fn the_groups_hold_every_pending_movement_once() {
    let pending = [
        transaction(1, "MERCADONA VALENCIA", -4_512),
        transaction(2, "PEAJE AP-7", -1_240),
        transaction(3, "MERCADONA CENTRO", -2_010),
        transaction(4, "###", -900),
        transaction(5, "RECIBO IBERDROLA", -6_120),
        transaction(6, "PEAJE AP-7", -1_240),
    ];
    let groups = group_pending(&pending);
    assert_eq!(groups.iter().map(|group| group.count).sum::<usize>(), pending.len());
    assert_eq!(groups.len(), 4);
}
