use moneywatcher::date::Date;
use moneywatcher::domain::{AccountId, TransactionId};
use moneywatcher::money::Money;
use moneywatcher::transfers::{
    candidate_from_row, detection_enabled, detection_setting, pair_transfers, transfer_link_from_row,
    TransferCandidate, TransferLinkRow, WINDOW_DAYS,
};

fn candidate(id: i64, account: i64, day: u32, minor: i64) -> TransferCandidate {
    TransferCandidate {
        id: TransactionId(id),
        account_id: AccountId(account),
        booked_on: Date::from_ymd_opt(2026, 4, day).unwrap(),
        amount: Money::from_minor_units(minor),
    }
}

#[test]
fn pairs_the_two_sides_of_a_transfer() {
    let rows = vec![candidate(1, 1, 10, -30_000), candidate(2, 2, 11, 30_000)];
    assert_eq!(pair_transfers(&rows, WINDOW_DAYS), vec![(TransactionId(1), TransactionId(2))]);
}

#[test]
fn ignores_movements_of_the_same_account() {
    let rows = vec![candidate(1, 1, 10, -30_000), candidate(2, 1, 10, 30_000)];
    assert!(pair_transfers(&rows, WINDOW_DAYS).is_empty());
}

#[test]
fn ignores_pairs_outside_the_window() {
    let rows = vec![candidate(1, 1, 10, -30_000), candidate(2, 2, 20, 30_000)];
    assert!(pair_transfers(&rows, WINDOW_DAYS).is_empty());
}

#[test]
fn ignores_amounts_that_do_not_match_to_the_cent() {
    let rows = vec![candidate(1, 1, 10, -30_000), candidate(2, 2, 10, 29_999)];
    assert!(pair_transfers(&rows, WINDOW_DAYS).is_empty());
}

#[test]
fn uses_each_movement_at_most_once() {
    let rows = vec![candidate(1, 1, 10, -30_000), candidate(2, 1, 10, -30_000), candidate(3, 2, 10, 30_000)];
    let pairs = pair_transfers(&rows, WINDOW_DAYS);
    assert_eq!(pairs.len(), 1);
    assert_eq!(pairs[0], (TransactionId(1), TransactionId(3)));
}

#[test]
fn prefers_the_closest_date_and_breaks_ties_by_id() {
    let rows = vec![
        candidate(1, 1, 10, -30_000),
        candidate(2, 2, 12, 30_000),
        candidate(3, 2, 10, 30_000),
        candidate(4, 2, 10, 30_000),
    ];
    assert_eq!(pair_transfers(&rows, WINDOW_DAYS), vec![(TransactionId(1), TransactionId(3))]);
}

#[test]
fn does_not_depend_on_the_order_of_the_input() {
    let rows = vec![
        candidate(1, 1, 10, -30_000),
        candidate(2, 2, 11, 30_000),
        candidate(3, 1, 12, -30_000),
        candidate(4, 2, 13, 30_000),
    ];
    let expected = pair_transfers(&rows, WINDOW_DAYS);
    let mut reversed = rows.clone();
    reversed.reverse();
    assert_eq!(pair_transfers(&reversed, WINDOW_DAYS), expected);
    assert_eq!(expected.len(), 2);
}

#[test]
fn a_zero_amount_is_never_a_transfer() {
    let rows = vec![candidate(1, 1, 10, 0), candidate(2, 2, 10, 0)];
    assert!(pair_transfers(&rows, WINDOW_DAYS).is_empty());
}

#[test]
fn the_window_counts_days_across_a_month_end() {
    let rows = vec![
        TransferCandidate {
            id: TransactionId(1),
            account_id: AccountId(1),
            booked_on: Date::from_ymd_opt(2026, 3, 31).unwrap(),
            amount: Money::from_minor_units(-5_000),
        },
        TransferCandidate {
            id: TransactionId(2),
            account_id: AccountId(2),
            booked_on: Date::from_ymd_opt(2026, 4, 2).unwrap(),
            amount: Money::from_minor_units(5_000),
        },
    ];
    assert_eq!(pair_transfers(&rows, WINDOW_DAYS), vec![(TransactionId(1), TransactionId(2))]);
    assert!(pair_transfers(&rows, 1).is_empty());
}

#[test]
fn detection_is_off_unless_the_setting_says_true() {
    assert!(!detection_enabled(None));
    assert!(!detection_enabled(Some("false")));
    assert!(detection_enabled(Some("true")));
    assert_eq!(detection_setting(true), "true");
    assert_eq!(detection_setting(false), "false");
}

#[test]
fn a_stored_link_shows_the_gap_and_the_amount_moved() {
    let row = TransferLinkRow {
        id: 7,
        dismissed: 0,
        outgoing_id: 1,
        incoming_id: 2,
        outgoing_date: "2026-04-10".into(),
        incoming_date: "2026-04-08".into(),
        outgoing_amount: -30_000,
        from_account: "Santander · Nómina".into(),
        to_account: "BBVA · Ahorro".into(),
        outgoing_description: "TRASPASO A AHORRO".into(),
        incoming_description: "TRASPASO DESDE NOMINA".into(),
    };
    let link = transfer_link_from_row(&row).unwrap();
    assert_eq!(link.day_gap, 2);
    assert_eq!(link.amount.minor_units(), 30_000);
    assert_eq!(link.booked_on, Date::from_ymd_opt(2026, 4, 10).unwrap());
    assert!(!link.dismissed);
    let broken = TransferLinkRow { incoming_date: "not a date".into(), ..row };
    assert!(transfer_link_from_row(&broken).is_err());
}

#[test]
fn candidates_read_back_from_stored_rows() {
    let c = candidate_from_row(3, 1, "2026-04-10", -500).unwrap();
    assert_eq!(c, candidate(3, 1, 10, -500));
    assert!(candidate_from_row(3, 1, "10/04/2026", -500).is_err());
}

#[test]
fn detecting_again_over_what_was_left_finds_nothing() {
    let rows = vec![
        candidate(1, 1, 10, -30_000),
        candidate(2, 2, 11, 30_000),
        candidate(3, 1, 12, -30_000),
        candidate(4, 3, 12, 30_000),
        candidate(5, 2, 12, 30_000),
        candidate(6, 1, 20, -1_250),
        candidate(7, 1, 20, 1_250),
    ];
    let pairs = pair_transfers(&rows, WINDOW_DAYS);
    assert_eq!(pairs.len(), 2);
    let left: Vec<TransferCandidate> = rows
        .iter()
        .copied()
        .filter(|c| !pairs.iter().any(|(o, i)| *o == c.id || *i == c.id))
        .collect();
    assert_eq!(left.len(), 3);
    assert!(pair_transfers(&left, WINDOW_DAYS).is_empty());
}

#[test]
fn the_stored_switch_reads_back_as_stored() {
    for enabled in [true, false] {
        assert_eq!(detection_enabled(Some(detection_setting(enabled))), enabled);
    }
}

fn on(id: i64, account: i64, date: (i32, u32, u32), minor: i64) -> TransferCandidate {
    TransferCandidate {
        id: TransactionId(id),
        account_id: AccountId(account),
        booked_on: Date::from_ymd_opt(date.0, date.1, date.2).unwrap(),
        amount: Money::from_minor_units(minor),
    }
}

#[test]
fn days_are_counted_across_months_years_and_leap_days() {
    let new_year = vec![on(1, 1, (2025, 12, 31), -5_000), on(2, 2, (2026, 1, 2), 5_000)];
    assert_eq!(pair_transfers(&new_year, WINDOW_DAYS).len(), 1);
    let leap = vec![on(1, 1, (2024, 2, 28), -5_000), on(2, 2, (2024, 3, 1), 5_000)];
    assert_eq!(pair_transfers(&leap, WINDOW_DAYS).len(), 1);
    let common = vec![on(1, 1, (2026, 2, 27), -5_000), on(2, 2, (2026, 3, 2), 5_000)];
    assert!(pair_transfers(&common, WINDOW_DAYS).is_empty());
    let century = TransferLinkRow {
        id: 1,
        dismissed: 0,
        outgoing_id: 1,
        incoming_id: 2,
        outgoing_date: "1900-02-28".into(),
        incoming_date: "1900-03-01".into(),
        outgoing_amount: -100,
        from_account: "A".into(),
        to_account: "B".into(),
        outgoing_description: "x".into(),
        incoming_description: "y".into(),
    };
    assert_eq!(transfer_link_from_row(&century).unwrap().day_gap, 1);
    let far = TransferLinkRow { outgoing_date: "-0001-01-01".into(), incoming_date: "2000-01-01".into(), ..century };
    assert_eq!(transfer_link_from_row(&far).unwrap().day_gap, 730_850);
}
