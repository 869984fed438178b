use moneywatcher::analytics::{flow_totals_from, monthly_flow_from, savings_rate_bps, shift_placeholders, with_shares, CategorySlice};
use moneywatcher::domain::CategoryId;
use moneywatcher::money::Money;

fn slice(id: i64, total: i64) -> CategorySlice {
    CategorySlice {
        category_id: Some(CategoryId(id)),
        name: format!("c{id}"),
        color: "#8a8a8a".into(),
        total: Money::from_minor_units(total),
        share_bps: 0,
        transactions: 1,
    }
}

#[test]
fn savings_rate_is_in_basis_points() {
    assert_eq!(savings_rate_bps(180_000, 134_100), 2_550);
    assert_eq!(savings_rate_bps(0, 5_000), 0);
    assert_eq!(savings_rate_bps(-10, 5_000), 0);
    // Spending more than earned gives a negative rate, rounded toward zero.
    assert_eq!(savings_rate_bps(3, 4), -3_333);
}

#[test]
fn totals_carry_the_net_and_the_rate() {
    let totals = flow_totals_from(180_000, 4_512);
    assert_eq!(totals.net.minor_units(), 175_488);
    assert_eq!(totals.savings_rate_bps, 9_749);
    let month = monthly_flow_from("2026-04".to_string(), 100, 250);
    assert_eq!(month.net.minor_units(), -150);
    assert_eq!(month.month, "2026-04");
}

#[test]
fn shares_are_basis_points_of_the_grand_total() {
    let slices = with_shares(vec![slice(1, 7_500), slice(2, 2_500)]);
    assert_eq!(slices[0].share_bps, 7_500);
    assert_eq!(slices[1].share_bps, 2_500);
    let thirds = with_shares(vec![slice(1, 1), slice(2, 1), slice(3, 1)]);
    assert_eq!(thirds[0].share_bps, 3_333);
    let empty = with_shares(vec![slice(1, 0)]);
    assert_eq!(empty[0].share_bps, 0);
}

#[test]
fn placeholders_are_renumbered_by_the_offset() {
    assert_eq!(shift_placeholders(" AND t.account_id IN (?1, ?2)", 2), " AND t.account_id IN (?3, ?4)");
    assert_eq!(shift_placeholders(" AND t.booked_on >= ?10", 0), " AND t.booked_on >= ?10");
    assert_eq!(shift_placeholders("a ? b ?x ?07", 3), "a ? b ?x ?10");
}

#[test]
fn shares_never_add_up_to_more_than_the_whole() {
    let slices = with_shares(vec![slice(1, 300), slice(2, 700), slice(3, 1)]);
    let shares: Vec<i64> = slices.iter().map(|s| s.share_bps).collect();
    assert_eq!(shares, vec![2_997, 6_993, 9]);
    assert!(shares.iter().sum::<i64>() <= 10_000);
}

#[test]
fn shares_are_recomputed_whatever_the_slices_held() {
    let mut stale = slice(1, -500);
    stale.share_bps = 4_200;
    let slices = with_shares(vec![stale]);
    assert_eq!(slices[0].share_bps, 0);
    let mut other = slice(2, 100);
    other.share_bps = 1;
    assert_eq!(with_shares(vec![other])[0].share_bps, 10_000);
}
