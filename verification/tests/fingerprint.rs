use sha2::{Digest, Sha256};
use moneywatcher::date::Date;
use moneywatcher::domain::AccountId;
use moneywatcher::fingerprint::{fingerprint, fingerprint_with_occurrence};
use moneywatcher::money::Money;

fn date(y: i32, m: u32, d: u32) -> Date {
    Date::from_ymd_opt(y, m, d).expect("valid test date")
}

#[test]
fn fingerprint_is_stable_across_formatting_noise() {
    let a = fingerprint(AccountId(1), &date(2026, 3, 14), Money::from_minor_units(-4_512), "PAGO  TARJETA   *1234 MERCADONA");
    let b = fingerprint(AccountId(1), &date(2026, 3, 14), Money::from_minor_units(-4_512), "Pago tarjeta *1234, Mercadona");
    assert_eq!(a, b);
}

#[test]
fn fingerprint_separates_different_accounts_and_amounts() {
    let base = fingerprint(AccountId(1), &date(2026, 3, 14), Money::from_minor_units(-4_512), "MERCADONA");
    let other_account = fingerprint(AccountId(2), &date(2026, 3, 14), Money::from_minor_units(-4_512), "MERCADONA");
    let other_amount = fingerprint(AccountId(1), &date(2026, 3, 14), Money::from_minor_units(-4_513), "MERCADONA");
    assert_ne!(base, other_account);
    assert_ne!(base, other_amount);
}

#[test]
fn the_first_occurrence_keeps_the_old_fingerprint() {
    let plain = fingerprint(AccountId(1), &date(2026, 3, 14), Money::from_minor_units(-100), "CAFE");
    let first = fingerprint_with_occurrence(AccountId(1), &date(2026, 3, 14), Money::from_minor_units(-100), "CAFE", 0);
    let second = fingerprint_with_occurrence(AccountId(1), &date(2026, 3, 14), Money::from_minor_units(-100), "CAFE", 1);
    assert_eq!(plain, first);
    assert_ne!(plain, second);
    assert_eq!(plain.len(), 64);
    assert!(plain.chars().all(|c| c.is_ascii_hexdigit() && !c.is_ascii_uppercase()));
}

#[test]
fn fingerprint_is_sha256_of_the_described_bytes() {
    let mut bytes = Vec::new();
    bytes.extend_from_slice(&1i64.to_le_bytes());
    bytes.extend_from_slice(b"2026-03-14");
    bytes.extend_from_slice(&(-100i64).to_le_bytes());
    bytes.extend_from_slice(b"cafe");
    let expected: String = Sha256::digest(&bytes).iter().map(|byte| format!("{byte:02x}")).collect();
    let got = fingerprint(AccountId(1), &date(2026, 3, 14), Money::from_minor_units(-100), "CAFE");
    assert_eq!(got, expected);
}
