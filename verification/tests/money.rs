use moneywatcher::money::{Money, MoneyParseError};

#[test]
fn parses_spanish_format() {
    assert_eq!(Money::parse_flexible("1.234,56").unwrap().minor_units(), 123_456);
    assert_eq!(Money::parse_flexible("-1.234,56").unwrap().minor_units(), -123_456);
    assert_eq!(Money::parse_flexible("0,05").unwrap().minor_units(), 5);
}

#[test]
fn parses_anglo_format() {
    assert_eq!(Money::parse_flexible("1,234.56").unwrap().minor_units(), 123_456);
    assert_eq!(Money::parse_flexible("-1234.56").unwrap().minor_units(), -123_456);
}

#[test]
fn parses_currency_noise_and_sign_variants() {
    assert_eq!(Money::parse_flexible("1.234,56 €").unwrap().minor_units(), 123_456);
    assert_eq!(Money::parse_flexible("EUR 12,00").unwrap().minor_units(), 1_200);
    assert_eq!(Money::parse_flexible("12,00-").unwrap().minor_units(), -1_200);
    assert_eq!(Money::parse_flexible("(45,00)").unwrap().minor_units(), -4_500);
    assert_eq!(Money::parse_flexible("\u{2212}45,00").unwrap().minor_units(), -4_500);
}

#[test]
fn treats_lone_thousands_separator_as_thousands() {
    assert_eq!(Money::parse_flexible("1.234").unwrap().minor_units(), 123_400);
    assert_eq!(Money::parse_flexible("1,234").unwrap().minor_units(), 123_400);
    assert_eq!(Money::parse_flexible("1234").unwrap().minor_units(), 123_400);
}

#[test]
fn parses_amounts_without_integer_part() {
    assert_eq!(Money::parse_flexible(",50").unwrap().minor_units(), 50);
    assert_eq!(Money::parse_flexible("-.5").unwrap().minor_units(), -50);
}

#[test]
fn accepts_decimals_padded_with_zeros() {
    assert_eq!(Money::parse_flexible("12.710000000").unwrap().minor_units(), 1_271);
    assert_eq!(Money::parse_flexible("-170.000000000").unwrap().minor_units(), -17_000);
    assert_eq!(Money::parse_flexible("0.050000").unwrap().minor_units(), 5);
    assert_eq!(Money::parse_flexible("1234,560000").unwrap().minor_units(), 123_456);
}

#[test]
fn still_rejects_significant_extra_decimals() {
    assert!(matches!(
        Money::parse_flexible("12.715000"),
        Err(MoneyParseError::TooManyDecimals(_))
    ));
    assert!(matches!(
        Money::parse_flexible("1.234567"),
        Err(MoneyParseError::TooManyDecimals(_))
    ));
    assert!(matches!(
        Money::parse_flexible("0,0001"),
        Err(MoneyParseError::TooManyDecimals(_))
    ));
}

#[test]
fn rejects_invalid_amounts() {
    assert!(matches!(Money::parse_flexible(""), Err(MoneyParseError::Empty)));
    assert!(matches!(Money::parse_flexible("   "), Err(MoneyParseError::Empty)));
    assert!(matches!(
        Money::parse_flexible("12,3456"),
        Err(MoneyParseError::TooManyDecimals(_))
    ));
}

#[test]
fn formats_with_two_decimals() {
    assert_eq!(Money::from_minor_units(-123_456).to_decimal_string(), "-1234.56");
    assert_eq!(Money::from_minor_units(5).to_decimal_string(), "0.05");
    assert_eq!(Money::zero().to_decimal_string(), "0.00");
}

#[test]
fn arithmetic_is_exact() {
    let items = vec![Money::from_minor_units(10); 10];
    let total = Money::sum_of(&items);
    assert_eq!(total.minor_units(), 100);
}

#[test]
fn letters_without_digits_are_empty_and_huge_amounts_out_of_range() {
    assert!(matches!(Money::parse_flexible("abc"), Err(MoneyParseError::Empty)));
    assert!(matches!(
        Money::parse_flexible("99999999999999999999"),
        Err(MoneyParseError::OutOfRange(_))
    ));
}

#[test]
fn decimal_text_reads_back_as_the_same_amount() {
    for minor in [0i64, 5, -5, 123_456, -123_456, 100, i64::MAX, i64::MIN + 1] {
        let text = Money::from_minor_units(minor).to_decimal_string();
        assert_eq!(Money::parse_flexible(&text).unwrap().minor_units(), minor);
    }
}

#[test]
fn operators_add_subtract_and_negate() {
    let a = Money::from_minor_units(1_250);
    let b = Money::from_minor_units(-250);
    assert_eq!((a + b).minor_units(), 1_000);
    assert_eq!((a - b).minor_units(), 1_500);
    assert_eq!((-a).minor_units(), -1_250);
    assert_eq!(b.abs().minor_units(), 250);
    assert!(b.is_negative());
    assert!(Money::zero().is_zero());
}

#[test]
fn saturating_operations_stop_at_the_limits() {
    assert_eq!(Money::from_minor_units(i64::MAX).saturating_add(Money::from_minor_units(1)).minor_units(), i64::MAX);
    assert_eq!(Money::from_minor_units(i64::MIN).saturating_sub(Money::from_minor_units(1)).minor_units(), i64::MIN);
    assert_eq!(Money::from_minor_units(i64::MIN).saturating_neg().minor_units(), i64::MAX);
}

#[test]
fn adding_in_place_saturates_like_adding() {
    let mut total = Money::from_minor_units(1_250);
    total += Money::from_minor_units(-250);
    assert_eq!(total, Money::from_minor_units(1_000));
    let mut edge = Money::from_minor_units(i64::MAX - 1);
    edge += Money::from_minor_units(5);
    assert_eq!(edge, Money::from_minor_units(i64::MAX));
}

#[test]
fn the_extremes_render_with_two_decimals_and_no_leading_zeros() {
    assert_eq!(Money::from_minor_units(i64::MIN).to_decimal_string(), "-92233720368547758.08");
    assert_eq!(Money::from_minor_units(i64::MAX).to_decimal_string(), "92233720368547758.07");
    for minor in [i64::MIN, -100_000, -1, 0, 7, 99, 100, 1_001, i64::MAX] {
        let text = Money::from_minor_units(minor).to_decimal_string();
        let unsigned = text.strip_prefix('-').unwrap_or(&text);
        assert_eq!(text.starts_with('-'), minor < 0);
        let (units, cents) = unsigned.split_once('.').expect("a point");
        assert_eq!(cents.len(), 2);
        assert!(units == "0" || !units.starts_with('0'));
        assert!(units.chars().chain(cents.chars()).all(|c| c.is_ascii_digit()));
    }
}
