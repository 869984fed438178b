use moneywatcher::csv_statement::read_rows;
use moneywatcher::date::Date;
use moneywatcher::dates::{detect_order, parse, DateOrder};
use moneywatcher::decode::{decode, is_excel};
use moneywatcher::mapping::{detect, normalize, AmountColumns};

fn strings(values: &[&str]) -> Vec<String> {
    values.iter().map(|v| v.to_string()).collect()
}

fn ymd(year: i32, month: u32, day: u32) -> Option<Date> {
    Date::from_ymd_opt(year, month, day)
}

#[test]
fn detects_day_first_from_a_day_above_twelve() {
    let order = detect_order(&strings(&["03/04/2026", "25/04/2026"]));
    assert_eq!(order, DateOrder::DayFirst);
    assert_eq!(parse("03/04/2026", order), ymd(2026, 4, 3));
}

#[test]
fn detects_month_first_from_us_style_column() {
    let order = detect_order(&strings(&["04/03/2026", "04/25/2026"]));
    assert_eq!(order, DateOrder::MonthFirst);
    assert_eq!(parse("04/03/2026", order), ymd(2026, 4, 3));
}

#[test]
fn detects_iso_dates() {
    let order = detect_order(&strings(&["2026-04-03", "2026-04-25"]));
    assert_eq!(order, DateOrder::Unambiguous);
    assert_eq!(parse("2026-04-03", order), ymd(2026, 4, 3));
}

#[test]
fn defaults_to_day_first_when_ambiguous() {
    assert_eq!(detect_order(&strings(&["03/04/2026"])), DateOrder::DayFirst);
}

#[test]
fn parses_two_digit_years_and_trailing_time() {
    let order = DateOrder::DayFirst;
    assert_eq!(parse("03/04/26", order), ymd(2026, 4, 3));
    assert_eq!(parse("03/04/2026 18:22", order), ymd(2026, 4, 3));
    assert_eq!(parse("   ", order), None);
}

#[test]
fn parses_spanish_abbreviated_months() {
    for (raw, expected) in [
        ("12 feb 2026", (2026, 2, 12)),
        ("1 ene 2026", (2026, 1, 1)),
        ("30 sept 2025", (2025, 9, 30)),
        ("5 dic 2025", (2025, 12, 5)),
        ("3 mar 2024", (2024, 3, 3)),
    ] {
        assert_eq!(
            parse(raw, DateOrder::DayFirst),
            ymd(expected.0, expected.1, expected.2),
            "could not read {raw}"
        );
    }
}

#[test]
fn parses_full_and_accented_month_names() {
    assert_eq!(parse("12 febrero 2026", DateOrder::DayFirst), ymd(2026, 2, 12));
    assert_eq!(parse("14 marzo 2026", DateOrder::DayFirst), ymd(2026, 3, 14));
}

#[test]
fn parses_english_month_first_and_separators() {
    assert_eq!(parse("Feb 12, 2026", DateOrder::DayFirst), ymd(2026, 2, 12));
    assert_eq!(parse("12-feb-2026", DateOrder::DayFirst), ymd(2026, 2, 12));
}

#[test]
fn named_months_do_not_skew_the_detected_order() {
    let samples = vec!["12 feb 2026".to_string(), "3 mar 2026".to_string()];
    assert_eq!(detect_order(&samples), DateOrder::Unambiguous);
}

#[test]
fn ignores_text_that_is_not_a_date() {
    assert_eq!(parse("Extracto de transaccion", DateOrder::DayFirst), None);
    assert_eq!(parse("Cuenta personal (EUR)", DateOrder::DayFirst), None);
    assert_eq!(parse("", DateOrder::DayFirst), None);
}

#[test]
fn a_day_that_does_not_exist_is_not_a_date() {
    assert_eq!(parse("31/02/2026", DateOrder::DayFirst), None);
    assert_eq!(ymd(2026, 2, 29), None);
    assert!(ymd(2024, 2, 29).is_some());
}

#[test]
fn decodes_utf8_and_strips_bom() {
    let bytes = [0xef, 0xbb, 0xbf, b'N', 0xc3, 0xb3, b'm', b'i', b'n', b'a'];
    assert_eq!(decode(&bytes), "Nómina");
}

#[test]
fn falls_back_to_windows_1252() {
    let bytes = [b'N', 0xf3, b'm', b'i', b'n', b'a', b' ', 0x80];
    assert_eq!(decode(&bytes), "Nómina €");
}

#[test]
fn recognises_spreadsheets_by_their_first_bytes() {
    assert!(is_excel(b"PK\x03\x04rest"));
    assert!(is_excel(&[0xD0, 0xCF, 0x11, 0xE0, 0xA1, 0xB1, 0x1A, 0xE1, 0x00]));
    assert!(!is_excel(b"Fecha;Concepto;Importe"));
}

#[test]
fn maps_spanish_single_amount_layout() {
    let mapping = detect(&strings(&["Fecha operación", "Fecha valor", "Concepto", "Importe", "Saldo"]))
        .expect("mapping detected");
    assert_eq!(mapping.booked_on, 0);
    assert_eq!(mapping.value_on, Some(1));
    assert_eq!(mapping.description, 2);
    assert_eq!(mapping.amount, AmountColumns::Single { index: 3 });
    assert_eq!(mapping.balance, Some(4));
}

#[test]
fn maps_the_fee_column_apart_from_the_amount() {
    let mapping = detect(&strings(&[
        "Tipo",
        "Producto",
        "Fecha de inicio",
        "Fecha de finalización",
        "Descripción",
        "Importe",
        "Comisión",
        "Divisa",
        "State",
        "Saldo",
    ]))
    .expect("mapping detected");
    assert_eq!(mapping.amount, AmountColumns::Single { index: 5 });
    assert_eq!(mapping.fee, Some(6));
    assert_eq!(mapping.balance, Some(9));
}

#[test]
fn statements_without_fees_leave_the_column_unset() {
    let mapping = detect(&strings(&["Fecha", "Concepto", "Importe", "Saldo"])).expect("mapping detected");
    assert_eq!(mapping.fee, None);
}

#[test]
fn maps_debit_credit_layout() {
    let mapping = detect(&strings(&["Date", "Description", "Debit", "Credit", "Balance"]))
        .expect("mapping detected");
    assert_eq!(mapping.amount, AmountColumns::DebitCredit { debit: 2, credit: 3 });
    assert_eq!(mapping.value_on, None);
}

#[test]
fn uses_counterparty_as_description_when_missing() {
    let mapping = detect(&strings(&["Date", "Payee", "Amount"])).expect("mapping detected");
    assert_eq!(mapping.description, 1);
    assert_eq!(mapping.counterparty, None);
}

#[test]
fn rejects_rows_without_date_or_amount() {
    assert!(detect(&strings(&["Concepto", "Saldo"])).is_none());
    assert!(detect(&strings(&["Fecha", "Saldo"])).is_none());
}

#[test]
fn normalizes_accents_and_punctuation() {
    assert_eq!(normalize("  FECHA_OPERACIÓN "), "fecha operacion");
}

#[test]
fn reads_money_in_out_as_a_single_signed_column() {
    let mapping = detect(&strings(&[
        "Fecha",
        "Descripción",
        "Categoría",
        "Entradas/salidas de dinero",
        "Saldo",
        "Impuestos retenidos",
        "Otros impuestos",
        "Comisiones",
    ]))
    .expect("header recognised");
    assert_eq!(mapping.booked_on, 0);
    assert_eq!(mapping.description, 1);
    assert_eq!(mapping.amount, AmountColumns::Single { index: 3 });
    assert_eq!(mapping.balance, Some(4));
}

#[test]
fn english_money_in_out_is_also_a_single_column() {
    let mapping = detect(&strings(&["Date", "Description", "Money in/out", "Balance"])).expect("header recognised");
    assert_eq!(mapping.amount, AmountColumns::Single { index: 2 });
}

#[test]
fn separate_debit_and_credit_columns_still_pair_up() {
    let mapping = detect(&strings(&["Date", "Description", "Debit", "Credit", "Balance"]))
        .expect("header recognised");
    assert_eq!(mapping.amount, AmountColumns::DebitCredit { debit: 2, credit: 3 });
}

#[test]
fn csv_cells_keep_their_line_and_lose_their_padding() {
    let rows = read_rows("Banco Ejemplo\nFecha;Concepto;Importe\n01/03/2026; MERCADONA ;-45,12\n", b';').unwrap();
    assert_eq!(rows.len(), 3);
    assert_eq!(rows[0], (1, vec!["Banco Ejemplo".to_string()]));
    assert_eq!(rows[1].1, vec!["Fecha", "Concepto", "Importe"]);
    assert_eq!(rows[2], (3, vec!["01/03/2026".to_string(), "MERCADONA".to_string(), "-45,12".to_string()]));
}

#[test]
fn a_quoted_field_keeps_its_delimiter() {
    let rows = read_rows("a,b\n\"c,d\",e\n", b',').unwrap();
    assert_eq!(rows[1].1, vec!["c,d", "e"]);
}

#[test]
fn unambiguous_dates_read_the_same_in_every_order() {
    for raw in ["2026-03-14", "12 feb 2026", "Feb 12, 2026"] {
        let day_first = parse(raw, DateOrder::DayFirst);
        assert!(day_first.is_some());
        assert_eq!(parse(raw, DateOrder::MonthFirst), day_first);
        assert_eq!(parse(raw, DateOrder::Unambiguous), day_first);
    }
    assert_ne!(parse("03/04/2026", DateOrder::DayFirst), parse("03/04/2026", DateOrder::MonthFirst));
}

#[test]
fn no_two_fields_read_the_same_column() {
    // "Fecha valor" also contains "fecha", "Importe comisión" holds both the
    // amount and the fee keywords, "Concepto movimiento" two description ones.
    let mapping = detect(&strings(&[
        "Fecha valor",
        "Fecha",
        "Importe",
        "Importe comisión",
        "Concepto movimiento",
        "Movimiento",
        "Saldo",
    ]))
    .expect("mapping detected");
    let mut columns = vec![mapping.booked_on, mapping.description];
    columns.extend(mapping.value_on);
    columns.extend(mapping.counterparty);
    columns.extend(mapping.fee);
    columns.extend(mapping.balance);
    match mapping.amount {
        AmountColumns::Single { index } => columns.push(index),
        AmountColumns::DebitCredit { debit, credit } => columns.extend([debit, credit]),
    }
    let mut unique = columns.clone();
    unique.sort();
    unique.dedup();
    assert_eq!(unique.len(), columns.len());
    assert!(columns.iter().all(|c| *c < 7));
    assert_eq!(mapping.value_on, Some(0));
    assert_eq!(mapping.booked_on, 1);
    assert_eq!(mapping.amount, AmountColumns::Single { index: 2 });
    assert_eq!(mapping.fee, Some(3));
}

#[test]
fn an_ambiguous_column_reads_day_first() {
    assert_eq!(detect_order(&strings(&["01/02/2024", "12/11/2023", "7/3/2025"])), DateOrder::DayFirst);
    assert_eq!(detect_order(&strings(&[])), DateOrder::DayFirst);
}

#[test]
fn headers_without_a_date_give_no_mapping() {
    assert!(detect(&strings(&["Concepto", "Importe", "Saldo"])).is_none());
    assert!(detect(&strings(&["Fecha", "Concepto", "Saldo"])).is_none());
    assert!(detect(&strings(&["Fecha", "Importe"])).is_none());
}
