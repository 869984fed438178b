//! Which column of a statement feeds each field of a movement.
use vstd::prelude::*;

use crate::text::{
    chars_of, contains_chars, contains_seq, is_alphanumeric, string_from_chars, to_lowercase,
    trim_end, trim_end_chars, unicode_alphanumeric, unicode_lowercase,
};

verus! {

/// How the amount travels in the statement: one signed column, or separate
/// debit and credit columns.
#[derive(Debug, Clone, Copy, PartialEq, Eq, Structural)]
pub enum AmountColumns {
    Single { index: usize },
    DebitCredit { debit: usize, credit: usize },
}

/// The column that feeds each field of a movement.
#[derive(Debug, Clone, Copy, PartialEq, Eq, Structural)]
pub struct ColumnMapping {
    pub booked_on: usize,
    pub value_on: Option<usize>,
    pub description: usize,
    pub counterparty: Option<usize>,
    pub amount: AmountColumns,
    /// Fee charged apart from the amount, when the bank lists it apart.
    pub fee: Option<usize>,
    pub balance: Option<usize>,
}

// ---------------------------------------------------------------------------
// Keywords
// ---------------------------------------------------------------------------

pub open spec fn value_date_keywords() -> Seq<&'static str> {
    seq!["fecha valor", "f valor", "value date", "valuta"]
}

pub open spec fn booked_date_keywords() -> Seq<&'static str> {
    seq![
        "fecha operacion", "f operacion", "fecha contable", "fecha", "transaction date",
        "booking date", "posted date", "date", "datum",
    ]
}

pub open spec fn description_keywords() -> Seq<&'static str> {
    seq![
        "concepto", "descripcion", "description", "detalle", "movimiento", "memo", "narrative",
        "details", "reference",
    ]
}

pub open spec fn counterparty_keywords() -> Seq<&'static str> {
    seq!["beneficiario", "ordenante", "contraparte", "payee", "counterparty", "merchant"]
}

pub open spec fn amount_keywords() -> Seq<&'static str> {
    seq!["importe", "amount", "cantidad", "valor", "betrag"]
}

/// Headers that name money in and out at once: one signed column, to be
/// recognised before "salida" takes it as the debit column.
pub open spec fn signed_amount_keywords() -> Seq<&'static str> {
    seq!["entradas salidas", "entrada salida", "money in out", "money in and out", "in out"]
}

pub open spec fn debit_keywords() -> Seq<&'static str> {
    seq!["cargo", "debe", "debit", "salida", "withdrawal", "paid out", "gastos"]
}

pub open spec fn credit_keywords() -> Seq<&'static str> {
    seq!["abono", "haber", "credit", "entrada", "deposit", "paid in", "ingresos"]
}

pub open spec fn balance_keywords() -> Seq<&'static str> {
    seq!["saldo", "balance", "saldo posterior"]
}

pub open spec fn fee_keywords() -> Seq<&'static str> {
    seq!["comision", "comisiones", "fee", "fees"]
}

// ---------------------------------------------------------------------------
// Header normalisation
// ---------------------------------------------------------------------------

/// Accented letters fold to their plain letter in headers.
pub open spec fn fold_header(c: char) -> char {
    if c == 'á' || c == 'à' || c == 'ä' || c == 'â' || c == 'Á' || c == 'À' || c == 'Ä' || c == 'Â' {
        'a'
    } else if c == 'é' || c == 'è' || c == 'ë' || c == 'ê' || c == 'É' || c == 'È' || c == 'Ë' || c == 'Ê' {
        'e'
    } else if c == 'í' || c == 'ì' || c == 'ï' || c == 'î' || c == 'Í' || c == 'Ì' || c == 'Ï' || c == 'Î' {
        'i'
    } else if c == 'ó' || c == 'ò' || c == 'ö' || c == 'ô' || c == 'Ó' || c == 'Ò' || c == 'Ö' || c == 'Ô' {
        'o'
    } else if c == 'ú' || c == 'ù' || c == 'ü' || c == 'û' || c == 'Ú' || c == 'Ù' || c == 'Ü' || c == 'Û' {
        'u'
    } else if c == 'ñ' || c == 'Ñ' {
        'n'
    } else if c == 'ç' || c == 'Ç' {
        'c'
    } else {
        c
    }
}

/// Output so far and whether it ends in a word break, after reading `s`.
pub open spec fn header_state(s: Seq<char>) -> (Seq<char>, bool)
    decreases s.len(),
{
    if s.len() == 0 {
        (Seq::empty(), true)
    } else {
        let (out, last_was_space) = header_state(s.drop_last());
        let c = fold_header(s.last());
        if unicode_alphanumeric(c) {
            (out + unicode_lowercase(c), false)
        } else if !last_was_space {
            (out.push(' '), true)
        } else {
            (out, last_was_space)
        }
    }
}

/// A header as it is compared: lower case, no accents, punctuation and
/// runs of spaces folded into single spaces.
pub open spec fn normalized_header(s: Seq<char>) -> Seq<char> {
    trim_end(header_state(s).0)
}

// ---------------------------------------------------------------------------
// Column search
// ---------------------------------------------------------------------------

/// First free, non-empty header that contains `keyword`.
pub open spec fn find_keyword(headers: Seq<Seq<char>>, taken: Seq<bool>, keyword: Seq<char>, i: int) -> Option<int>
    decreases headers.len() - i,
{
    if i < 0 || i >= headers.len() {
        None
    } else if !taken[i] && headers[i].len() > 0 && contains_seq(headers[i], keyword) {
        Some(i)
    } else {
        find_keyword(headers, taken, keyword, i + 1)
    }
}

/// The column the first keyword that finds one finds, keywords tried in order.
pub open spec fn find_column(headers: Seq<Seq<char>>, taken: Seq<bool>, keywords: Seq<&'static str>, j: int) -> Option<int>
    decreases keywords.len() - j,
{
    if j < 0 || j >= keywords.len() {
        None
    } else {
        match find_keyword(headers, taken, keywords[j]@, 0) {
            Some(i) => Some(i),
            None => find_column(headers, taken, keywords, j + 1),
        }
    }
}

pub open spec fn mark(taken: Seq<bool>, found: Option<int>) -> Seq<bool> {
    match found {
        Some(i) => taken.update(i, true),
        None => taken,
    }
}

pub open spec fn opt_usize(o: Option<int>) -> Option<usize> {
    match o {
        Some(i) => Some(i as usize),
        None => None,
    }
}

/// The columns found, field by field, in the order they are looked for:
/// value date, booking date, balance, signed amount, debit, credit, amount
/// (the signed one when there is one), fee, counterparty and description.
/// Each search skips the columns found before it.
pub open spec fn found_columns(n: Seq<Seq<char>>) -> Seq<Option<int>> {
    let t0 = Seq::new(n.len(), |i: int| false);
    let value_on = find_column(n, t0, value_date_keywords(), 0);
    let t1 = mark(t0, value_on);
    let booked = find_column(n, t1, booked_date_keywords(), 0);
    let t2 = mark(t1, booked);
    let balance = find_column(n, t2, balance_keywords(), 0);
    let t3 = mark(t2, balance);
    let signed = find_column(n, t3, signed_amount_keywords(), 0);
    let t4 = mark(t3, signed);
    let debit = find_column(n, t4, debit_keywords(), 0);
    let t5 = mark(t4, debit);
    let credit = find_column(n, t5, credit_keywords(), 0);
    let t6 = mark(t5, credit);
    let single = if signed is Some { signed } else { find_column(n, t6, amount_keywords(), 0) };
    let t7 = if signed is Some { t6 } else { mark(t6, single) };
    let fee = find_column(n, t7, fee_keywords(), 0);
    let t8 = mark(t7, fee);
    let counterparty = find_column(n, t8, counterparty_keywords(), 0);
    let t9 = mark(t8, counterparty);
    let description = find_column(n, t9, description_keywords(), 0);
    seq![value_on, booked, balance, signed, debit, credit, single, fee, counterparty, description]
}

/// The mapping deduced from normalised headers. Fields are assigned from the
/// most specific to the most generic, each column taken at most once; a
/// statement whose only date is the value date books by it.
pub open spec fn mapping_of(n: Seq<Seq<char>>) -> Option<ColumnMapping> {
    let f = found_columns(n);
    match (if f[1] is Some { f[1] } else { f[0] }) {
        None => None,
        Some(booked_on) => assembled_mapping(booked_on, f[0], f[2], f[4], f[5], f[6], f[7], f[8], f[9]),
    }
}

/// The mapping made of the columns found: the amount from one signed column
/// or from a debit and a credit one, the description from its own column or
/// else from the counterparty's, and the value date only when it is not the
/// booking date.
pub open spec fn assembled_mapping(
    booked_on: int,
    value_on: Option<int>,
    balance: Option<int>,
    debit: Option<int>,
    credit: Option<int>,
    single: Option<int>,
    fee: Option<int>,
    counterparty: Option<int>,
    description: Option<int>,
) -> Option<ColumnMapping> {
    let amount = match (single, debit, credit) {
        (Some(i), _, _) => Some(AmountColumns::Single { index: i as usize }),
        (None, Some(d), Some(c)) => Some(AmountColumns::DebitCredit { debit: d as usize, credit: c as usize }),
        _ => None,
    };
    let described = match (description, counterparty) {
        (Some(d), c) => Some((d, c)),
        (None, Some(c)) => Some((c, None::<int>)),
        (None, None) => None,
    };
    match (amount, described) {
        (Some(amount), Some((description, counterparty))) => Some(
            ColumnMapping {
                booked_on: booked_on as usize,
                value_on: match value_on {
                    Some(v) => if v != booked_on {
                        Some(v as usize)
                    } else {
                        None
                    },
                    None => None,
                },
                description: description as usize,
                counterparty: opt_usize(counterparty),
                amount,
                fee: opt_usize(fee),
                balance: opt_usize(balance),
            },
        ),
        _ => None,
    }
}

/// How many fields of `m` read column `c`.
pub open spec fn fields_reading(m: ColumnMapping, c: usize) -> int {
    one_if(m.booked_on == c) + one_if(m.value_on == Some(c)) + one_if(m.description == c) + one_if(
        m.counterparty == Some(c),
    ) + match m.amount {
        AmountColumns::Single { index } => one_if(index == c),
        AmountColumns::DebitCredit { debit, credit } => one_if(debit == c) + one_if(credit == c),
    } + one_if(m.fee == Some(c)) + one_if(m.balance == Some(c))
}

pub open spec fn one_if(b: bool) -> int {
    if b {
        1
    } else {
        0
    }
}

/// Every column a field of `m` reads.
pub open spec fn reads_column(m: ColumnMapping, c: usize) -> bool {
    fields_reading(m, c) > 0
}

proof fn lemma_find_keyword_free(headers: Seq<Seq<char>>, taken: Seq<bool>, keyword: Seq<char>, i: int)
    requires
        taken.len() == headers.len(),
    ensures
        find_keyword(headers, taken, keyword, i) matches Some(k) ==> 0 <= k < headers.len() && !taken[k],
    decreases headers.len() - i,
{
    if 0 <= i < headers.len() {
        lemma_find_keyword_free(headers, taken, keyword, i + 1);
    }
}

proof fn lemma_find_column_free(headers: Seq<Seq<char>>, taken: Seq<bool>, keywords: Seq<&'static str>, j: int)
    requires
        taken.len() == headers.len(),
    ensures
        find_column(headers, taken, keywords, j) matches Some(k) ==> 0 <= k < headers.len() && !taken[k],
    decreases keywords.len() - j,
{
    if 0 <= j < keywords.len() {
        lemma_find_keyword_free(headers, taken, keywords[j]@, 0);
        lemma_find_column_free(headers, taken, keywords, j + 1);
    }
}

/// Whether no two fields of `m` read the same column.
pub open spec fn fields_distinct(m: ColumnMapping) -> bool {
    let cols = amount_column_list(m.amount);
    &&& m.value_on != Some(m.booked_on)
    &&& m.description != m.booked_on && m.value_on != Some(m.description)
    &&& m.counterparty != Some(m.booked_on) && m.counterparty != Some(m.description) && (m.counterparty is Some
        ==> m.counterparty != m.value_on)
    &&& forall|k: int| 0 <= k < cols.len() ==> {
        &&& #[trigger] cols[k] != m.booked_on
        &&& cols[k] != m.description
        &&& m.value_on != Some(cols[k])
        &&& m.counterparty != Some(cols[k])
        &&& m.fee != Some(cols[k])
        &&& m.balance != Some(cols[k])
    }
    &&& cols.len() == 2 ==> cols[0] != cols[1]
    &&& m.fee != Some(m.booked_on) && m.fee != Some(m.description) && (m.fee is Some ==> m.fee != m.value_on
        && m.fee != m.counterparty)
    &&& m.balance != Some(m.booked_on) && m.balance != Some(m.description) && (m.balance is Some ==> m.balance
        != m.value_on && m.balance != m.counterparty && m.balance != m.fee)
}

/// The columns the amount is read from.
pub open spec fn amount_column_list(a: AmountColumns) -> Seq<usize> {
    match a {
        AmountColumns::Single { index } => seq![index],
        AmountColumns::DebitCredit { debit, credit } => seq![debit, credit],
    }
}

proof fn lemma_distinct_fields_read_once(m: ColumnMapping, c: usize)
    requires
        fields_distinct(m),
    ensures
        fields_reading(m, c) <= 1,
{
    let cols = amount_column_list(m.amount);
    assert(cols.len() >= 1 ==> cols[0] != m.booked_on);
    assert(cols.len() == 2 ==> cols[1] != m.booked_on);
}

/// Whether two found columns, when both were found, differ.
pub open spec fn apart(a: Option<int>, b: Option<int>) -> bool {
    match (a, b) {
        (Some(x), Some(y)) => x != y,
        _ => true,
    }
}

/// Whether a found column lies within the first `len` columns.
pub open spec fn within(a: Option<int>, len: int) -> bool {
    match a {
        Some(x) => 0 <= x < len,
        None => true,
    }
}

proof fn lemma_assembled_fields_distinct(
    len: int,
    booked_on: int,
    value_on: Option<int>,
    balance: Option<int>,
    debit: Option<int>,
    credit: Option<int>,
    single: Option<int>,
    fee: Option<int>,
    counterparty: Option<int>,
    description: Option<int>,
)
    requires
        len <= usize::MAX,
        0 <= booked_on < len,
        within(value_on, len) && within(balance, len) && within(debit, len) && within(credit, len),
        within(single, len) && within(fee, len) && within(counterparty, len) && within(description, len),
        apart(Some(booked_on), balance) && apart(Some(booked_on), debit) && apart(Some(booked_on), credit),
        apart(Some(booked_on), single) && apart(Some(booked_on), fee) && apart(Some(booked_on), counterparty),
        apart(Some(booked_on), description),
        value_on != Some(booked_on) ==> apart(value_on, balance) && apart(value_on, debit) && apart(value_on, credit)
            && apart(value_on, single) && apart(value_on, fee) && apart(value_on, counterparty) && apart(
            value_on,
            description,
        ),
        apart(balance, debit) && apart(balance, credit) && apart(balance, single) && apart(balance, fee),
        apart(balance, counterparty) && apart(balance, description),
        apart(debit, credit) && apart(debit, fee) && apart(debit, counterparty) && apart(debit, description),
        apart(credit, fee) && apart(credit, counterparty) && apart(credit, description),
        apart(single, fee) && apart(single, counterparty) && apart(single, description),
        apart(fee, counterparty) && apart(fee, description),
        apart(counterparty, description),
    ensures
        assembled_mapping(booked_on, value_on, balance, debit, credit, single, fee, counterparty, description) matches Some(
            m,
        ) ==> fields_distinct(m) && forall|c: usize| reads_column(m, c) ==> c < len,
{
    if let Some(m) = assembled_mapping(booked_on, value_on, balance, debit, credit, single, fee, counterparty, description) {
        let cols = amount_column_list(m.amount);
        match single {
            Some(i) => {
                assert(m.amount == AmountColumns::Single { index: i as usize });
                assert(cols =~= seq![i as usize]);
            },
            None => {
                assert(m.amount == AmountColumns::DebitCredit { debit: debit->0 as usize, credit: credit->0 as usize });
                assert(cols =~= seq![debit->0 as usize, credit->0 as usize]);
            },
        }
        match description {
            Some(d) => {
                assert(m.description == d as usize);
                assert(m.counterparty == opt_usize(counterparty));
            },
            None => {
                assert(m.description == counterparty->0 as usize);
                assert(m.counterparty is None);
            },
        }
        assert(fields_distinct(m));
        assert forall|c: usize| reads_column(m, c) implies c < len by {
            assert(fields_reading(m, c) > 0);
        }
    }
}

/// The columns found are columns of the header row, and no two searches
/// find the same one (the amount search only repeats the signed column).
#[verifier::rlimit(100)]
#[verifier::spinoff_prover]
proof fn lemma_found_columns_apart(n: Seq<Seq<char>>)
    ensures
        found_columns(n).len() == 10,
        within(found_columns(n)[0], n.len() as int),
        within(found_columns(n)[1], n.len() as int),
        within(found_columns(n)[2], n.len() as int),
        within(found_columns(n)[3], n.len() as int),
        within(found_columns(n)[4], n.len() as int),
        within(found_columns(n)[5], n.len() as int),
        within(found_columns(n)[6], n.len() as int),
        within(found_columns(n)[7], n.len() as int),
        within(found_columns(n)[8], n.len() as int),
        within(found_columns(n)[9], n.len() as int),
        apart(found_columns(n)[0], found_columns(n)[1]),
        apart(found_columns(n)[0], found_columns(n)[2]),
        apart(found_columns(n)[1], found_columns(n)[2]),
        apart(found_columns(n)[0], found_columns(n)[3]),
        apart(found_columns(n)[1], found_columns(n)[3]),
        apart(found_columns(n)[2], found_columns(n)[3]),
        apart(found_columns(n)[0], found_columns(n)[4]),
        apart(found_columns(n)[1], found_columns(n)[4]),
        apart(found_columns(n)[2], found_columns(n)[4]),
        apart(found_columns(n)[3], found_columns(n)[4]),
        apart(found_columns(n)[0], found_columns(n)[5]),
        apart(found_columns(n)[1], found_columns(n)[5]),
        apart(found_columns(n)[2], found_columns(n)[5]),
        apart(found_columns(n)[3], found_columns(n)[5]),
        apart(found_columns(n)[4], found_columns(n)[5]),
        apart(found_columns(n)[0], found_columns(n)[6]),
        apart(found_columns(n)[1], found_columns(n)[6]),
        apart(found_columns(n)[2], found_columns(n)[6]),
        apart(found_columns(n)[4], found_columns(n)[6]),
        apart(found_columns(n)[5], found_columns(n)[6]),
        apart(found_columns(n)[0], found_columns(n)[7]),
        apart(found_columns(n)[1], found_columns(n)[7]),
        apart(found_columns(n)[2], found_columns(n)[7]),
        apart(found_columns(n)[3], found_columns(n)[7]),
        apart(found_columns(n)[4], found_columns(n)[7]),
        apart(found_columns(n)[5], found_columns(n)[7]),
        apart(found_columns(n)[6], found_columns(n)[7]),
        apart(found_columns(n)[0], found_columns(n)[8]),
        apart(found_columns(n)[1], found_columns(n)[8]),
        apart(found_columns(n)[2], found_columns(n)[8]),
        apart(found_columns(n)[3], found_columns(n)[8]),
        apart(found_columns(n)[4], found_columns(n)[8]),
        apart(found_columns(n)[5], found_columns(n)[8]),
        apart(found_columns(n)[6], found_columns(n)[8]),
        apart(found_columns(n)[7], found_columns(n)[8]),
        apart(found_columns(n)[0], found_columns(n)[9]),
        apart(found_columns(n)[1], found_columns(n)[9]),
        apart(found_columns(n)[2], found_columns(n)[9]),
        apart(found_columns(n)[3], found_columns(n)[9]),
        apart(found_columns(n)[4], found_columns(n)[9]),
        apart(found_columns(n)[5], found_columns(n)[9]),
        apart(found_columns(n)[6], found_columns(n)[9]),
        apart(found_columns(n)[7], found_columns(n)[9]),
        apart(found_columns(n)[8], found_columns(n)[9]),
{
    let t0 = Seq::new(n.len(), |i: int| false);
    let value_on = find_column(n, t0, value_date_keywords(), 0);
    lemma_find_column_free(n, t0, value_date_keywords(), 0);
    let t1 = mark(t0, value_on);
    let booked = find_column(n, t1, booked_date_keywords(), 0);
    lemma_find_column_free(n, t1, booked_date_keywords(), 0);
    let t2 = mark(t1, booked);
    let balance = find_column(n, t2, balance_keywords(), 0);
    lemma_find_column_free(n, t2, balance_keywords(), 0);
    let t3 = mark(t2, balance);
    let signed = find_column(n, t3, signed_amount_keywords(), 0);
    lemma_find_column_free(n, t3, signed_amount_keywords(), 0);
    let t4 = mark(t3, signed);
    let debit = find_column(n, t4, debit_keywords(), 0);
    lemma_find_column_free(n, t4, debit_keywords(), 0);
    let t5 = mark(t4, debit);
    let credit = find_column(n, t5, credit_keywords(), 0);
    lemma_find_column_free(n, t5, credit_keywords(), 0);
    let t6 = mark(t5, credit);
    let found_amount = find_column(n, t6, amount_keywords(), 0);
    lemma_find_column_free(n, t6, amount_keywords(), 0);
    let single = if signed is Some { signed } else { found_amount };
    let single_marked = if signed is Some { None } else { found_amount };
    let t7 = mark(t6, single_marked);
    let fee = find_column(n, t7, fee_keywords(), 0);
    lemma_find_column_free(n, t7, fee_keywords(), 0);
    let t8 = mark(t7, fee);
    let counterparty = find_column(n, t8, counterparty_keywords(), 0);
    lemma_find_column_free(n, t8, counterparty_keywords(), 0);
    let t9 = mark(t8, counterparty);
    let description = find_column(n, t9, description_keywords(), 0);
    lemma_find_column_free(n, t9, description_keywords(), 0);
    assert(t7 == (if signed is Some { t6 } else { mark(t6, single) }));
    let f = found_columns(n);
    assert(f == seq![value_on, booked, balance, signed, debit, credit, single, fee, counterparty, description]);
    assert(value_on matches Some(i) ==> t1[i] && t2[i] && t3[i] && t4[i] && t5[i] && t6[i] && t7[i] && t8[i] && t9[i]);
    assert(booked matches Some(i) ==> t2[i] && t3[i] && t4[i] && t5[i] && t6[i] && t7[i] && t8[i] && t9[i]);
    assert(balance matches Some(i) ==> t3[i] && t4[i] && t5[i] && t6[i] && t7[i] && t8[i] && t9[i]);
    assert(signed matches Some(i) ==> t4[i] && t5[i] && t6[i] && t7[i] && t8[i] && t9[i]);
    assert(debit matches Some(i) ==> t5[i] && t6[i] && t7[i] && t8[i] && t9[i]);
    assert(credit matches Some(i) ==> t6[i] && t7[i] && t8[i] && t9[i]);
    assert(single_marked matches Some(i) ==> t7[i] && t8[i] && t9[i]);
    assert(fee matches Some(i) ==> t8[i] && t9[i]);
    assert(counterparty matches Some(i) ==> t9[i]);
}

/// Each column is consumed when it is assigned, so no two fields read the
/// same cell, and every field reads a column of the header row.
pub proof fn lemma_no_two_fields_read_one_column(n: Seq<Seq<char>>)
    requires
        n.len() <= usize::MAX,
    ensures
        mapping_of(n) matches Some(m) ==> forall|c: usize|
            #[trigger] fields_reading(m, c) <= 1 && (reads_column(m, c) ==> c < n.len()),
{
    let f = found_columns(n);
    lemma_found_columns_apart(n);
    if let Some(booked_on) = (if f[1] is Some { f[1] } else { f[0] }) {
        lemma_assembled_fields_distinct(n.len() as int, booked_on, f[0], f[2], f[4], f[5], f[6], f[7], f[8], f[9]);
    }
    if let Some(m) = mapping_of(n) {
        assert forall|c: usize| #[trigger] fields_reading(m, c) <= 1 && (reads_column(m, c) ==> c < n.len()) by {
            lemma_distinct_fields_read_once(m, c);
        }
    }
}

/// Whether a free, non-empty header contains one of `keywords`.
pub open spec fn some_header_names(n: Seq<Seq<char>>, taken: Seq<bool>, keywords: Seq<&'static str>) -> bool {
    exists|x: int, j: int|
        0 <= x < n.len() && 0 <= j < keywords.len() && !taken[x] && n[x].len() > 0 && #[trigger] contains_seq(
            n[x],
            #[trigger] keywords[j]@,
        )
}

proof fn lemma_find_keyword_none(headers: Seq<Seq<char>>, taken: Seq<bool>, keyword: Seq<char>, i: int)
    requires
        0 <= i,
    ensures
        find_keyword(headers, taken, keyword, i) is None <==> forall|x: int|
            i <= x < headers.len() ==> !(!taken[x] && headers[x].len() > 0 && #[trigger] contains_seq(
                headers[x],
                keyword,
            )),
    decreases headers.len() - i,
{
    if i < headers.len() {
        lemma_find_keyword_none(headers, taken, keyword, i + 1);
    }
}

proof fn lemma_find_column_none(headers: Seq<Seq<char>>, taken: Seq<bool>, keywords: Seq<&'static str>, j: int)
    requires
        0 <= j,
    ensures
        find_column(headers, taken, keywords, j) is None <==> forall|y: int|
            j <= y < keywords.len() ==> #[trigger] find_keyword(headers, taken, keywords[y]@, 0) is None,
    decreases keywords.len() - j,
{
    if j < keywords.len() {
        lemma_find_column_none(headers, taken, keywords, j + 1);
    }
}

/// A search finds nothing exactly when no free, non-empty header contains
/// any of its keywords.
proof fn lemma_find_column_none_iff(headers: Seq<Seq<char>>, taken: Seq<bool>, keywords: Seq<&'static str>)
    ensures
        find_column(headers, taken, keywords, 0) is None <==> !some_header_names(headers, taken, keywords),
{
    lemma_find_column_none(headers, taken, keywords, 0);
    if find_column(headers, taken, keywords, 0) is None {
        assert forall|x: int, j: int|
            0 <= x < headers.len() && 0 <= j < keywords.len() && !taken[x] && headers[x].len() > 0 implies !contains_seq(
            headers[x],
            keywords[j]@,
        ) by {
            assert(find_keyword(headers, taken, keywords[j]@, 0) is None);
            lemma_find_keyword_none(headers, taken, keywords[j]@, 0);
        }
    } else {
        let y = choose|y: int| 0 <= y < keywords.len() && !(#[trigger] find_keyword(headers, taken, keywords[y]@, 0) is None);
        lemma_find_keyword_none(headers, taken, keywords[y]@, 0);
        let x = choose|x: int|
            0 <= x < headers.len() && !taken[x] && headers[x].len() > 0 && #[trigger] contains_seq(
                headers[x],
                keywords[y]@,
            );
        assert(contains_seq(headers[x], keywords[y]@));
    }
}

/// No mapping comes out exactly when a required field has no column: no
/// date (neither a booking date nor a value date was found), no amount
/// (neither a signed or plain amount column nor both a debit and a credit
/// column), or nothing to describe the movement (neither a description nor a
/// counterparty column). The positions are those of `found_columns`.
pub proof fn lemma_when_there_is_no_mapping(n: Seq<Seq<char>>)
    ensures
        ({
            let f = found_columns(n);
            mapping_of(n) is None <==> (f[1] is None && f[0] is None) || (f[6] is None && !(f[4] is Some
                && f[5] is Some)) || (f[9] is None && f[8] is None)
        }),
{
}

/// What describes a movement: the description column when one is found,
/// together with the counterparty column when one is found too; with no
/// description column, the counterparty column stands in for it. The
/// positions are those of `found_columns`: the counterparty search is the
/// first free header holding a counterparty keyword, the description search
/// the first free one after it holding a description keyword.
pub proof fn lemma_description_and_counterparty(n: Seq<Seq<char>>)
    ensures
        ({
            let f = found_columns(n);
            mapping_of(n) matches Some(m) ==> match f[9] {
                Some(d) => m.description == d as usize && m.counterparty == (match f[8] {
                    Some(c) => Some(c as usize),
                    None => None::<usize>,
                }),
                None => f[8] matches Some(c) && m.description == c as usize && m.counterparty is None,
            }
        }),
        ({
            let f = found_columns(n);
            &&& (f[1] is Some || f[0] is Some)
            &&& (f[6] is Some || (f[4] is Some && f[5] is Some))
            &&& (f[9] is Some || f[8] is Some)
        }) ==> mapping_of(n) is Some,
{
}

/// Where each of the other fields is read: the booking date from the
/// booking-date column, or the value-date column when there is none; the
/// value date only when both date columns were found (they are never the
/// same one); the amount from the signed or plain amount column, or else from
/// the debit and credit columns; the fee and the balance from their own
/// columns when found. The positions are those of `found_columns`.
pub proof fn lemma_where_each_field_is_read(n: Seq<Seq<char>>)
    ensures
        ({
            let f = found_columns(n);
            mapping_of(n) matches Some(m) ==> {
                &&& m.booked_on == (if f[1] is Some { f[1]->0 } else { f[0]->0 }) as usize
                &&& m.value_on == (if f[1] is Some { opt_usize(f[0]) } else { None })
                &&& m.amount == (if f[6] is Some {
                    AmountColumns::Single { index: f[6]->0 as usize }
                } else {
                    AmountColumns::DebitCredit { debit: f[4]->0 as usize, credit: f[5]->0 as usize }
                })
                &&& m.fee == opt_usize(f[7])
                &&& m.balance == opt_usize(f[2])
            }
        }),
{
    lemma_found_columns_apart(n);
}

/// Headers of which none names a date give no mapping.
pub proof fn lemma_no_date_no_mapping(n: Seq<Seq<char>>)
    requires
        !some_header_names(n, Seq::new(n.len(), |i: int| false), value_date_keywords()),
        !some_header_names(n, Seq::new(n.len(), |i: int| false), booked_date_keywords()),
    ensures
        mapping_of(n) is None,
{
    let t0 = Seq::new(n.len(), |i: int| false);
    lemma_find_column_none_iff(n, t0, value_date_keywords());
    let t1 = mark(t0, find_column(n, t0, value_date_keywords(), 0));
    assert(t1 == t0);
    lemma_find_column_none_iff(n, t0, booked_date_keywords());
}

pub open spec fn views(v: Seq<Vec<char>>) -> Seq<Seq<char>> {
    v.map_values(|x: Vec<char>| x@)
}

// ---------------------------------------------------------------------------
// Executable code
// ---------------------------------------------------------------------------

fn fold_accent(c: char) -> (r: char)
    ensures
        r == fold_header(c),
{
    if c == 'á' || c == 'à' || c == 'ä' || c == 'â' || c == 'Á' || c == 'À' || c == 'Ä' || c == 'Â' {
        'a'
    } else if c == 'é' || c == 'è' || c == 'ë' || c == 'ê' || c == 'É' || c == 'È' || c == 'Ë' || c == 'Ê' {
        'e'
    } else if c == 'í' || c == 'ì' || c == 'ï' || c == 'î' || c == 'Í' || c == 'Ì' || c == 'Ï' || c == 'Î' {
        'i'
    } else if c == 'ó' || c == 'ò' || c == 'ö' || c == 'ô' || c == 'Ó' || c == 'Ò' || c == 'Ö' || c == 'Ô' {
        'o'
    } else if c == 'ú' || c == 'ù' || c == 'ü' || c == 'û' || c == 'Ú' || c == 'Ù' || c == 'Ü' || c == 'Û' {
        'u'
    } else if c == 'ñ' || c == 'Ñ' {
        'n'
    } else if c == 'ç' || c == 'Ç' {
        'c'
    } else {
        c
    }
}

fn normalize_chars(header: &str) -> (r: Vec<char>)
    ensures
        r@ == normalized_header(header@),
{
    let chars = chars_of(header);
    let mut normalized: Vec<char> = Vec::new();
    let mut last_was_space = true;
    let mut i: usize = 0;
    while i < chars.len()
        invariant
            i <= chars.len(),
            chars@ == header@,
            (normalized@, last_was_space) == header_state(header@.take(i as int)),
        decreases chars.len() - i,
    {
        let folded = fold_accent(chars[i]);
        assert(header@.take(i + 1).drop_last() =~= header@.take(i as int));
        if is_alphanumeric(folded) {
            let lower = to_lowercase(folded);
            let mut k: usize = 0;
            let ghost before = normalized@;
            while k < lower.len()
                invariant
                    k <= lower.len(),
                    normalized@ == before + lower@.take(k as int),
                decreases lower.len() - k,
            {
                normalized.push(lower[k]);
                assert(before + lower@.take(k + 1) =~= (before + lower@.take(k as int)).push(lower@[k as int]));
                k = k + 1;
            }
            assert(lower@.take(lower.len() as int) =~= lower@);
            last_was_space = false;
        } else if !last_was_space {
            normalized.push(' ');
            last_was_space = true;
        }
        i = i + 1;
    }
    assert(header@.take(header@.len() as int) =~= header@);
    trim_end_chars(&mut normalized);
    normalized
}

/// Normalises a header so that "Fecha Operación" and "FECHA_OPERACION" read
/// the same.
pub fn normalize(header: &str) -> (r: String)
    ensures
        r@ == normalized_header(header@),
{
    let chars = normalize_chars(header);
    string_from_chars(&chars)
}

/// Takes the first free, non-empty column whose header contains one of the
/// keywords, trying the keywords in order.
fn find(headers: &Vec<Vec<char>>, taken: &mut Vec<bool>, keywords: &Vec<&'static str>) -> (r: Option<usize>)
    requires
        old(taken)@.len() == headers@.len(),
    ensures
        opt_int(r) == find_column(views(headers@), old(taken)@, keywords@, 0),
        final(taken)@ == mark(old(taken)@, opt_int(r)),
        r matches Some(i) ==> i < headers@.len(),
{
    let ghost hs = views(headers@);
    let mut j: usize = 0;
    while j < keywords.len()
        invariant
            j <= keywords.len(),
            taken@ == old(taken)@,
            taken@.len() == headers@.len(),
            hs == views(headers@),
            find_column(hs, taken@, keywords@, 0) == find_column(hs, taken@, keywords@, j as int),
        decreases keywords.len() - j,
    {
        let keyword = chars_of(keywords[j]);
        let mut index: usize = 0;
        while index < headers.len()
            invariant
                j < keywords.len(),
                index <= headers.len(),
                taken@ == old(taken)@,
                taken@.len() == headers@.len(),
                hs == views(headers@),
                keyword@ == keywords@[j as int]@,
                find_column(hs, taken@, keywords@, 0) == find_column(hs, taken@, keywords@, j as int),
                find_keyword(hs, taken@, keyword@, 0) == find_keyword(hs, taken@, keyword@, index as int),
            decreases headers.len() - index,
        {
            assert(hs[index as int] == headers@[index as int]@);
            if !taken[index] && headers[index].len() > 0 && contains_chars(&headers[index], &keyword) {
                assert(find_keyword(hs, taken@, keyword@, index as int) == Some(index as int));
                assert(find_column(hs, taken@, keywords@, j as int) == Some(index as int));
                taken.set(index, true);
                return Some(index);
            }
            index = index + 1;
        }
        j = j + 1;
    }
    None
}

pub open spec fn opt_int(o: Option<usize>) -> Option<int> {
    match o {
        Some(i) => Some(i as int),
        None => None,
    }
}

/// Deduces the column mapping from the header row, or `None` when the row
/// has no date, no amount or nothing to describe the movement with.
pub fn detect(headers: &[String]) -> (r: Option<ColumnMapping>)
    ensures
        r == mapping_of(headers@.map_values(|h: String| normalized_header(h@))),
{
    let ghost expected = headers@.map_values(|h: String| normalized_header(h@));
    let mut normalized: Vec<Vec<char>> = Vec::new();
    let mut i: usize = 0;
    while i < headers.len()
        invariant
            i <= headers.len(),
            normalized.len() == i,
            views(normalized@) == expected.take(i as int),
            expected == headers@.map_values(|h: String| normalized_header(h@)),
        decreases headers.len() - i,
    {
        let n = normalize_chars(headers[i].as_str());
        assert(expected[i as int] == n@);
        let ghost before = normalized@;
        normalized.push(n);
        assert forall|k: int| 0 <= k < i + 1 implies #[trigger] views(normalized@)[k] == expected.take(i + 1)[k] by {
            if k < i {
                assert(normalized@[k] == before[k]);
                assert(views(before)[k] == expected.take(i as int)[k]);
            }
        }
        assert(views(normalized@) =~= expected.take(i + 1));
        i = i + 1;
    }
    assert(expected.take(headers.len() as int) =~= expected);
    let ghost n = views(normalized@);
    let mut taken: Vec<bool> = Vec::new();
    let mut k: usize = 0;
    while k < normalized.len()
        invariant
            k <= normalized.len(),
            taken@ == Seq::new(k as nat, |i: int| false),
        decreases normalized.len() - k,
    {
        taken.push(false);
        assert(taken@ =~= Seq::new((k + 1) as nat, |i: int| false));
        k = k + 1;
    }
    let value_on = find(&normalized, &mut taken, &vec!["fecha valor", "f valor", "value date", "valuta"]);
    let booked = find(
        &normalized,
        &mut taken,
        &vec![
            "fecha operacion", "f operacion", "fecha contable", "fecha", "transaction date",
            "booking date", "posted date", "date", "datum",
        ],
    );
    // A statement whose only date column is labelled "value date" is still
    // usable: that date becomes the booking date.
    let booked_on = match booked {
        Some(b) => b,
        None => match value_on {
            Some(v) => v,
            None => {
                return None;
            },
        },
    };
    let balance = find(&normalized, &mut taken, &vec!["saldo", "balance", "saldo posterior"]);
    let signed_amount = find(
        &normalized,
        &mut taken,
        &vec!["entradas salidas", "entrada salida", "money in out", "money in and out", "in out"],
    );
    let debit = find(
        &normalized,
        &mut taken,
        &vec!["cargo", "debe", "debit", "salida", "withdrawal", "paid out", "gastos"],
    );
    let credit = find(
        &normalized,
        &mut taken,
        &vec!["abono", "haber", "credit", "entrada", "deposit", "paid in", "ingresos"],
    );
    let single_amount = match signed_amount {
        Some(s) => Some(s),
        None => find(&normalized, &mut taken, &vec!["importe", "amount", "cantidad", "valor", "betrag"]),
    };
    let fee = find(&normalized, &mut taken, &vec!["comision", "comisiones", "fee", "fees"]);
    let counterparty = find(
        &normalized,
        &mut taken,
        &vec!["beneficiario", "ordenante", "contraparte", "payee", "counterparty", "merchant"],
    );
    let description = find(
        &normalized,
        &mut taken,
        &vec![
            "concepto", "descripcion", "description", "detalle", "movimiento", "memo", "narrative",
            "details", "reference",
        ],
    );

    let amount = match (single_amount, debit, credit) {
        (Some(index), _, _) => AmountColumns::Single { index },
        (None, Some(debit), Some(credit)) => AmountColumns::DebitCredit { debit, credit },
        _ => {
            return None;
        },
    };

    // Without a description there is nothing to categorise, but a statement
    // may carry it only as the counterparty; then that column describes.
    let (description, counterparty) = match (description, counterparty) {
        (Some(description), counterparty) => (description, counterparty),
        (None, Some(counterparty)) => (counterparty, None),
        (None, None) => {
            return None;
        },
    };

    let value_on = match value_on {
        Some(index) => if index != booked_on {
            Some(index)
        } else {
            None
        },
        None => None,
    };

    Some(ColumnMapping { booked_on, value_on, description, counterparty, amount, fee, balance })
}

} // verus!
