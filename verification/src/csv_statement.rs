//! Reading the cells of a CSV statement. The csv crate splits the text into
//! records; what is kept of each one (its line and its trimmed fields) is
//! decided here.
use vstd::prelude::*;

use crate::text::{push_str, string_from_chars, string_from_str, trim, trimmed_chars};

verus! {

/// Why a statement could not be read.
#[derive(Debug, Clone, PartialEq, Eq)]
pub enum ImportError {
    /// The file holds nothing but blanks.
    Empty,
    /// No row looks like the header of a movements table.
    HeaderNotFound,
    /// A header was found but no row under it reads as a movement.
    NoValidRows,
    /// The CSV reader refused the text; its message.
    Csv(String),
    /// The spreadsheet reader refused the file; its message.
    Excel(String),
}

/// The message shown for an import error.
pub open spec fn import_error_text(e: ImportError) -> Seq<char> {
    match e {
        ImportError::Empty => "the statement is empty"@,
        ImportError::HeaderNotFound => "no row looks like the header of a movements table"@,
        ImportError::NoValidRows => "no row under the header reads as a movement"@,
        ImportError::Csv(m) => "the CSV file could not be read: "@ + m@,
        ImportError::Excel(m) => "the spreadsheet could not be read: "@ + m@,
    }
}

impl ImportError {
    /// The message shown for this error.
    pub fn message(&self) -> (r: String)
        ensures
            r@ == import_error_text(*self),
    {
        match self {
            ImportError::Empty => string_from_str("the statement is empty"),
            ImportError::HeaderNotFound => string_from_str("no row looks like the header of a movements table"),
            ImportError::NoValidRows => string_from_str("no row under the header reads as a movement"),
            ImportError::Csv(m) => {
                let mut text = string_from_str("the CSV file could not be read: ");
                push_str(&mut text, m.as_str());
                text
            },
            ImportError::Excel(m) => {
                let mut text = string_from_str("the spreadsheet could not be read: ");
                push_str(&mut text, m.as_str());
                text
            },
        }
    }
}

/// The records the csv crate reads from `text` with `delimiter`, without a
/// header row and allowing rows of different lengths: each one with the
/// line it starts on, when the reader knows it, and its fields as written.
/// On malformed input, the reader's message.
pub uninterp spec fn csv_records(text: Seq<char>, delimiter: u8) -> Result<
    Seq<(Option<u64>, Seq<Seq<char>>)>,
    Seq<char>,
>;

/// The fields of each record, by their characters.
pub open spec fn record_views(v: Seq<(Option<u64>, Vec<String>)>) -> Seq<(Option<u64>, Seq<Seq<char>>)> {
    v.map_values(|rec: (Option<u64>, Vec<String>)| (rec.0, rec.1@.map_values(|s: String| s@)))
}

/// The records of `text`, read by the csv crate's `ReaderBuilder` with
/// `delimiter`, `flexible(true)` and `has_headers(false)`; each record comes
/// with `position().line()` and its fields. How the crate splits quoted
/// fields and line ends is its own and is left to it.
#[verifier::external_body]
fn read_csv_records(text: &str, delimiter: u8) -> (r: Result<Vec<(Option<u64>, Vec<String>)>, String>)
    ensures
        match r {
            Ok(v) => csv_records(text@, delimiter) == Ok::<Seq<(Option<u64>, Seq<Seq<char>>)>, Seq<char>>(
                record_views(v@),
            ),
            Err(m) => csv_records(text@, delimiter) == Err::<Seq<(Option<u64>, Seq<Seq<char>>)>, Seq<char>>(
                m@,
            ),
        },
{
    let mut reader = csv::ReaderBuilder::new().delimiter(delimiter).flexible(true).has_headers(false).from_reader(
        text.as_bytes(),
    );
    let mut records = Vec::new();
    for record in reader.records() {
        let record = record.map_err(|error| error.to_string())?;
        records.push((record.position().map(|position| position.line()), record.iter().map(str::to_string).collect()));
    }
    Ok(records)
}

/// A row of cells with the line it came from, counted from 1.
pub type GridRow = (u64, Vec<String>);

/// Whether `row` is `record` as the importer keeps it: the line, 0 when the
/// reader does not know it, and every field trimmed.
pub open spec fn kept_row(row: GridRow, record: (Option<u64>, Seq<Seq<char>>)) -> bool {
    &&& row.0 == (match record.0 {
        Some(line) => line,
        None => 0,
    })
    &&& row.1@.len() == record.1.len()
    &&& forall|j: int| 0 <= j < record.1.len() ==> (#[trigger] row.1@[j])@ == trim(record.1[j])
}

fn trimmed_fields(fields: &Vec<String>) -> (r: Vec<String>)
    ensures
        r@.len() == fields@.len(),
        forall|j: int| 0 <= j < fields@.len() ==> (#[trigger] r@[j])@ == trim(fields@[j]@),
{
    let mut out: Vec<String> = Vec::new();
    let mut j: usize = 0;
    while j < fields.len()
        invariant
            j <= fields@.len(),
            out@.len() == j,
            forall|k: int| 0 <= k < j ==> (#[trigger] out@[k])@ == trim(fields@[k]@),
        decreases fields@.len() - j,
    {
        out.push(string_from_chars(&trimmed_chars(fields[j].as_str())));
        j = j + 1;
    }
    out
}

/// The cells of a CSV text with their line numbers. Rows may be shorter than
/// the table, so a bank's preamble does not stop the reading; a text the
/// reader refuses is a CSV error.
pub fn read_rows(text: &str, delimiter: u8) -> (r: Result<Vec<GridRow>, ImportError>)
    ensures
        match csv_records(text@, delimiter) {
            Err(m) => r matches Err(ImportError::Csv(s)) && s@ == m,
            Ok(records) => r matches Ok(rows) && rows@.len() == records.len() && forall|i: int|
                0 <= i < records.len() ==> kept_row(#[trigger] rows@[i], records[i]),
        },
{
    let records = match read_csv_records(text, delimiter) {
        Ok(records) => records,
        Err(message) => return Err(ImportError::Csv(message)),
    };
    let ghost views = record_views(records@);
    let mut rows: Vec<GridRow> = Vec::new();
    let mut i: usize = 0;
    while i < records.len()
        invariant
            i <= records@.len(),
            views == record_views(records@),
            rows@.len() == i,
            forall|k: int| 0 <= k < i ==> kept_row(#[trigger] rows@[k], views[k]),
        decreases records@.len() - i,
    {
        let line: u64 = match records[i].0 {
            Some(line) => line,
            None => 0,
        };
        let fields = trimmed_fields(&records[i].1);
        assert(views[i as int].1 =~= records@[i as int].1@.map_values(|s: String| s@));
        rows.push((line, fields));
        i = i + 1;
    }
    Ok(rows)
}

} // verus!
