//! CSV vector files: the rows of fields that the `csv` crate reads from a
//! file's bytes, each field trimmed as the tool reads it, and the bytes the
//! `csv` crate writes for rows of fields. Neither reader nor writer uses a
//! header row; every other setting is at its default.

use vstd::prelude::*;

use crate::error::VecMathError;
use crate::text::{trim, trim_text};

verus! {

/// The rows, each a sequence of fields, that `csv::Reader` (built with
/// `has_headers(false)`, other settings default) yields from `bytes`
/// before its first error.
pub uninterp spec fn csv_rows(bytes: Seq<u8>) -> Seq<Seq<Seq<char>>>;

/// Whether that reader stops with an error after those rows.
pub uninterp spec fn csv_fails(bytes: Seq<u8>) -> bool;

/// Reads CSV records from `bytes` with `csv::ReaderBuilder::new()
/// .has_headers(false).from_reader(..)` and `Reader::records`, up to the
/// first error. Claimed: the fields of the records read, as strings, are
/// `csv_rows` of the bytes, and an error is returned exactly when
/// `csv_fails` holds; which error it is, is left unsaid.
#[verifier::external_body]
fn read_csv_rows(bytes: &[u8]) -> (res: (Vec<Vec<String>>, Option<csv::Error>))
    ensures
        res.0@.len() == csv_rows(bytes@).len(),
        forall|i: int|
            0 <= i < res.0@.len() ==> (#[trigger] res.0@[i])@.map_values(|t: String| t@)
                == csv_rows(bytes@)[i],
        res.1 is Some <==> csv_fails(bytes@),
{
    let mut reader = csv::ReaderBuilder::new().has_headers(false).from_reader(bytes);
    let mut rows: Vec<Vec<String>> = Vec::new();
    for record in reader.records() {
        match record {
            Ok(r) => rows.push(r.iter().map(|f| f.to_string()).collect()),
            Err(e) => return (rows, Some(e)),
        }
    }
    (rows, None)
}

/// The fields of the CSV file `bytes`, row by row and each trimmed, up to
/// the first error of the CSV reader; that error, if any, comes after the
/// rows read before it.
pub fn csv_fields(bytes: &[u8]) -> (res: (Vec<Vec<String>>, Option<VecMathError>))
    ensures
        res.0@.len() == csv_rows(bytes@).len(),
        forall|i: int|
            0 <= i < res.0@.len() ==> (#[trigger] res.0@[i])@.len() == csv_rows(bytes@)[i].len(),
        forall|i: int, j: int|
            0 <= i < res.0@.len() && 0 <= j < res.0@[i]@.len() ==> (#[trigger] res.0@[i]@[j])@
                == trim(csv_rows(bytes@)[i][j]),
        res.1 is Some <==> csv_fails(bytes@),
        res.1 matches Some(e) ==> e is CsvError,
{
    let (raw, failure) = read_csv_rows(bytes);
    let ghost rows = csv_rows(bytes@);
    let mut out: Vec<Vec<String>> = Vec::new();
    let mut i: usize = 0;
    while i < raw.len()
        invariant
            i <= raw@.len(),
            raw@.len() == rows.len(),
            forall|k: int|
                0 <= k < raw@.len() ==> (#[trigger] raw@[k])@.map_values(|t: String| t@)
                    == rows[k],
            out@.len() == i,
            forall|k: int| 0 <= k < i ==> (#[trigger] out@[k])@.len() == rows[k].len(),
            forall|k: int, j: int|
                0 <= k < i && 0 <= j < out@[k]@.len() ==> (#[trigger] out@[k]@[j])@ == trim(
                    rows[k][j],
                ),
        decreases raw.len() - i,
    {
        let row = &raw[i];
        let ghost fields = rows[i as int];
        assert(row@.map_values(|t: String| t@) == fields);
        let mut trimmed: Vec<String> = Vec::new();
        let mut j: usize = 0;
        while j < row.len()
            invariant
                j <= row@.len(),
                row@.map_values(|t: String| t@) == fields,
                trimmed@.len() == j,
                forall|m: int| 0 <= m < j ==> (#[trigger] trimmed@[m])@ == trim(fields[m]),
            decreases row.len() - j,
        {
            assert(row@.map_values(|t: String| t@)[j as int] == row@[j as int]@);
            trimmed.push(trim_text(row[j].as_str()));
            j += 1;
        }
        out.push(trimmed);
        i += 1;
    }
    let error = match failure {
        Some(e) => Some(VecMathError::CsvError(e)),
        None => None,
    };
    (out, error)
}

/// The text of each field of each row.
pub open spec fn text_rows(rows: Seq<Vec<String>>) -> Seq<Seq<Seq<char>>> {
    Seq::new(rows.len(), |i: int| rows[i]@.map_values(|t: String| t@))
}

/// The bytes that `csv::Writer` (built with `has_headers(false)`, other
/// settings default) has produced for `rows` when it has written them all
/// or stopped at its first error.
pub uninterp spec fn csv_written(rows: Seq<Seq<Seq<char>>>) -> Seq<u8>;

/// Whether that writer stops with an error on one of `rows`.
pub uninterp spec fn csv_write_fails(rows: Seq<Seq<Seq<char>>>) -> bool;

/// Writes `rows` with `csv::WriterBuilder::new().has_headers(false)
/// .from_writer(..)` into memory by `Writer::write_record`, one record per
/// row, stopping at the first error, then takes the bytes back with
/// `Writer::into_inner` (which cannot fail on a `Vec`). Claimed: the bytes
/// are `csv_written` of the rows' text, and an error is returned exactly
/// when `csv_write_fails` holds; which error it is, is left unsaid.
#[verifier::external_body]
fn write_csv_rows(rows: &[Vec<String>]) -> (res: (Vec<u8>, Option<csv::Error>))
    ensures
        res.0@ == csv_written(text_rows(rows@)),
        res.1 is Some <==> csv_write_fails(text_rows(rows@)),
{
    let mut writer = csv::WriterBuilder::new().has_headers(false).from_writer(Vec::new());
    let mut failure = None;
    for row in rows {
        if let Err(e) = writer.write_record(row) {
            failure = Some(e);
            break;
        }
    }
    (writer.into_inner().unwrap_or_default(), failure)
}

/// The bytes of a CSV file holding `rows`, one record per row; if the
/// writer refuses a row (rows of unequal length), the bytes written up to
/// then and the error.
pub fn encode_csv(rows: &[Vec<String>]) -> (res: (Vec<u8>, Option<VecMathError>))
    ensures
        res.0@ == csv_written(text_rows(rows@)),
        res.1 is Some <==> csv_write_fails(text_rows(rows@)),
        res.1 matches Some(e) ==> e is CsvError,
{
    let (bytes, failure) = write_csv_rows(rows);
    let error = match failure {
        Some(e) => Some(VecMathError::CsvError(e)),
        None => None,
    };
    (bytes, error)
}

} // verus!
