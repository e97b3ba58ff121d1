//! From the bytes of a log to its rows: unpacking a gzip stream and cutting
//! comma-separated text into trimmed fields. Both are the work of outside
//! crates. What unpacking and cutting return is named here and carried
//! through; what trimming returns is stated.

use crate::trim::{trimmed, trimmed_row};
use csv::StringRecord;
use flate2::read::GzDecoder;
use std::io::Read;
use vstd::prelude::*;
use vstd::string::StringExecFns;

verus! {

/// A record of the `csv` crate.
#[verifier::external_type_specification]
#[verifier::external_body]
pub struct ExStringRecord(csv::StringRecord);

/// The error of the `csv` crate.
#[verifier::external_type_specification]
#[verifier::external_body]
pub struct ExCsvError(csv::Error);

/// The error of std's readers.
#[verifier::external_type_specification]
#[verifier::external_body]
pub struct ExIoError(std::io::Error);

/// Why the bytes of a log give no rows.
#[derive(Clone, Copy, Debug, PartialEq, Eq, Structural)]
pub enum SourceError {
    /// The bytes are no gzip stream that can be unpacked.
    Gzip,
    /// The text is not well-formed comma-separated text.
    Csv,
}

/// What unpacking a gzip stream gives: the bytes of its first member, or
/// nothing where the stream cannot be unpacked.
pub uninterp spec fn gunzipped(data: Seq<u8>) -> Option<Seq<u8>>;

/// The records of comma-separated text without a header row, each with its
/// fields as they stand in the text; nothing where the text is refused.
pub uninterp spec fn csv_rows(data: Seq<u8>) -> Option<Seq<Seq<Seq<char>>>>;

/// The fields that a record holds.
pub uninterp spec fn record_fields(record: StringRecord) -> Seq<Seq<char>>;

/// The rows of comma-separated text, each field trimmed.
pub open spec fn trimmed_rows(rows: Seq<Seq<Seq<char>>>) -> Seq<Seq<Seq<char>>> {
    Seq::new(rows.len(), |i: int| trimmed_row(rows[i]))
}

/// The fields of each record, in order.
pub open spec fn fields_of(records: Seq<StringRecord>) -> Seq<Seq<Seq<char>>> {
    Seq::new(records.len(), |i: int| record_fields(records[i]))
}

/// Unpacks a gzip stream with `flate2::read::GzDecoder`, read to its end.
/// Trusted: what comes back is a function of the bytes alone, `gunzipped`; an
/// error comes back exactly where that is nothing.
#[verifier::external_body]
fn gunzip(data: &[u8]) -> (r: Result<Vec<u8>, std::io::Error>)
    ensures
        r is Ok ==> gunzipped(data@) == Some(r->Ok_0@),
        r is Err ==> gunzipped(data@) is None,
{
    let mut out = Vec::new();
    GzDecoder::new(data).read_to_end(&mut out)?;
    Ok(out)
}

/// Reads all records of comma-separated text with a `csv::Reader` built
/// without a header row. Trusted: the records are a function of the bytes
/// alone, `csv_rows`; an error comes back exactly where that is nothing.
#[verifier::external_body]
fn csv_records(data: &[u8]) -> (r: Result<Vec<StringRecord>, csv::Error>)
    ensures
        r is Ok ==> csv_rows(data@) == Some(fields_of(r->Ok_0@)),
        r is Err ==> csv_rows(data@) is None,
{
    csv::ReaderBuilder::new().has_headers(false).from_reader(data).into_records().collect()
}

/// Trims a copy of the record with `StringRecord::trim` and hands out its
/// fields. Trusted: there is one field for each field of the record, in
/// order, and each is the record's field without the white space at its
/// ends, as `trimmed` states it: `StringRecord::trim` trims each field with
/// `str::trim`, which takes off the characters of the Unicode property
/// `White_Space`.
#[verifier::external_body]
fn trimmed_fields(record: &StringRecord) -> (fields: Vec<String>)
    ensures
        fields@.len() == record_fields(*record).len(),
        forall|i: int|
            0 <= i < fields@.len() ==> (#[trigger] fields@[i])@ == trimmed(
                record_fields(*record)[i],
            ),
{
    let mut copy = record.clone();
    copy.trim();
    copy.iter().map(String::from).collect()
}

/// Tells whether a file extension marks a gzip stream: it is `gz`.
pub fn gzip_extension(extension: Option<&str>) -> (r: bool)
    ensures
        r == match extension {
            Some(e) => e@ == "gz"@,
            None => false,
        },
{
    match extension {
        Some(e) => {
            let gz = String::from_str("gz");
            let given = String::from_str(e);
            given == gz
        },
        None => false,
    }
}

/// Opens the content of a log: unpacked where the file's extension is `gz`,
/// as it is otherwise.
pub fn open_file(extension: Option<&str>, content: Vec<u8>) -> (r: Result<Vec<u8>, SourceError>)
    ensures
        match extension {
            Some(e) if e@ == "gz"@ => match gunzipped(content@) {
                Some(bytes) => r is Ok && r->Ok_0@ == bytes,
                None => r == Err::<Vec<u8>, SourceError>(SourceError::Gzip),
            },
            _ => r == Ok::<Vec<u8>, SourceError>(content),
        },
{
    if gzip_extension(extension) {
        match gunzip(content.as_slice()) {
            Ok(bytes) => Ok(bytes),
            Err(_) => Err(SourceError::Gzip),
        }
    } else {
        Ok(content)
    }
}

/// Cuts comma-separated text without a header row into rows of trimmed
/// fields.
pub fn read_file(data: &[u8]) -> (r: Result<Vec<Vec<String>>, SourceError>)
    ensures
        match csv_rows(data@) {
            Some(rows) => r is Ok && r->Ok_0.deep_view() == trimmed_rows(rows),
            None => r == Err::<Vec<Vec<String>>, SourceError>(SourceError::Csv),
        },
{
    let records = match csv_records(data) {
        Ok(records) => records,
        Err(_) => {
            return Err(SourceError::Csv);
        },
    };
    let ghost raw = fields_of(records@);
    let mut rows: Vec<Vec<String>> = Vec::new();
    let mut i: usize = 0;
    while i < records.len()
        invariant
            0 <= i <= records.len(),
            raw == fields_of(records@),
            rows@.len() == i,
            forall|k: int| 0 <= k < i ==> (#[trigger] rows@[k]).deep_view() == trimmed_row(raw[k]),
        decreases records.len() - i,
    {
        let fields = trimmed_fields(&records[i]);
        assert(fields.deep_view() =~= trimmed_row(raw[i as int]));
        rows.push(fields);
        i = i + 1;
    }
    assert(rows.deep_view() =~= trimmed_rows(raw));
    Ok(rows)
}

} // verus!
