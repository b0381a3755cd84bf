//! Records of delimited text, as the CSV reader yields them.

use vstd::prelude::*;

verus! {

/// One record as contracts speak of it: its fields in order, or `None`
/// for a record that could not be decoded.
pub type RecordView = Option<Seq<Seq<char>>>;

/// The records that the CSV reader yields for `input`, one entry for each
/// record in the order of the input, `None` standing for a record that the
/// reader reports as an error: the reader is configured without a header
/// row and otherwise left at its defaults.
pub uninterp spec fn csv_records(input: Seq<u8>) -> Seq<Option<Seq<Seq<char>>>>;

/// Runs `csv::Reader::records` over `input`, taken as a whole, with
/// `has_headers(false)`. What the reader yields depends on the bytes
/// alone; each decoded record is handed out as its fields, each record
/// that the reader fails on as `None`, in the reader's order.
#[verifier::external_body]
pub(crate) fn read_records(input: &[u8]) -> (records: Vec<Option<Vec<String>>>)
    ensures
        records.deep_view() == csv_records(input@),
{
    let mut reader = csv::ReaderBuilder::new().has_headers(false).from_reader(input);
    let mut records = Vec::new();
    for item in reader.records() {
        records.push(item.ok().map(|record| record.iter().map(String::from).collect()));
    }
    records
}

} // verus!
