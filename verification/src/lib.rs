//! Group delimited text records by one column and summarise other columns
//! within each group.
//!
//! The records are grouped by the text in a pivot column. For each group,
//! in the order in which the groups first appear, one line is written: the
//! group's key and, for each directive, the sum, maximum, minimum or
//! integer average of a column over the group's records.
//!
//! - [`directive`] reads the command-line arguments;
//! - [`records`] decodes the input with the `csv` crate;
//! - [`accumulator`] holds the running statistics of one column;
//! - [`table`] takes the records in, one by one;
//! - [`render`] writes the finished table out;
//! - [`decimal`] says what counts as a number and how one is written;
//! - [`error`] names the failures.
//!
//! [`pivot`] puts them together: arguments and input in, text or failure
//! out.

pub mod accumulator;
pub mod decimal;
pub mod directive;
pub mod error;
pub mod records;
pub mod render;
pub mod table;

use crate::directive::{parse, parsed};
use crate::error::{Fault, PivotError};
use crate::records::{csv_records, read_records, RecordView};
use crate::render::{render, table_text};
use crate::table::{aggregated, first_fault, lemma_short_record_is_fatal, run};
use vstd::prelude::*;

verus! {

/// What a run comes to: the output text, or the first failure. The
/// arguments are read first, then the records are taken in one by one, and
/// only a table that took every record is written out.
pub open spec fn outcome(args: Seq<Seq<char>>, records: Seq<RecordView>) -> Result<
    Seq<char>,
    Fault,
> {
    match parsed(args) {
        Err(fault) => Err(fault),
        Ok((pivot, directives)) => match first_fault(records, pivot as int, directives) {
            Some(fault) => Err(fault),
            None => Ok(table_text(aggregated(pivot as int, directives, records))),
        },
    }
}

/// A result as contracts speak of it.
pub open spec fn result_view(res: Result<String, PivotError>) -> Result<Seq<char>, Fault> {
    match res {
        Ok(text) => Ok(text@),
        Err(e) => Err(e@),
    }
}

/// Summarises `records` as `args` ask: the arguments are those that follow
/// the program's name, and each record is its fields, or `None` where it
/// could not be decoded.
pub fn summarize(args: &Vec<String>, records: &Vec<Option<Vec<String>>>) -> (res: Result<
    String,
    PivotError,
>)
    ensures
        result_view(res) == outcome(args.deep_view(), records.deep_view()),
{
    match parse(args) {
        Err(e) => Err(e),
        Ok((pivot, directives)) => match run(pivot, directives, records) {
            Err(e) => Err(e),
            Ok(table) => Ok(render(&table)),
        },
    }
}

/// Summarises the delimited text `input` as `args` ask. The arguments are
/// read before the input is decoded.
pub fn pivot(args: &Vec<String>, input: &[u8]) -> (res: Result<String, PivotError>)
    ensures
        result_view(res) == outcome(args.deep_view(), csv_records(input@)),
{
    match parse(args) {
        Err(e) => Err(e),
        Ok((pivot, directives)) => {
            let records = read_records(input);
            match run(pivot, directives, &records) {
                Err(e) => Err(e),
                Ok(table) => Ok(render(&table)),
            }
        },
    }
}

/// The same arguments and the same records always come to the same end:
/// the same text, line for line, or the same failure.
pub proof fn lemma_same_input_same_output(
    args: Seq<Seq<char>>,
    records: Seq<RecordView>,
    first: Result<String, PivotError>,
    second: Result<String, PivotError>,
)
    requires
        result_view(first) == outcome(args, records),
        result_view(second) == outcome(args, records),
    ensures
        result_view(first) == result_view(second),
{
}

/// A record without a field at the pivot column, or at the column of some
/// directive, leaves no output at all, however many sound records stand
/// before it: the run ends in a failure.
pub proof fn lemma_short_record_gives_no_output(
    args: Seq<Seq<char>>,
    records: Seq<RecordView>,
    row: int,
)
    requires
        0 <= row < records.len(),
        parsed(args) matches Ok((pivot, directives)) && records[row] matches Some(fields) && (
        pivot >= fields.len() || exists|d: int|
            0 <= d < directives.len() && (#[trigger] directives[d]).col >= fields.len()),
    ensures
        outcome(args, records) is Err,
{
    let (pivot, directives) = parsed(args)->Ok_0;
    lemma_short_record_is_fatal(records, pivot as int, directives, row);
}

} // verus!
