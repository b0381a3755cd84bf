//! What can go wrong while reading the arguments or the records.

use crate::decimal::{integer_text, usize_text};
use vstd::prelude::*;
use vstd::string::StringExecFns;

verus! {

/// Which rule an argument broke.
#[derive(Clone, Copy, Debug, PartialEq, Eq, Structural)]
pub enum ArgumentFault {
    /// The first argument is no column index.
    PivotIndex,
    /// An argument is not of the form `operation:column`.
    DirectiveForm,
    /// The operation is none of `sum`, `max`, `min`, `avg`.
    Operator,
}

/// A failure, as contracts speak of it: texts are sequences of characters
/// and positions are mathematical integers.
pub enum Fault {
    ArgumentCountError { given: int },
    ArgumentParseError { fault: ArgumentFault, token: Seq<char> },
    MalformedRow { row: int },
    InvalidNumber { text: Seq<char>, row: int },
    Overflow { row: int },
}

/// A failure. Every one of them is final: nothing is produced after it.
#[derive(Debug, PartialEq, Eq)]
pub enum PivotError {
    /// Fewer than two arguments were given; `given` is their number.
    ArgumentCountError { given: usize },
    /// The argument `token` (for an unknown operation: its name) broke the
    /// rule `fault`.
    ArgumentParseError { fault: ArgumentFault, token: String },
    /// Record number `row` has no field at the pivot column or at the
    /// column of a directive.
    MalformedRow { row: usize },
    /// In record number `row`, the field `text` is no signed 64-bit integer.
    InvalidNumber { text: String, row: usize },
    /// Record number `row` would take a sum or a count out of the signed
    /// 64-bit range.
    Overflow { row: usize },
}

impl View for PivotError {
    type V = Fault;

    open spec fn view(&self) -> Fault {
        match *self {
            PivotError::ArgumentCountError { given } => Fault::ArgumentCountError {
                given: given as int,
            },
            PivotError::ArgumentParseError { fault, token } => Fault::ArgumentParseError {
                fault,
                token: token@,
            },
            PivotError::MalformedRow { row } => Fault::MalformedRow { row: row as int },
            PivotError::InvalidNumber { text, row } => Fault::InvalidNumber {
                text: text@,
                row: row as int,
            },
            PivotError::Overflow { row } => Fault::Overflow { row: row as int },
        }
    }
}

/// The one-line diagnostic for a failure.
pub open spec fn message_text(fault: Fault) -> Seq<char> {
    match fault {
        Fault::ArgumentCountError { given } => "need at least two arguments, got "@
            + integer_text(given),
        Fault::ArgumentParseError { fault, token } => match fault {
            ArgumentFault::PivotIndex => "the pivot column must be a column index, not "@ + token,
            ArgumentFault::DirectiveForm => "a directive must have the form operation:column, not "@
                + token,
            ArgumentFault::Operator => "the operations are sum, max, min and avg, not "@ + token,
        },
        Fault::MalformedRow { row } => "too few fields in record "@ + integer_text(row),
        Fault::InvalidNumber { text, row } => "cannot read the number "@ + text + " in record "@
            + integer_text(row),
        Fault::Overflow { row } => "a sum or a count overflows in record "@ + integer_text(row),
    }
}

impl PivotError {
    /// The one-line diagnostic for this failure: it names the argument, or
    /// the record by its number, counted from zero.
    pub fn message(&self) -> (text: String)
        ensures
            text@ == message_text(self@),
    {
        match self {
            PivotError::ArgumentCountError { given } => {
                let text = String::from_str("need at least two arguments, got ");
                text.concat(usize_text(*given).as_str())
            },
            PivotError::ArgumentParseError { fault, token } => {
                let text = match fault {
                    ArgumentFault::PivotIndex => String::from_str(
                        "the pivot column must be a column index, not ",
                    ),
                    ArgumentFault::DirectiveForm => String::from_str(
                        "a directive must have the form operation:column, not ",
                    ),
                    ArgumentFault::Operator => String::from_str(
                        "the operations are sum, max, min and avg, not ",
                    ),
                };
                text.concat(token.as_str())
            },
            PivotError::MalformedRow { row } => {
                let text = String::from_str("too few fields in record ");
                text.concat(usize_text(*row).as_str())
            },
            PivotError::InvalidNumber { text, row } => {
                let line = String::from_str("cannot read the number ");
                let line = line.concat(text.as_str());
                let line = line.concat(" in record ");
                line.concat(usize_text(*row).as_str())
            },
            PivotError::Overflow { row } => {
                let text = String::from_str("a sum or a count overflows in record ");
                text.concat(usize_text(*row).as_str())
            },
        }
    }
}

} // verus!
