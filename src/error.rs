//! The library's error type.
use vstd::prelude::*;

verus! {

/// Every way a run can fail.
#[derive(Debug, PartialEq, Eq)]
pub enum Error {
    /// The given path exists but is not a regular file.
    NotAFile,
    /// Reading the input failed; the message of the underlying error.
    Io(String),
    /// The JSON input is malformed; the parser's diagnostic.
    Json(String),
    /// A dotenv line is malformed: the line as given, and the byte offset of the failure.
    LineParse(String, usize),
    /// A matched key had no replacement name.
    InvalidMatchTemplate(String),
    /// Standard input matched none of the supported formats.
    InvalidInputFormat(String),
}

} // verus!
