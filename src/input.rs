//! Which format a document is in, when no file extension says so.
use vstd::prelude::*;
use crate::error::Error;
use crate::dotenv::{document, parse_document};

verus! {

/// Whether `serde_json` parses the text as a JSON value.
pub uninterp spec fn parses_as_json(s: Seq<char>) -> bool;

/// Whether `serde_yaml` parses the text as a YAML value.
pub uninterp spec fn parses_as_yaml(s: Seq<char>) -> bool;

/// Relies on `serde_json::from_str::<serde_json::Value>`: whether it returns `Ok`.
#[verifier::external_body]
fn is_json(s: &str) -> (r: bool)
    ensures
        r == parses_as_json(s@),
{
    serde_json::from_str::<serde_json::Value>(s).is_ok()
}

/// Relies on `serde_yaml::from_str::<serde_yaml::Value>`: whether it returns `Ok`.
#[verifier::external_body]
fn is_yaml(s: &str) -> (r: bool)
    ensures
        r == parses_as_yaml(s@),
{
    serde_yaml::from_str::<serde_yaml::Value>(s).is_ok()
}

/// The format name guessed for a document: JSON if it parses as JSON, else YAML if it parses
/// as YAML, else dotenv if every line follows the dotenv grammar; `None` when none fits.
pub open spec fn guessed_format(s: Seq<char>) -> Option<Seq<char>> {
    if parses_as_json(s) {
        Some("json"@)
    } else if parses_as_yaml(s) {
        Some("yaml"@)
    } else if document(s, 0, Seq::empty(), Map::empty()) is Ok {
        Some("dotenv"@)
    } else {
        None
    }
}

/// Guesses the format of `input` by trying the grammars in turn.
pub fn guess_input_format(input: &str) -> (r: Result<String, Error>)
    ensures
        match guessed_format(input@) {
            Some(f) => r is Ok && r->Ok_0@ == f,
            None => r is Err && r->Err_0 is InvalidInputFormat,
        },
{
    if is_json(input) {
        Ok(String::from_str("json"))
    } else if is_yaml(input) {
        Ok(String::from_str("yaml"))
    } else if parse_document(input, Vec::new()).is_ok() {
        Ok(String::from_str("dotenv"))
    } else {
        Err(Error::InvalidInputFormat(String::from_str("Unsupported data format from stdin")))
    }
}

/// A document and the name of its format (a file extension, or the guessed format).
pub struct Input {
    pub ext: String,
    pub text: String,
}

impl Input {
    /// A document read from a file whose extension is `ext`.
    pub fn from_file(ext: String, text: String) -> (r: Input)
        ensures
            r.ext == ext,
            r.text == text,
    {
        Input { ext, text }
    }

    /// A document with no file name: its format is guessed, and one that fits no grammar is
    /// refused.
    pub fn from_text(text: String) -> (r: Result<Input, Error>)
        ensures
            match guessed_format(text@) {
                Some(f) => r is Ok && r->Ok_0.ext@ == f && r->Ok_0.text == text,
                None => r is Err && r->Err_0 is InvalidInputFormat,
            },
    {
        let ext = guess_input_format(text.as_str())?;
        Ok(Input { ext, text })
    }
}

} // verus!
