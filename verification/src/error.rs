//! The failures that the library and the programs around it report.

use crate::token::Token;
use serde_json::Error as JsonError;
use std::io::Error as IoError;
use std::num::ParseIntError;
use vstd::prelude::*;
use vstd::string::StringExecFns;

verus! {

/// `serde_json::Error`, carried through unopened.
#[verifier::external_type_specification]
#[verifier::external_body]
pub struct ExJsonError(JsonError);

/// `std::io::Error`, carried through unopened.
#[verifier::external_type_specification]
#[verifier::external_body]
pub struct ExIoError(IoError);

/// `std::num::ParseIntError`, carried through unopened.
#[verifier::external_type_specification]
#[verifier::external_body]
pub struct ExParseIntError(ParseIntError);

#[derive(Debug)]
pub enum Error {
    /// A required input was not supplied; the payload names it.
    MissingArg(&'static str),
    /// An operation was attempted with no active model.
    NoModel,
    /// The model is inconsistent in the way the payload describes.
    ModelError(&'static str),
    /// Reading or writing a persisted model failed.
    Serde(JsonError),
    /// A file could not be read or written.
    Io(IoError),
    /// A numeric argument could not be parsed.
    ParseInt(ParseIntError),
    /// The text could not be read as a token, for the reason given.
    Tokenize(String, &'static str),
    /// The token has no node, or is no recorded successor.
    TokenNotFound(Token),
    /// A successor was asked for before the weights were computed.
    NotRecomputed,
    /// A token that the walk reached has no node.
    NodeNotFound(Token),
    /// The walk used all its steps without reaching the end sentinel.
    GenerationDivergence,
}

/// Formats a `serde_json::Error` through its `Display` impl. Trusted, with
/// nothing claimed of the text.
#[verifier::external_body]
fn serde_error_text(e: &JsonError) -> (text: String) {
    format!("{}", e)
}

/// Formats a `std::io::Error` through its `Display` impl. Trusted, with
/// nothing claimed of the text.
#[verifier::external_body]
fn io_error_text(e: &IoError) -> (text: String) {
    format!("{}", e)
}

/// Formats a `std::num::ParseIntError` through its `Display` impl. Trusted,
/// with nothing claimed of the text.
#[verifier::external_body]
fn parse_int_error_text(e: &ParseIntError) -> (text: String) {
    format!("{}", e)
}

impl Error {
    /// Whether the error wraps one of another library, whose text this
    /// library does not define.
    pub open spec fn is_foreign(self) -> bool {
        self is Serde || self is Io || self is ParseInt
    }

    /// The message of an error that is not foreign.
    pub open spec fn message(self) -> Seq<char> {
        match self {
            Error::MissingArg(arg) => "argument "@ + arg@ + " not provided"@,
            Error::NoModel => "no model is currently loaded. Please load or initialise a model"@,
            Error::ModelError(what) => "Error in model: "@ + what@,
            Error::Tokenize(text, reason) => "Error tokenizing string "@ + text@ + ". Reason: "@
                + reason@,
            Error::TokenNotFound(token) => "Token not found: "@ + token@.rendering(),
            Error::NotRecomputed => "weights requested before calculation"@,
            Error::NodeNotFound(token) => "Node not found for token: "@ + token@.rendering(),
            Error::GenerationDivergence =>
                "generation did not reach the end within its step limit"@,
            _ => Seq::empty(),
        }
    }

    /// The message to show for this error.
    pub fn to_string(&self) -> (text: String)
        ensures
            !self.is_foreign() ==> text@ == self.message(),
            self is ParseInt ==> "could not parse param as int - "@.is_prefix_of(text@),
    {
        match self {
            Error::MissingArg(arg) => {
                let mut text = String::from_str("argument ");
                text.append(arg);
                text.append(" not provided");
                text
            },
            Error::NoModel => String::from_str(
                "no model is currently loaded. Please load or initialise a model",
            ),
            Error::ModelError(what) => {
                let mut text = String::from_str("Error in model: ");
                text.append(what);
                text
            },
            Error::Serde(e) => serde_error_text(e),
            Error::Io(e) => io_error_text(e),
            Error::ParseInt(e) => {
                let mut text = String::from_str("could not parse param as int - ");
                let detail = parse_int_error_text(e);
                text.append(detail.as_str());
                text
            },
            Error::Tokenize(string, reason) => {
                let mut text = String::from_str("Error tokenizing string ");
                text.append(string.as_str());
                text.append(". Reason: ");
                text.append(reason);
                text
            },
            Error::TokenNotFound(token) => {
                let mut text = String::from_str("Token not found: ");
                let shown = token.to_string();
                text.append(shown.as_str());
                text
            },
            Error::NotRecomputed => String::from_str("weights requested before calculation"),
            Error::NodeNotFound(token) => {
                let mut text = String::from_str("Node not found for token: ");
                let shown = token.to_string();
                text.append(shown.as_str());
                text
            },
            Error::GenerationDivergence => String::from_str(
                "generation did not reach the end within its step limit",
            ),
        }
    }
}

impl From<JsonError> for Error {
    fn from(e: JsonError) -> (r: Error) {
        Error::Serde(e)
    }
}

impl vstd::std_specs::convert::FromSpecImpl<JsonError> for Error {
    open spec fn obeys_from_spec() -> bool {
        true
    }

    open spec fn from_spec(e: JsonError) -> Error {
        Error::Serde(e)
    }
}

impl From<IoError> for Error {
    fn from(e: IoError) -> (r: Error) {
        Error::Io(e)
    }
}

impl vstd::std_specs::convert::FromSpecImpl<IoError> for Error {
    open spec fn obeys_from_spec() -> bool {
        true
    }

    open spec fn from_spec(e: IoError) -> Error {
        Error::Io(e)
    }
}

impl From<ParseIntError> for Error {
    fn from(e: ParseIntError) -> (r: Error) {
        Error::ParseInt(e)
    }
}

impl vstd::std_specs::convert::FromSpecImpl<ParseIntError> for Error {
    open spec fn obeys_from_spec() -> bool {
        true
    }

    open spec fn from_spec(e: ParseIntError) -> Error {
        Error::ParseInt(e)
    }
}

} // verus!
