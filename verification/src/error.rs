//! The closed set of error kinds, each carrying a human-readable message.

use vstd::prelude::*;
use vstd::string::*;
use crate::json::{json_string_text, quote_text};

verus! {

/// Every failure the database reports.
#[derive(Debug, Clone, PartialEq)]
pub enum Error {
    /// Malformed SQL.
    SyntaxError(String),
    /// Reserved for higher-level parsing failures beyond tokens.
    ParseError(String),
    /// Semantic query problems.
    QueryError(String),
    /// JSON serialization failures.
    JsonError(String),
    /// A named storage is missing or duplicated.
    StorageError(String),
    /// The key is absent from the storage.
    KeyNotFound(String),
    /// The key is already bound in the storage.
    KeyAlreadyExists(String),
    /// A precondition of the virtual machine does not hold.
    ExecutionError(String),
    /// Unique-constraint violation, unsupported index shape, or back-fill failure.
    IndexError(String),
}

/// The kind of an error, without its message.
#[derive(Debug, Clone, Copy, PartialEq, Eq, Structural)]
pub enum ErrorKind {
    Syntax,
    Parse,
    Query,
    Json,
    Storage,
    KeyNotFound,
    KeyAlreadyExists,
    Execution,
    Index,
}

impl Error {
    /// The kind of the error.
    pub open spec fn kind(self) -> ErrorKind {
        match self {
            Error::SyntaxError(_) => ErrorKind::Syntax,
            Error::ParseError(_) => ErrorKind::Parse,
            Error::QueryError(_) => ErrorKind::Query,
            Error::JsonError(_) => ErrorKind::Json,
            Error::StorageError(_) => ErrorKind::Storage,
            Error::KeyNotFound(_) => ErrorKind::KeyNotFound,
            Error::KeyAlreadyExists(_) => ErrorKind::KeyAlreadyExists,
            Error::ExecutionError(_) => ErrorKind::Execution,
            Error::IndexError(_) => ErrorKind::Index,
        }
    }

    /// The message carried by the error, whatever its kind.
    pub open spec fn message(self) -> Seq<char> {
        match self {
            Error::SyntaxError(s) => s@,
            Error::ParseError(s) => s@,
            Error::QueryError(s) => s@,
            Error::JsonError(s) => s@,
            Error::StorageError(s) => s@,
            Error::KeyNotFound(s) => s@,
            Error::KeyAlreadyExists(s) => s@,
            Error::ExecutionError(s) => s@,
            Error::IndexError(s) => s@,
        }
    }

    /// Gives up the error for its message.
    pub fn into_string(self) -> (text: String)
        ensures
            text@ == self.message(),
    {
        match self {
            Error::SyntaxError(s) => s,
            Error::ParseError(s) => s,
            Error::QueryError(s) => s,
            Error::JsonError(s) => s,
            Error::StorageError(s) => s,
            Error::KeyNotFound(s) => s,
            Error::KeyAlreadyExists(s) => s,
            Error::ExecutionError(s) => s,
            Error::IndexError(s) => s,
        }
    }

    /// The envelope handed to callers: a JSON object with the single member
    /// `error`, one member per line.
    pub fn into_response_string(self) -> (response: Result<String, Error>)
        ensures
            response is Ok,
            response->Ok_0@ == envelope_text(self.message()),
    {
        ErrorResponse::from_error(self).try_to_string()
    }
}

/// The text of the envelope around a message.
pub open spec fn envelope_text(message: Seq<char>) -> Seq<char> {
    "{\n  \"error\": "@ + json_string_text(message) + "\n}"@
}

/// The body of an error response.
#[derive(Debug, Clone, PartialEq)]
pub struct ErrorResponse {
    pub error: String,
}

impl ErrorResponse {
    /// Wraps the message of an error.
    pub fn from_error(error: Error) -> (response: ErrorResponse)
        ensures
            response.error@ == error.message(),
    {
        ErrorResponse { error: error.into_string() }
    }

    /// Renders the response as a JSON object, one member per line.
    pub fn try_to_string(self) -> (response: Result<String, Error>)
        ensures
            response is Ok,
            response->Ok_0@ == envelope_text(self.error@),
    {
        let mut text = String::from_str("{\n  \"error\": ");
        let quoted = quote_text(self.error.as_str());
        text.append(quoted.as_str());
        text.append("\n}");
        Ok(text)
    }
}

} // verus!
