//! Errors.
use vstd::prelude::*;
use vstd::string::*;

use crate::text::{three, two};

verus! {

/// Typed library errors.
///
/// Each variant keeps its parts, so that a caller can report them in a structured way.
#[derive(Debug)]
pub enum Error {
    /// A file could not be read or written; `source` is what the system said.
    Io { path: String, source: String },
    /// The query file cannot be used.
    Query { path: String, message: String },
    /// The server answered something that is not a usable GraphQL response.
    Response { path: String, message: String },
    /// The server reported GraphQL errors, or its data cannot be used.
    GraphQl { path: String, message: String },
    /// The configuration, or an option, is wrong.
    Config(String),
}

/// What an [`Error`] stands for.
pub enum ErrorModel {
    Io { path: Seq<char>, source: Seq<char> },
    Query { path: Seq<char>, message: Seq<char> },
    Response { path: Seq<char>, message: Seq<char> },
    GraphQl { path: Seq<char>, message: Seq<char> },
    Config(Seq<char>),
}

impl View for Error {
    type V = ErrorModel;

    open spec fn view(&self) -> ErrorModel {
        match *self {
            Error::Io { path, source } => ErrorModel::Io { path: path@, source: source@ },
            Error::Query { path, message } => ErrorModel::Query {
                path: path@,
                message: message@,
            },
            Error::Response { path, message } => ErrorModel::Response {
                path: path@,
                message: message@,
            },
            Error::GraphQl { path, message } => ErrorModel::GraphQl {
                path: path@,
                message: message@,
            },
            Error::Config(message) => ErrorModel::Config(message@),
        }
    }
}

/// The line that reports an error.
pub open spec fn error_line(e: ErrorModel) -> Seq<char> {
    match e {
        ErrorModel::Io { path, source } => path + ": "@ + source,
        ErrorModel::Query { path, message } => path + ": "@ + message,
        ErrorModel::Response { path, message } => path + ": unusable server response: "@ + message,
        ErrorModel::GraphQl { path, message } => path + ": "@ + message,
        ErrorModel::Config(message) => "config: "@ + message,
    }
}

impl Error {
    /// The line that reports the error.
    pub fn line(&self) -> (r: String)
        ensures
            r@ == error_line(self@),
    {
        match self {
            Error::Io { path, source } => three(path.as_str(), ": ", source.as_str()),
            Error::Query { path, message } => three(path.as_str(), ": ", message.as_str()),
            Error::Response { path, message } => three(
                path.as_str(),
                ": unusable server response: ",
                message.as_str(),
            ),
            Error::GraphQl { path, message } => three(path.as_str(), ": ", message.as_str()),
            Error::Config(message) => two("config: ", message.as_str()),
        }
    }
}

/// A transient failure worth retrying (rate limit, timeout, 5xx).
///
/// A GraphQL validation error never is: it is deterministic, and retrying only wastes time.
pub trait Retryable {
    fn is_retryable(&self) -> bool;
}

/// The line that reports an error names the file that it is about first, and ends with what is
/// wrong.
pub proof fn law_line_names_file_and_fault(e: ErrorModel)
    ensures
        match e {
            ErrorModel::Config(message) => message.is_suffix_of(error_line(e)),
            ErrorModel::Io { path, source: message } => path.is_prefix_of(error_line(e))
                && message.is_suffix_of(error_line(e)),
            ErrorModel::Query { path, message } => path.is_prefix_of(error_line(e))
                && message.is_suffix_of(error_line(e)),
            ErrorModel::Response { path, message } => path.is_prefix_of(error_line(e))
                && message.is_suffix_of(error_line(e)),
            ErrorModel::GraphQl { path, message } => path.is_prefix_of(error_line(e))
                && message.is_suffix_of(error_line(e)),
        },
{
    let line = error_line(e);
    let n = line.len() as int;
    match e {
        ErrorModel::Config(message) => {
            assert(message =~= line.subrange(n - message.len(), n));
        },
        ErrorModel::Io { path, source: message } => {
            assert(path =~= line.subrange(0, path.len() as int));
            assert(message =~= line.subrange(n - message.len(), n));
        },
        ErrorModel::Query { path, message } => {
            assert(path =~= line.subrange(0, path.len() as int));
            assert(message =~= line.subrange(n - message.len(), n));
        },
        ErrorModel::Response { path, message } => {
            assert(path =~= line.subrange(0, path.len() as int));
            assert(message =~= line.subrange(n - message.len(), n));
        },
        ErrorModel::GraphQl { path, message } => {
            assert(path =~= line.subrange(0, path.len() as int));
            assert(message =~= line.subrange(n - message.len(), n));
        },
    }
}

} // verus!
