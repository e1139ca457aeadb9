//! The error type shared by the node and its collaborators.

use vstd::prelude::*;

verus! {

/// Errors. All except `Internal` are considered user-facing.
#[derive(Debug, PartialEq)]
pub enum Error {
    /// Invalid construction parameters.
    Config(String),
    /// A failure that is fatal for the node.
    Internal(String),
    /// Malformed input.
    Parse(String),
    /// A write was attempted in a read-only transaction.
    ReadOnly,
    /// A transaction conflict; the transaction should be retried.
    Serialization,
    /// An invalid value.
    Value(String),
}

/// The variant of an error, without what it carries.
pub enum ErrorKind {
    Config,
    Internal,
    Parse,
    ReadOnly,
    Serialization,
    Value,
}

/// An error as a plain value: its variant and its text.
pub struct ErrorView {
    pub kind: ErrorKind,
    pub text: Seq<char>,
}

/// The text shown for `Error::Serialization`.
pub open spec fn serialization_text() -> Seq<char> {
    "Serialization failure, retry transaction"@
}

/// The text shown for `Error::ReadOnly`.
pub open spec fn read_only_text() -> Seq<char> {
    "Read-only transaction"@
}

impl Clone for Error {
    fn clone(&self) -> (r: Self)
        ensures
            r == *self,
            r@ == self@,
    {
        match self {
            Error::Config(s) => Error::Config(s.clone()),
            Error::Internal(s) => Error::Internal(s.clone()),
            Error::Parse(s) => Error::Parse(s.clone()),
            Error::ReadOnly => Error::ReadOnly,
            Error::Serialization => Error::Serialization,
            Error::Value(s) => Error::Value(s.clone()),
        }
    }
}

impl View for Error {
    type V = ErrorView;

    open spec fn view(&self) -> ErrorView {
        ErrorView { kind: self.kind(), text: self.text() }
    }
}

impl Error {
    /// The variant of the error.
    pub open spec fn kind(self) -> ErrorKind {
        match self {
            Error::Config(_) => ErrorKind::Config,
            Error::Internal(_) => ErrorKind::Internal,
            Error::Parse(_) => ErrorKind::Parse,
            Error::Value(_) => ErrorKind::Value,
            Error::Serialization => ErrorKind::Serialization,
            Error::ReadOnly => ErrorKind::ReadOnly,
        }
    }

    /// The human-readable text of the error: the carried string for the
    /// variants that carry one, a fixed sentence for the others.
    pub open spec fn text(self) -> Seq<char> {
        match self {
            Error::Config(s) => s@,
            Error::Internal(s) => s@,
            Error::Parse(s) => s@,
            Error::Value(s) => s@,
            Error::Serialization => serialization_text(),
            Error::ReadOnly => read_only_text(),
        }
    }

    /// Renders the error as text.
    pub fn to_string(&self) -> (r: String)
        ensures
            r@ == self.text(),
    {
        match self {
            Error::Config(s) => s.clone(),
            Error::Internal(s) => s.clone(),
            Error::Parse(s) => s.clone(),
            Error::Value(s) => s.clone(),
            Error::Serialization => "Serialization failure, retry transaction".to_owned(),
            Error::ReadOnly => "Read-only transaction".to_owned(),
        }
    }

    /// An `Internal` error carrying `text`.
    pub fn internal(text: &str) -> (r: Error)
        ensures
            r@ == (ErrorView { kind: ErrorKind::Internal, text: text@ }),
    {
        Error::Internal(text.to_owned())
    }

    /// A `Config` error carrying `text`.
    pub fn config(text: &str) -> (r: Error)
        ensures
            r@ == (ErrorView { kind: ErrorKind::Config, text: text@ }),
    {
        Error::Config(text.to_owned())
    }
}

} // verus!
