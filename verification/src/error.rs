//! The boundary error type: every internal failure of the facade is
//! flattened into one tagged kind plus the original diagnostic text.

use vstd::prelude::*;

verus! {

/// How a caller should branch on a failure.
#[derive(Clone, Copy, Debug, PartialEq, Eq, Structural)]
pub enum ErrorKind {
    /// The source (a file, a stream) could not be read.
    IoError,
    /// The text was malformed.
    ParseError,
    /// The text was well formed but rejected by the schema.
    ValidationError,
    /// An unclassified internal failure.
    Other,
}

/// A failure translated at the facade boundary. The message carries the
/// internal diagnostic verbatim, so nothing is lost in translation.
#[derive(Debug)]
pub struct TranslatedError {
    pub kind: ErrorKind,
    pub message: String,
}

impl TranslatedError {
    /// Wraps a diagnostic as an unreadable-source failure.
    pub fn io(message: String) -> (r: TranslatedError)
        ensures
            r.kind == ErrorKind::IoError,
            r.message@ == message@,
    {
        TranslatedError { kind: ErrorKind::IoError, message }
    }

    /// Wraps a diagnostic as a malformed-text failure.
    pub fn parse(message: String) -> (r: TranslatedError)
        ensures
            r.kind == ErrorKind::ParseError,
            r.message@ == message@,
    {
        TranslatedError { kind: ErrorKind::ParseError, message }
    }

    /// Wraps a diagnostic as a schema-rejection failure.
    pub fn validation(message: String) -> (r: TranslatedError)
        ensures
            r.kind == ErrorKind::ValidationError,
            r.message@ == message@,
    {
        TranslatedError { kind: ErrorKind::ValidationError, message }
    }

    /// Wraps a diagnostic as an unclassified failure.
    pub fn other(message: String) -> (r: TranslatedError)
        ensures
            r.kind == ErrorKind::Other,
            r.message@ == message@,
    {
        TranslatedError { kind: ErrorKind::Other, message }
    }

    /// The human-readable description, for display at the host boundary.
    pub fn describe(&self) -> (r: String)
        ensures
            r@ == self.message@,
    {
        self.message.clone()
    }
}

} // verus!
