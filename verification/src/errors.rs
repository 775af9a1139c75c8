//! The local error taxonomy and its bidirectional mapping onto the reserved
//! wire codes 51 through 56.
//!
//! Every failure a call can surface is one of four kinds: a transport or
//! framing failure (`IoError`), a bad connection target (`ConfigError`), a
//! statement the remote engine rejected (`InvalidQuery`), or a semantic error
//! from the remote storage layer (`Backend`). Request and response frames use
//! codes 1 through 4, so the error codes start at 51 and never collide.
use vstd::prelude::*;
use vstd::string::StrSliceExecFns;
use vstd::string::StringExecFns;

verus! {

/// A plain error message.
#[derive(Clone, Debug, PartialEq)]
pub struct AlesiaError(pub String);

/// Remote storage-layer errors, with the two sub-cases the protocol
/// distinguishes by code.
#[derive(Clone, Debug, PartialEq)]
pub enum BackendError {
    /// A statement that should have produced rows produced none.
    QueryReturnedNoRows,
    /// A write-style statement unexpectedly produced rows.
    ExecuteReturnedResults,
    /// Any other storage-layer failure, with its message.
    Other(AlesiaError),
}

/// A local error value, one of the four kinds of the taxonomy.
#[derive(Clone, Debug, PartialEq)]
pub enum Error {
    IoError(AlesiaError),
    ConfigError(AlesiaError),
    InvalidQuery(AlesiaError),
    Backend(BackendError),
}

/// The kind of an error, without its message.
#[derive(Clone, Copy, Debug, PartialEq, Eq, Structural)]
pub enum ErrorKind {
    Io,
    Config,
    InvalidQuery,
    BackendNoRows,
    BackendUnexpectedRows,
    BackendOther,
}

/// Mathematical view of an [`Error`]: its kind and its message text.
#[verifier::ext_equal]
pub struct ErrorV {
    pub kind: ErrorKind,
    pub message: Seq<char>,
}

/// Message text of the storage-layer error sub-cases that carry none of
/// their own.
pub open spec fn no_rows_text() -> Seq<char> {
    "Query returned no rows"@
}

pub open spec fn unexpected_rows_text() -> Seq<char> {
    "Execute returned results - did you mean to call query?"@
}

/// Message substituted when an error payload is not valid UTF-8.
pub open spec fn bad_utf8_text() -> Seq<char> {
    "invalid UTF-8 in error payload"@
}

impl View for Error {
    type V = ErrorV;

    open spec fn view(&self) -> ErrorV {
        match self {
            Error::IoError(a) => ErrorV { kind: ErrorKind::Io, message: a.0@ },
            Error::ConfigError(a) => ErrorV { kind: ErrorKind::Config, message: a.0@ },
            Error::InvalidQuery(a) => ErrorV { kind: ErrorKind::InvalidQuery, message: a.0@ },
            Error::Backend(BackendError::QueryReturnedNoRows) => ErrorV {
                kind: ErrorKind::BackendNoRows,
                message: no_rows_text(),
            },
            Error::Backend(BackendError::ExecuteReturnedResults) => ErrorV {
                kind: ErrorKind::BackendUnexpectedRows,
                message: unexpected_rows_text(),
            },
            Error::Backend(BackendError::Other(a)) => ErrorV {
                kind: ErrorKind::BackendOther,
                message: a.0@,
            },
        }
    }
}

/// The reserved wire code of each error kind.
pub open spec fn spec_error_code(k: ErrorKind) -> u8 {
    match k {
        ErrorKind::Io => 51,
        ErrorKind::Config => 52,
        ErrorKind::InvalidQuery => 53,
        ErrorKind::BackendNoRows => 54,
        ErrorKind::BackendUnexpectedRows => 55,
        ErrorKind::BackendOther => 56,
    }
}

/// The error reconstructed from a non-success frame: the mapped kind for the
/// recognized codes, and a generic transport error (kind `Io`), keeping the
/// text, for every other code.
pub open spec fn spec_decode_error(code: u8, text: Seq<char>) -> ErrorV {
    if code == 52 {
        ErrorV { kind: ErrorKind::Config, message: text }
    } else if code == 53 {
        ErrorV { kind: ErrorKind::InvalidQuery, message: text }
    } else if code == 54 {
        ErrorV { kind: ErrorKind::BackendNoRows, message: no_rows_text() }
    } else if code == 55 {
        ErrorV { kind: ErrorKind::BackendUnexpectedRows, message: unexpected_rows_text() }
    } else if code == 56 {
        ErrorV { kind: ErrorKind::BackendOther, message: text }
    } else {
        ErrorV { kind: ErrorKind::Io, message: text }
    }
}

impl Error {
    /// A bad-connection-target error.
    pub fn config(e: AlesiaError) -> (r: Self)
        ensures
            r@.kind == ErrorKind::Config,
            r@.message == e.0@,
    {
        Self::ConfigError(e)
    }

    /// A transport-level error.
    pub fn io(e: AlesiaError) -> (r: Self)
        ensures
            r@.kind == ErrorKind::Io,
            r@.message == e.0@,
    {
        Self::IoError(e)
    }

    /// A remote-rejected-statement error.
    pub fn invalid_query(e: AlesiaError) -> (r: Self)
        ensures
            r@.kind == ErrorKind::InvalidQuery,
            r@.message == e.0@,
    {
        Self::InvalidQuery(e)
    }

    /// The reserved wire code of this error.
    pub fn code(&self) -> (r: u8)
        ensures
            r == spec_error_code(self@.kind),
    {
        match self {
            Error::IoError(_) => 51,
            Error::ConfigError(_) => 52,
            Error::InvalidQuery(_) => 53,
            Error::Backend(BackendError::QueryReturnedNoRows) => 54,
            Error::Backend(BackendError::ExecuteReturnedResults) => 55,
            Error::Backend(BackendError::Other(_)) => 56,
        }
    }

    /// The human-readable message of this error.
    pub fn message(&self) -> (r: String)
        ensures
            r@ == self@.message,
    {
        match self {
            Error::IoError(a) => a.0.clone(),
            Error::ConfigError(a) => a.0.clone(),
            Error::InvalidQuery(a) => a.0.clone(),
            Error::Backend(BackendError::QueryReturnedNoRows) => String::from_str(
                "Query returned no rows",
            ),
            Error::Backend(BackendError::ExecuteReturnedResults) => String::from_str(
                "Execute returned results - did you mean to call query?",
            ),
            Error::Backend(BackendError::Other(a)) => a.0.clone(),
        }
    }

    /// This error as a frame: its reserved code and the UTF-8 bytes of its
    /// message, which the framing layer sends as an error frame's payload.
    pub fn serialize(&self) -> (r: (u8, Vec<u8>))
        ensures
            r.0 == spec_error_code(self@.kind),
            r.1@ == vstd::utf8::encode_utf8(self@.message),
    {
        let code = self.code();
        let message = self.message();
        (code, message.as_str().as_bytes_vec())
    }

    /// The error carried by a non-success frame with the given code and
    /// already-decoded payload text.
    pub fn decode(code: u8, text: String) -> (r: Error)
        ensures
            r@ == spec_decode_error(code, text@),
    {
        if code == 52 {
            Error::ConfigError(AlesiaError(text))
        } else if code == 53 {
            Error::InvalidQuery(AlesiaError(text))
        } else if code == 54 {
            Error::Backend(BackendError::QueryReturnedNoRows)
        } else if code == 55 {
            Error::Backend(BackendError::ExecuteReturnedResults)
        } else if code == 56 {
            Error::Backend(BackendError::Other(AlesiaError(text)))
        } else {
            Error::IoError(AlesiaError(text))
        }
    }
}

/// Structural invariant of an error view: the two storage-layer sub-cases
/// that carry no text of their own always show their fixed message. Every
/// value of [`Error`] satisfies it by construction.
pub open spec fn wf_error(e: ErrorV) -> bool {
    &&& e.kind == ErrorKind::BackendNoRows ==> e.message == no_rows_text()
    &&& e.kind == ErrorKind::BackendUnexpectedRows ==> e.message == unexpected_rows_text()
}

/// Round trip of the error-code mapping: encoding any local error as its
/// reserved code plus its message text, then decoding that pair, yields an
/// error of the same kind with the same message.
pub proof fn lemma_error_code_roundtrip(e: ErrorV)
    requires
        wf_error(e),
    ensures
        spec_decode_error(spec_error_code(e.kind), e.message).kind == e.kind,
        spec_decode_error(spec_error_code(e.kind), e.message).message == e.message,
{
}

/// An unmapped code in the reserved range (or any code outside the four
/// frame codes and the five mapped error codes) decodes to a generic
/// transport error that keeps the original text.
pub proof fn lemma_unmapped_code_is_io(code: u8, text: Seq<char>)
    requires
        !(52 <= code <= 56),
    ensures
        spec_decode_error(code, text).kind == ErrorKind::Io,
        spec_decode_error(code, text).message == text,
{
}

} // verus!
