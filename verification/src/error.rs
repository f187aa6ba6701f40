//! The ways a read session can end without a submitted line.

use crate::iter::BadUnicode;
use vstd::prelude::*;

verus! {

/// Declares `std::io::Error`, so that a session error can carry the
/// underlying stream failure verbatim.  Nothing is assumed about its
/// contents.
#[verifier::external_type_specification]
#[verifier::external_body]
pub struct ExIoError(std::io::Error);

/// Result type for the line reader.
pub type ReplResult<T> = Result<T, Error>;

/// Why a read ended without a submission.
#[derive(Debug)]
pub enum Error {
    /// The user interrupted the session; carries the in-progress text.
    CtrlC(String),
    /// The user signalled end-of-transmission; carries the in-progress text.
    CtrlD(String),
    /// A malformed byte sequence, carrying the partially accumulated
    /// codepoint value.
    BadUnicode(u32),
    /// A failure of the surrounding input or output stream.
    IoFailure(std::io::Error),
    /// Clean end of the input, with no text pending.
    EndOfInput,
}

impl From<BadUnicode> for Error {
    fn from(value: BadUnicode) -> (r: Self) {
        let BadUnicode(code) = value;
        Error::BadUnicode(code)
    }
}

impl vstd::std_specs::convert::FromSpecImpl<BadUnicode> for Error {
    open spec fn obeys_from_spec() -> bool {
        true
    }

    open spec fn from_spec(value: BadUnicode) -> Self {
        Error::BadUnicode(value.0)
    }
}

impl From<std::io::Error> for Error {
    fn from(value: std::io::Error) -> (r: Self) {
        Error::IoFailure(value)
    }
}

impl vstd::std_specs::convert::FromSpecImpl<std::io::Error> for Error {
    open spec fn obeys_from_spec() -> bool {
        true
    }

    open spec fn from_spec(value: std::io::Error) -> Self {
        Error::IoFailure(value)
    }
}

} // verus!
