//! The error type shared by parsing, packing and writing.

use vstd::prelude::*;

verus! {

/// What went wrong, with a human-readable message.
#[derive(Debug)]
pub enum FonError {
    Parse(String),
    Write(String),
    InvalidArgument(String),
}

impl FonError {
    /// The message carried by the error, whatever its kind.
    pub open spec fn spec_message(&self) -> Seq<char> {
        match self {
            FonError::Parse(m) => m@,
            FonError::Write(m) => m@,
            FonError::InvalidArgument(m) => m@,
        }
    }

    /// The text that the error displays: its message.
    pub fn message(&self) -> (r: String)
        ensures
            r@ == self.spec_message(),
    {
        match self {
            FonError::Parse(m) => m.clone(),
            FonError::Write(m) => m.clone(),
            FonError::InvalidArgument(m) => m.clone(),
        }
    }
}

/// A parse error carrying the given message.
pub fn parse_error(msg: &str) -> (e: FonError)
    ensures
        e matches FonError::Parse(m) && m@ == msg@,
{
    FonError::Parse(msg.to_owned())
}

} // verus!
