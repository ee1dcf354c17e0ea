//! Errors reported by the conversions.
use vstd::prelude::*;
use crate::text::{from_chars, push_str, to_chars};

verus! {

/// Why a conversion failed.
#[derive(Debug)]
pub enum Error {
    /// Reading an input failed; the message says why.
    Io(String),
    /// The input could not be parsed; the message says why.
    InvalidInput(String),
}

/// The result of a conversion.
pub type Result<T> = std::result::Result<T, Error>;

impl Error {
    /// The message shown for the error: `IO error: ...` or `Parse error: ...`.
    pub fn message(&self) -> (r: String)
        ensures
            r@ == match self {
                Error::Io(m) => "IO error: "@ + m@,
                Error::InvalidInput(m) => "Parse error: "@ + m@,
            },
    {
        let (head, m) = match self {
            Error::Io(m) => ("IO error: ", m),
            Error::InvalidInput(m) => ("Parse error: ", m),
        };
        let mut out = to_chars(head);
        push_str(&mut out, m.as_str());
        from_chars(&out)
    }
}

} // verus!
