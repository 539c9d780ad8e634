//! Error codes and positioned parse errors.

use vstd::prelude::*;

verus! {

/// The kind of failure a parse can report.
#[derive(Clone, Copy, Debug, PartialEq, Eq, Structural)]
pub enum ErrorCode {
    /// The input (or the part after a leading sign) held no bytes.
    Empty,
    /// A byte that is neither a digit of the radix nor a valid structural
    /// character was found.
    InvalidDigit,
    /// The accumulator exceeded its positive bound.
    Overflow,
    /// The accumulator exceeded its negative bound.
    Underflow,
    /// A decimal point with no digits on either side.
    EmptyFraction,
    /// An exponent marker with no digits after it.
    EmptyExponent,
}

/// A parse failure: an [`ErrorCode`] plus the byte index (0-based, into the
/// original input, with any caller-supplied base offset already added) at
/// which the failure was detected.
#[derive(Clone, Copy, Debug, PartialEq, Eq, Structural)]
pub struct Error {
    pub code: ErrorCode,
    pub index: usize,
}

impl From<(ErrorCode, usize)> for Error {
    fn from(t: (ErrorCode, usize)) -> (r: Error)
        ensures
            r == (Error { code: t.0, index: t.1 }),
    {
        Error { code: t.0, index: t.1 }
    }
}

impl vstd::std_specs::convert::FromSpecImpl<(ErrorCode, usize)> for Error {
    open spec fn obeys_from_spec() -> bool {
        true
    }

    open spec fn from_spec(t: (ErrorCode, usize)) -> Error {
        Error { code: t.0, index: t.1 }
    }
}

} // verus!
