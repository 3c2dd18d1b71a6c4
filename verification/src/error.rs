//! The ways a canonical encoding can fail. Every failure is detected at the
//! offending datum and aborts the encode; output already written stays in
//! the sink.

use vstd::prelude::*;

verus! {

/// Why an encode was rejected.
#[derive(Debug, Clone, Copy, PartialEq, Eq, Structural)]
pub enum Error {
    /// A float that is NaN, infinite, has a fractional part, or does not
    /// round-trip exactly through a 64-bit signed integer.
    NonCanonicalNumber,
    /// A mapping key whose shape is not a string.
    KeyMustBeString,
    /// A mapping key equal to the previous key of the same mapping.
    DuplicateKey,
    /// A mapping key that sorts (byte-lexicographically) before the
    /// previous key of the same mapping.
    UnorderedKey,
}

impl Error {
    /// A short description of the error, for callers that report it.
    pub fn message(&self) -> &'static str {
        match self {
            Error::NonCanonicalNumber => "value not allowed in canonical JSON",
            Error::KeyMustBeString => "key must be a string",
            Error::DuplicateKey => "repeated key",
            Error::UnorderedKey => "unordered key",
        }
    }
}

} // verus!
