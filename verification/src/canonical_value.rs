//! A closed tree of the values that canonical JSON can carry. The encoder
//! walks this tree; anything that can report its shape (a parsed document,
//! a native record) is converted into it first.

use vstd::prelude::*;

verus! {

/// One logical JSON value.
///
/// A mapping is kept as the sequence of its entries in the order the caller
/// supplies them; the encoder itself checks that the keys are strictly
/// ascending and rejects the value otherwise, rather than sorting.
#[derive(Debug)]
pub enum CanonicalValue {
    Null,
    Bool(bool),
    Int(i64),
    UInt(u64),
    /// A float is canonical only when it is an exact integer. `Some(n)`
    /// stands for the float whose exact integer value is `n`; `None` stands
    /// for any float with no such value (NaN, an infinity, a nonzero
    /// fractional part, or a magnitude that does not round-trip through a
    /// 64-bit signed integer).
    Float(Option<i64>),
    Text(String),
    Array(Vec<CanonicalValue>),
    Object(Vec<(String, CanonicalValue)>),
}

} // verus!
