//! Canonical JSON encoding: a strict subset of JSON in which every logical
//! value has exactly one serialized form, so that the output can be hashed
//! or signed. Mapping keys must be strings in strictly ascending
//! byte-lexicographic order, numbers are integer literals only, no
//! whitespace is emitted, and only the quote and backslash characters are
//! escaped in strings.

pub mod canonical_value;
pub mod encoding;
pub mod error;
pub mod num;
pub mod ser;
pub mod text;