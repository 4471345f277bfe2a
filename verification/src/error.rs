//! The failure kinds shared by the encode and decode directions.

use vstd::prelude::*;

verus! {

/// One shared set of failure kinds for both codec directions.
///
/// - `Io`: the input buffer was exhausted before a read could complete, or an
///   underlying write failed.  An over-long variable-length integer (one whose
///   value does not fit in 64 bits) is reported through the same kind, as the
///   failure comes from the underlying reader.
/// - `InvalidDiscriminant`: an optional or union tag was outside its valid set.
/// - `InvalidUtf8`: string or character payload bytes are not valid UTF-8.
/// - `InvalidChar`: a decoded character payload was empty where at least one
///   Unicode scalar value was expected.
/// - `Custom`: an escape hatch for an external traversal to report a shape
///   mismatch with its own message.
#[derive(Debug, Clone, PartialEq, Eq)]
pub enum SerbfError {
    Io,
    InvalidDiscriminant,
    InvalidUtf8,
    InvalidChar,
    Custom(String),
}

} // verus!
