//! The closed set of failure kinds of the codec.

use vstd::prelude::*;

verus! {

/// Everything that can go wrong while encoding or decoding.
///
/// Encoding fails only on an unsupported construct. Decoding fails when the
/// word stream is exhausted early, or when a decoded word cannot stand for a
/// value of the requested shape.
#[derive(Clone, Copy, Debug, PartialEq, Eq, Structural)]
pub enum Error {
    /// The construct cannot be encoded: a sequence or map of unknown
    /// length, or a request to render a value as free-form text.
    NotSupported,
    /// The word source ran out before the expected words were available.
    UnexpectedEnd,
    /// A decoded byte stood for a boolean but was neither 0 nor 1.
    BadBool,
    /// A decoded word was not a valid character code point.
    BadChar,
    /// A decoded variant index was outside the known range of the
    /// requested tagged union.
    BadVariant,
    /// A decoded option marker word was neither 0 (absent) nor 1
    /// (present).
    BadOption,
}

} // verus!
