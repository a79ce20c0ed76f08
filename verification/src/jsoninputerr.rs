//! The error conditions of tokenizing and shape inference.

use vstd::prelude::*;

verus! {

/// Why reading a JSON document failed. Every error is terminal for the whole
/// inference: nothing recovers or resynchronizes.
#[derive(Debug, PartialEq, Eq, Structural)]
pub enum JsonInputErr {
    /// The input source failed to produce bytes.
    IoErr,
    /// Bytes that are not valid UTF-8 where text was expected.
    InvalidUtf8,
    /// A structural violation: the wrong token where a value, key, colon,
    /// comma or terminator was expected, a trailing comma, or a repeated
    /// object key.
    InvalidJson,
    /// An unrecognized backslash escape; carries the offending byte.
    InvalidEscape(u8),
    /// The input ended while a token or a structure was incomplete.
    UnexpectedEndOfInput,
}

} // verus!
