//! Error types: decoding raw bytes and encoding a value tree each have their
//! own closed set of failures.

use vstd::prelude::*;

verus! {

/// Failure while consuming raw bytes, during promotion or raw iteration.
/// No partial document is ever returned alongside one of these.
#[derive(Clone, Copy, Debug, PartialEq, Eq, Structural)]
pub enum DecodeError {
    /// The buffer ends before the structure it announces, or a terminator is
    /// missing at the announced end.
    Truncated,
    /// A length prefix disagrees with the enclosing span or points past its
    /// end.
    LengthMismatch,
    /// A NUL-terminated string runs to the end of the element without a
    /// terminator.
    UnterminatedCString,
    /// A key or string value is not valid UTF-8.
    InvalidUtf8,
    /// The element's type tag names no known value kind.
    UnrecognizedTag,
    /// A fixed-form scalar holds a byte pattern with no decoding, such as a
    /// boolean other than 0 or 1.
    InvalidValue,
}

/// Failure while producing wire bytes. A partially filled destination buffer
/// is not rolled back; callers discard it on error.
#[derive(Clone, Copy, Debug, PartialEq, Eq, Structural)]
pub enum EncodeError {
    /// A key, string value, or regular-expression part holds an embedded NUL
    /// byte, which the wire format cannot carry.
    InvalidCString,
    /// The encoded document would reach or exceed [`crate::wire::MAX_DOC_LEN`]
    /// bytes.
    SizeLimitExceeded,
    /// The value has no defined wire encoding (a DB pointer).
    Unencodable,
}

} // verus!
