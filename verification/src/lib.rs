//! A mutable representation of BSON documents, arrays and values.
//!
//! A container is either a zero-copy view of already-encoded bytes or a
//! materialized, mutable structure; the first mutating access promotes the
//! former to the latter one level deep. Encoding is two-phase: an exact byte
//! length is computed first, then the wire bytes are written.

pub mod decode;
pub mod encode;
pub mod err;
pub mod laws;
pub mod parsed_document;
pub mod value;
pub mod wire;

pub use encode::{raw_cstr_len, raw_str_len};
pub use err::{DecodeError, EncodeError};
pub use parsed_document::ParsedDocument;
pub use value::{
    MutableArray, MutableBinary, MutableDocument, MutableJavaScriptCodeWithScope, MutableRegex,
    MutableValue,
};
