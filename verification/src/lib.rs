//! A compact, line-oriented text notation for structured data.
//!
//! The codec converts between a generic value tree ([`Value`]) and a
//! human-readable text format with two sub-grammars: an inline block
//! (one record as space-separated `key:value` / `key=value` tokens) and a
//! tabular block (an array of uniform records rendered as a `#` header plus
//! one line per record, with alias compression, constant-column hoisting,
//! column type inference and auto-increment elision).
use vstd::prelude::*;

pub mod decode;
pub mod encode;
pub mod laws;
pub mod paths;
pub mod text;
pub mod value;

pub use value::Value;
pub use value::ValueView;
pub use decode::decode;
pub use encode::encode;

verus! {

/// Failures shared by both directions of the codec.
///
/// `InvalidFormat` is a structural grammar violation (a tabular block without
/// a header, or a top-level scalar handed to the encoder). `ParseError` is a
/// path conflict while unflattening (one dot-path used both as a leaf and as
/// a prefix); the external typed-binding layer reports its mapping failures
/// through the same variant. `UnsupportedType` is reserved for values that
/// cannot be represented in the generic value tree; the core codec itself
/// never produces it.
#[derive(Debug, PartialEq)]
pub enum ZoonError {
    InvalidFormat(String),
    UnsupportedType(String),
    ParseError(String),
}

/// The shape the caller expects from [`decode`](crate::decode): it decides
/// only what an empty input decodes to (an empty array or an empty object).
#[derive(Debug, PartialEq, Eq, Structural, Clone, Copy)]
pub enum Shape {
    ArrayShape,
    ObjectShape,
}

} // verus!
