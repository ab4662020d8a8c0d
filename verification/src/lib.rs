//! Codec for arrays in a bounded cell tree.
//!
//! A cell (here: `Node`) holds at most 1023 data bits and at most 4 child
//! references. Arrays of values are written back to front into a `Builder`:
//! an array that fits the remaining bits of its destination is placed inline
//! behind a 2-bit tag, and an array that does not fit is spilled into a
//! freshly built child node, leaving only the tag and a reference behind.
//! Decoding walks a `Cursor` forward over the finalized tree and recovers
//! the array exactly; the round-trip, placement and capacity laws are stated
//! and proved in `laws`.
use vstd::prelude::*;

pub mod api;
pub mod codec;
pub mod decode;
pub mod laws;
pub mod node;
pub mod value;

verus! {

/// Errors raised while encoding.
#[derive(Debug, Clone, Copy, PartialEq, Eq, Structural)]
pub enum EncodeError {
    /// The destination node cannot take one more child reference, or a
    /// payload cannot fit the data bits of any single node.
    CapacityExceeded,
    /// A dynamic array is longer than its one-byte length prefix can say.
    LengthOverflow,
}

/// What went wrong while decoding.
#[derive(Debug, Clone, Copy, PartialEq, Eq)]
pub enum DecodeErrorKind {
    /// The two placement-tag bits were neither the inline nor the branch mark.
    MalformedTag,
    /// The cursor ran out of bits before the expected data was read.
    Truncated,
    /// A branch mark was read but the node has no child reference left.
    MissingChild,
}

/// Errors raised while decoding; `element` names the index of the array
/// element whose decoding failed, when the failure was inside an element.
#[derive(Debug, Clone, Copy, PartialEq, Eq)]
pub struct DecodeError {
    pub kind: DecodeErrorKind,
    pub element: Option<usize>,
}

} // verus!
