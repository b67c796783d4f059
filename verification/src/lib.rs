//! A codec for a self-describing, tree-structured binary tag format: a root
//! named compound of typed key/value pairs whose values may be scalars, byte
//! strings, homogeneous lists, nested compounds, or packed big-endian numeric
//! arrays. Decoding borrows payload bytes from the input buffer; encoding
//! reproduces the exact wire form of every successfully decoded document.

use vstd::prelude::*;

pub mod borrow;
pub mod model;
pub mod mutf8;
pub mod raw_list;
pub mod wire;

verus! {

/// A failure while decoding a document. Decoding either yields a complete
/// structural mirror of the input or exactly one of these; it never panics.
#[derive(Debug, Clone, Copy, PartialEq, Eq, Structural)]
pub enum Error {
    /// The buffer ended before a required field, or a declared length implies
    /// more bytes than remain (a negative length can never be satisfied).
    UnexpectedEof,
    /// The root discriminant byte is neither the end sentinel nor a compound.
    InvalidRootType(u8),
    /// A type byte outside the known set appeared where a value type was
    /// expected inside a compound.
    InvalidTagType(u8),
    /// A list declared a nonzero length with the end sentinel as its element
    /// type, or an unknown element type.
    InvalidListType,
    /// Nested compound/list recursion exceeded the configured bound.
    MaxDepthExceeded,
    /// Bytes claimed to be modified-encoding text do not parse as such.
    MalformedString,
}

} // verus!
