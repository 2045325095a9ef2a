//! The error taxonomy of the storage engine.

use vstd::prelude::*;

verus! {

/// Errors surfaced by the page accessors, the node codec and the tree
/// operations. Corruption-class errors (`OutOfBounds`, `InvalidNodeType`,
/// `CorruptTree`) are surfaced verbatim and never locally repaired.
#[derive(Clone, Copy, PartialEq, Eq, Structural, Debug)]
pub enum Error {
    /// An accessor would read or write past the end of a page.
    OutOfBounds,
    /// A fixed-width field cannot hold the value supplied for it.
    ValueTooLarge,
    /// The node-type tag byte of a page matches no known tag.
    InvalidNodeType,
    /// A malformed key or value field: a slot whose bytes are not valid
    /// UTF-8 when decoding, or, when inserting, a field the zero-padded slot
    /// encoding cannot represent faithfully (not valid UTF-8, or carrying a
    /// zero byte at either end).
    EncodingError,
    /// A key longer than `KEY_SIZE` was supplied.
    KeyTooLong,
    /// A value longer than `VALUE_SIZE` was supplied.
    ValueTooLong,
    /// A non-root node was encoded without a parent offset.
    MissingParent,
    /// The searched or deleted key is absent; a normal outcome.
    NotFound,
    /// A structural invariant was found violated mid-traversal.
    CorruptTree,
    /// A page was requested at an offset the store does not hold.
    IOError,
}

} // verus!
