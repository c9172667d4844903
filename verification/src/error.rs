//! The ways in which an operation on the store fails.

use crate::object::ObjKind;
use vstd::prelude::*;

verus! {

/// Why an operation on the object store failed.
#[derive(Debug, Clone, Copy, PartialEq, Eq, Structural)]
pub enum Error {
    /// The store holds nothing under the digest asked for.
    NotFound,
    /// What the store holds under a digest does not decompress, or does not
    /// start with an object header; or a tree's payload is not a sequence of
    /// entries.
    CorruptObject,
    /// A header lacks its NUL or its space, names no known kind, or gives no
    /// valid size.
    MalformedHeader,
    /// Fewer payload bytes follow the header than it declares.
    TruncatedObject,
    /// The object is of another kind than the operation takes.
    WrongKind { expected: ObjKind, found: ObjKind },
    /// The object could not be hashed or compressed for storage.
    IOFailure,
    /// A tree entry cannot be framed: its name holds a NUL byte or its digest
    /// is not 20 bytes long.
    InvalidEntry,
    /// The request asks for a form of output that is not offered.
    Unsupported,
}

} // verus!
