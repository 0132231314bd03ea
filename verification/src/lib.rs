//! An append-only, copy-on-write B-tree storage engine for a block-framed
//! disk file format: the file is divided into fixed-size blocks whose first
//! byte is a reserved marker, and all content is stored in length-prefixed,
//! CRC32C-checksummed, optionally snappy-compressed chunks.  A versioned
//! B-tree lives in those chunks: leaves hold key/value records, internal
//! nodes hold key/child-pointer records.  A bulk modify engine applies a
//! sorted batch of insert/remove/fetch actions to an existing tree and
//! produces a new root by copy-on-write node rewriting with size-bounded
//! node splitting.

#![allow(unused_imports)]
#![verifier::loop_isolation(false)]
use vstd::prelude::*;

pub mod btree_modify;
pub mod btree_read;
pub mod checksum;
pub mod compress;
pub mod file_read;
pub mod kv_store;
pub mod node_types;

verus! {

/// Size of one physical file block.  The first byte of every
/// `COUCH_BLOCK_SIZE`-aligned position is a reserved marker byte that is
/// not part of any chunk payload.
pub const COUCH_BLOCK_SIZE: usize = 4096;

/// Distinguishable failure kinds.  All of them are forms of corruption or
/// of exceeding a limit of the on-disk format; none is ever tolerated
/// silently.
#[derive(Clone, Copy, Debug, PartialEq, Eq, Structural)]
pub enum CouchstoreError {
    /// A chunk or header ran past the end of the file (short read).
    Truncated,
    /// The CRC32C stored in a chunk header does not match its body.
    ChecksumMismatch,
    /// A compressed chunk body could not be decompressed.
    Decompression,
    /// A node body began with a type tag other than leaf or internal.
    InvalidNodeType,
    /// A header chunk declared a length above the caller's maximum.
    HeaderTooLarge,
    /// A record value cannot be framed by the record codec.
    ValueTooLarge,
    /// A node file offset does not fit the 48-bit pointer encoding.
    OffsetTooLarge,
    /// A tree walk exceeded the maximum supported depth; a well-formed
    /// tree is never this deep, so the file is corrupt.
    TreeTooDeep,
    /// A node body is larger than the engine's sanity limit of one
    /// gigabyte; a well-formed file never frames such a node.
    NodeTooLarge,
}

/// An opaque reference to a previously written node: an absolute framed
/// file offset plus an opaque subtree summary ("reduce" value) carried
/// unchanged through rewrites.  Node pointers are never mutated in place;
/// a logically changed subtree always yields a new `NodePointer`.
pub struct NodePointer {
    /// Absolute framed-file offset of the node's chunk.
    pub pointer: u64,
    /// Opaque per-subtree aggregate, not computed by this engine.
    pub reduce_value: Vec<u8>,
}

/// The paged file: owns the underlying byte store.  Exclusive mutable
/// access is required for any read, mirroring the seek-position protocol
/// of the on-disk file; the store itself is an in-memory byte sequence,
/// and the surrounding application moves bytes between it and the disk.
pub struct TreeFile {
    /// The physical bytes of the file, block markers included.
    pub data: Vec<u8>,
}

impl TreeFile {
    /// An empty file.
    pub fn new() -> (r: TreeFile)
        ensures
            r.data@ == Seq::<u8>::empty(),
    {
        TreeFile { data: Vec::new() }
    }

    /// A file over the given physical bytes.
    pub fn from_bytes(data: Vec<u8>) -> (r: TreeFile)
        ensures
            r.data == data,
    {
        TreeFile { data }
    }
}

} // verus!
