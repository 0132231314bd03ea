//! Reading B-tree nodes: the node type tag, the framing of child
//! pointers inside internal records, and an in-order walk of a tree
//! that collects every leaf record.

#![allow(unused_imports)]
use vstd::prelude::*;

use crate::file_read::compressed_read;
use crate::node_types::{
    decode_records, key_lt, kvs_view, parse_records, records_bytes, valid_records,
};
use crate::{CouchstoreError, NodePointer, TreeFile};

verus! {

/// Deepest tree the walk will follow; a well-formed tree is orders of
/// magnitude shallower, so a deeper chain of pointers is corruption
/// (for instance a pointer cycle).
pub const MAX_TREE_DEPTH: u32 = 64;

/// The type of one node: a leaf holding key/value records, or an
/// internal node holding key/child-pointer records.
#[derive(Clone, Copy, Debug, PartialEq, Eq, Structural)]
pub enum NodeType {
    KPNode,
    KVNode,
}

impl Default for NodeType {
    /// A node is a leaf by convention until a read says otherwise.
    fn default() -> (r: Self)
        ensures
            r == NodeType::KVNode,
    {
        NodeType::KVNode
    }
}

/// The node framed by a decompressed node body: its first byte is the
/// type tag (1 for a leaf, 0 for an internal node; anything else is a
/// fatal corruption), the rest is the record region.
pub open spec fn parse_node(body: Seq<u8>) -> Option<(NodeType, Seq<(Seq<u8>, Seq<u8>)>)> {
    if body.len() == 0 {
        None
    } else if body[0] == 1 {
        match parse_records(body.skip(1)) {
            Some(r) => Some((NodeType::KVNode, r)),
            None => None,
        }
    } else if body[0] == 0 {
        match parse_records(body.skip(1)) {
            Some(r) => Some((NodeType::KPNode, r)),
            None => None,
        }
    } else {
        None
    }
}

/// The corruption kind reported for a body that frames no node.
pub open spec fn parse_node_err(body: Seq<u8>) -> CouchstoreError {
    if body.len() == 0 {
        CouchstoreError::Truncated
    } else if body[0] != 0 && body[0] != 1 {
        CouchstoreError::InvalidNodeType
    } else {
        CouchstoreError::Truncated
    }
}

/// The serialized body of a node with the given type and records.
pub open spec fn node_bytes(t: NodeType, recs: Seq<(Seq<u8>, Seq<u8>)>) -> Seq<u8> {
    seq![if t is KVNode { 1u8 } else { 0u8 }] + records_bytes(recs)
}

/// Serializing a node and parsing the body back yields the node.
pub proof fn lemma_parse_node_serialize(t: NodeType, recs: Seq<(Seq<u8>, Seq<u8>)>)
    requires
        valid_records(recs),
    ensures
        parse_node(node_bytes(t, recs)) == Some((t, recs)),
{
    let body = node_bytes(t, recs);
    crate::node_types::lemma_parse_serialize(recs);
    assert(body.skip(1) =~= records_bytes(recs));
}

/// Decodes a node body into its type and records.
pub fn decode_node(buf: &Vec<u8>) -> (r: Result<(NodeType, Vec<(Vec<u8>, Vec<u8>)>), CouchstoreError>)
    ensures
        match r {
            Ok(v) => parse_node(buf@) == Some((v.0, kvs_view(v.1@))),
            Err(e) => parse_node(buf@) is None && e == parse_node_err(buf@),
        },
{
    if buf.len() == 0 {
        return Err(CouchstoreError::Truncated);
    }
    let tag = buf[0];
    if tag != 0 && tag != 1 {
        return Err(CouchstoreError::InvalidNodeType);
    }
    let t = if tag == 1 {
        NodeType::KVNode
    } else {
        NodeType::KPNode
    };
    match decode_records(buf, 1) {
        Ok(recs) => Ok((t, recs)),
        Err(e) => Err(e),
    }
}

/// The 48-bit integer encoded big-endian by a value region's first six
/// bytes.
pub open spec fn spec_be48(b: Seq<u8>) -> u64 {
    ((b[0] as u64) << 40) | ((b[1] as u64) << 32) | ((b[2] as u64) << 24) | ((b[3] as u64) << 16)
        | ((b[4] as u64) << 8) | (b[5] as u64)
}

/// The six big-endian bytes of a 48-bit integer.
pub open spec fn be48_bytes(x: u64) -> Seq<u8> {
    seq![
        (x >> 40) as u8,
        (x >> 32) as u8,
        (x >> 24) as u8,
        (x >> 16) as u8,
        (x >> 8) as u8,
        x as u8,
    ]
}

/// The value bytes of an internal record referencing a child: the
/// child's 48-bit file offset, then its opaque reduce value.
pub open spec fn pointer_bytes(ptr: u64, reduce: Seq<u8>) -> Seq<u8> {
    be48_bytes(ptr) + reduce
}

/// 48-bit big-endian encoding and decoding invert each other.
pub proof fn lemma_be48_roundtrip(x: u64)
    requires
        x < 0x1_0000_0000_0000,
    ensures
        spec_be48(be48_bytes(x)) == x,
{
    let b0 = (x >> 40) as u8;
    let b1 = (x >> 32) as u8;
    let b2 = (x >> 24) as u8;
    let b3 = (x >> 16) as u8;
    let b4 = (x >> 8) as u8;
    let b5 = x as u8;
    assert((((b0 as u64) << 40) | ((b1 as u64) << 32) | ((b2 as u64) << 24) | ((b3 as u64) << 16)
        | ((b4 as u64) << 8) | (b5 as u64)) == x) by (bit_vector)
        requires
            b0 == (x >> 40) as u8,
            b1 == (x >> 32) as u8,
            b2 == (x >> 24) as u8,
            b3 == (x >> 16) as u8,
            b4 == (x >> 8) as u8,
            b5 == x as u8,
            x < 0x1_0000_0000_0000,
    ;
}

/// Decodes the value bytes of an internal record into the child
/// pointer they frame; fewer than six bytes is a fatal corruption.
pub fn decode_pointer(val: &Vec<u8>) -> (r: Result<NodePointer, CouchstoreError>)
    ensures
        match r {
            Ok(np) => val@.len() >= 6 && np.pointer == spec_be48(val@) && np.reduce_value@
                == val@.skip(6),
            Err(e) => val@.len() < 6 && e == CouchstoreError::Truncated,
        },
{
    if val.len() < 6 {
        return Err(CouchstoreError::Truncated);
    }
    let ptr = ((val[0] as u64) << 40u64) | ((val[1] as u64) << 32u64) | ((val[2] as u64) << 24u64)
        | ((val[3] as u64) << 16u64) | ((val[4] as u64) << 8u64) | (val[5] as u64);
    let reduce = crate::node_types::copy_range(val, 6, val.len());
    proof {
        assert(reduce@ =~= val@.skip(6));
    }
    Ok(NodePointer { pointer: ptr, reduce_value: reduce })
}

/// Encodes a child pointer into the value bytes of an internal record;
/// an offset beyond 48 bits cannot be framed.
pub fn encode_pointer(np: &NodePointer) -> (r: Result<Vec<u8>, CouchstoreError>)
    ensures
        match r {
            Ok(v) => np.pointer < 0x1_0000_0000_0000 && v@ == pointer_bytes(
                np.pointer,
                np.reduce_value@,
            ),
            Err(e) => np.pointer >= 0x1_0000_0000_0000 && e == CouchstoreError::OffsetTooLarge,
        },
{
    if np.pointer >= 0x1_0000_0000_0000u64 {
        return Err(CouchstoreError::OffsetTooLarge);
    }
    let x = np.pointer;
    let mut out: Vec<u8> = Vec::new();
    out.push((x >> 40u64) as u8);
    out.push((x >> 32u64) as u8);
    out.push((x >> 24u64) as u8);
    out.push((x >> 16u64) as u8);
    out.push((x >> 8u64) as u8);
    out.push(x as u8);
    let mut i: usize = 0;
    while i < np.reduce_value.len()
        invariant
            i <= np.reduce_value@.len(),
            out@ == be48_bytes(np.pointer) + np.reduce_value@.take(i as int),
        decreases np.reduce_value@.len() - i,
    {
        proof {
            assert((be48_bytes(np.pointer) + np.reduce_value@.take(i as int)).push(
                np.reduce_value@[i as int],
            ) =~= be48_bytes(np.pointer) + np.reduce_value@.take(i as int + 1));
        }
        out.push(np.reduce_value[i]);
        i = i + 1;
    }
    proof {
        assert(be48_bytes(np.pointer) + np.reduce_value@.take(np.reduce_value@.len() as int)
            =~= pointer_bytes(np.pointer, np.reduce_value@));
    }
    Ok(out)
}

/// The records reached by walking the subtree rooted at the chunk at
/// `ptr`, left to right, with at most `depth` levels of internal
/// nodes above the leaves.
pub open spec fn spec_traverse(data: Seq<u8>, ptr: int, depth: nat) -> Result<
    Seq<(Seq<u8>, Seq<u8>)>,
    CouchstoreError,
>
    decreases depth, 0nat,
{
    if depth == 0 {
        Err(CouchstoreError::TreeTooDeep)
    } else {
        match compressed_read(data, ptr) {
            Ok(body) => match parse_node(body) {
                Some((t, recs)) => if t is KVNode {
                    Ok(recs)
                } else {
                    spec_traverse_children(data, recs, (depth - 1) as nat)
                },
                None => Err(parse_node_err(body)),
            },
            Err(e) => Err(e),
        }
    }
}

/// The records reached below a list of internal records, left to right.
pub open spec fn spec_traverse_children(
    data: Seq<u8>,
    recs: Seq<(Seq<u8>, Seq<u8>)>,
    depth: nat,
) -> Result<Seq<(Seq<u8>, Seq<u8>)>, CouchstoreError>
    decreases depth, recs.len() + 1,
{
    if recs.len() == 0 {
        Ok(Seq::<(Seq<u8>, Seq<u8>)>::empty())
    } else if recs[0].1.len() < 6 {
        Err(CouchstoreError::Truncated)
    } else {
        match spec_traverse(data, spec_be48(recs[0].1) as int, depth) {
            Ok(first) => match spec_traverse_children(data, recs.skip(1), depth) {
                Ok(rest) => Ok(first + rest),
                Err(e) => Err(e),
            },
            Err(e) => Err(e),
        }
    }
}

impl TreeFile {
    /// Walks the whole tree under `root` and returns every leaf record
    /// in order; an absent root is an empty tree.
    pub fn traverse(&mut self, root: &Option<NodePointer>) -> (r: Result<
        Vec<(Vec<u8>, Vec<u8>)>,
        CouchstoreError,
    >)
        ensures
            final(self).data@ == old(self).data@,
            match root {
                Some(np) => match r {
                    Ok(v) => spec_traverse(old(self).data@, np.pointer as int, MAX_TREE_DEPTH as nat)
                        == Ok::<Seq<(Seq<u8>, Seq<u8>)>, CouchstoreError>(kvs_view(v@)),
                    Err(e) => spec_traverse(old(self).data@, np.pointer as int, MAX_TREE_DEPTH as nat)
                        == Err::<Seq<(Seq<u8>, Seq<u8>)>, CouchstoreError>(e),
                },
                None => r matches Ok(v) && v@.len() == 0,
            },
    {
        match root {
            None => Ok(Vec::new()),
            Some(np) => self.traverse_node(np.pointer, MAX_TREE_DEPTH),
        }
    }

    /// Walks the subtree rooted at the chunk at `pointer`.
    fn traverse_node(&mut self, pointer: u64, depth: u32) -> (r: Result<
        Vec<(Vec<u8>, Vec<u8>)>,
        CouchstoreError,
    >)
        ensures
            final(self).data@ == old(self).data@,
            match r {
                Ok(v) => spec_traverse(old(self).data@, pointer as int, depth as nat) == Ok::<
                    Seq<(Seq<u8>, Seq<u8>)>,
                    CouchstoreError,
                >(kvs_view(v@)),
                Err(e) => spec_traverse(old(self).data@, pointer as int, depth as nat) == Err::<
                    Seq<(Seq<u8>, Seq<u8>)>,
                    CouchstoreError,
                >(e),
            },
        decreases depth,
    {
        if depth == 0 {
            return Err(CouchstoreError::TreeTooDeep);
        }
        if pointer > (usize::MAX as u64) {
            let file_len = self.data.len();
            proof {
                assert(pointer as int >= file_len as int);
                lemma_big_pos_truncated(self.data@, pointer as int);
            }
            return Err(CouchstoreError::Truncated);
        }
        let pos = pointer as usize;
        let body = match self.pread_compressed(pos) {
            Ok(v) => v,
            Err(e) => {
                return Err(e);
            },
        };
        let (t, recs) = match decode_node(&body) {
            Ok(v) => v,
            Err(e) => {
                return Err(e);
            },
        };
        match t {
            NodeType::KVNode => Ok(recs),
            NodeType::KPNode => {
                let ghost rv = kvs_view(recs@);
                let mut out: Vec<(Vec<u8>, Vec<u8>)> = Vec::new();
                let mut i: usize = 0;
                proof {
                    assert(rv.skip(0) =~= rv);
                    assert(kvs_view(out@) =~= Seq::<(Seq<u8>, Seq<u8>)>::empty());
                }
                while i < recs.len()
                    invariant
                        i <= recs@.len(),
                        rv == kvs_view(recs@),
                        self.data@ == old(self).data@,
                        spec_traverse_children(self.data@, rv, (depth - 1) as nat) == match (
                        spec_traverse_children(self.data@, rv.skip(i as int), (depth - 1) as nat)) {
                            Ok(rest) => Ok::<Seq<(Seq<u8>, Seq<u8>)>, CouchstoreError>(
                                kvs_view(out@) + rest,
                            ),
                            Err(e) => Err::<Seq<(Seq<u8>, Seq<u8>)>, CouchstoreError>(e),
                        },
                    decreases recs@.len() - i,
                {
                    let ghost tail = rv.skip(i as int);
                    proof {
                        assert(tail[0] == rv[i as int]);
                        assert(rv[i as int] == (recs@[i as int].0@, recs@[i as int].1@));
                        assert(tail.skip(1) =~= rv.skip(i as int + 1));
                    }
                    let val = &recs[i].1;
                    if val.len() < 6 {
                        return Err(CouchstoreError::Truncated);
                    }
                    let ptr = ((val[0] as u64) << 40u64) | ((val[1] as u64) << 32u64) | ((
                    val[2] as u64) << 24u64) | ((val[3] as u64) << 16u64) | ((val[4] as u64)
                        << 8u64) | (val[5] as u64);
                    proof {
                        assert(ptr == spec_be48(tail[0].1));
                    }
                    let mut sub = match self.traverse_node(ptr, depth - 1) {
                        Ok(v) => v,
                        Err(e) => {
                            return Err(e);
                        },
                    };
                    proof {
                        lemma_kvs_view_add(out@, sub@);
                        if spec_traverse_children(self.data@, rv.skip(i as int + 1), (depth - 1) as nat)
                            is Ok {
                            let rest = spec_traverse_children(
                                self.data@,
                                rv.skip(i as int + 1),
                                (depth - 1) as nat,
                            )->Ok_0;
                            assert((kvs_view(out@) + kvs_view(sub@)) + rest =~= kvs_view(out@) + (
                            kvs_view(sub@) + rest));
                        }
                    }
                    out.append(&mut sub);
                    i = i + 1;
                }
                proof {
                    assert(rv.skip(i as int).len() == 0);
                    assert(kvs_view(out@) + Seq::<(Seq<u8>, Seq<u8>)>::empty() =~= kvs_view(out@));
                }
                Ok(out)
            },
        }
    }
}

/// Concatenating record vectors concatenates their views.
pub proof fn lemma_kvs_view_add(a: Seq<(Vec<u8>, Vec<u8>)>, b: Seq<(Vec<u8>, Vec<u8>)>)
    ensures
        kvs_view(a + b) == kvs_view(a) + kvs_view(b),
{
    assert(kvs_view(a + b) =~= kvs_view(a) + kvs_view(b));
}

/// A position at or past the end of the store reads as truncated, so
/// clamping an oversized position changes nothing.
pub proof fn lemma_big_pos_truncated(data: Seq<u8>, pos: int)
    requires
        pos >= data.len(),
    ensures
        compressed_read(data, pos) == Err::<Seq<u8>, CouchstoreError>(CouchstoreError::Truncated),
{
    let b = crate::COUCH_BLOCK_SIZE as int;
    let p = if pos % b == 0 { pos + 1 } else { pos };
    assert(p >= data.len());
    assert(crate::file_read::payload_read(data, pos, 8).len() == 0);
}

} // verus!
