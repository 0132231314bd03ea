//! The bulk B-tree modify engine: merges a sorted batch of actions
//! against an existing node's records, produces new records, writes
//! them out in size-bounded chunks (splitting a node that grew past its
//! quota), and resolves the new root, all by copy-on-write: no written
//! node is ever changed in place.

#![allow(unused_imports)]
use vstd::prelude::*;

use crate::btree_read::{
    decode_node, encode_pointer, lemma_parse_node_serialize, node_bytes, parse_node, pointer_bytes,
    spec_be48, NodeType, MAX_TREE_DEPTH,
};
use crate::file_read::{compressed_read, lemma_read_stable};
use crate::node_types::{
    key_lt, kvs_view, record_bytes, records_bytes, valid_record, valid_records, KeyOrder,
    MAX_KEY_SIZE, MAX_VALUE_SIZE, RECORD_OVERHEAD,
};
use crate::{CouchstoreError, NodePointer, TreeFile};

verus! {

/// One requested mutation against a single key.
#[derive(Clone, Copy, Debug, PartialEq, Eq, Structural)]
pub enum CouchfileModifyActionType {
    /// Report the key's current value (or its absence) to the context.
    Fetch,
    /// Drop the key's record if present; removing an absent key is not
    /// an error and changes nothing.
    Remove,
    /// Insert a record, replacing any existing record with the key.
    Insert,
    /// Fetch, then insert.
    FetchInsert,
}

/// One request line: a key, an optional payload, and an action kind.
pub struct CouchfileModifyAction {
    pub key: Vec<u8>,
    pub data: Option<Vec<u8>>,
    pub action_type: CouchfileModifyActionType,
}

/// The spec view of one action: its key bytes, payload bytes, and kind.
pub open spec fn action_view(a: CouchfileModifyAction) -> (
    Seq<u8>,
    Option<Seq<u8>>,
    CouchfileModifyActionType,
) {
    (
        a.key@,
        match a.data {
            Some(d) => Some(d@),
            None => None,
        },
        a.action_type,
    )
}

/// The spec views of an action batch.
pub open spec fn actions_view(s: Seq<CouchfileModifyAction>) -> Seq<
    (Seq<u8>, Option<Seq<u8>>, CouchfileModifyActionType),
> {
    s.map_values(|a: CouchfileModifyAction| action_view(a))
}

/// Whether an action inserts a record.
pub open spec fn is_insert(a: (Seq<u8>, Option<Seq<u8>>, CouchfileModifyActionType)) -> bool {
    a.2 is Insert || a.2 is FetchInsert
}

/// The record an inserting action contributes.
pub open spec fn act_rec(a: (Seq<u8>, Option<Seq<u8>>, CouchfileModifyActionType)) -> (
    Seq<u8>,
    Seq<u8>,
) {
    (
        a.0,
        match a.1 {
            Some(d) => d,
            None => Seq::<u8>::empty(),
        },
    )
}

/// A well-formed action batch: keys strictly ascending (so at most one
/// action per key), every key and payload small enough for the record
/// codec, and every inserting action carrying a payload.
pub open spec fn valid_actions(acts: Seq<(Seq<u8>, Option<Seq<u8>>, CouchfileModifyActionType)>) -> bool {
    &&& forall|i: int, j: int|
        0 <= i < j < acts.len() ==> key_lt(#[trigger] acts[i].0, #[trigger] acts[j].0)
    &&& forall|i: int|
        0 <= i < acts.len() ==> valid_record(#[trigger] acts[i].0, act_rec(acts[i]).1)
    &&& forall|i: int| 0 <= i < acts.len() && is_insert(#[trigger] acts[i]) ==> acts[i].1 is Some
}

/// The records that remain after a sorted action batch is merged into a
/// sorted record list: records below the next action key pass through,
/// an action on an absent key inserts or does nothing, and an action on
/// a present key replaces, removes, or keeps that record.
pub open spec fn merge_leaf(
    recs: Seq<(Seq<u8>, Seq<u8>)>,
    acts: Seq<(Seq<u8>, Option<Seq<u8>>, CouchfileModifyActionType)>,
) -> Seq<(Seq<u8>, Seq<u8>)>
    decreases recs.len() + acts.len(),
{
    if acts.len() == 0 {
        recs
    } else if recs.len() == 0 {
        (if is_insert(acts[0]) {
            seq![act_rec(acts[0])]
        } else {
            Seq::<(Seq<u8>, Seq<u8>)>::empty()
        }) + merge_leaf(recs, acts.skip(1))
    } else if key_lt(recs[0].0, acts[0].0) {
        seq![recs[0]] + merge_leaf(recs.skip(1), acts)
    } else if key_lt(acts[0].0, recs[0].0) {
        (if is_insert(acts[0]) {
            seq![act_rec(acts[0])]
        } else {
            Seq::<(Seq<u8>, Seq<u8>)>::empty()
        }) + merge_leaf(recs, acts.skip(1))
    } else {
        (if is_insert(acts[0]) {
            seq![act_rec(acts[0])]
        } else if acts[0].2 is Remove {
            Seq::<(Seq<u8>, Seq<u8>)>::empty()
        } else {
            seq![recs[0]]
        }) + merge_leaf(recs.skip(1), acts.skip(1))
    }
}

/// Whether merging the batch changes the record list at all: an insert
/// always does; a remove does exactly when its key is present; a fetch
/// never does.
pub open spec fn merge_modifies(
    recs: Seq<(Seq<u8>, Seq<u8>)>,
    acts: Seq<(Seq<u8>, Option<Seq<u8>>, CouchfileModifyActionType)>,
) -> bool
    decreases recs.len() + acts.len(),
{
    if acts.len() == 0 {
        false
    } else if recs.len() == 0 {
        is_insert(acts[0]) || merge_modifies(recs, acts.skip(1))
    } else if key_lt(recs[0].0, acts[0].0) {
        merge_modifies(recs.skip(1), acts)
    } else if key_lt(acts[0].0, recs[0].0) {
        is_insert(acts[0]) || merge_modifies(recs, acts.skip(1))
    } else {
        acts[0].2 is Insert || acts[0].2 is FetchInsert || acts[0].2 is Remove || merge_modifies(
            recs.skip(1),
            acts.skip(1),
        )
    }
}

/// The serialized size one record adds to a node: key, value, and the
/// packed length prefix.
pub open spec fn rec_size(r: (Seq<u8>, Seq<u8>)) -> int {
    r.0.len() + r.1.len() + RECORD_OVERHEAD
}

/// The serialized size of a record list.
pub open spec fn recs_size(recs: Seq<(Seq<u8>, Seq<u8>)>) -> int
    decreases recs.len(),
{
    if recs.len() == 0 {
        0
    } else {
        rec_size(recs[0]) + recs_size(recs.skip(1))
    }
}

/// The size of a record list splits across any cut.
pub proof fn lemma_recs_size_split(recs: Seq<(Seq<u8>, Seq<u8>)>, i: int)
    requires
        0 <= i <= recs.len(),
    ensures
        recs_size(recs) == recs_size(recs.take(i)) + recs_size(recs.skip(i)),
    decreases i,
{
    if i == 0 {
        assert(recs.take(0) =~= Seq::<(Seq<u8>, Seq<u8>)>::empty());
        assert(recs.skip(0) =~= recs);
    } else {
        lemma_recs_size_split(recs.skip(1), i - 1);
        assert(recs.skip(1).take(i - 1) =~= recs.take(i).skip(1));
        assert(recs.skip(1).skip(i - 1) =~= recs.skip(i));
        assert(recs.take(i)[0] == recs[0]);
        assert(recs_size(recs.take(i)) == rec_size(recs[0]) + recs_size(recs.take(i).skip(1)));
    }
}

/// A record list's size is nonnegative, and bounds each record count.
pub proof fn lemma_recs_size_nonneg(recs: Seq<(Seq<u8>, Seq<u8>)>)
    ensures
        recs_size(recs) >= RECORD_OVERHEAD * recs.len(),
    decreases recs.len(),
{
    if recs.len() != 0 {
        lemma_recs_size_nonneg(recs.skip(1));
    }
}

/// Prefixhood of byte stores is transitive.
pub proof fn lemma_prefix_trans(a: Seq<u8>, b: Seq<u8>, c: Seq<u8>)
    requires
        a.is_prefix_of(b),
        b.is_prefix_of(c),
    ensures
        a.is_prefix_of(c),
{
    assert forall|i: int| 0 <= i < a.len() implies c[i] == a[i] by {
        assert(a[i] == b.subrange(0, a.len() as int)[i]);
        assert(b[i] == c.subrange(0, b.len() as int)[i]);
    }
    assert(c.subrange(0, a.len() as int) =~= a);
}

/// The per-request callback context: it receives fetch callbacks while
/// the engine walks the tree (for instance to cascade the removal of a
/// replaced value into a secondary index).
pub trait Modifier {
    /// Called when a Fetch or FetchInsert action finds its key, with
    /// the record's current value.
    fn on_fetch(&mut self, key: &Vec<u8>, value: &Vec<u8>);

    /// Called when a Fetch or FetchInsert action does not find its key.
    fn on_fetch_miss(&mut self, key: &Vec<u8>);
}

/// A context that cascades each overwritten record into a batch of
/// removals for a sequence-index tree: the first six value bytes are
/// the record's old sequence key.
pub struct UpdateIdContext {
    pub seq_actions: Vec<CouchfileModifyAction>,
}

impl UpdateIdContext {
    /// Records the removal an overwritten record requires in the
    /// sequence-index tree: the overwritten value's first six bytes are
    /// its old sequence key, which must now be removed there.  A value
    /// too short to carry a sequence key leaves the batch unchanged.
    pub fn push_seq_removal(&mut self, value: &Vec<u8>)
        ensures
            value@.len() >= 6 ==> actions_view(final(self).seq_actions@) == actions_view(
                old(self).seq_actions@,
            ).push(
                (value@.subrange(0, 6), None::<Seq<u8>>, CouchfileModifyActionType::Remove),
            ),
            value@.len() < 6 ==> final(self).seq_actions@ == old(self).seq_actions@,
    {
        if value.len() >= 6 {
            let old_seq = crate::node_types::copy_range(value, 0, 6);
            let a = CouchfileModifyAction {
                key: old_seq,
                data: None,
                action_type: CouchfileModifyActionType::Remove,
            };
            proof {
                assert(action_view(a) == (
                    value@.subrange(0, 6),
                    None::<Seq<u8>>,
                    CouchfileModifyActionType::Remove,
                ));
            }
            self.seq_actions.push(a);
            proof {
                assert(actions_view(self.seq_actions@) =~~= actions_view(
                    old(self).seq_actions@,
                ).push(
                    (value@.subrange(0, 6), None::<Seq<u8>>, CouchfileModifyActionType::Remove),
                ));
            }
        }
    }
}

impl Modifier for UpdateIdContext {
    fn on_fetch(&mut self, key: &Vec<u8>, value: &Vec<u8>) {
        self.push_seq_removal(value);
    }

    fn on_fetch_miss(&mut self, key: &Vec<u8>) {
    }
}

/// A context for sequence-tree updates; it needs no callbacks.
pub struct UpdateSeqContext {}

impl Modifier for UpdateSeqContext {
    fn on_fetch(&mut self, key: &Vec<u8>, value: &Vec<u8>) {
    }

    fn on_fetch_miss(&mut self, key: &Vec<u8>) {
    }
}

/// The action batch plus the caller's context and the size quotas that
/// bound one written node (one for leaves, one for internal nodes).
pub struct CouchfileModifyRequest<Ctx> {
    pub actions: Vec<CouchfileModifyAction>,
    pub context: Ctx,
    pub kv_chunk_threshold: usize,
    pub kp_chunk_threshold: usize,
}

/// One in-memory record while a node is processed: a key and either a
/// value payload (leaf content) or the encoded pointer to a written
/// child (internal content).
pub struct Node {
    pub data: Vec<u8>,
    pub key: Vec<u8>,
    pub pointer: Option<NodePointer>,
}

/// The spec views of a record list.
pub open spec fn values_view(s: Seq<Node>) -> Seq<(Seq<u8>, Seq<u8>)> {
    s.map_values(|n: Node| (n.key@, n.data@))
}

/// The records held by the node chunk at `ptr` (empty when nothing
/// well-formed is there; used only under `ptr_node_wf`).
pub open spec fn chunk_recs(data: Seq<u8>, ptr: int) -> Seq<(Seq<u8>, Seq<u8>)> {
    match compressed_read(data, ptr) {
        Ok(body) => match parse_node(body) {
            Some(tr) => tr.1,
            None => Seq::<(Seq<u8>, Seq<u8>)>::empty(),
        },
        Err(_) => Seq::<(Seq<u8>, Seq<u8>)>::empty(),
    }
}

/// A result entry referencing a flushed node of type `t`: it carries
/// the node's pointer, frames that pointer in its value bytes, and the
/// chunk it references parses as a node of type `t`.
pub open spec fn ptr_node_wf(data: Seq<u8>, t: NodeType, n: Node) -> bool {
    &&& n.pointer is Some
    &&& n.pointer->Some_0.pointer < 0x1_0000_0000_0000
    &&& n.pointer->Some_0.reduce_value@.len() == 0
    &&& n.data@ == pointer_bytes(n.pointer->Some_0.pointer, n.pointer->Some_0.reduce_value@)
    &&& n.key@.len() <= MAX_KEY_SIZE
    &&& n.data@.len() == 6
    &&& compressed_read(data, n.pointer->Some_0.pointer as int) is Ok
    &&& parse_node(compressed_read(data, n.pointer->Some_0.pointer as int)->Ok_0) is Some
    &&& parse_node(compressed_read(data, n.pointer->Some_0.pointer as int)->Ok_0)->Some_0.0 == t
    &&& parse_node(compressed_read(data, n.pointer->Some_0.pointer as int)->Ok_0)->Some_0.1.len()
        >= 1
}

/// Every entry of a flushed-pointer list is well formed.
pub open spec fn ptrs_wf(data: Seq<u8>, t: NodeType, ptrs: Seq<Node>) -> bool {
    forall|j: int| 0 <= j < ptrs.len() ==> ptr_node_wf(data, t, #[trigger] ptrs[j])
}

/// The records already flushed to disk by a result, in flush order.
pub open spec fn flushed_recs(data: Seq<u8>, ptrs: Seq<Node>) -> Seq<(Seq<u8>, Seq<u8>)>
    decreases ptrs.len(),
{
    if ptrs.len() == 0 {
        Seq::<(Seq<u8>, Seq<u8>)>::empty()
    } else {
        (match ptrs[0].pointer {
            Some(np) => chunk_recs(data, np.pointer as int),
            None => Seq::<(Seq<u8>, Seq<u8>)>::empty(),
        }) + flushed_recs(data, ptrs.skip(1))
    }
}

/// Every record a result stands for: the flushed nodes' records, then
/// the pending output records.
pub open spec fn mr_recs(data: Seq<u8>, res: CouchfileModifyResult) -> Seq<(Seq<u8>, Seq<u8>)> {
    flushed_recs(data, res.pointers@) + values_view(res.values@)
}

/// The bookkeeping invariant of a result: the running count and size
/// estimate match the pending list, and every pending record can be
/// framed by the record codec.
pub open spec fn mr_wf(res: CouchfileModifyResult) -> bool {
    &&& res.count == res.values@.len()
    &&& res.node_length == recs_size(values_view(res.values@))
    &&& valid_records(values_view(res.values@))
}

/// The accumulating output of processing one node: its type, the
/// pending output records not yet flushed, a running size estimate of
/// them, the already-flushed node pointers, and whether any action
/// changed the node's subtree.
pub struct CouchfileModifyResult {
    pub node_type: NodeType,
    pub values: Vec<Node>,
    pub node_length: usize,
    pub count: usize,
    pub pointers: Vec<Node>,
    pub modified: bool,
    pub kv_chunk_threshold: usize,
    pub kp_chunk_threshold: usize,
}

impl CouchfileModifyResult {
    /// A fresh, unmodified result with the request's quotas.
    pub fn new<Ctx>(req: &CouchfileModifyRequest<Ctx>) -> (r: Self)
        ensures
            r.node_type == NodeType::KVNode,
            r.values@.len() == 0,
            r.node_length == 0,
            r.count == 0,
            r.pointers@.len() == 0,
            !r.modified,
            r.kv_chunk_threshold == req.kv_chunk_threshold,
            r.kp_chunk_threshold == req.kp_chunk_threshold,
            mr_wf(*&r),
    {
        let r = Self {
            node_type: NodeType::default(),
            values: Vec::new(),
            node_length: 0,
            count: 0,
            pointers: Vec::new(),
            modified: false,
            kv_chunk_threshold: req.kv_chunk_threshold,
            kp_chunk_threshold: req.kp_chunk_threshold,
        };
        proof {
            assert(values_view(r.values@) =~= Seq::<(Seq<u8>, Seq<u8>)>::empty());
        }
        r
    }
}

/// Keeps an existing record: purge support would decide here whether
/// the record survives; without it the record always passes through.
pub fn maybe_pure_kv<Ctx>(
    req: &mut CouchfileModifyRequest<Ctx>,
    key: &Vec<u8>,
    value: &Vec<u8>,
    result: &mut CouchfileModifyResult,
)
    requires
        valid_record(key@, value@),
        mr_wf(*old(result)),
        old(result).node_length <= 0x5000_0000,
    ensures
        *final(req) == *old(req),
        mr_wf(*final(result)),
        values_view(final(result).values@) == values_view(old(result).values@).push(
            (key@, value@),
        ),
        final(result).node_length == old(result).node_length + key@.len() + value@.len()
            + RECORD_OVERHEAD,
        final(result).count == old(result).count + 1,
        final(result).pointers == old(result).pointers,
        final(result).modified == old(result).modified,
        final(result).node_type == old(result).node_type,
        final(result).kv_chunk_threshold == old(result).kv_chunk_threshold,
        final(result).kp_chunk_threshold == old(result).kp_chunk_threshold,
{
    mr_push_item(key, value, result)
}

/// Appends one output record to a result's pending list, keeping the
/// running count and size estimate in step.
pub fn mr_push_item(key: &Vec<u8>, value: &Vec<u8>, result: &mut CouchfileModifyResult)
    requires
        valid_record(key@, value@),
        mr_wf(*old(result)),
        old(result).node_length <= 0x5000_0000,
    ensures
        mr_wf(*final(result)),
        values_view(final(result).values@) == values_view(old(result).values@).push(
            (key@, value@),
        ),
        final(result).values@.len() == old(result).values@.len() + 1,
        final(result).values@.take(old(result).values@.len() as int) == old(result).values@,
        final(result).values@.last().pointer is None,
        final(result).node_length == old(result).node_length + key@.len() + value@.len()
            + RECORD_OVERHEAD,
        final(result).count == old(result).count + 1,
        final(result).pointers == old(result).pointers,
        final(result).node_type == old(result).node_type,
        final(result).modified == old(result).modified,
        final(result).kv_chunk_threshold == old(result).kv_chunk_threshold,
        final(result).kp_chunk_threshold == old(result).kp_chunk_threshold,
{
    proof {
        lemma_recs_size_nonneg(values_view(old(result).values@));
    }
    let k = crate::node_types::copy_range(key, 0, key.len());
    let v = crate::node_types::copy_range(value, 0, value.len());
    let n = Node { data: v, key: k, pointer: None };
    result.values.push(n);
    result.count = result.count + 1;
    result.node_length = result.node_length + key.len() + value.len() + RECORD_OVERHEAD;
    proof {
        let ov = values_view(old(result).values@);
        assert(n.key@ =~= key@);
        assert(n.data@ =~= value@);
        assert(values_view(result.values@) =~~= ov.push((key@, value@)));
        lemma_recs_size_snoc(ov, (key@, value@));
        assert(result.values@.take(old(result).values@.len() as int) =~= old(result).values@);
    }
}

/// Appending a record adds its size to a list's size.
pub proof fn lemma_recs_size_snoc(recs: Seq<(Seq<u8>, Seq<u8>)>, r: (Seq<u8>, Seq<u8>))
    ensures
        recs_size(recs.push(r)) == recs_size(recs) + rec_size(r),
    decreases recs.len(),
{
    let p = recs.push(r);
    if recs.len() == 0 {
        assert(p.len() == 1);
        assert(p[0] == r);
        assert(p.skip(1) =~= Seq::<(Seq<u8>, Seq<u8>)>::empty());
        assert(recs_size(p.skip(1)) == 0);
        assert(recs_size(p) == rec_size(p[0]) + recs_size(p.skip(1)));
    } else {
        assert(p.skip(1) =~= recs.skip(1).push(r));
        lemma_recs_size_snoc(recs.skip(1), r);
        assert(p[0] == recs[0]);
        assert(recs_size(p) == rec_size(p[0]) + recs_size(p.skip(1)));
    }
}

/// Appending a record to a list appends its bytes to the serialization.
pub proof fn lemma_records_bytes_snoc(recs: Seq<(Seq<u8>, Seq<u8>)>, r: (Seq<u8>, Seq<u8>))
    ensures
        records_bytes(recs.push(r)) == records_bytes(recs) + record_bytes(r.0, r.1),
    decreases recs.len(),
{
    let p = recs.push(r);
    if recs.len() == 0 {
        assert(p.len() == 1);
        assert(p[0] == r);
        assert(p.skip(1) =~= Seq::<(Seq<u8>, Seq<u8>)>::empty());
        assert(records_bytes(p.skip(1)) =~= Seq::<u8>::empty());
        assert(records_bytes(p) == record_bytes(p[0].0, p[0].1) + records_bytes(p.skip(1)));
        assert(records_bytes(recs) =~= Seq::<u8>::empty());
        assert(records_bytes(recs.push(r)) =~= record_bytes(r.0, r.1));
    } else {
        assert(recs.push(r).skip(1) =~= recs.skip(1).push(r));
        lemma_records_bytes_snoc(recs.skip(1), r);
        assert(recs.push(r)[0] == recs[0]);
        assert((record_bytes(recs[0].0, recs[0].1) + records_bytes(recs.skip(1))) + record_bytes(
            r.0,
            r.1,
        ) =~= record_bytes(recs[0].0, recs[0].1) + (records_bytes(recs.skip(1)) + record_bytes(
            r.0,
            r.1,
        )));
    }
}

/// Appends the five-byte packed prefix, the key, and the value of one
/// record to a buffer.
pub fn encode_record(out: &mut Vec<u8>, key: &Vec<u8>, val: &Vec<u8>)
    requires
        valid_record(key@, val@),
    ensures
        final(out)@ == old(out)@ + record_bytes(key@, val@),
{
    let klen = key.len() as u32;
    let vlen = val.len() as u32;
    out.push((klen >> 4u32) as u8);
    out.push((((klen & 0xf) << 4u32) | (vlen >> 24u32)) as u8);
    out.push((vlen >> 16u32) as u8);
    out.push((vlen >> 8u32) as u8);
    out.push(vlen as u8);
    proof {
        assert(out@ =~= old(out)@ + crate::node_types::prefix_bytes(klen, vlen));
    }
    let mut i: usize = 0;
    while i < key.len()
        invariant
            i <= key@.len(),
            out@ == old(out)@ + crate::node_types::prefix_bytes(
                key@.len() as u32,
                val@.len() as u32,
            ) + key@.take(i as int),
        decreases key@.len() - i,
    {
        proof {
            assert((old(out)@ + crate::node_types::prefix_bytes(
                key@.len() as u32,
                val@.len() as u32,
            ) + key@.take(i as int)).push(key@[i as int]) =~= old(out)@
                + crate::node_types::prefix_bytes(key@.len() as u32, val@.len() as u32)
                + key@.take(i as int + 1));
        }
        out.push(key[i]);
        i = i + 1;
    }
    let mut j: usize = 0;
    while j < val.len()
        invariant
            j <= val@.len(),
            out@ == old(out)@ + crate::node_types::prefix_bytes(
                key@.len() as u32,
                val@.len() as u32,
            ) + key@ + val@.take(j as int),
        decreases val@.len() - j,
    {
        proof {
            assert((old(out)@ + crate::node_types::prefix_bytes(
                key@.len() as u32,
                val@.len() as u32,
            ) + key@ + val@.take(j as int)).push(val@[j as int]) =~= old(out)@
                + crate::node_types::prefix_bytes(key@.len() as u32, val@.len() as u32) + key@
                + val@.take(j as int + 1));
        }
        out.push(val[j]);
        j = j + 1;
    }
    proof {
        assert(key@.take(key@.len() as int) =~= key@);
        assert(val@.take(val@.len() as int) =~= val@);
        assert(out@ =~= old(out)@ + record_bytes(key@, val@));
    }
}

/// The serialization of a record list is exactly as long as the list's
/// size estimate says.
pub proof fn lemma_records_bytes_len(recs: Seq<(Seq<u8>, Seq<u8>)>)
    ensures
        records_bytes(recs).len() == recs_size(recs),
    decreases recs.len(),
{
    if recs.len() != 0 {
        lemma_records_bytes_len(recs.skip(1));
    }
}

/// Every record of a well-formed list fits the codec's size cap, so
/// the list's size is bounded by its length.
pub proof fn lemma_recs_size_bound(recs: Seq<(Seq<u8>, Seq<u8>)>)
    requires
        valid_records(recs),
    ensures
        recs_size(recs) <= recs.len() * 0x1000_1003,
    decreases recs.len(),
{
    if recs.len() != 0 {
        assert(valid_records(recs.skip(1)));
        lemma_recs_size_bound(recs.skip(1));
        assert(rec_size(recs[0]) <= 0x1000_1003);
    }
}

/// How many leading records one flush takes: records are taken until
/// their accumulated size reaches the quota, or the list runs out.
pub open spec fn spec_take_count(recs: Seq<(Seq<u8>, Seq<u8>)>, quota: int) -> int
    decreases recs.len(),
{
    if recs.len() == 0 {
        0
    } else if rec_size(recs[0]) >= quota {
        1
    } else {
        1 + spec_take_count(recs.skip(1), quota - rec_size(recs[0]))
    }
}

/// A flush takes at least one and at most all records.
pub proof fn lemma_take_count_range(recs: Seq<(Seq<u8>, Seq<u8>)>, quota: int)
    requires
        recs.len() >= 1,
    ensures
        1 <= spec_take_count(recs, quota) <= recs.len(),
    decreases recs.len(),
{
    assert(recs.skip(1).len() == recs.len() - 1);
    let tc = spec_take_count(recs, quota);
    if rec_size(recs[0]) >= quota {
        assert(tc == 1);
    } else {
        let rest = spec_take_count(recs.skip(1), quota - rec_size(recs[0]));
        if recs.skip(1).len() >= 1 {
            lemma_take_count_range(recs.skip(1), quota - rec_size(recs[0]));
        } else {
            assert(rest == 0);
        }
        assert(tc == 1 + rest);
    }
}

/// A flush whose quota is the whole list's size takes every record.
pub proof fn lemma_take_count_all(recs: Seq<(Seq<u8>, Seq<u8>)>, quota: int)
    requires
        recs.len() >= 1,
        quota == recs_size(recs),
    ensures
        spec_take_count(recs, quota) == recs.len(),
    decreases recs.len(),
{
    if recs.len() == 1 {
        assert(recs.skip(1).len() == 0);
        assert(recs_size(recs.skip(1)) == 0);
    } else {
        lemma_recs_size_nonneg(recs.skip(1));
        assert(recs_size(recs.skip(1)) >= RECORD_OVERHEAD * recs.skip(1).len());
        assert(rec_size(recs[0]) < quota);
        lemma_take_count_all(recs.skip(1), quota - rec_size(recs[0]));
    }
}

/// A flushed-pointer entry stays well formed as the store grows, and
/// keeps referencing the same records.
pub proof fn lemma_ptr_node_stable(data: Seq<u8>, data2: Seq<u8>, t: NodeType, n: Node)
    requires
        data.is_prefix_of(data2),
        ptr_node_wf(data, t, n),
    ensures
        ptr_node_wf(data2, t, n),
        (match n.pointer {
            Some(np) => chunk_recs(data2, np.pointer as int) == chunk_recs(data, np.pointer as int),
            None => true,
        }),
{
    let p = n.pointer->Some_0.pointer as int;
    crate::file_read::lemma_compressed_read_stable(data, data2, p);
}

/// A whole flushed-pointer list stays well formed as the store grows,
/// and keeps referencing the same records.
pub proof fn lemma_ptrs_stable(data: Seq<u8>, data2: Seq<u8>, t: NodeType, ptrs: Seq<Node>)
    requires
        data.is_prefix_of(data2),
        ptrs_wf(data, t, ptrs),
    ensures
        ptrs_wf(data2, t, ptrs),
        flushed_recs(data2, ptrs) == flushed_recs(data, ptrs),
    decreases ptrs.len(),
{
    if ptrs.len() != 0 {
        lemma_ptr_node_stable(data, data2, t, ptrs[0]);
        assert forall|j: int| 0 <= j < ptrs.skip(1).len() implies ptr_node_wf(
            data,
            t,
            #[trigger] ptrs.skip(1)[j],
        ) by {
            assert(ptrs.skip(1)[j] == ptrs[j + 1]);
        }
        lemma_ptrs_stable(data, data2, t, ptrs.skip(1));
        assert forall|j: int| 0 <= j < ptrs.len() implies ptr_node_wf(
            data2,
            t,
            #[trigger] ptrs[j],
        ) by {
            if j > 0 {
                assert(ptrs[j] == ptrs.skip(1)[j - 1]);
            }
        }
        assert(flushed_recs(data2, ptrs) =~= flushed_recs(data, ptrs));
    }
}

/// Appending one flushed pointer appends its node's records.
pub proof fn lemma_flushed_snoc(data: Seq<u8>, ptrs: Seq<Node>, n: Node)
    ensures
        flushed_recs(data, ptrs.push(n)) == flushed_recs(data, ptrs) + (match n.pointer {
            Some(np) => chunk_recs(data, np.pointer as int),
            None => Seq::<(Seq<u8>, Seq<u8>)>::empty(),
        }),
    decreases ptrs.len(),
{
    let p = ptrs.push(n);
    let nrecs = match n.pointer {
        Some(np) => chunk_recs(data, np.pointer as int),
        None => Seq::<(Seq<u8>, Seq<u8>)>::empty(),
    };
    if ptrs.len() == 0 {
        assert(p[0] == n);
        assert(p.skip(1) =~= Seq::<Node>::empty());
        assert(flushed_recs(data, p.skip(1)) =~= Seq::<(Seq<u8>, Seq<u8>)>::empty());
        assert(flushed_recs(data, p) =~= nrecs);
        assert(flushed_recs(data, ptrs) =~= Seq::<(Seq<u8>, Seq<u8>)>::empty());
    } else {
        assert(p[0] == ptrs[0]);
        assert(p.skip(1) =~= ptrs.skip(1).push(n));
        lemma_flushed_snoc(data, ptrs.skip(1), n);
        let head = match ptrs[0].pointer {
            Some(np) => chunk_recs(data, np.pointer as int),
            None => Seq::<(Seq<u8>, Seq<u8>)>::empty(),
        };
        assert((head + flushed_recs(data, ptrs.skip(1))) + nrecs =~= head + (flushed_recs(
            data,
            ptrs.skip(1),
        ) + nrecs));
    }
}

/// Every flushed node holds at least one record, so a flushed-pointer
/// list stands for at least as many records as it has entries.
pub proof fn lemma_flushed_count(data: Seq<u8>, t: NodeType, ptrs: Seq<Node>)
    requires
        ptrs_wf(data, t, ptrs),
    ensures
        flushed_recs(data, ptrs).len() >= ptrs.len(),
    decreases ptrs.len(),
{
    if ptrs.len() != 0 {
        assert(ptr_node_wf(data, t, ptrs[0]));
        assert forall|j: int| 0 <= j < ptrs.skip(1).len() implies ptr_node_wf(
            data,
            t,
            #[trigger] ptrs.skip(1)[j],
        ) by {
            assert(ptrs.skip(1)[j] == ptrs[j + 1]);
        }
        lemma_flushed_count(data, t, ptrs.skip(1));
    }
}

/// Each key/pointer entry of a flushed list frames as a small record:
/// a key of at most the codec's key cap plus a six-byte pointer value.
pub proof fn lemma_kp_records_size(data: Seq<u8>, t: NodeType, ptrs: Seq<Node>)
    requires
        ptrs_wf(data, t, ptrs),
    ensures
        recs_size(values_view(ptrs)) <= ptrs.len() * 4106,
    decreases ptrs.len(),
{
    let pv = values_view(ptrs);
    if ptrs.len() != 0 {
        assert(ptr_node_wf(data, t, ptrs[0]));
        assert(pv[0] == (ptrs[0].key@, ptrs[0].data@));
        assert(rec_size(pv[0]) <= 4106);
        assert forall|j: int| 0 <= j < ptrs.skip(1).len() implies ptr_node_wf(
            data,
            t,
            #[trigger] ptrs.skip(1)[j],
        ) by {
            assert(ptrs.skip(1)[j] == ptrs[j + 1]);
        }
        lemma_kp_records_size(data, t, ptrs.skip(1));
        assert(pv.skip(1) =~= values_view(ptrs.skip(1)));
        assert(recs_size(pv) == rec_size(pv[0]) + recs_size(pv.skip(1)));
    }
}

/// The node-size quota that applies to a result's node type.
pub open spec fn mr_threshold(res: CouchfileModifyResult) -> int {
    match res.node_type {
        NodeType::KVNode => res.kv_chunk_threshold as int,
        NodeType::KPNode => res.kp_chunk_threshold as int,
    }
}

/// Writes one node chunk holding enough leading pending records to
/// reach an uncompressed size of at least `mr_quota` (or all of them),
/// and appends the resulting pointer to the flushed list.
#[verifier::rlimit(100)]
pub fn flush_mr_partial(file: &mut TreeFile, result: &mut CouchfileModifyResult, mr_quota: usize) -> (r:
    Result<(), CouchstoreError>)
    requires
        mr_wf(*old(result)),
        old(result).count >= 1,
        old(result).node_length <= 0x9000_0000,
        1 <= mr_quota <= 0x4000_0000,
        ptrs_wf(old(file).data@, old(result).node_type, old(result).pointers@),
    ensures
        old(file).data@.is_prefix_of(final(file).data@),
        mr_wf(*final(result)),
        final(result).node_type == old(result).node_type,
        final(result).modified == old(result).modified,
        final(result).kv_chunk_threshold == old(result).kv_chunk_threshold,
        final(result).kp_chunk_threshold == old(result).kp_chunk_threshold,
        ptrs_wf(final(file).data@, final(result).node_type, final(result).pointers@),
        match r {
            Ok(u) => ({
                let take = spec_take_count(values_view(old(result).values@), mr_quota as int);
                &&& values_view(final(result).values@) == values_view(
                    old(result).values@,
                ).skip(take)
                &&& flushed_recs(final(file).data@, final(result).pointers@) == flushed_recs(
                    old(file).data@,
                    old(result).pointers@,
                ) + values_view(old(result).values@).take(take)
                &&& final(result).pointers@.len() == old(result).pointers@.len() + 1
                &&& final(result).count == old(result).count - take
                &&& final(result).node_length <= old(result).node_length
            }),
            Err(e) => ({
                &&& e == CouchstoreError::OffsetTooLarge
                &&& final(file).data@.len() >= 0x1_0000_0000_0000
                &&& final(result).values@ == old(result).values@
                &&& final(result).pointers@ == old(result).pointers@
                &&& final(result).count == old(result).count
                &&& final(result).node_length == old(result).node_length
            }),
        },
{
    let ghost rv = values_view(result.values@);
    let ghost t = result.node_type;
    let len = result.values.len();
    let mut take: usize = 0;
    let mut acc: usize = 0;
    proof {
        assert(rv.take(0) =~= Seq::<(Seq<u8>, Seq<u8>)>::empty());
        assert(rv.skip(0) =~= rv);
    }
    while take < len && acc < mr_quota
        invariant
            0 <= take <= len,
            rv == values_view(result.values@),
            len == result.values@.len(),
            acc == recs_size(rv.take(take as int)),
            acc <= 0x9000_0000,
            acc <= mr_quota + 0x1000_1003,
            spec_take_count(rv, mr_quota as int) == if acc >= mr_quota {
                take as int
            } else {
                take + spec_take_count(rv.skip(take as int), mr_quota - acc)
            },
        decreases len - take,
    {
        let n = &result.values[take];
        proof {
            assert(rv[take as int] == (n.key@, n.data@));
            assert(valid_record(rv[take as int].0, rv[take as int].1));
            lemma_recs_size_split(rv, take as int);
            lemma_recs_size_nonneg(rv.skip(take as int));
            assert(rv.skip(take as int)[0] == rv[take as int]);
            assert(rv.skip(take as int).skip(1) =~= rv.skip(take as int + 1));
            assert(rv.take(take as int + 1) =~= rv.take(take as int).push(rv[take as int]));
            lemma_recs_size_snoc(rv.take(take as int), rv[take as int]);
        }
        let sz = n.key.len() + n.data.len() + RECORD_OVERHEAD;
        proof {
            assert(sz <= 0x1000_1003);
        }
        acc = acc + sz;
        take = take + 1;
    }
    let ghost take_spec = spec_take_count(rv, mr_quota as int);
    proof {
        if take >= len && acc < mr_quota {
            assert(rv.skip(take as int).len() == 0);
        }
        assert(take_spec == take as int);
        lemma_recs_size_split(rv, take as int);
        lemma_recs_size_nonneg(rv.skip(take as int));
        lemma_recs_size_nonneg(rv.take(take as int));
        assert(take >= 1);
    }
    let mut body: Vec<u8> = Vec::new();
    match result.node_type {
        NodeType::KVNode => body.push(1u8),
        NodeType::KPNode => body.push(0u8),
    }
    proof {
        assert(body@ =~= node_bytes(t, rv.take(0)).take(1));
        assert(records_bytes(rv.take(0)) =~= Seq::<u8>::empty());
        assert(body@ =~= node_bytes(t, rv.take(0)));
    }
    let mut i: usize = 0;
    while i < take
        invariant
            0 <= i <= take <= len,
            rv == values_view(result.values@),
            len == result.values@.len(),
            t == result.node_type,
            body@ == node_bytes(t, rv.take(i as int)),
        decreases take - i,
    {
        proof {
            assert(rv[i as int] == (result.values@[i as int].key@, result.values@[i as int].data@));
            assert(valid_record(rv[i as int].0, rv[i as int].1));
            assert(rv.take(i as int + 1) =~= rv.take(i as int).push(rv[i as int]));
            lemma_records_bytes_snoc(rv.take(i as int), rv[i as int]);
        }
        let n = &result.values[i];
        encode_record(&mut body, &n.key, &n.data);
        proof {
            assert(body@ =~= node_bytes(t, rv.take(i as int + 1)));
        }
        i = i + 1;
    }
    proof {
        lemma_records_bytes_len(rv.take(take as int));
        assert(body@.len() == 1 + recs_size(rv.take(take as int)));
        assert(recs_size(rv.take(take as int)) == acc);
        assert(acc <= mr_quota + 0x1000_1003);
        assert(body@.len() < 0x6000_0000);
    }
    let pos = file.write_chunk(&body, true);
    proof {
        crate::file_read::lemma_append_prefix(
            old(file).data@,
            crate::file_read::chunk_bytes(
                crate::compress::snappy_compress(body@),
            ),
        );
        lemma_ptrs_stable(old(file).data@, file.data@, t, result.pointers@);
    }
    if (pos as u64) >= 0x1_0000_0000_0000u64 {
        proof {
            assert(final(file).data@.len() >= pos);
        }
        return Err(CouchstoreError::OffsetTooLarge);
    }
    let np = NodePointer { pointer: pos as u64, reduce_value: Vec::new() };
    let pdata = match encode_pointer(&np) {
        Ok(v) => v,
        Err(u) => {
            proof {
                assert(false);
            }
            return Err(CouchstoreError::OffsetTooLarge);
        },
    };
    let lk = &result.values[take - 1].key;
    let last_key = crate::node_types::copy_range(lk, 0, lk.len());
    proof {
        assert(last_key@ =~= rv[take as int - 1].0);
    }
    let mut k: usize = 0;
    while k < take
        invariant
            0 <= k <= take <= len,
            result.values@ == old(result).values@.skip(k as int),
            result.count == old(result).count,
            result.node_length == old(result).node_length,
            result.pointers@ == old(result).pointers@,
            result.node_type == old(result).node_type,
            result.modified == old(result).modified,
            result.kv_chunk_threshold == old(result).kv_chunk_threshold,
            result.kp_chunk_threshold == old(result).kp_chunk_threshold,
        decreases take - k,
    {
        proof {
            assert(old(result).values@.skip(k as int).remove(0) =~= old(result).values@.skip(
                k as int + 1,
            ));
        }
        result.values.remove(0);
        k = k + 1;
    }
    proof {
        assert(result.count == len);
        lemma_recs_size_split(rv, take as int);
        lemma_recs_size_nonneg(rv.skip(take as int));
        assert(acc <= recs_size(rv));
        assert(result.node_length == recs_size(rv));
    }
    result.count = result.count - take;
    result.node_length = result.node_length - acc;
    let newnode = Node { data: pdata, key: last_key, pointer: Some(np) };
    result.pointers.push(newnode);
    proof {
        let d2 = file.data@;
        assert(values_view(result.values@) =~~= rv.skip(take as int));
        assert(valid_records(values_view(result.values@)));
        assert(compressed_read(d2, pos as int) == Ok::<Seq<u8>, CouchstoreError>(body@));
        lemma_parse_node_serialize(t, rv.take(take as int));
        assert(chunk_recs(d2, pos as int) == rv.take(take as int));
        assert(result.pointers@ =~= old(result).pointers@.push(result.pointers@.last()));
        lemma_flushed_snoc(d2, old(result).pointers@, result.pointers@.last());
        assert(ptr_node_wf(d2, t, result.pointers@.last()));
        assert forall|j: int| 0 <= j < result.pointers@.len() implies ptr_node_wf(
            d2,
            t,
            #[trigger] result.pointers@[j],
        ) by {
            if j < old(result).pointers@.len() {
                assert(result.pointers@[j] == old(result).pointers@[j]);
            }
        }
    }
    Ok(())
}

/// Writes the whole pending list to disk as one node and records the
/// resulting pointer.
pub fn flush_mr(file: &mut TreeFile, result: &mut CouchfileModifyResult) -> (r: Result<
    (),
    CouchstoreError,
>)
    requires
        mr_wf(*old(result)),
        old(result).count >= 1,
        old(result).node_length <= 0x4000_0000,
        ptrs_wf(old(file).data@, old(result).node_type, old(result).pointers@),
    ensures
        old(file).data@.is_prefix_of(final(file).data@),
        mr_wf(*final(result)),
        final(result).node_type == old(result).node_type,
        final(result).modified == old(result).modified,
        final(result).kv_chunk_threshold == old(result).kv_chunk_threshold,
        final(result).kp_chunk_threshold == old(result).kp_chunk_threshold,
        ptrs_wf(final(file).data@, final(result).node_type, final(result).pointers@),
        match r {
            Ok(u) => ({
                &&& final(result).values@.len() == 0
                &&& final(result).count == 0
                &&& flushed_recs(final(file).data@, final(result).pointers@) == flushed_recs(
                    old(file).data@,
                    old(result).pointers@,
                ) + values_view(old(result).values@)
                &&& final(result).pointers@.len() == old(result).pointers@.len() + 1
            }),
            Err(e) => ({
                &&& e == CouchstoreError::OffsetTooLarge
                &&& final(file).data@.len() >= 0x1_0000_0000_0000
                &&& final(result).values@ == old(result).values@
                &&& final(result).pointers@ == old(result).pointers@
                &&& final(result).count == old(result).count
                &&& final(result).node_length == old(result).node_length
            }),
        },
{
    let ghost rv = values_view(old(result).values@);
    let quota = result.node_length;
    proof {
        lemma_recs_size_nonneg(rv);
        assert(quota >= 1);
        lemma_take_count_all(rv, quota as int);
    }
    let r = flush_mr_partial(file, result, quota);
    proof {
        if r is Ok {
            assert(rv.take(rv.len() as int) =~= rv);
            assert(rv.skip(rv.len() as int).len() == 0);
        }
    }
    r
}

/// Flushes pending records, one quota-sized node at a time, while the
/// node is marked modified and holds more than a few records above its
/// quota; what remains stays buffered.
pub fn maybe_flush(file: &mut TreeFile, result: &mut CouchfileModifyResult) -> (r: Result<
    (),
    CouchstoreError,
>)
    requires
        mr_wf(*old(result)),
        old(result).node_length <= 0x9000_0000,
        0 < mr_threshold(*old(result)) <= 0x1000_0000,
        ptrs_wf(old(file).data@, old(result).node_type, old(result).pointers@),
    ensures
        old(file).data@.is_prefix_of(final(file).data@),
        mr_wf(*final(result)),
        final(result).node_type == old(result).node_type,
        final(result).modified == old(result).modified,
        final(result).kv_chunk_threshold == old(result).kv_chunk_threshold,
        final(result).kp_chunk_threshold == old(result).kp_chunk_threshold,
        ptrs_wf(final(file).data@, final(result).node_type, final(result).pointers@),
        final(result).node_length <= old(result).node_length,
        !old(result).modified ==> final(file).data@ == old(file).data@ && final(result).values@
            == old(result).values@ && final(result).pointers@ == old(result).pointers@
            && final(result).count == old(result).count && final(result).node_length == old(
            result,
        ).node_length,
        match r {
            Ok(u) => ({
                &&& flushed_recs(final(file).data@, final(result).pointers@) + values_view(
                    final(result).values@,
                ) == flushed_recs(old(file).data@, old(result).pointers@) + values_view(
                    old(result).values@,
                )
                &&& (final(result).modified ==> final(result).count <= 3
                    || final(result).node_length <= mr_threshold(*old(result)))
            }),
            Err(e) => ({
                &&& e == CouchstoreError::OffsetTooLarge
                &&& final(file).data@.len() >= 0x1_0000_0000_0000
                &&& flushed_recs(final(file).data@, final(result).pointers@) + values_view(
                    final(result).values@,
                ) == flushed_recs(old(file).data@, old(result).pointers@) + values_view(
                    old(result).values@,
                )
            }),
        },
{
    let threshold = match result.node_type {
        NodeType::KVNode => result.kv_chunk_threshold,
        NodeType::KPNode => result.kp_chunk_threshold,
    };
    while result.modified && result.count > 3 && result.node_length > threshold
        invariant
            mr_wf(*result),
            result.node_length <= 0x9000_0000,
            threshold == mr_threshold(*old(result)),
            result.node_type == old(result).node_type,
            result.modified == old(result).modified,
            result.kv_chunk_threshold == old(result).kv_chunk_threshold,
            result.kp_chunk_threshold == old(result).kp_chunk_threshold,
            result.node_length <= old(result).node_length,
            old(file).data@.is_prefix_of(file.data@),
            !old(result).modified ==> file.data@ == old(file).data@ && result.values@ == old(
                result,
            ).values@ && result.pointers@ == old(result).pointers@ && result.count == old(
                result,
            ).count && result.node_length == old(result).node_length,
            ptrs_wf(file.data@, result.node_type, result.pointers@),
            flushed_recs(file.data@, result.pointers@) + values_view(result.values@)
                == flushed_recs(old(file).data@, old(result).pointers@) + values_view(
                old(result).values@,
            ),
        decreases result.count,
    {
        let ghost pre_file = file.data@;
        let ghost pre_res = *result;
        let ghost pre_vals = values_view(result.values@);
        match flush_mr_partial(file, result, threshold) {
            Ok(u) => {},
            Err(e) => {
                proof {
                    lemma_ptrs_stable(pre_file, file.data@, pre_res.node_type, pre_res.pointers@);
                    assert(flushed_recs(file.data@, result.pointers@) + values_view(
                        result.values@,
                    ) =~= flushed_recs(pre_file, pre_res.pointers@) + pre_vals);
                }
                return Err(e);
            },
        }
        proof {
            let take = spec_take_count(pre_vals, threshold as int);
            lemma_take_count_range(pre_vals, threshold as int);
            assert(pre_vals.take(take) + pre_vals.skip(take) =~= pre_vals);
            assert((flushed_recs(pre_file, pre_res.pointers@) + pre_vals.take(take)) + pre_vals.skip(
                take,
            ) =~= flushed_recs(pre_file, pre_res.pointers@) + pre_vals);
        }
    }
    Ok(())
}

/// Parsing consumes the whole record region: the records' sizes sum to
/// the region's length.
pub proof fn lemma_parse_records_size(b: Seq<u8>)
    requires
        crate::node_types::parse_records(b) is Some,
    ensures
        recs_size(crate::node_types::parse_records(b)->Some_0) == b.len(),
        valid_records(crate::node_types::parse_records(b)->Some_0),
    decreases b.len(),
{
    let recs = crate::node_types::parse_records(b)->Some_0;
    if b.len() == 0 {
        assert(recs =~= Seq::<(Seq<u8>, Seq<u8>)>::empty());
    } else {
        let klen = crate::node_types::spec_klen(b) as int;
        let vlen = crate::node_types::spec_vlen(b) as int;
        let rest = crate::node_types::parse_records(b.skip(5 + klen + vlen))->Some_0;
        lemma_parse_records_size(b.skip(5 + klen + vlen));
        assert(recs == seq![(b.subrange(5, 5 + klen), b.subrange(5 + klen, 5 + klen + vlen))]
            + rest);
        assert(recs[0] == (b.subrange(5, 5 + klen), b.subrange(5 + klen, 5 + klen + vlen)));
        assert(recs.skip(1) =~= rest);
        assert(rec_size(recs[0]) == 5 + klen + vlen);
        let r0 = b[0];
        let r1 = b[1];
        let r2 = b[2];
        let r3 = b[3];
        let r4 = b[4];
        assert((((r0 as u32) << 4) | ((r1 as u32) >> 4)) < 4096) by (bit_vector);
        assert(((((r1 as u32) & 0xf) << 24) | ((r2 as u32) << 16) | ((r3 as u32) << 8) | (
        r4 as u32)) < 0x1000_0000) by (bit_vector);
        assert(valid_record(recs[0].0, recs[0].1));
        assert forall|i: int| 0 <= i < recs.len() implies valid_record(
            #[trigger] recs[i].0,
            recs[i].1,
        ) by {
            if i > 0 {
                assert(recs[i] == rest[i - 1]);
            }
        }
    }
}

/// The leaf record list an existing node contributes to a modify call:
/// present exactly when the pointer is absent (an empty tree) or its
/// chunk parses as a leaf.
pub open spec fn leaf_input(data: Seq<u8>, ptr: Option<NodePointer>) -> Option<
    Seq<(Seq<u8>, Seq<u8>)>,
> {
    match ptr {
        None => Some(Seq::<(Seq<u8>, Seq<u8>)>::empty()),
        Some(np) => match compressed_read(data, np.pointer as int) {
            Ok(body) => match parse_node(body) {
                Some(tr) => if tr.0 is KVNode {
                    Some(tr.1)
                } else {
                    None
                },
                None => None,
            },
            Err(e) => None,
        },
    }
}

/// The owned view of an optional borrowed pointer.
pub open spec fn opt_ptr(p: Option<&NodePointer>) -> Option<NodePointer> {
    match p {
        Some(x) => Some(*x),
        None => None,
    }
}

/// Walking a list of well-formed leaf pointers yields exactly the
/// records they were flushed with, in order.
pub proof fn lemma_children_traverse(data: Seq<u8>, ptrs: Seq<Node>, d: nat)
    requires
        ptrs_wf(data, NodeType::KVNode, ptrs),
        d >= 1,
    ensures
        crate::btree_read::spec_traverse_children(data, values_view(ptrs), d) == Ok::<
            Seq<(Seq<u8>, Seq<u8>)>,
            CouchstoreError,
        >(flushed_recs(data, ptrs)),
    decreases ptrs.len(),
{
    let pv = values_view(ptrs);
    if ptrs.len() == 0 {
        assert(pv.len() == 0);
        assert(flushed_recs(data, ptrs) =~= Seq::<(Seq<u8>, Seq<u8>)>::empty());
    } else {
        let n = ptrs[0];
        let np = n.pointer->Some_0;
        assert(ptr_node_wf(data, NodeType::KVNode, ptrs[0]));
        assert(pv[0] == (n.key@, n.data@));
        assert(n.data@ == pointer_bytes(np.pointer, np.reduce_value@));
        crate::btree_read::lemma_be48_roundtrip(np.pointer);
        let b6 = crate::btree_read::be48_bytes(np.pointer);
        assert(n.data@[0] == b6[0] && n.data@[1] == b6[1] && n.data@[2] == b6[2] && n.data@[3]
            == b6[3] && n.data@[4] == b6[4] && n.data@[5] == b6[5]);
        assert(spec_be48(n.data@) == spec_be48(b6));
        assert(spec_be48(pv[0].1) == np.pointer);
        assert(pv[0].1.len() >= 6);
        assert(crate::btree_read::spec_traverse(data, np.pointer as int, d) == Ok::<
            Seq<(Seq<u8>, Seq<u8>)>,
            CouchstoreError,
        >(chunk_recs(data, np.pointer as int)));
        assert forall|j: int| 0 <= j < ptrs.skip(1).len() implies ptr_node_wf(
            data,
            NodeType::KVNode,
            #[trigger] ptrs.skip(1)[j],
        ) by {
            assert(ptrs.skip(1)[j] == ptrs[j + 1]);
        }
        lemma_children_traverse(data, ptrs.skip(1), d);
        assert(pv.skip(1) =~= values_view(ptrs.skip(1)));
    }
}

impl TreeFile {
    /// Applies the action slice `[start, end)` to the subtree under
    /// `node_pointer` (an absent pointer is an empty leaf), returning
    /// the accumulated result: flushed pointers, pending records, and
    /// whether anything changed.  For a leaf the result is pinned
    /// exactly: it stands for the merge of the node's records with the
    /// actions, and it is marked modified exactly when the merge
    /// changed something.
    #[verifier::rlimit(100)]
    pub fn modify_node<Ctx: Modifier>(
        &mut self,
        req: &mut CouchfileModifyRequest<Ctx>,
        node_pointer: Option<&NodePointer>,
        start: usize,
        end: usize,
        depth: u32,
    ) -> (r: Result<CouchfileModifyResult, CouchstoreError>)
        requires
            start <= end <= old(req).actions@.len(),
            valid_actions(actions_view(old(req).actions@)),
            0 < old(req).kv_chunk_threshold <= 0x1000_0000,
            0 < old(req).kp_chunk_threshold <= 0x1000_0000,
        ensures
            old(self).data@.is_prefix_of(final(self).data@),
            final(req).actions@ == old(req).actions@,
            final(req).kv_chunk_threshold == old(req).kv_chunk_threshold,
            final(req).kp_chunk_threshold == old(req).kp_chunk_threshold,
            match r {
                Ok(res) => ({
                    let av = actions_view(old(req).actions@).subrange(start as int, end as int);
                    &&& (!res.modified ==> final(self).data@ == old(self).data@)
                    &&& ptrs_wf(final(self).data@, res.node_type, res.pointers@)
                    &&& (res.modified ==> res.values@.len() == 0)
                    &&& (opt_ptr(node_pointer) is None ==> res.node_type == NodeType::KVNode)
                    &&& (start < end ==> (match opt_ptr(node_pointer) {
                        Some(np) => compressed_read(old(self).data@, np.pointer as int) is Ok
                            && parse_node(
                            compressed_read(old(self).data@, np.pointer as int)->Ok_0,
                        ) is Some && parse_node(
                            compressed_read(old(self).data@, np.pointer as int)->Ok_0,
                        )->Some_0.0 == res.node_type,
                        None => true,
                    }))
                    &&& (match leaf_input(old(self).data@, opt_ptr(node_pointer)) {
                        Some(rin) => recs_size(rin) <= 0x4000_0000 ==> ({
                            &&& res.node_type == NodeType::KVNode
                            &&& res.modified == merge_modifies(rin, av)
                            &&& (res.modified ==> res.values@.len() == 0 && ptrs_wf(
                                final(self).data@,
                                NodeType::KVNode,
                                res.pointers@,
                            ) && flushed_recs(final(self).data@, res.pointers@) == merge_leaf(
                                rin,
                                av,
                            ))
                        }),
                        None => true,
                    })
                }),
                Err(e) => (match leaf_input(old(self).data@, opt_ptr(node_pointer)) {
                    Some(rin) => recs_size(rin) > 0x4000_0000 || depth == 0
                        || final(self).data@.len() >= 0x1_0000_0000_0000,
                    None => true,
                }),
            },
        decreases depth, 1int,
    {
        if depth == 0 {
            return Err(CouchstoreError::TreeTooDeep);
        }
        let ghost avfull = actions_view(req.actions@);
        let ghost av = avfull.subrange(start as int, end as int);
        let mut local_result = CouchfileModifyResult::new(req);
        if start == end {
            proof {
                assert(av.len() == 0);
                assert(!merge_modifies(
                    match leaf_input(old(self).data@, opt_ptr(node_pointer)) {
                        Some(rin) => rin,
                        None => Seq::<(Seq<u8>, Seq<u8>)>::empty(),
                    },
                    av,
                ));
            }
            return Ok(local_result);
        }
        let mut existing: Vec<(Vec<u8>, Vec<u8>)> = Vec::new();
        let mut is_leaf = true;
        let ghost mut rin: Seq<(Seq<u8>, Seq<u8>)> = Seq::<(Seq<u8>, Seq<u8>)>::empty();
        match node_pointer {
            None => {
                proof {
                    assert(kvs_view(existing@) =~= rin);
                }
            },
            Some(np) => {
                if np.pointer > (usize::MAX as u64) {
                    let file_len = self.data.len();
                    proof {
                        assert(np.pointer as int >= file_len as int);
                        crate::btree_read::lemma_big_pos_truncated(self.data@, np.pointer as int);
                    }
                    return Err(CouchstoreError::Truncated);
                }
                let body = match self.pread_compressed(np.pointer as usize) {
                    Ok(v) => v,
                    Err(e) => {
                        return Err(e);
                    },
                };
                let (t, recs) = match decode_node(&body) {
                    Ok(v) => v,
                    Err(e) => {
                        return Err(e);
                    },
                };
                if body.len() - 1 > 0x4000_0000 {
                    proof {
                        lemma_parse_records_size(body@.skip(1));
                        assert(recs_size(kvs_view(recs@)) == body@.len() - 1);
                    }
                    return Err(CouchstoreError::NodeTooLarge);
                }
                proof {
                    lemma_parse_records_size(body@.skip(1));
                    assert(recs_size(kvs_view(recs@)) == body@.len() - 1);
                }
                existing = recs;
                match t {
                    NodeType::KVNode => {
                        is_leaf = true;
                    },
                    NodeType::KPNode => {
                        is_leaf = false;
                    },
                }
                proof {
                    rin = kvs_view(existing@);
                }
            },
        }
        let ghost rv = kvs_view(existing@);
        proof {
            if node_pointer is Some {
                assert(leaf_input(old(self).data@, opt_ptr(node_pointer)) == (if is_leaf {
                    Some(rv)
                } else {
                    None::<Seq<(Seq<u8>, Seq<u8>)>>
                }));
            } else {
                assert(leaf_input(old(self).data@, opt_ptr(node_pointer)) == Some(rv));
            }
            assert(valid_records(rv));
            assert(recs_size(rv) <= 0x4000_0000);
            assert forall|i: int, j: int| 0 <= i < j < av.len() implies key_lt(
                #[trigger] av[i].0,
                #[trigger] av[j].0,
            ) by {
                assert(av[i] == avfull[start as int + i]);
                assert(av[j] == avfull[start as int + j]);
            }
            assert forall|i: int| 0 <= i < av.len() implies valid_record(
                #[trigger] av[i].0,
                act_rec(av[i]).1,
            ) && (is_insert(av[i]) ==> av[i].1 is Some) by {
                assert(av[i] == avfull[start as int + i]);
            }
        }
        if is_leaf {
            match self.modify_kv_node(req, &existing, start, end, &mut local_result) {
                Ok(u) => {},
                Err(e) => {
                    return Err(e);
                },
            }
        } else {
            local_result.node_type = NodeType::KPNode;
            match self.modify_kp_node(req, &existing, start, end, depth, &mut local_result) {
                Ok(u) => {},
                Err(e) => {
                    return Err(e);
                },
            }
        }
        Ok(local_result)
    }
}

impl TreeFile {
    /// Merges the action slice `[start, end)` into a leaf's records:
    /// the two sorted streams are walked together by key comparison,
    /// fetch callbacks fire for present and absent keys, and everything
    /// the merge kept or inserted is pushed in order and flushed in
    /// quota-sized nodes once anything changed.
    #[verifier::rlimit(100)]
    #[verifier::spinoff_prover]
    fn modify_kv_node<Ctx: Modifier>(
        &mut self,
        req: &mut CouchfileModifyRequest<Ctx>,
        existing: &Vec<(Vec<u8>, Vec<u8>)>,
        start: usize,
        end: usize,
        result: &mut CouchfileModifyResult,
    ) -> (r: Result<(), CouchstoreError>)
        requires
            start <= end <= old(req).actions@.len(),
            valid_actions(actions_view(old(req).actions@)),
            0 < old(req).kv_chunk_threshold <= 0x1000_0000,
            0 < old(req).kp_chunk_threshold <= 0x1000_0000,
            old(result).kv_chunk_threshold == old(req).kv_chunk_threshold,
            old(result).kp_chunk_threshold == old(req).kp_chunk_threshold,
            old(result).node_type == NodeType::KVNode,
            !old(result).modified,
            old(result).values@.len() == 0,
            old(result).pointers@.len() == 0,
            old(result).count == 0,
            old(result).node_length == 0,
            valid_records(kvs_view(existing@)),
            recs_size(kvs_view(existing@)) <= 0x4000_0000,
        ensures
            old(self).data@.is_prefix_of(final(self).data@),
            final(req).actions@ == old(req).actions@,
            final(req).kv_chunk_threshold == old(req).kv_chunk_threshold,
            final(req).kp_chunk_threshold == old(req).kp_chunk_threshold,
            ({
                let rv = kvs_view(existing@);
                let av = actions_view(old(req).actions@).subrange(start as int, end as int);
                match r {
                    Ok(u) => ({
                        &&& final(result).node_type == NodeType::KVNode
                        &&& final(result).modified == merge_modifies(rv, av)
                        &&& ptrs_wf(final(self).data@, NodeType::KVNode, final(result).pointers@)
                        &&& (!final(result).modified ==> final(self).data@ == old(self).data@)
                        &&& (final(result).modified ==> final(result).values@.len() == 0
                            && flushed_recs(final(self).data@, final(result).pointers@)
                            == merge_leaf(rv, av))
                    }),
                    Err(e) => e == CouchstoreError::OffsetTooLarge && final(self).data@.len()
                        >= 0x1_0000_0000_0000,
                }
            }),
    {
        let ghost rv = kvs_view(existing@);
        let ghost avfull = actions_view(req.actions@);
        let ghost av = avfull.subrange(start as int, end as int);
        let n = existing.len();
        let mut ri: usize = 0;
        let mut ai: usize = start;
        proof {
            assert(rv.skip(0) =~= rv);
            assert(av.skip(0) =~= av);
            assert(rv.take(0) =~= Seq::<(Seq<u8>, Seq<u8>)>::empty());
            assert(values_view(result.values@) =~= Seq::<(Seq<u8>, Seq<u8>)>::empty());
            assert(flushed_recs(self.data@, result.pointers@) =~= Seq::<(Seq<u8>, Seq<u8>)>::empty());
        }
        while ri < n || ai < end
            invariant
                0 <= ri <= n,
                start <= ai <= end,
                n == existing@.len(),
                rv == kvs_view(existing@),
                valid_records(rv),
                recs_size(rv) <= 0x4000_0000,
                req.actions@ == old(req).actions@,
                avfull == actions_view(req.actions@),
                av == avfull.subrange(start as int, end as int),
                req.kv_chunk_threshold == old(req).kv_chunk_threshold,
                req.kp_chunk_threshold == old(req).kp_chunk_threshold,
                result.kv_chunk_threshold == old(req).kv_chunk_threshold,
                result.kp_chunk_threshold == old(req).kp_chunk_threshold,
                result.node_type == NodeType::KVNode,
                mr_wf(*result),
                ptrs_wf(self.data@, NodeType::KVNode, result.pointers@),
                old(self).data@.is_prefix_of(self.data@),
                !result.modified ==> self.data@ == old(self).data@ && result.pointers@.len() == 0,
                !result.modified ==> result.node_length <= recs_size(rv.take(ri as int)),
                result.modified ==> result.count <= 3 || result.node_length
                    <= req.kv_chunk_threshold,
                flushed_recs(self.data@, result.pointers@) + values_view(result.values@)
                    + merge_leaf(rv.skip(ri as int), av.skip(ai - start)) == merge_leaf(rv, av),
                (result.modified || merge_modifies(rv.skip(ri as int), av.skip(ai - start)))
                    == merge_modifies(rv, av),
            decreases n - ri + end - ai,
        {
            let ghost curf = flushed_recs(self.data@, result.pointers@);
            let ghost curv = values_view(result.values@);
            let ghost curm = merge_leaf(rv.skip(ri as int), av.skip(ai - start));
            proof {
                lemma_recs_size_split(rv, ri as int);
                lemma_recs_size_nonneg(rv.skip(ri as int));
                lemma_recs_size_nonneg(rv.take(ri as int));
                if result.modified && result.count <= 3 {
                    lemma_recs_size_bound(values_view(result.values@));
                }
                assert(result.node_length <= 0x4000_0000);
                if ri < n {
                    assert(rv.skip(ri as int)[0] == rv[ri as int]);
                    assert(rv[ri as int] == (existing@[ri as int].0@, existing@[ri as int].1@));
                    assert(rv.skip(ri as int).skip(1) =~= rv.skip(ri as int + 1));
                    assert(rv.take(ri as int + 1) =~= rv.take(ri as int).push(rv[ri as int]));
                    lemma_recs_size_snoc(rv.take(ri as int), rv[ri as int]);
                }
                if ai < end {
                    assert(av.skip(ai - start)[0] == av[ai - start]);
                    assert(av[ai - start] == avfull[ai as int]);
                    assert(avfull[ai as int] == action_view(req.actions@[ai as int]));
                    assert(av.skip(ai - start).skip(1) =~= av.skip(ai + 1 - start));
                }
            }
            let mut take_rec = false;
            let mut take_act = false;
            let mut both = false;
            if ri >= n {
                take_act = true;
            } else if ai >= end {
                take_rec = true;
            } else {
                match crate::node_types::key_cmp(&existing[ri].0, &req.actions[ai].key) {
                    KeyOrder::Less => {
                        take_rec = true;
                    },
                    KeyOrder::Greater => {
                        take_act = true;
                    },
                    KeyOrder::Equal => {
                        both = true;
                    },
                }
            }
            if take_rec {
                proof {
                    if ai >= end {
                        assert(av.skip(ai - start).len() == 0);
                        assert(curm == rv.skip(ri as int));
                        assert(merge_leaf(rv.skip(ri as int + 1), av.skip(ai - start)) == rv.skip(
                            ri as int + 1,
                        ));
                        assert(curm =~= seq![rv[ri as int]] + rv.skip(ri as int + 1));
                    }
                    assert(curm == seq![rv[ri as int]] + merge_leaf(
                        rv.skip(ri as int + 1),
                        av.skip(ai - start),
                    ));
                    assert((curf + curv.push(rv[ri as int])) =~= (curf + curv) + seq![
                        rv[ri as int],
                    ]);
                    assert(((curf + curv) + seq![rv[ri as int]]) + merge_leaf(
                        rv.skip(ri as int + 1),
                        av.skip(ai - start),
                    ) =~= (curf + curv) + curm);
                }
                mr_push_item(&existing[ri].0, &existing[ri].1, result);
                ri = ri + 1;
            } else if take_act {
                let ghost a = av[ai - start];
                proof {
                    if ri >= n {
                        assert(rv.skip(ri as int).len() == 0);
                    }
                    assert(curm == (if is_insert(a) {
                        seq![act_rec(a)]
                    } else {
                        Seq::<(Seq<u8>, Seq<u8>)>::empty()
                    }) + merge_leaf(rv.skip(ri as int), av.skip(ai + 1 - start)));
                }
                let atype = req.actions[ai].action_type;
                if atype == CouchfileModifyActionType::Fetch || atype
                    == CouchfileModifyActionType::FetchInsert {
                    Modifier::on_fetch_miss(&mut req.context, &req.actions[ai].key);
                }
                match atype {
                    CouchfileModifyActionType::Remove => {
                        proof {
                            assert(!is_insert(a));
                            assert((curf + curv) + curm =~= (curf + curv) + merge_leaf(
                                rv.skip(ri as int),
                                av.skip(ai + 1 - start),
                            ));
                        }
                    },
                    CouchfileModifyActionType::Fetch => {
                        proof {
                            assert(!is_insert(a));
                            assert((curf + curv) + curm =~= (curf + curv) + merge_leaf(
                                rv.skip(ri as int),
                                av.skip(ai + 1 - start),
                            ));
                        }
                    },
                    CouchfileModifyActionType::Insert | CouchfileModifyActionType::FetchInsert => {
                        result.modified = true;
                        let adata = match &req.actions[ai].data {
                            Some(d) => d,
                            None => {
                                proof {
                                    assert(is_insert(a));
                                    assert(false);
                                }
                                return Err(CouchstoreError::ValueTooLarge);
                            },
                        };
                        proof {
                            assert(act_rec(a) == (req.actions@[ai as int].key@, adata@));
                            assert(valid_record(a.0, act_rec(a).1));
                            assert((curf + curv.push(act_rec(a))) =~= (curf + curv) + seq![
                                act_rec(a),
                            ]);
                            assert(((curf + curv) + seq![act_rec(a)]) + merge_leaf(
                                rv.skip(ri as int),
                                av.skip(ai + 1 - start),
                            ) =~= (curf + curv) + curm);
                        }
                        mr_push_item(&req.actions[ai].key, adata, result);
                    },
                }
                ai = ai + 1;
            } else {
                let ghost a = av[ai - start];
                proof {
                    assert(curm == (if is_insert(a) {
                        seq![act_rec(a)]
                    } else if a.2 is Remove {
                        Seq::<(Seq<u8>, Seq<u8>)>::empty()
                    } else {
                        seq![rv[ri as int]]
                    }) + merge_leaf(rv.skip(ri as int + 1), av.skip(ai + 1 - start)));
                }
                let atype = req.actions[ai].action_type;
                if atype == CouchfileModifyActionType::Fetch || atype
                    == CouchfileModifyActionType::FetchInsert {
                    Modifier::on_fetch(&mut req.context, &req.actions[ai].key, &existing[ri].1);
                }
                match atype {
                    CouchfileModifyActionType::Remove => {
                        result.modified = true;
                        proof {
                            assert((curf + curv) + curm =~= (curf + curv) + merge_leaf(
                                rv.skip(ri as int + 1),
                                av.skip(ai + 1 - start),
                            ));
                        }
                    },
                    CouchfileModifyActionType::Fetch => {
                        proof {
                            assert((curf + curv.push(rv[ri as int])) =~= (curf + curv) + seq![
                                rv[ri as int],
                            ]);
                            assert(((curf + curv) + seq![rv[ri as int]]) + merge_leaf(
                                rv.skip(ri as int + 1),
                                av.skip(ai + 1 - start),
                            ) =~= (curf + curv) + curm);
                        }
                        mr_push_item(&existing[ri].0, &existing[ri].1, result);
                    },
                    CouchfileModifyActionType::Insert | CouchfileModifyActionType::FetchInsert => {
                        result.modified = true;
                        let adata = match &req.actions[ai].data {
                            Some(d) => d,
                            None => {
                                proof {
                                    assert(is_insert(a));
                                    assert(false);
                                }
                                return Err(CouchstoreError::ValueTooLarge);
                            },
                        };
                        proof {
                            assert(act_rec(a) == (req.actions@[ai as int].key@, adata@));
                            assert(valid_record(a.0, act_rec(a).1));
                            assert((curf + curv.push(act_rec(a))) =~= (curf + curv) + seq![
                                act_rec(a),
                            ]);
                            assert(((curf + curv) + seq![act_rec(a)]) + merge_leaf(
                                rv.skip(ri as int + 1),
                                av.skip(ai + 1 - start),
                            ) =~= (curf + curv) + curm);
                        }
                        mr_push_item(&req.actions[ai].key, adata, result);
                    },
                }
                ri = ri + 1;
                ai = ai + 1;
            }
            let ghost pre_flush_file = self.data@;
            let ghost pre_flush_f = flushed_recs(self.data@, result.pointers@);
            let ghost pre_flush_v = values_view(result.values@);
            match maybe_flush(self, result) {
                Ok(u) => {},
                Err(e) => {
                    proof {
                        lemma_prefix_trans(old(self).data@, pre_flush_file, self.data@);
                    }
                    return Err(e);
                },
            }
            proof {
                lemma_prefix_trans(old(self).data@, pre_flush_file, self.data@);
                if result.modified && result.count <= 3 {
                    lemma_recs_size_bound(values_view(result.values@));
                }
                assert(flushed_recs(self.data@, result.pointers@) + values_view(result.values@)
                    =~= pre_flush_f + pre_flush_v);
                assert((flushed_recs(self.data@, result.pointers@) + values_view(result.values@))
                    + merge_leaf(rv.skip(ri as int), av.skip(ai - start)) =~= (pre_flush_f
                    + pre_flush_v) + merge_leaf(rv.skip(ri as int), av.skip(ai - start)));
            }
        }
        proof {
            assert(rv.skip(ri as int).len() == 0);
            assert(av.skip(ai - start).len() == 0);
            assert(merge_leaf(rv.skip(ri as int), av.skip(ai - start)) == rv.skip(ri as int));
            assert(merge_leaf(rv.skip(ri as int), av.skip(ai - start)).len() == 0);
            assert((flushed_recs(self.data@, result.pointers@) + values_view(result.values@))
                + merge_leaf(rv.skip(ri as int), av.skip(ai - start)) =~= flushed_recs(
                self.data@,
                result.pointers@,
            ) + values_view(result.values@));
            assert(!merge_modifies(rv.skip(ri as int), av.skip(ai - start)));
        }
        if result.modified && result.count > 0 {
            proof {
                if result.count <= 3 {
                    lemma_recs_size_bound(values_view(result.values@));
                }
            }
            let ghost pre_f = flushed_recs(self.data@, result.pointers@);
            let ghost pre_v = values_view(result.values@);
            let ghost pre_file3 = self.data@;
            match flush_mr(self, result) {
                Ok(u) => {},
                Err(e) => {
                    proof {
                        lemma_prefix_trans(old(self).data@, pre_file3, self.data@);
                    }
                    return Err(e);
                },
            }
            proof {
                lemma_prefix_trans(old(self).data@, pre_file3, self.data@);
                assert(values_view(result.values@) =~= Seq::<(Seq<u8>, Seq<u8>)>::empty());
                assert(flushed_recs(self.data@, result.pointers@) =~= pre_f + pre_v);
            }
        } else if result.modified {
            proof {
                assert(values_view(result.values@).len() == 0);
                assert(flushed_recs(self.data@, result.pointers@) + values_view(result.values@)
                    =~= flushed_recs(self.data@, result.pointers@));
            }
        }
        Ok(())
    }
}

impl TreeFile {
    /// Partitions the action slice across an internal node's children
    /// by their inclusive separator keys, recurses into each child that
    /// received actions, and replaces that child's entry with the
    /// pointers its rewrite produced; children that received nothing
    /// keep their entry with no I/O.
    #[verifier::rlimit(100)]
    #[verifier::spinoff_prover]
    fn modify_kp_node<Ctx: Modifier>(
        &mut self,
        req: &mut CouchfileModifyRequest<Ctx>,
        existing: &Vec<(Vec<u8>, Vec<u8>)>,
        start: usize,
        end: usize,
        depth: u32,
        result: &mut CouchfileModifyResult,
    ) -> (r: Result<(), CouchstoreError>)
        requires
            depth >= 1,
            start <= end <= old(req).actions@.len(),
            valid_actions(actions_view(old(req).actions@)),
            0 < old(req).kv_chunk_threshold <= 0x1000_0000,
            0 < old(req).kp_chunk_threshold <= 0x1000_0000,
            old(result).kv_chunk_threshold == old(req).kv_chunk_threshold,
            old(result).kp_chunk_threshold == old(req).kp_chunk_threshold,
            old(result).node_type == NodeType::KPNode,
            !old(result).modified,
            old(result).values@.len() == 0,
            old(result).pointers@.len() == 0,
            old(result).count == 0,
            old(result).node_length == 0,
            valid_records(kvs_view(existing@)),
            recs_size(kvs_view(existing@)) <= 0x4000_0000,
        ensures
            old(self).data@.is_prefix_of(final(self).data@),
            final(req).actions@ == old(req).actions@,
            final(req).kv_chunk_threshold == old(req).kv_chunk_threshold,
            final(req).kp_chunk_threshold == old(req).kp_chunk_threshold,
            match r {
                Ok(u) => ({
                    &&& final(result).node_type == NodeType::KPNode
                    &&& ptrs_wf(final(self).data@, NodeType::KPNode, final(result).pointers@)
                    &&& (!final(result).modified ==> final(self).data@ == old(self).data@)
                    &&& (final(result).modified ==> final(result).values@.len() == 0)
                }),
                Err(e) => true,
            },
        decreases depth, 0int,
    {
        let ghost rv = kvs_view(existing@);
        let n = existing.len();
        if n == 0 {
            return Err(CouchstoreError::InvalidNodeType);
        }
        let mut ri: usize = 0;
        let mut ai: usize = start;
        proof {
            assert(rv.take(0) =~= Seq::<(Seq<u8>, Seq<u8>)>::empty());
            assert(values_view(result.values@) =~= Seq::<(Seq<u8>, Seq<u8>)>::empty());
        }
        while ri < n
            invariant
                0 <= ri <= n,
                start <= ai <= end,
                n == existing@.len(),
                n >= 1,
                rv == kvs_view(existing@),
                valid_records(rv),
                recs_size(rv) <= 0x4000_0000,
                depth >= 1,
                start <= end <= req.actions@.len(),
                valid_actions(actions_view(req.actions@)),
                req.actions@ == old(req).actions@,
                req.kv_chunk_threshold == old(req).kv_chunk_threshold,
                req.kp_chunk_threshold == old(req).kp_chunk_threshold,
                result.kv_chunk_threshold == old(req).kv_chunk_threshold,
                result.kp_chunk_threshold == old(req).kp_chunk_threshold,
                result.node_type == NodeType::KPNode,
                mr_wf(*result),
                ptrs_wf(self.data@, NodeType::KPNode, result.pointers@),
                old(self).data@.is_prefix_of(self.data@),
                !result.modified ==> self.data@ == old(self).data@,
                !result.modified ==> result.node_length <= recs_size(rv.take(ri as int)),
                result.modified ==> result.count <= 3 || result.node_length
                    <= req.kp_chunk_threshold,
            decreases n - ri,
        {
            proof {
                lemma_recs_size_split(rv, ri as int);
                lemma_recs_size_nonneg(rv.skip(ri as int));
                lemma_recs_size_nonneg(rv.take(ri as int));
                if result.modified && result.count <= 3 {
                    lemma_recs_size_bound(values_view(result.values@));
                }
                assert(result.node_length <= 0x4000_0000);
                assert(rv[ri as int] == (existing@[ri as int].0@, existing@[ri as int].1@));
                assert(rv.take(ri as int + 1) =~= rv.take(ri as int).push(rv[ri as int]));
                lemma_recs_size_snoc(rv.take(ri as int), rv[ri as int]);
            }
            let mut sub_end: usize = ai;
            if ri == n - 1 {
                sub_end = end;
            } else {
                while sub_end < end && !matches!(
                    crate::node_types::key_cmp(&req.actions[sub_end].key, &existing[ri].0),
                    KeyOrder::Greater
                )
                    invariant
                        ai <= sub_end <= end,
                        end <= req.actions@.len(),
                        n == existing@.len(),
                        ri < n,
                    decreases end - sub_end,
                {
                    sub_end = sub_end + 1;
                }
            }
            if sub_end == ai {
                mr_push_item(&existing[ri].0, &existing[ri].1, result);
            } else {
                let child_ptr = match crate::btree_read::decode_pointer(&existing[ri].1) {
                    Ok(p) => p,
                    Err(e) => {
                        return Err(e);
                    },
                };
                let ghost pre_child_file = self.data@;
                let child = match self.modify_node(req, Some(&child_ptr), ai, sub_end, depth - 1) {
                    Ok(c) => c,
                    Err(e) => {
                        proof {
                            lemma_prefix_trans(old(self).data@, pre_child_file, self.data@);
                        }
                        return Err(e);
                    },
                };
                proof {
                    lemma_prefix_trans(old(self).data@, pre_child_file, self.data@);
                    lemma_ptrs_stable(pre_child_file, self.data@, NodeType::KPNode, result.pointers@);
                }
                if child.modified {
                    result.modified = true;
                    let mut j: usize = 0;
                    while j < child.pointers.len()
                        invariant
                            0 <= j <= child.pointers@.len(),
                            ptrs_wf(self.data@, child.node_type, child.pointers@),
                            result.modified,
                            mr_wf(*result),
                            ptrs_wf(self.data@, NodeType::KPNode, result.pointers@),
                            result.node_type == NodeType::KPNode,
                            result.kv_chunk_threshold == old(req).kv_chunk_threshold,
                            result.kp_chunk_threshold == old(req).kp_chunk_threshold,
                            req.actions@ == old(req).actions@,
                            req.kv_chunk_threshold == old(req).kv_chunk_threshold,
                            req.kp_chunk_threshold == old(req).kp_chunk_threshold,
                            old(self).data@.is_prefix_of(self.data@),
                            result.node_length <= 0x4000_0000,
                        decreases child.pointers@.len() - j,
                    {
                        proof {
                            assert(ptr_node_wf(self.data@, child.node_type, child.pointers@[j as int]));
                            if result.count <= 3 {
                                lemma_recs_size_bound(values_view(result.values@));
                            }
                        }
                        let p = &child.pointers[j];
                        mr_push_item(&p.key, &p.data, result);
                        let ghost pre_file = self.data@;
                        let ghost pre_child_ptrs = child.pointers@;
                        match maybe_flush(self, result) {
                            Ok(u) => {},
                            Err(e) => {
                                proof {
                                    lemma_prefix_trans(old(self).data@, pre_file, self.data@);
                                }
                                return Err(e);
                            },
                        }
                        proof {
                            lemma_prefix_trans(old(self).data@, pre_file, self.data@);
                            lemma_ptrs_stable(pre_file, self.data@, child.node_type, pre_child_ptrs);
                            if result.modified && result.count <= 3 {
                                lemma_recs_size_bound(values_view(result.values@));
                            }
                        }
                        j = j + 1;
                    }
                } else {
                    mr_push_item(&existing[ri].0, &existing[ri].1, result);
                }
            }
            let ghost pre_file2 = self.data@;
            match maybe_flush(self, result) {
                Ok(u) => {},
                Err(e) => {
                    proof {
                        lemma_prefix_trans(old(self).data@, pre_file2, self.data@);
                    }
                    return Err(e);
                },
            }
            proof {
                lemma_prefix_trans(old(self).data@, pre_file2, self.data@);
                if result.modified && result.count <= 3 {
                    lemma_recs_size_bound(values_view(result.values@));
                }
            }
            ri = ri + 1;
            ai = sub_end;
        }
        if result.modified && result.count > 0 {
            proof {
                if result.count <= 3 {
                    lemma_recs_size_bound(values_view(result.values@));
                }
            }
            let ghost pre_file4 = self.data@;
            match flush_mr(self, result) {
                Ok(u) => {},
                Err(e) => {
                    proof {
                        lemma_prefix_trans(old(self).data@, pre_file4, self.data@);
                    }
                    return Err(e);
                },
            }
            proof {
                lemma_prefix_trans(old(self).data@, pre_file4, self.data@);
            }
        }
        Ok(())
    }
}

/// The node type framed by the chunk a root pointer references, when
/// one is framed at all.
pub open spec fn root_node_kind(data: Seq<u8>, nr: NodePointer) -> Option<NodeType> {
    match compressed_read(data, nr.pointer as int) {
        Ok(body) => match parse_node(body) {
            Some(tr) => Some(tr.0),
            None => None,
        },
        Err(e) => None,
    }
}

impl TreeFile {
    /// Applies the whole action batch to the tree under `root` and
    /// resolves the new root: an unmodified tree keeps its root, a
    /// fully merged result's single pointer becomes the root, and a
    /// split root is wrapped in one new internal node (the only place
    /// tree height grows).  For a leaf (or absent) root the outcome is
    /// pinned exactly: walking the new tree yields the merge of the old
    /// records with the batch.
    #[verifier::rlimit(100)]
    pub fn modify_btree<Ctx: Modifier>(
        &mut self,
        req: &mut CouchfileModifyRequest<Ctx>,
        root: Option<NodePointer>,
    ) -> (r: Result<Option<NodePointer>, CouchstoreError>)
        requires
            valid_actions(actions_view(old(req).actions@)),
            0 < old(req).kv_chunk_threshold <= 0x1000_0000,
            0 < old(req).kp_chunk_threshold <= 0x1000_0000,
        ensures
            old(self).data@.is_prefix_of(final(self).data@),
            final(req).actions@ == old(req).actions@,
            match r {
                Ok(newroot) => ({
                    let av = actions_view(old(req).actions@);
                    match leaf_input(old(self).data@, root) {
                        Some(rin) => recs_size(rin) <= 0x4000_0000 ==> ({
                            &&& (!merge_modifies(rin, av) ==> newroot == root
                                && final(self).data@ == old(self).data@)
                            &&& (merge_modifies(rin, av) ==> (match newroot {
                                Some(nr) => crate::btree_read::spec_traverse(
                                    final(self).data@,
                                    nr.pointer as int,
                                    MAX_TREE_DEPTH as nat,
                                ) == Ok::<Seq<(Seq<u8>, Seq<u8>)>, CouchstoreError>(
                                    merge_leaf(rin, av),
                                ) && root_node_kind(final(self).data@, nr) is Some && (
                                root_node_kind(final(self).data@, nr) == Some(NodeType::KVNode)
                                    ==> leaf_input(final(self).data@, Some(nr)) == Some(
                                    merge_leaf(rin, av),
                                )),
                                None => merge_leaf(rin, av).len() == 0,
                            }))
                        }),
                        None => true,
                    }
                }),
                Err(e) => (match leaf_input(old(self).data@, root) {
                    Some(rin) => recs_size(rin) > 0x4000_0000
                        || final(self).data@.len() >= 0x1_0000_0000_0000
                        || merge_leaf(rin, actions_view(old(req).actions@)).len() > 0x0004_0000,
                    None => true,
                }),
            },
    {
        let ghost av = actions_view(req.actions@);
        let num_actions = req.actions.len();
        let ghost pre = self.data@;
        let root_ref = root.as_ref();
        proof {
            assert(opt_ptr(root_ref) == root);
        }
        let root_result = match self.modify_node(req, root_ref, 0, num_actions, MAX_TREE_DEPTH) {
            Ok(v) => v,
            Err(e) => {
                return Err(e);
            },
        };
        proof {
            assert(av.subrange(0, num_actions as int) =~= av);
        }
        if !root_result.modified {
            return Ok(root);
        }
        let mut pointers = root_result.pointers;
        let ghost ptrs = pointers@;
        let ghost t = root_result.node_type;
        if pointers.len() == 0 {
            proof {
                if leaf_input(pre, root) is Some {
                    let rin = leaf_input(pre, root)->Some_0;
                    if recs_size(rin) <= 0x4000_0000 {
                        assert(flushed_recs(self.data@, ptrs) =~= Seq::<(Seq<u8>, Seq<u8>)>::empty());
                    }
                }
            }
            return Ok(None);
        }
        if pointers.len() == 1 {
            let n = match pointers.pop() {
                Some(n) => n,
                None => {
                    proof {
                        assert(false);
                    }
                    return Err(CouchstoreError::Truncated);
                },
            };
            proof {
                assert(n == ptrs[0]);
            }
            let np = match n.pointer {
                Some(np) => np,
                None => {
                    proof {
                        assert(ptr_node_wf(self.data@, t, ptrs[0]));
                        assert(false);
                    }
                    return Err(CouchstoreError::Truncated);
                },
            };
            proof {
                if leaf_input(pre, root) is Some {
                    let rin = leaf_input(pre, root)->Some_0;
                    if recs_size(rin) <= 0x4000_0000 {
                        assert(ptr_node_wf(self.data@, NodeType::KVNode, ptrs[0]));
                        assert(ptrs.skip(1).len() == 0);
                        assert(flushed_recs(self.data@, ptrs.skip(1)) =~= Seq::<
                            (Seq<u8>, Seq<u8>),
                        >::empty());
                        assert(flushed_recs(self.data@, ptrs) =~= chunk_recs(
                            self.data@,
                            np.pointer as int,
                        ));
                        assert(crate::btree_read::spec_traverse(
                            self.data@,
                            np.pointer as int,
                            MAX_TREE_DEPTH as nat,
                        ) == Ok::<Seq<(Seq<u8>, Seq<u8>)>, CouchstoreError>(chunk_recs(
                            self.data@,
                            np.pointer as int,
                        )));
                    }
                }
            }
            return Ok(Some(np));
        }
        let ghost pre_root_write = self.data@;
        let np = match self.write_kp_root(&pointers) {
            Ok(np) => np,
            Err(e) => {
                proof {
                    if leaf_input(pre, root) is Some {
                        let rin = leaf_input(pre, root)->Some_0;
                        if recs_size(rin) <= 0x4000_0000 && self.data@.len()
                            < 0x1_0000_0000_0000 {
                            let pv = values_view(ptrs);
                            assert(t == NodeType::KVNode);
                            assert(1 + recs_size(pv) >= 0x6000_0000);
                            lemma_kp_records_size(pre_root_write, NodeType::KVNode, ptrs);
                            lemma_flushed_count(pre_root_write, NodeType::KVNode, ptrs);
                            let n = ptrs.len() as int;
                            assert(4106 * n >= 0x5fff_ffff);
                            assert(n > 0x0004_0000) by (nonlinear_arith)
                                requires
                                    4106 * n >= 0x5fff_ffff,
                                    n >= 0,
                            ;
                            assert(flushed_recs(pre_root_write, ptrs) == merge_leaf(rin, av));
                            assert(merge_leaf(rin, av).len() > 0x0004_0000);
                        }
                    }
                }
                return Err(e);
            },
        };
        proof {
            if leaf_input(pre, root) is Some {
                let rin = leaf_input(pre, root)->Some_0;
                if recs_size(rin) <= 0x4000_0000 {
                    let pv = values_view(ptrs);
                    assert(t == NodeType::KVNode);
                    lemma_ptrs_stable(pre_root_write, self.data@, NodeType::KVNode, ptrs);
                    lemma_parse_node_serialize(NodeType::KPNode, pv);
                    assert(MAX_TREE_DEPTH as nat - 1 >= 1);
                    lemma_children_traverse(self.data@, ptrs, (MAX_TREE_DEPTH - 1) as nat);
                    assert(crate::btree_read::spec_traverse(
                        self.data@,
                        np.pointer as int,
                        MAX_TREE_DEPTH as nat,
                    ) == Ok::<Seq<(Seq<u8>, Seq<u8>)>, CouchstoreError>(flushed_recs(
                        self.data@,
                        ptrs,
                    )));
                    assert(flushed_recs(self.data@, ptrs) == merge_leaf(rin, av));
                }
            }
        }
        Ok(Some(np))
    }

    /// Writes one new internal node whose records are the given
    /// key/pointer entries, and returns its pointer; this is how a
    /// split root is wrapped.
    #[verifier::rlimit(100)]
    fn write_kp_root(&mut self, pointers: &Vec<Node>) -> (r: Result<NodePointer, CouchstoreError>)
        requires
            valid_records(values_view(pointers@)),
        ensures
            old(self).data@.is_prefix_of(final(self).data@),
            match r {
                Ok(np) => ({
                    &&& np.pointer < 0x1_0000_0000_0000
                    &&& compressed_read(final(self).data@, np.pointer as int) == Ok::<
                        Seq<u8>,
                        CouchstoreError,
                    >(node_bytes(NodeType::KPNode, values_view(pointers@)))
                }),
                Err(e) => (e == CouchstoreError::NodeTooLarge && 1 + recs_size(
                    values_view(pointers@),
                ) >= 0x6000_0000) || (e == CouchstoreError::OffsetTooLarge
                    && final(self).data@.len() >= 0x1_0000_0000_0000),
            },
    {
        let ghost pv = values_view(pointers@);
        let mut body: Vec<u8> = Vec::new();
        body.push(0u8);
        proof {
            assert(pv.take(0) =~= Seq::<(Seq<u8>, Seq<u8>)>::empty());
            assert(records_bytes(pv.take(0)) =~= Seq::<u8>::empty());
            assert(body@ =~= node_bytes(NodeType::KPNode, pv.take(0)));
        }
        let mut i: usize = 0;
        while i < pointers.len()
            invariant
                0 <= i <= pointers@.len(),
                pv == values_view(pointers@),
                valid_records(pv),
                body@ == node_bytes(NodeType::KPNode, pv.take(i as int)),
            decreases pointers@.len() - i,
        {
            proof {
                assert(pv[i as int] == (pointers@[i as int].key@, pointers@[i as int].data@));
                assert(pv.take(i as int + 1) =~= pv.take(i as int).push(pv[i as int]));
                lemma_records_bytes_snoc(pv.take(i as int), pv[i as int]);
            }
            let p = &pointers[i];
            encode_record(&mut body, &p.key, &p.data);
            proof {
                assert(body@ =~= node_bytes(NodeType::KPNode, pv.take(i as int + 1)));
            }
            i = i + 1;
        }
        proof {
            assert(pv.take(pv.len() as int) =~= pv);
        }
        if body.len() >= 0x6000_0000 {
            proof {
                lemma_records_bytes_len(pv);
                assert(body@.len() == 1 + recs_size(pv));
            }
            return Err(CouchstoreError::NodeTooLarge);
        }
        let pos = self.write_chunk(&body, true);
        proof {
            crate::file_read::lemma_append_prefix(
                old(self).data@,
                crate::file_read::chunk_bytes(crate::compress::snappy_compress(body@)),
            );
        }
        if (pos as u64) >= 0x1_0000_0000_0000u64 {
            proof {
                assert(final(self).data@.len() >= pos);
            }
            return Err(CouchstoreError::OffsetTooLarge);
        }
        Ok(NodePointer { pointer: pos as u64, reduce_value: Vec::new() })
    }
}

/// The value stored under a key in a record list, front to back.
pub open spec fn find_rec(recs: Seq<(Seq<u8>, Seq<u8>)>, k: Seq<u8>) -> Option<Seq<u8>>
    decreases recs.len(),
{
    if recs.len() == 0 {
        None
    } else if recs[0].0 == k {
        Some(recs[0].1)
    } else {
        find_rec(recs.skip(1), k)
    }
}

/// A record list whose keys are strictly ascending.
pub open spec fn sorted_recs(recs: Seq<(Seq<u8>, Seq<u8>)>) -> bool {
    forall|i: int, j: int| 0 <= i < j < recs.len() ==> key_lt(#[trigger] recs[i].0, #[trigger] recs[j].0)
}

/// A list in which no record carries the key at all.
pub proof fn lemma_find_none(recs: Seq<(Seq<u8>, Seq<u8>)>, k: Seq<u8>)
    requires
        find_rec(recs, k) is None,
    ensures
        forall|i: int| 0 <= i < recs.len() ==> (#[trigger] recs[i].0) != k,
    decreases recs.len(),
{
    if recs.len() != 0 {
        lemma_find_none(recs.skip(1), k);
        assert forall|i: int| 0 <= i < recs.len() implies (#[trigger] recs[i].0) != k by {
            if i > 0 {
                assert(recs[i] == recs.skip(1)[i - 1]);
            }
        }
    }
}

/// Removing keys that are absent from a sorted record list leaves the
/// list exactly as it was and does not count as a modification.
pub proof fn lemma_remove_absent(
    recs: Seq<(Seq<u8>, Seq<u8>)>,
    acts: Seq<(Seq<u8>, Option<Seq<u8>>, CouchfileModifyActionType)>,
)
    requires
        forall|j: int|
            0 <= j < acts.len() ==> (#[trigger] acts[j].2) is Remove && find_rec(recs, acts[j].0)
                is None,
    ensures
        merge_leaf(recs, acts) == recs,
        !merge_modifies(recs, acts),
    decreases recs.len() + acts.len(),
{
    if acts.len() == 0 {
    } else if recs.len() == 0 {
        assert(!is_insert(acts[0]));
        assert forall|j: int| 0 <= j < acts.skip(1).len() implies (#[trigger] acts.skip(1)[j].2)
            is Remove && find_rec(recs, acts.skip(1)[j].0) is None by {
            assert(acts.skip(1)[j] == acts[j + 1]);
        }
        lemma_remove_absent(recs, acts.skip(1));
        assert(merge_leaf(recs, acts) =~= Seq::<(Seq<u8>, Seq<u8>)>::empty() + merge_leaf(
            recs,
            acts.skip(1),
        ));
        assert(merge_leaf(recs, acts) =~= recs);
    } else if recs[0].0 == acts[0].0 {
        assert(acts[0].2 is Remove && find_rec(recs, acts[0].0) is None);
        assert(find_rec(recs, acts[0].0) is Some);
        assert(false);
    } else if key_lt(recs[0].0, acts[0].0) {
        assert forall|j: int| 0 <= j < acts.len() implies (#[trigger] acts[j].2) is Remove
            && find_rec(recs.skip(1), acts[j].0) is None by {
            lemma_find_none(recs, acts[j].0);
            if find_rec(recs.skip(1), acts[j].0) is Some {
                assert(recs[0].0 != acts[j].0);
                assert(find_rec(recs, acts[j].0) == find_rec(recs.skip(1), acts[j].0));
            }
        }
        lemma_remove_absent(recs.skip(1), acts);
        assert(merge_leaf(recs, acts) =~= seq![recs[0]] + recs.skip(1));
        assert(merge_leaf(recs, acts) =~= recs);
    } else {
        crate::node_types::lemma_key_lt_total(recs[0].0, acts[0].0);
        assert(key_lt(acts[0].0, recs[0].0));
        assert(!is_insert(acts[0]));
        assert forall|j: int| 0 <= j < acts.skip(1).len() implies (#[trigger] acts.skip(1)[j].2)
            is Remove && find_rec(recs, acts.skip(1)[j].0) is None by {
            assert(acts.skip(1)[j] == acts[j + 1]);
        }
        lemma_remove_absent(recs, acts.skip(1));
        assert(merge_leaf(recs, acts) =~= Seq::<(Seq<u8>, Seq<u8>)>::empty() + merge_leaf(
            recs,
            acts.skip(1),
        ));
        assert(merge_leaf(recs, acts) =~= recs);
    }
}

/// After a batch is merged, every inserted key reads back exactly the
/// value that its Insert or FetchInsert action carried.
pub proof fn lemma_insert_round_trip(
    recs: Seq<(Seq<u8>, Seq<u8>)>,
    acts: Seq<(Seq<u8>, Option<Seq<u8>>, CouchfileModifyActionType)>,
    i: int,
)
    requires
        sorted_recs(recs),
        valid_actions(acts),
        0 <= i < acts.len(),
        is_insert(acts[i]),
    ensures
        find_rec(merge_leaf(recs, acts), acts[i].0) == Some(act_rec(acts[i]).1),
    decreases recs.len() + acts.len(),
{
    let m = merge_leaf(recs, acts);
    let k = acts[i].0;
    if recs.len() == 0 || (acts.len() > 0 && !key_lt(recs[0].0, acts[0].0)) {
        // the merge consumes acts[0] first
        let head: Seq<(Seq<u8>, Seq<u8>)> = if recs.len() != 0 && recs[0].0 == acts[0].0 {
            if is_insert(acts[0]) {
                seq![act_rec(acts[0])]
            } else if acts[0].2 is Remove {
                Seq::<(Seq<u8>, Seq<u8>)>::empty()
            } else {
                seq![recs[0]]
            }
        } else {
            if is_insert(acts[0]) {
                seq![act_rec(acts[0])]
            } else {
                Seq::<(Seq<u8>, Seq<u8>)>::empty()
            }
        };
        let recs2: Seq<(Seq<u8>, Seq<u8>)> = if recs.len() != 0 && recs[0].0 == acts[0].0 {
            recs.skip(1)
        } else {
            recs
        };
        let tail = merge_leaf(recs2, acts.skip(1));
        if recs.len() != 0 {
            crate::node_types::lemma_key_lt_total(recs[0].0, acts[0].0);
        }
        assert(m == head + tail);
        assert forall|a: int, b: int| 0 <= a < b < acts.skip(1).len() implies key_lt(
            #[trigger] acts.skip(1)[a].0,
            #[trigger] acts.skip(1)[b].0,
        ) by {
            assert(acts.skip(1)[a] == acts[a + 1] && acts.skip(1)[b] == acts[b + 1]);
        }
        assert forall|a: int| 0 <= a < acts.skip(1).len() implies valid_record(
            #[trigger] acts.skip(1)[a].0,
            act_rec(acts.skip(1)[a]).1,
        ) && (is_insert(acts.skip(1)[a]) ==> acts.skip(1)[a].1 is Some) by {
            assert(acts.skip(1)[a] == acts[a + 1]);
        }
        assert forall|a: int, b: int| 0 <= a < b < recs2.len() implies key_lt(
            #[trigger] recs2[a].0,
            #[trigger] recs2[b].0,
        ) by {
            if recs2 == recs.skip(1) {
                assert(recs2[a] == recs[a + 1] && recs2[b] == recs[b + 1]);
            }
        }
        if i == 0 {
            assert(head == seq![act_rec(acts[0])]);
            assert(m[0] == act_rec(acts[0]));
            assert(m[0].0 == k);
            assert(find_rec(m, k) == Some(act_rec(acts[0]).1));
        } else {
            assert(key_lt(acts[0].0, acts[i].0));
            crate::node_types::lemma_key_lt_asymm(acts[0].0, acts[i].0);
            assert(acts.skip(1)[i - 1] == acts[i]);
            lemma_insert_round_trip(recs2, acts.skip(1), i - 1);
            if head.len() != 0 {
                assert(head[0].0 == acts[0].0 || (recs.len() != 0 && head[0].0 == recs[0].0
                    && recs[0].0 == acts[0].0));
                assert(head[0].0 != k);
                assert(m[0] == head[0]);
                assert(m.skip(1) =~= tail);
                assert(find_rec(m, k) == find_rec(tail, k));
            } else {
                assert(m =~= tail);
            }
        }
    } else {
        // recs[0] passes through below every action key
        assert(acts.len() > 0 && recs.len() > 0 && key_lt(recs[0].0, acts[0].0));
        let tail = merge_leaf(recs.skip(1), acts);
        assert(m == seq![recs[0]] + tail);
        assert forall|a: int, b: int| 0 <= a < b < recs.skip(1).len() implies key_lt(
            #[trigger] recs.skip(1)[a].0,
            #[trigger] recs.skip(1)[b].0,
        ) by {
            assert(recs.skip(1)[a] == recs[a + 1] && recs.skip(1)[b] == recs[b + 1]);
        }
        lemma_insert_round_trip(recs.skip(1), acts, i);
        if i == 0 {
            crate::node_types::lemma_key_lt_asymm(recs[0].0, acts[0].0);
        } else {
            assert(key_lt(acts[0].0, acts[i].0));
            crate::node_types::lemma_key_lt_trans(recs[0].0, acts[0].0, acts[i].0);
            crate::node_types::lemma_key_lt_asymm(recs[0].0, acts[i].0);
        }
        assert(recs[0].0 != k);
        assert(m[0] == recs[0]);
        assert(m.skip(1) =~= tail);
        assert(find_rec(m, k) == find_rec(tail, k));
    }
}

/// Every key of a merged list lies strictly above a key that lies
/// strictly below every input record and every action key.
pub proof fn lemma_merge_lower_bound(
    recs: Seq<(Seq<u8>, Seq<u8>)>,
    acts: Seq<(Seq<u8>, Option<Seq<u8>>, CouchfileModifyActionType)>,
    k: Seq<u8>,
)
    requires
        forall|i: int| 0 <= i < recs.len() ==> key_lt(k, (#[trigger] recs[i]).0),
        forall|i: int| 0 <= i < acts.len() ==> key_lt(k, (#[trigger] acts[i]).0),
    ensures
        forall|i: int| 0 <= i < merge_leaf(recs, acts).len() ==> key_lt(
            k,
            (#[trigger] merge_leaf(recs, acts)[i]).0,
        ),
    decreases recs.len() + acts.len(),
{
    let m = merge_leaf(recs, acts);
    if acts.len() == 0 {
    } else {
        let consume_rec = recs.len() > 0 && key_lt(recs[0].0, acts[0].0);
        let equal = recs.len() > 0 && !consume_rec && !key_lt(acts[0].0, recs[0].0);
        let head: Seq<(Seq<u8>, Seq<u8>)> = if consume_rec {
            seq![recs[0]]
        } else if equal {
            if is_insert(acts[0]) {
                seq![act_rec(acts[0])]
            } else if acts[0].2 is Remove {
                Seq::<(Seq<u8>, Seq<u8>)>::empty()
            } else {
                seq![recs[0]]
            }
        } else {
            if is_insert(acts[0]) {
                seq![act_rec(acts[0])]
            } else {
                Seq::<(Seq<u8>, Seq<u8>)>::empty()
            }
        };
        let recs2 = if consume_rec || equal {
            recs.skip(1)
        } else {
            recs
        };
        let acts2 = if consume_rec {
            acts
        } else {
            acts.skip(1)
        };
        assert forall|i: int| 0 <= i < recs2.len() implies key_lt(k, (#[trigger] recs2[i]).0) by {
            if recs2 == recs.skip(1) {
                assert(recs2[i] == recs[i + 1]);
            }
        }
        assert forall|i: int| 0 <= i < acts2.len() implies key_lt(k, (#[trigger] acts2[i]).0) by {
            if acts2 == acts.skip(1) {
                assert(acts2[i] == acts[i + 1]);
            }
        }
        lemma_merge_lower_bound(recs2, acts2, k);
        assert(m == head + merge_leaf(recs2, acts2));
        assert forall|i: int| 0 <= i < m.len() implies key_lt(k, (#[trigger] m[i]).0) by {
            if i < head.len() {
                assert(m[i] == head[i]);
            } else {
                assert(m[i] == merge_leaf(recs2, acts2)[i - head.len()]);
            }
        }
    }
}

/// Merging a sorted batch into a sorted record list yields a list
/// whose keys are again strictly ascending.
pub proof fn lemma_merge_sorted(
    recs: Seq<(Seq<u8>, Seq<u8>)>,
    acts: Seq<(Seq<u8>, Option<Seq<u8>>, CouchfileModifyActionType)>,
)
    requires
        sorted_recs(recs),
        forall|i: int, j: int|
            0 <= i < j < acts.len() ==> key_lt(#[trigger] acts[i].0, #[trigger] acts[j].0),
    ensures
        sorted_recs(merge_leaf(recs, acts)),
    decreases recs.len() + acts.len(),
{
    let m = merge_leaf(recs, acts);
    if acts.len() == 0 {
    } else {
        let consume_rec = recs.len() > 0 && key_lt(recs[0].0, acts[0].0);
        let equal = recs.len() > 0 && !consume_rec && !key_lt(acts[0].0, recs[0].0);
        let head: Seq<(Seq<u8>, Seq<u8>)> = if consume_rec {
            seq![recs[0]]
        } else if equal {
            if is_insert(acts[0]) {
                seq![act_rec(acts[0])]
            } else if acts[0].2 is Remove {
                Seq::<(Seq<u8>, Seq<u8>)>::empty()
            } else {
                seq![recs[0]]
            }
        } else {
            if is_insert(acts[0]) {
                seq![act_rec(acts[0])]
            } else {
                Seq::<(Seq<u8>, Seq<u8>)>::empty()
            }
        };
        let recs2 = if consume_rec || equal {
            recs.skip(1)
        } else {
            recs
        };
        let acts2 = if consume_rec {
            acts
        } else {
            acts.skip(1)
        };
        if recs.len() > 0 && !consume_rec && !equal {
            crate::node_types::lemma_key_lt_total(recs[0].0, acts[0].0);
            assert(key_lt(acts[0].0, recs[0].0));
        }
        assert forall|a: int, b: int| 0 <= a < b < recs2.len() implies key_lt(
            #[trigger] recs2[a].0,
            #[trigger] recs2[b].0,
        ) by {
            if recs2 == recs.skip(1) {
                assert(recs2[a] == recs[a + 1] && recs2[b] == recs[b + 1]);
            }
        }
        assert forall|a: int, b: int| 0 <= a < b < acts2.len() implies key_lt(
            #[trigger] acts2[a].0,
            #[trigger] acts2[b].0,
        ) by {
            if acts2 == acts.skip(1) {
                assert(acts2[a] == acts[a + 1] && acts2[b] == acts[b + 1]);
            }
        }
        lemma_merge_sorted(recs2, acts2);
        assert(m == head + merge_leaf(recs2, acts2));
        if head.len() != 0 {
            let hk = head[0].0;
            if equal {
                crate::node_types::lemma_key_lt_total(recs[0].0, acts[0].0);
                assert(recs[0].0 == acts[0].0);
            }
            assert forall|i: int| 0 <= i < recs2.len() implies key_lt(
                hk,
                (#[trigger] recs2[i]).0,
            ) by {
                if consume_rec || equal {
                    assert(hk == recs[0].0);
                    assert(recs2[i] == recs[i + 1]);
                } else {
                    assert(hk == acts[0].0);
                    assert(key_lt(hk, recs[0].0));
                    if i > 0 {
                        crate::node_types::lemma_key_lt_trans(hk, recs[0].0, recs[i].0);
                    }
                }
            }
            assert forall|i: int| 0 <= i < acts2.len() implies key_lt(
                hk,
                (#[trigger] acts2[i]).0,
            ) by {
                if consume_rec {
                    assert(hk == recs[0].0);
                    assert(key_lt(hk, acts[0].0));
                    if i > 0 {
                        crate::node_types::lemma_key_lt_trans(hk, acts[0].0, acts[i].0);
                    }
                } else {
                    assert(hk == acts[0].0);
                    assert(acts2[i] == acts[i + 1]);
                }
            }
            lemma_merge_lower_bound(recs2, acts2, hk);
            let tail = merge_leaf(recs2, acts2);
            assert forall|a: int, b: int| 0 <= a < b < m.len() implies key_lt(
                #[trigger] m[a].0,
                #[trigger] m[b].0,
            ) by {
                if a == 0 {
                    assert(m[0] == head[0]);
                    assert(m[b] == tail[b - 1]);
                } else {
                    assert(m[a] == tail[a - 1] && m[b] == tail[b - 1]);
                }
            }
        } else {
            assert(m =~= merge_leaf(recs2, acts2));
        }
    }
}

} // verus!
