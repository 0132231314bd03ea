use couchstore::btree_modify::{
    CouchfileModifyAction, CouchfileModifyActionType, CouchfileModifyRequest, Modifier,
    UpdateIdContext,
};
use couchstore::{CouchstoreError, NodePointer, TreeFile};

struct NoopCtx;

impl Modifier for NoopCtx {
    fn on_fetch(&mut self, _key: &Vec<u8>, _value: &Vec<u8>) {}
    fn on_fetch_miss(&mut self, _key: &Vec<u8>) {}
}

struct RecordingCtx {
    hits: Vec<(Vec<u8>, Vec<u8>)>,
    misses: Vec<Vec<u8>>,
}

impl Modifier for RecordingCtx {
    fn on_fetch(&mut self, key: &Vec<u8>, value: &Vec<u8>) {
        self.hits.push((key.clone(), value.clone()));
    }
    fn on_fetch_miss(&mut self, key: &Vec<u8>) {
        self.misses.push(key.clone());
    }
}

fn act(key: &str, data: Option<&str>, kind: CouchfileModifyActionType) -> CouchfileModifyAction {
    CouchfileModifyAction {
        key: key.as_bytes().to_vec(),
        data: data.map(|d| d.as_bytes().to_vec()),
        action_type: kind,
    }
}

fn req<C>(actions: Vec<CouchfileModifyAction>, context: C) -> CouchfileModifyRequest<C> {
    CouchfileModifyRequest {
        actions,
        context,
        kv_chunk_threshold: 1279,
        kp_chunk_threshold: 1279,
    }
}

fn records(file: &mut TreeFile, root: &Option<NodePointer>) -> Vec<(Vec<u8>, Vec<u8>)> {
    file.traverse(root).expect("traversal failed")
}

#[test]
fn insert_three_then_remove_and_insert() {
    let mut file = TreeFile::new();
    let mut r = req(
        vec![
            act("a", Some("1"), CouchfileModifyActionType::Insert),
            act("b", Some("2"), CouchfileModifyActionType::Insert),
            act("c", Some("3"), CouchfileModifyActionType::Insert),
        ],
        NoopCtx,
    );
    let root = file.modify_btree(&mut r, None).unwrap();
    assert!(root.is_some());

    // the new root is a leaf holding exactly those three records in order
    let chunk = file
        .pread_compressed(root.as_ref().unwrap().pointer as usize)
        .unwrap();
    assert_eq!(chunk[0], 1, "root must be a leaf node");
    let recs = records(&mut file, &root);
    assert_eq!(
        recs,
        vec![
            (b"a".to_vec(), b"1".to_vec()),
            (b"b".to_vec(), b"2".to_vec()),
            (b"c".to_vec(), b"3".to_vec()),
        ]
    );

    let mut r2 = req(
        vec![
            act("b", None, CouchfileModifyActionType::Remove),
            act("d", Some("4"), CouchfileModifyActionType::Insert),
        ],
        NoopCtx,
    );
    let root2 = file.modify_btree(&mut r2, root).unwrap();
    let recs2 = records(&mut file, &root2);
    assert_eq!(
        recs2,
        vec![
            (b"a".to_vec(), b"1".to_vec()),
            (b"c".to_vec(), b"3".to_vec()),
            (b"d".to_vec(), b"4".to_vec()),
        ]
    );
}

#[test]
fn fetch_insert_reports_old_value_and_replaces() {
    let mut file = TreeFile::new();
    let mut r = req(
        vec![act("a", Some("1"), CouchfileModifyActionType::Insert)],
        NoopCtx,
    );
    let root = file.modify_btree(&mut r, None).unwrap();

    let mut r2 = req(
        vec![act("a", Some("9"), CouchfileModifyActionType::FetchInsert)],
        RecordingCtx { hits: Vec::new(), misses: Vec::new() },
    );
    let root2 = file.modify_btree(&mut r2, root).unwrap();
    assert_eq!(r2.context.hits, vec![(b"a".to_vec(), b"1".to_vec())]);
    assert!(r2.context.misses.is_empty());
    let recs = records(&mut file, &root2);
    assert_eq!(recs, vec![(b"a".to_vec(), b"9".to_vec())]);
}

#[test]
fn fetch_miss_reports_absent_key() {
    let mut file = TreeFile::new();
    let mut r = req(
        vec![act("a", Some("1"), CouchfileModifyActionType::Insert)],
        NoopCtx,
    );
    let root = file.modify_btree(&mut r, None).unwrap();

    let mut r2 = req(
        vec![act("zz", None, CouchfileModifyActionType::Fetch)],
        RecordingCtx { hits: Vec::new(), misses: Vec::new() },
    );
    let root2 = file.modify_btree(&mut r2, root).unwrap();
    assert!(r2.context.hits.is_empty());
    assert_eq!(r2.context.misses, vec![b"zz".to_vec()]);
    // a pure fetch modifies nothing
    let recs = records(&mut file, &root2);
    assert_eq!(recs, vec![(b"a".to_vec(), b"1".to_vec())]);
}

#[test]
fn round_trip_inserted_values_are_fetched_back() {
    let mut file = TreeFile::new();
    let mut actions = Vec::new();
    for i in 0..50u32 {
        let k = format!("key{:04}", i);
        let v = format!("value{}", i);
        actions.push(act(&k, Some(&v), CouchfileModifyActionType::Insert));
    }
    let mut r = req(actions, NoopCtx);
    let root = file.modify_btree(&mut r, None).unwrap();

    let mut fetches = Vec::new();
    for i in 0..50u32 {
        let k = format!("key{:04}", i);
        fetches.push(act(&k, None, CouchfileModifyActionType::Fetch));
    }
    let mut r2 = req(fetches, RecordingCtx { hits: Vec::new(), misses: Vec::new() });
    file.modify_btree(&mut r2, root).unwrap();
    assert!(r2.context.misses.is_empty());
    assert_eq!(r2.context.hits.len(), 50);
    for i in 0..50usize {
        let k = format!("key{:04}", i).into_bytes();
        let v = format!("value{}", i).into_bytes();
        assert_eq!(r2.context.hits[i], (k, v));
    }
}

#[test]
fn removing_absent_key_keeps_root_and_file() {
    let mut file = TreeFile::new();
    let mut r = req(
        vec![
            act("a", Some("1"), CouchfileModifyActionType::Insert),
            act("c", Some("3"), CouchfileModifyActionType::Insert),
        ],
        NoopCtx,
    );
    let root = file.modify_btree(&mut r, None).unwrap();
    let root_ptr = root.as_ref().unwrap().pointer;
    let size_before = file.data.len();

    let mut r2 = req(vec![act("b", None, CouchfileModifyActionType::Remove)], NoopCtx);
    let root2 = file.modify_btree(&mut r2, root).unwrap();
    assert_eq!(root2.as_ref().unwrap().pointer, root_ptr);
    assert_eq!(file.data.len(), size_before, "no I/O for an unmodified tree");
}

#[test]
fn removing_every_key_empties_the_root() {
    let mut file = TreeFile::new();
    let mut r = req(
        vec![act("a", Some("1"), CouchfileModifyActionType::Insert)],
        NoopCtx,
    );
    let root = file.modify_btree(&mut r, None).unwrap();
    let mut r2 = req(vec![act("a", None, CouchfileModifyActionType::Remove)], NoopCtx);
    let root2 = file.modify_btree(&mut r2, root).unwrap();
    assert!(root2.is_none());
}

#[test]
fn oversized_batch_splits_into_taller_tree() {
    let mut file = TreeFile::new();
    let mut actions = Vec::new();
    let n = 200u32;
    for i in 0..n {
        let k = format!("key{:06}", i);
        let v = format!("{:0>64}", i); // 64-byte values: far over one node's quota
        actions.push(act(&k, Some(&v), CouchfileModifyActionType::Insert));
    }
    let mut r = req(actions, NoopCtx);
    let root = file.modify_btree(&mut r, None).unwrap();

    // the root must now be an internal node: height at least two
    let chunk = file
        .pread_compressed(root.as_ref().unwrap().pointer as usize)
        .unwrap();
    assert_eq!(chunk[0], 0, "root must be an internal node after a split");

    // traversal still yields exactly the n records, in order, no loss
    let recs = records(&mut file, &root);
    assert_eq!(recs.len(), n as usize);
    for i in 0..n as usize {
        assert_eq!(recs[i].0, format!("key{:06}", i).into_bytes());
        assert_eq!(recs[i].1, format!("{:0>64}", i).into_bytes());
    }
    let mut sorted = recs.clone();
    sorted.sort();
    sorted.dedup();
    assert_eq!(sorted.len(), n as usize, "no duplicates or omissions");

    // and a second batch against the taller tree still works
    let mut r2 = req(
        vec![act("key000100", None, CouchfileModifyActionType::Remove)],
        NoopCtx,
    );
    let root2 = file.modify_btree(&mut r2, root).unwrap();
    let recs2 = records(&mut file, &root2);
    assert_eq!(recs2.len(), n as usize - 1);
    assert!(!recs2.iter().any(|(k, _)| k == b"key000100"));
}

#[test]
fn update_id_context_cascades_removals() {
    let mut ctx = UpdateIdContext { seq_actions: Vec::new() };
    ctx.on_fetch(&b"doc1".to_vec(), &b"seq001-rest-of-value".to_vec());
    assert_eq!(ctx.seq_actions.len(), 1);
    assert_eq!(ctx.seq_actions[0].key, b"seq001"[..6].to_vec());
    assert!(ctx.seq_actions[0].data.is_none());
    assert_eq!(
        ctx.seq_actions[0].action_type,
        CouchfileModifyActionType::Remove
    );
}

#[test]
fn tree_deeper_than_the_limit_is_corrupt() {
    // an internal node whose single child pointer is itself: a cycle
    let mut file = TreeFile::new();
    let pos = file.data.len() as u64;
    let mut body = vec![0u8]; // internal node tag
    // one record: key "k", value = 6-byte pointer to this very chunk
    let key = b"k";
    let val = [
        (pos >> 40) as u8,
        (pos >> 32) as u8,
        (pos >> 24) as u8,
        (pos >> 16) as u8,
        (pos >> 8) as u8,
        pos as u8,
    ];
    let klen = key.len() as u32;
    let vlen = val.len() as u32;
    body.push((klen >> 4) as u8);
    body.push((((klen & 0xf) << 4) | (vlen >> 24)) as u8);
    body.push((vlen >> 16) as u8);
    body.push((vlen >> 8) as u8);
    body.push(vlen as u8);
    body.extend_from_slice(key);
    body.extend_from_slice(&val);
    let written = file.write_chunk(&body, true);
    assert_eq!(written as u64, pos);
    let root = Some(NodePointer { pointer: pos, reduce_value: Vec::new() });
    assert_eq!(file.traverse(&root), Err(CouchstoreError::TreeTooDeep));
}
