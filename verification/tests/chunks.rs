use couchstore::btree_read::{decode_node, encode_pointer, NodeType};
use couchstore::checksum::checksum;
use couchstore::kv_store::CouchKVStoreConfig;
use couchstore::node_types::{key_cmp, KeyOrder};
use couchstore::{CouchstoreError, NodePointer, TreeFile, COUCH_BLOCK_SIZE};

#[test]
fn plain_chunk_round_trips() {
    let mut file = TreeFile::new();
    let body: Vec<u8> = (0u8..200).collect();
    let pos = file.write_chunk(&body, false);
    assert_eq!(pos, 0);
    assert_eq!(file.pread_bin(pos).unwrap(), body);
}

#[test]
fn compressed_chunk_round_trips() {
    let mut file = TreeFile::new();
    let body = vec![42u8; 10_000];
    let pos = file.write_chunk(&body, true);
    let back = file.pread_compressed(pos).unwrap();
    assert_eq!(back, body);
    // a highly repetitive body must actually have been compressed
    assert!(file.data.len() < 1000);
}

#[test]
fn chunks_span_block_boundaries() {
    let mut file = TreeFile::new();
    let body = vec![7u8; 3 * COUCH_BLOCK_SIZE];
    let pos = file.write_chunk(&body, false);
    assert_eq!(file.pread_bin(pos).unwrap(), body);
    // every block begins with the reserved marker byte
    assert_eq!(file.data[0], 0);
    assert_eq!(file.data[COUCH_BLOCK_SIZE], 0);
    assert_eq!(file.data[2 * COUCH_BLOCK_SIZE], 0);
}

#[test]
fn second_chunk_reads_back_too() {
    let mut file = TreeFile::new();
    let a = vec![1u8; 100];
    let b = vec![2u8; 100];
    let pa = file.write_chunk(&a, false);
    let pb = file.write_chunk(&b, false);
    assert_eq!(file.pread_bin(pa).unwrap(), a);
    assert_eq!(file.pread_bin(pb).unwrap(), b);
}

#[test]
fn flipping_any_body_byte_is_detected() {
    let mut file = TreeFile::new();
    let body: Vec<u8> = (0u8..50).collect();
    let pos = file.write_chunk(&body, false);
    // file layout: marker, 8 header bytes, then the body
    let body_start = 9;
    for i in 0..body.len() {
        let orig = file.data[body_start + i];
        file.data[body_start + i] = orig ^ 0xff;
        assert_eq!(
            file.pread_bin(pos),
            Err(CouchstoreError::ChecksumMismatch),
            "corruption at body byte {} must be detected",
            i
        );
        file.data[body_start + i] = orig;
    }
    assert_eq!(file.pread_bin(pos).unwrap(), body);
}

#[test]
fn truncated_chunk_is_detected() {
    let mut file = TreeFile::new();
    assert_eq!(file.pread_bin(0), Err(CouchstoreError::Truncated));
    let body = vec![9u8; 64];
    let pos = file.write_chunk(&body, false);
    file.data.truncate(file.data.len() - 10);
    assert_eq!(file.pread_bin(pos), Err(CouchstoreError::Truncated));
}

#[test]
fn garbage_is_not_a_compressed_chunk() {
    let mut file = TreeFile::new();
    let body = vec![0xffu8; 40]; // not a well-formed snappy stream
    let pos = file.write_chunk(&body, false);
    assert_eq!(
        file.pread_compressed(pos),
        Err(CouchstoreError::Decompression)
    );
}

#[test]
fn header_read_skips_block_marker_and_checks_size() {
    let mut file = TreeFile::new();
    // a header chunk's declared length includes the four CRC bytes
    let body = vec![5u8; 20];
    // lay the chunk down one byte into the block, as pread_header expects
    let pos = file.write_chunk(&body, false);
    assert_eq!(pos, 0);
    assert_eq!(
        file.pread_header(0, Some(2)),
        Err(CouchstoreError::HeaderTooLarge)
    );
}

#[test]
fn crc32c_matches_the_reference_check_value() {
    // the CRC-32C check value for "123456789" from the Castagnoli spec
    assert_eq!(checksum(b"123456789"), 0xE3069283);
}

#[test]
fn node_codec_rejects_bad_tags() {
    assert_eq!(
        decode_node(&vec![7u8]),
        Err(CouchstoreError::InvalidNodeType)
    );
    assert_eq!(decode_node(&Vec::new()), Err(CouchstoreError::Truncated));
    let (t, recs) = decode_node(&vec![1u8]).unwrap();
    assert_eq!(t, NodeType::KVNode);
    assert!(recs.is_empty());
    // a record that runs past the region's end is corrupt
    assert_eq!(
        decode_node(&vec![1u8, 0, 16, 0, 0, 5]),
        Err(CouchstoreError::Truncated)
    );
}

#[test]
fn pointer_encoding_rejects_oversized_offsets() {
    let np = NodePointer { pointer: 1 << 48, reduce_value: Vec::new() };
    assert_eq!(encode_pointer(&np), Err(CouchstoreError::OffsetTooLarge));
    let ok = NodePointer { pointer: 0x0123_4567_89ab, reduce_value: vec![0xee] };
    assert_eq!(
        encode_pointer(&ok).unwrap(),
        vec![0x01, 0x23, 0x45, 0x67, 0x89, 0xab, 0xee]
    );
}

#[test]
fn keys_compare_byte_lexicographically() {
    assert!(matches!(key_cmp(&b"a".to_vec(), &b"b".to_vec()), KeyOrder::Less));
    assert!(matches!(key_cmp(&b"b".to_vec(), &b"a".to_vec()), KeyOrder::Greater));
    assert!(matches!(key_cmp(&b"ab".to_vec(), &b"ab".to_vec()), KeyOrder::Equal));
    assert!(matches!(key_cmp(&b"a".to_vec(), &b"ab".to_vec()), KeyOrder::Less));
    assert!(matches!(key_cmp(&b"ab".to_vec(), &b"a".to_vec()), KeyOrder::Greater));
    assert!(matches!(key_cmp(&Vec::new(), &b"a".to_vec()), KeyOrder::Less));
}

#[test]
fn cache_size_is_the_vbucket_count_rounded_up_per_shard() {
    let c = CouchKVStoreConfig {
        max_vbuckets: 1024,
        db_name: String::from("db"),
        max_shards: 1,
        shard_id: 0,
    };
    assert_eq!(c.get_cache_size(), 1024);
    let c3 = CouchKVStoreConfig {
        max_vbuckets: 1024,
        db_name: String::from("db"),
        max_shards: 3,
        shard_id: 0,
    };
    assert_eq!(c3.get_cache_size(), 342);
}

#[test]
fn reader_steps_over_a_trailing_block_marker() {
    let mut file = TreeFile::from_bytes(vec![9u8; 2 * COUCH_BLOCK_SIZE]);
    // a read ending exactly at a block boundary has already skipped the
    // following marker byte, so the returned position never rests on one
    let (pos, bytes) = file.read_skipping_prefixes(0, COUCH_BLOCK_SIZE - 1);
    assert_eq!(bytes.len(), COUCH_BLOCK_SIZE - 1);
    assert_eq!(pos, COUCH_BLOCK_SIZE + 1);
    // a short read in the middle of a block stops right after its bytes
    let (pos2, bytes2) = file.read_skipping_prefixes(0, 10);
    assert_eq!(bytes2.len(), 10);
    assert_eq!(pos2, 11);
}

#[test]
fn short_values_leave_the_cascade_batch_unchanged() {
    let mut ctx = couchstore::btree_modify::UpdateIdContext { seq_actions: Vec::new() };
    ctx.push_seq_removal(&b"12345".to_vec());
    assert!(ctx.seq_actions.is_empty());
    ctx.push_seq_removal(&b"123456".to_vec());
    assert_eq!(ctx.seq_actions.len(), 1);
    assert_eq!(ctx.seq_actions[0].key, b"123456".to_vec());
}
