//! The record codec: one node body is a type tag byte followed by a
//! sequence of records, each a five-byte packed prefix (a 12-bit key
//! length and a 28-bit value length, big-endian) followed by the key and
//! the value bytes.  Keys are compared byte-lexicographically.

#![allow(unused_imports)]
use vstd::prelude::*;

use crate::CouchstoreError;

verus! {

/// Largest key the 12-bit key-length field can frame.
pub const MAX_KEY_SIZE: usize = 4095;

/// Largest value the 28-bit value-length field can frame.
pub const MAX_VALUE_SIZE: usize = 0x0fff_ffff;

/// Per-record framing overhead: the five-byte packed length prefix.
pub const RECORD_OVERHEAD: usize = 5;

/// The five packed prefix bytes framing a record with the given key and
/// value lengths.
pub open spec fn prefix_bytes(klen: u32, vlen: u32) -> Seq<u8> {
    seq![
        (klen >> 4) as u8,
        (((klen & 0xf) << 4) | (vlen >> 24)) as u8,
        (vlen >> 16) as u8,
        (vlen >> 8) as u8,
        vlen as u8,
    ]
}

/// The key length framed by a record region's first five bytes.
pub open spec fn spec_klen(b: Seq<u8>) -> u32 {
    ((b[0] as u32) << 4) | ((b[1] as u32) >> 4)
}

/// The value length framed by a record region's first five bytes.
pub open spec fn spec_vlen(b: Seq<u8>) -> u32 {
    (((b[1] as u32) & 0xf) << 24) | ((b[2] as u32) << 16) | ((b[3] as u32) << 8) | (b[4] as u32)
}

/// Whether the record codec can frame this key and value at all.
pub open spec fn valid_record(key: Seq<u8>, val: Seq<u8>) -> bool {
    key.len() <= MAX_KEY_SIZE && val.len() <= MAX_VALUE_SIZE
}

/// The encoded bytes of one record.
pub open spec fn record_bytes(key: Seq<u8>, val: Seq<u8>) -> Seq<u8> {
    prefix_bytes(key.len() as u32, val.len() as u32) + key + val
}

/// The encoded bytes of a record sequence, in order.
pub open spec fn records_bytes(recs: Seq<(Seq<u8>, Seq<u8>)>) -> Seq<u8>
    decreases recs.len(),
{
    if recs.len() == 0 {
        Seq::<u8>::empty()
    } else {
        record_bytes(recs[0].0, recs[0].1) + records_bytes(recs.skip(1))
    }
}

/// Whether every record of the sequence can be framed.
pub open spec fn valid_records(recs: Seq<(Seq<u8>, Seq<u8>)>) -> bool {
    forall|i: int| 0 <= i < recs.len() ==> valid_record(#[trigger] recs[i].0, recs[i].1)
}

/// The records framed by a record region, front to back; `None` when
/// the region is cut short or a record runs past its end.
pub open spec fn parse_records(b: Seq<u8>) -> Option<Seq<(Seq<u8>, Seq<u8>)>>
    decreases b.len(),
{
    if b.len() == 0 {
        Some(Seq::<(Seq<u8>, Seq<u8>)>::empty())
    } else if b.len() < 5 {
        None
    } else {
        let klen = spec_klen(b) as int;
        let vlen = spec_vlen(b) as int;
        if b.len() < 5 + klen + vlen {
            None
        } else {
            let key = b.subrange(5, 5 + klen);
            let val = b.subrange(5 + klen, 5 + klen + vlen);
            match parse_records(b.skip(5 + klen + vlen)) {
                Some(rest) => Some(seq![(key, val)] + rest),
                None => None,
            }
        }
    }
}

/// The record views of a vector of decoded records.
pub open spec fn kvs_view(s: Seq<(Vec<u8>, Vec<u8>)>) -> Seq<(Seq<u8>, Seq<u8>)> {
    s.map_values(|p: (Vec<u8>, Vec<u8>)| (p.0@, p.1@))
}

/// The packed prefix frames back exactly the lengths it was built from.
pub proof fn lemma_prefix_roundtrip(k: u32, v: u32)
    requires
        k < 4096,
        v < 0x1000_0000,
    ensures
        spec_klen(prefix_bytes(k, v)) == k,
        spec_vlen(prefix_bytes(k, v)) == v,
{
    let b0 = (k >> 4) as u8;
    let b1 = (((k & 0xf) << 4) | (v >> 24)) as u8;
    let b2 = (v >> 16) as u8;
    let b3 = (v >> 8) as u8;
    let b4 = v as u8;
    assert((((b0 as u32) << 4) | ((b1 as u32) >> 4)) == k) by (bit_vector)
        requires
            b0 == (k >> 4) as u8,
            b1 == (((k & 0xf) << 4) | (v >> 24)) as u8,
            k < 4096,
            v < 0x1000_0000,
    ;
    assert(((((b1 as u32) & 0xf) << 24) | ((b2 as u32) << 16) | ((b3 as u32) << 8) | (b4 as u32))
        == v) by (bit_vector)
        requires
            b1 == (((k & 0xf) << 4) | (v >> 24)) as u8,
            b2 == (v >> 16) as u8,
            b3 == (v >> 8) as u8,
            b4 == v as u8,
            v < 0x1000_0000,
    ;
    let pfx = prefix_bytes(k, v);
    assert(pfx[0] == b0 && pfx[1] == b1 && pfx[2] == b2 && pfx[3] == b3 && pfx[4] == b4);
}

/// Parsing a region that begins with one well-formed record yields that
/// record and then whatever the rest of the region parses to.
pub proof fn lemma_parse_record_prepend(key: Seq<u8>, val: Seq<u8>, rest: Seq<u8>)
    requires
        valid_record(key, val),
    ensures
        parse_records(record_bytes(key, val) + rest) == match parse_records(rest) {
            Some(rs) => Some(seq![(key, val)] + rs),
            None => None::<Seq<(Seq<u8>, Seq<u8>)>>,
        },
{
    let b = record_bytes(key, val) + rest;
    let klen = key.len() as int;
    let vlen = val.len() as int;
    lemma_prefix_roundtrip(key.len() as u32, val.len() as u32);
    let pfx = prefix_bytes(key.len() as u32, val.len() as u32);
    assert(b.len() == 5 + klen + vlen + rest.len());
    assert(b[0] == pfx[0] && b[1] == pfx[1] && b[2] == pfx[2] && b[3] == pfx[3] && b[4] == pfx[4]);
    assert(seq![b[0], b[1], b[2], b[3], b[4]] =~= pfx);
    assert(spec_klen(b) == spec_klen(pfx) && spec_vlen(b) == spec_vlen(pfx));
    assert(b.subrange(5, 5 + klen) =~= key);
    assert(b.subrange(5 + klen, 5 + klen + vlen) =~= val);
    assert(b.skip(5 + klen + vlen) =~= rest);
}

/// Serialization and parsing of record sequences invert each other.
#[verifier::rlimit(100)]
pub proof fn lemma_parse_serialize(recs: Seq<(Seq<u8>, Seq<u8>)>)
    requires
        valid_records(recs),
    ensures
        parse_records(records_bytes(recs)) == Some(recs),
    decreases recs.len(),
{
    if recs.len() == 0 {
        assert(records_bytes(recs).len() == 0);
        assert(parse_records(records_bytes(recs)) == Some(Seq::<(Seq<u8>, Seq<u8>)>::empty()));
        assert(recs =~= Seq::<(Seq<u8>, Seq<u8>)>::empty());
    } else {
        lemma_parse_serialize(recs.skip(1));
        lemma_parse_record_prepend(recs[0].0, recs[0].1, records_bytes(recs.skip(1)));
        assert(seq![(recs[0].0, recs[0].1)] + recs.skip(1) =~= recs);
    }
}

/// Byte-lexicographic strict order on keys.
pub open spec fn key_lt(a: Seq<u8>, b: Seq<u8>) -> bool
    decreases a.len(),
{
    if b.len() == 0 {
        false
    } else if a.len() == 0 {
        true
    } else if a[0] < b[0] {
        true
    } else if a[0] > b[0] {
        false
    } else {
        key_lt(a.skip(1), b.skip(1))
    }
}

/// Two keys with a common prefix compare as their remainders do.
pub proof fn lemma_key_lt_common_prefix(a: Seq<u8>, b: Seq<u8>, i: int)
    requires
        0 <= i <= a.len(),
        i <= b.len(),
        a.take(i) == b.take(i),
    ensures
        key_lt(a, b) == key_lt(a.skip(i), b.skip(i)),
    decreases i,
{
    if i > 0 {
        assert(a.take(i)[0] == b.take(i)[0]);
        assert(a.take(i)[0] == a[0]);
        assert(b.take(i)[0] == b[0]);
        assert(a[0] == b[0]);
        assert(a.len() > 0 && b.len() > 0);
        assert(a.skip(1).take(i - 1) =~= a.take(i).skip(1));
        assert(b.skip(1).take(i - 1) =~= b.take(i).skip(1));
        lemma_key_lt_common_prefix(a.skip(1), b.skip(1), i - 1);
        assert(a.skip(1).skip(i - 1) =~= a.skip(i));
        assert(b.skip(1).skip(i - 1) =~= b.skip(i));
    } else {
        assert(a.skip(0) =~= a);
        assert(b.skip(0) =~= b);
    }
}

/// The key order is total: any two keys are ordered or equal.
pub proof fn lemma_key_lt_total(a: Seq<u8>, b: Seq<u8>)
    ensures
        key_lt(a, b) || key_lt(b, a) || a == b,
    decreases a.len(),
{
    if b.len() == 0 {
        if a.len() == 0 {
            assert(a =~= b);
        }
    } else if a.len() == 0 {
    } else if a[0] == b[0] {
        lemma_key_lt_total(a.skip(1), b.skip(1));
        if a.skip(1) == b.skip(1) {
            assert(a.skip(1).len() == a.len() - 1);
            assert(b.skip(1).len() == b.len() - 1);
            assert(a.len() == b.len());
            assert forall|j: int| 0 <= j < a.len() implies a[j] == b[j] by {
                if j > 0 {
                    assert(a[j] == a.skip(1)[j - 1]);
                    assert(b[j] == b.skip(1)[j - 1]);
                }
            }
            assert(a =~= b);
        }
    }
}

/// The key order is strict: a key below another is neither equal to it
/// nor above it.
pub proof fn lemma_key_lt_asymm(a: Seq<u8>, b: Seq<u8>)
    requires
        key_lt(a, b),
    ensures
        !key_lt(b, a),
        a != b,
    decreases a.len(),
{
    if a.len() != 0 && b.len() != 0 && a[0] == b[0] {
        lemma_key_lt_asymm(a.skip(1), b.skip(1));
        if a == b {
            assert(a.skip(1) =~= b.skip(1));
        }
    } else if a.len() == 0 {
        if a == b {
            assert(b.len() == 0);
        }
    }
}

/// The key order is transitive.
pub proof fn lemma_key_lt_trans(a: Seq<u8>, b: Seq<u8>, c: Seq<u8>)
    requires
        key_lt(a, b),
        key_lt(b, c),
    ensures
        key_lt(a, c),
    decreases a.len() + b.len() + c.len(),
{
    if b.len() == 0 {
    } else if c.len() == 0 {
    } else if a.len() == 0 {
    } else {
        if a[0] == b[0] && b[0] == c[0] {
            lemma_key_lt_trans(a.skip(1), b.skip(1), c.skip(1));
        }
    }
}

/// The outcome of one byte-lexicographic key comparison.
#[derive(Clone, Copy, Debug, PartialEq, Eq, Structural)]
pub enum KeyOrder {
    Less,
    Equal,
    Greater,
}

/// Compares two keys byte-lexicographically.
pub fn key_cmp(a: &Vec<u8>, b: &Vec<u8>) -> (r: KeyOrder)
    ensures
        r is Less <==> key_lt(a@, b@),
        r is Equal <==> a@ == b@,
        r is Greater <==> key_lt(b@, a@),
{
    let alen = a.len();
    let blen = b.len();
    let min: usize = if alen < blen { alen } else { blen };
    let mut i: usize = 0;
    while i < min
        invariant
            i <= min,
            min <= a@.len() && min <= b@.len(),
            a@.take(i as int) == b@.take(i as int),
        decreases min - i,
    {
        let x = a[i];
        let y = b[i];
        if x != y {
            proof {
                lemma_key_lt_common_prefix(a@, b@, i as int);
                lemma_key_lt_common_prefix(b@, a@, i as int);
                assert(a@.skip(i as int)[0] == x && b@.skip(i as int)[0] == y);
                if a@ == b@ {
                    assert(a@[i as int] == b@[i as int]);
                }
            }
            if x < y {
                return KeyOrder::Less;
            } else {
                return KeyOrder::Greater;
            }
        }
        proof {
            assert(a@.take(i as int + 1) =~= b@.take(i as int + 1));
        }
        i = i + 1;
    }
    proof {
        lemma_key_lt_common_prefix(a@, b@, min as int);
        lemma_key_lt_common_prefix(b@, a@, min as int);
        if alen == blen {
            assert(a@.take(min as int) =~= a@);
            assert(b@.take(min as int) =~= b@);
            assert(a@ =~= b@);
        } else if alen < blen {
            assert(a@.skip(min as int).len() == 0 && b@.skip(min as int).len() > 0);
            if a@ == b@ {
                assert(a@.len() == b@.len());
            }
        } else {
            assert(b@.skip(min as int).len() == 0 && a@.skip(min as int).len() > 0);
            if a@ == b@ {
                assert(a@.len() == b@.len());
            }
        }
    }
    if alen < blen {
        KeyOrder::Less
    } else if alen > blen {
        KeyOrder::Greater
    } else {
        KeyOrder::Equal
    }
}

/// Copies `b[start..end]` into a fresh vector.
pub fn copy_range(b: &Vec<u8>, start: usize, end: usize) -> (r: Vec<u8>)
    requires
        start <= end <= b@.len(),
    ensures
        r@ == b@.subrange(start as int, end as int),
{
    let mut out: Vec<u8> = Vec::new();
    let mut i: usize = start;
    while i < end
        invariant
            start <= i <= end,
            out@ == b@.subrange(start as int, i as int),
        decreases end - i,
    {
        proof {
            assert(b@.subrange(start as int, i as int).push(b@[i as int]) =~= b@.subrange(
                start as int,
                i as int + 1,
            ));
        }
        out.push(b[i]);
        i = i + 1;
    }
    out
}

/// Decodes every record of the region `buf[start..]`; a record that
/// runs past the end of the region is a fatal corruption.
pub fn decode_records(buf: &Vec<u8>, start: usize) -> (r: Result<
    Vec<(Vec<u8>, Vec<u8>)>,
    CouchstoreError,
>)
    requires
        start <= buf@.len(),
    ensures
        match r {
            Ok(v) => parse_records(buf@.skip(start as int)) == Some(kvs_view(v@)),
            Err(e) => parse_records(buf@.skip(start as int)) is None && e
                == CouchstoreError::Truncated,
        },
{
    let mut out: Vec<(Vec<u8>, Vec<u8>)> = Vec::new();
    let mut cur: usize = start;
    proof {
        assert(kvs_view(out@) =~= Seq::<(Seq<u8>, Seq<u8>)>::empty());
    }
    while cur < buf.len()
        invariant
            start <= cur <= buf@.len(),
            parse_records(buf@.skip(start as int)) == match parse_records(buf@.skip(cur as int)) {
                Some(rest) => Some(kvs_view(out@) + rest),
                None => None::<Seq<(Seq<u8>, Seq<u8>)>>,
            },
        decreases buf@.len() - cur,
    {
        let ghost region = buf@.skip(cur as int);
        if buf.len() - cur < 5 {
            return Err(CouchstoreError::Truncated);
        }
        proof {
            assert(region[0] == buf@[cur as int]);
            assert(region[1] == buf@[cur as int + 1]);
            assert(region[2] == buf@[cur as int + 2]);
            assert(region[3] == buf@[cur as int + 3]);
            assert(region[4] == buf@[cur as int + 4]);
        }
        let klen: usize = (((buf[cur] as u32) << 4u32) | ((buf[cur + 1] as u32) >> 4u32)) as usize;
        let vlen: usize = ((((buf[cur + 1] as u32) & 0xf) << 24u32) | ((buf[cur + 2] as u32)
            << 16u32) | ((buf[cur + 3] as u32) << 8u32) | (buf[cur + 4] as u32)) as usize;
        proof {
            let r0 = region[0];
            let r1 = region[1];
            let r2 = region[2];
            let r3 = region[3];
            let r4 = region[4];
            assert(klen == spec_klen(region) && vlen == spec_vlen(region));
            assert((((r0 as u32) << 4) | ((r1 as u32) >> 4)) < 4096) by (bit_vector);
            assert(((((r1 as u32) & 0xf) << 24) | ((r2 as u32) << 16) | ((r3 as u32) << 8) | (
            r4 as u32)) < 0x1000_0000) by (bit_vector);
            assert(spec_klen(region) == (((r0 as u32) << 4) | ((r1 as u32) >> 4)));
        }
        if buf.len() - cur - 5 < klen || buf.len() - cur - 5 - klen < vlen {
            proof {
                assert(region.len() < 5 + klen + vlen);
            }
            return Err(CouchstoreError::Truncated);
        }
        let key = copy_range(buf, cur + 5, cur + 5 + klen);
        let val = copy_range(buf, cur + 5 + klen, cur + 5 + klen + vlen);
        proof {
            assert(key@ =~= region.subrange(5, 5 + klen as int));
            assert(val@ =~= region.subrange(5 + klen as int, 5 + klen as int + vlen as int));
            assert(region.skip(5 + klen as int + vlen as int) =~= buf@.skip(
                cur as int + 5 + klen as int + vlen as int,
            ));
            assert(kvs_view(out@.push((key, val))) =~= kvs_view(out@) + seq![(key@, val@)]);
            if parse_records(buf@.skip(cur as int + 5 + klen as int + vlen as int)) is Some {
                let rest = parse_records(
                    buf@.skip(cur as int + 5 + klen as int + vlen as int),
                )->Some_0;
                assert((kvs_view(out@) + seq![(key@, val@)]) + rest =~= kvs_view(out@) + (seq![
                    (key@, val@),
                ] + rest));
            }
        }
        out.push((key, val));
        cur = cur + 5 + klen + vlen;
    }
    proof {
        assert(buf@.skip(cur as int).len() == 0);
        assert(kvs_view(out@) + Seq::<(Seq<u8>, Seq<u8>)>::empty() =~= kvs_view(out@));
    }
    Ok(out)
}

} // verus!
