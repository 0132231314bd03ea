//! The paged file codec: the block layer, which maps between the raw
//! byte store (whose every block begins with one reserved marker byte)
//! and the uncut payload stream, and the chunk layer, which reads and
//! writes one length-framed, CRC32C-checksummed, optionally compressed
//! unit at a given position.

#![allow(unused_imports)]
use vstd::prelude::*;

use crate::checksum::{checksum, crc32c_of};
use crate::compress::{snap_compress, snap_decompress, snappy_compress, snappy_decompress};
use crate::{CouchstoreError, NodePointer, TreeFile, COUCH_BLOCK_SIZE};

verus! {

/// The payload bytes obtained by reading up to `len` bytes from the
/// marker-framed store `data`, starting at physical position `pos`:
/// whenever the running position lands exactly on a block boundary, one
/// marker byte is skipped before the next payload byte.  The result is
/// shorter than `len` exactly when the store is exhausted first.
pub open spec fn payload_read(data: Seq<u8>, pos: int, len: nat) -> Seq<u8>
    decreases len,
{
    if len == 0 {
        Seq::<u8>::empty()
    } else {
        let p = if pos % (COUCH_BLOCK_SIZE as int) == 0 { pos + 1 } else { pos };
        if p < 0 || p >= data.len() {
            Seq::<u8>::empty()
        } else {
            seq![data[p]] + payload_read(data, p + 1, (len - 1) as nat)
        }
    }
}

/// The physical position at which a `payload_read` of the same
/// arguments stops.  The check-and-skip applies before the first byte
/// and after the last one alike, so the returned position never rests
/// on a block boundary: a read that ends exactly at one has already
/// stepped over the following marker byte.
pub open spec fn payload_end(data: Seq<u8>, pos: int, len: nat) -> int
    decreases len,
{
    let p = if pos % (COUCH_BLOCK_SIZE as int) == 0 { pos + 1 } else { pos };
    if len == 0 {
        p
    } else if p < 0 || p >= data.len() {
        p
    } else {
        payload_end(data, p + 1, (len - 1) as nat)
    }
}

/// The store after appending `bytes` to the payload stream at the end of
/// `data`: one marker byte is laid down at every block boundary crossed.
pub open spec fn payload_append(data: Seq<u8>, bytes: Seq<u8>) -> Seq<u8>
    decreases bytes.len(),
{
    if bytes.len() == 0 {
        data
    } else {
        let d = if data.len() as int % (COUCH_BLOCK_SIZE as int) == 0 { data.push(0u8) } else { data };
        payload_append(d.push(bytes[0]), bytes.skip(1))
    }
}

/// The store only grows under `payload_append`.
pub proof fn lemma_append_prefix(data: Seq<u8>, bytes: Seq<u8>)
    ensures
        data.is_prefix_of(payload_append(data, bytes)),
        payload_append(data, bytes).len() >= data.len() + bytes.len(),
    decreases bytes.len(),
{
    if bytes.len() != 0 {
        let d = if data.len() as int % (COUCH_BLOCK_SIZE as int) == 0 { data.push(0u8) } else { data };
        lemma_append_prefix(d.push(bytes[0]), bytes.skip(1));
        assert(data.is_prefix_of(d.push(bytes[0])));
    }
}

/// Reading back what `payload_append` laid down, starting at the old end
/// of the store, yields exactly the appended bytes and stops at the new
/// end of the store.
pub proof fn lemma_append_then_read(data: Seq<u8>, bytes: Seq<u8>)
    ensures
        payload_read(payload_append(data, bytes), data.len() as int, bytes.len() as nat) == bytes,
        payload_end(payload_append(data, bytes), data.len() as int, bytes.len() as nat) == (
        if payload_append(data, bytes).len() as int % (COUCH_BLOCK_SIZE as int) == 0 {
            payload_append(data, bytes).len() as int + 1
        } else {
            payload_append(data, bytes).len() as int
        }),
    decreases bytes.len(),
{
    let b = COUCH_BLOCK_SIZE as int;
    if bytes.len() != 0 {
        let d = if data.len() as int % b == 0 { data.push(0u8) } else { data };
        let d2 = d.push(bytes[0]);
        let fin = payload_append(d2, bytes.skip(1));
        lemma_append_prefix(d2, bytes.skip(1));
        lemma_append_then_read(d2, bytes.skip(1));
        let p = if data.len() as int % b == 0 { data.len() as int + 1 } else { data.len() as int };
        assert(p == d2.len() - 1);
        assert(fin[d2.len() - 1] == d2[d2.len() - 1]);
        assert(fin[p] == bytes[0]);
        assert(payload_read(fin, data.len() as int, bytes.len() as nat)
            =~= seq![bytes[0]] + payload_read(fin, d2.len() as int, bytes.skip(1).len() as nat));
        assert(seq![bytes[0]] + bytes.skip(1) =~= bytes);
    }
}

/// A payload read never returns more bytes than were asked for.
pub proof fn lemma_payload_read_len(data: Seq<u8>, pos: int, len: nat)
    ensures
        payload_read(data, pos, len).len() <= len,
    decreases len,
{
    if len != 0 {
        let b = COUCH_BLOCK_SIZE as int;
        let p = if pos % b == 0 { pos + 1 } else { pos };
        if 0 <= p && p < data.len() {
            lemma_payload_read_len(data, p + 1, (len - 1) as nat);
        }
    }
}

/// A complete payload read is unaffected by later appends to the store.
pub proof fn lemma_read_stable(data: Seq<u8>, data2: Seq<u8>, pos: int, len: nat)
    requires
        data.is_prefix_of(data2),
        payload_read(data, pos, len).len() == len,
    ensures
        payload_read(data2, pos, len) == payload_read(data, pos, len),
        payload_end(data2, pos, len) == payload_end(data, pos, len),
    decreases len,
{
    if len != 0 {
        let b = COUCH_BLOCK_SIZE as int;
        let p = if pos % b == 0 { pos + 1 } else { pos };
        assert(0 <= p && p < data.len());
        assert(data2[p] == data[p]);
        assert(payload_read(data, p + 1, (len - 1) as nat).len() == len - 1);
        lemma_read_stable(data, data2, p + 1, (len - 1) as nat);
        assert(payload_read(data2, pos, len) =~= payload_read(data, pos, len));
    }
}

/// A complete read of `a + b` bytes splits into a complete read of `a`
/// bytes followed by a read of `b` bytes from where the first stopped.
pub proof fn lemma_read_split(data: Seq<u8>, pos: int, a: nat, b: nat)
    requires
        payload_read(data, pos, (a + b) as nat).len() == a + b,
    ensures
        payload_read(data, pos, a) == payload_read(data, pos, (a + b) as nat).take(a as int),
        payload_read(data, pos, a).len() == a,
        payload_read(data, payload_end(data, pos, a), b)
            == payload_read(data, pos, (a + b) as nat).skip(a as int),
        payload_end(data, payload_end(data, pos, a), b) == payload_end(data, pos, (a + b) as nat),
    decreases a,
{
    let blk = COUCH_BLOCK_SIZE as int;
    let whole = payload_read(data, pos, (a + b) as nat);
    if a == 0 {
        let sp = if pos % blk == 0 { pos + 1 } else { pos };
        assert(sp % blk != 0);
        assert(payload_end(data, pos, a) == sp);
        assert(payload_read(data, pos, a) =~= whole.take(0));
        if b == 0 {
            assert(payload_read(data, sp, b) =~= whole.skip(0));
        } else {
            assert(payload_read(data, sp, b) =~= payload_read(data, pos, b));
            assert(payload_read(data, sp, b) =~= whole.skip(0));
            assert(payload_end(data, sp, b) == payload_end(data, pos, b));
        }
    } else {
        let p = if pos % blk == 0 { pos + 1 } else { pos };
        assert(0 <= p && p < data.len());
        assert(whole =~= seq![data[p]] + payload_read(data, p + 1, (a + b - 1) as nat));
        assert(payload_read(data, p + 1, (a + b - 1) as nat).len() == a + b - 1);
        lemma_read_split(data, p + 1, (a - 1) as nat, b);
        assert(payload_read(data, pos, a)
            =~= seq![data[p]] + payload_read(data, p + 1, (a - 1) as nat));
        assert(payload_read(data, pos, a) =~= whole.take(a as int));
        assert(payload_read(data, payload_end(data, pos, a), b) =~= whole.skip(a as int));
    }
}

/// The big-endian bytes of a 32-bit integer, most significant first.
pub open spec fn be32_bytes(x: u32) -> Seq<u8> {
    seq![(x >> 24) as u8, (x >> 16) as u8, (x >> 8) as u8, x as u8]
}

/// The 32-bit integer encoded big-endian by four bytes.
pub open spec fn spec_be32(b: Seq<u8>) -> u32 {
    ((b[0] as u32) << 24) | ((b[1] as u32) << 16) | ((b[2] as u32) << 8) | (b[3] as u32)
}

/// Big-endian encoding and decoding of 32-bit integers invert each other.
pub proof fn lemma_be32_roundtrip(x: u32)
    ensures
        spec_be32(be32_bytes(x)) == x,
{
    assert(((((x >> 24) as u8) as u32) << 24) | ((((x >> 16) as u8) as u32) << 16)
        | ((((x >> 8) as u8) as u32) << 8) | ((x as u8) as u32) == x) by (bit_vector);
}

/// Reads four big-endian bytes of `b` starting at `off`.
pub fn be32_from(b: &Vec<u8>, off: usize) -> (r: u32)
    requires
        off + 4 <= b@.len(),
    ensures
        r == spec_be32(b@.subrange(off as int, off as int + 4)),
{
    let n = b.len();
    proof {
        assert(off + 4 <= n);
    }
    let r = ((b[off] as u32) << 24u32) | ((b[off + 1] as u32) << 16u32)
        | ((b[off + 2] as u32) << 8u32) | (b[off + 3] as u32);
    proof {
        let s = b@.subrange(off as int, off as int + 4);
        assert(s[0] == b@[off as int] && s[1] == b@[off as int + 1] && s[2] == b@[off as int + 2]
            && s[3] == b@[off as int + 3]);
    }
    r
}

/// What a chunk read at `pos` yields: the eight-byte header (a 31-bit
/// big-endian length, top bit masked off, then a big-endian CRC32C),
/// then the body, whose digest must match the stored one.  For a header
/// read (`max_header` present) the decoded length must not exceed the
/// caller's maximum and includes the four CRC bytes themselves.
pub open spec fn chunk_read_at(data: Seq<u8>, pos: int, max_header: Option<int>) -> Result<
    Seq<u8>,
    CouchstoreError,
> {
    let hdr = payload_read(data, pos, 8);
    if hdr.len() < 8 {
        Err(CouchstoreError::Truncated)
    } else {
        let len0 = (spec_be32(hdr.take(4)) & 0x7fff_ffff) as int;
        let crc = spec_be32(hdr.skip(4));
        match max_header {
            Some(m) => if len0 > m {
                Err(CouchstoreError::HeaderTooLarge)
            } else if len0 < 4 {
                Err(CouchstoreError::Truncated)
            } else {
                chunk_read_body(data, payload_end(data, pos, 8), len0 - 4, crc)
            },
            None => chunk_read_body(data, payload_end(data, pos, 8), len0, crc),
        }
    }
}

/// The body half of a chunk read: `len` payload bytes from `hend`,
/// checked against the stored digest.
pub open spec fn chunk_read_body(data: Seq<u8>, hend: int, len: int, crc: u32) -> Result<
    Seq<u8>,
    CouchstoreError,
> {
    let body = payload_read(data, hend, len as nat);
    if body.len() < len {
        Err(CouchstoreError::Truncated)
    } else if crc32c_of(body) != crc {
        Err(CouchstoreError::ChecksumMismatch)
    } else {
        Ok(body)
    }
}

/// What a plain (uncompressed) chunk read at `pos` yields.
pub open spec fn chunk_read(data: Seq<u8>, pos: int) -> Result<Seq<u8>, CouchstoreError> {
    chunk_read_at(data, pos, None)
}

/// What a header chunk read at `pos` with maximum `m` yields.
pub open spec fn header_read(data: Seq<u8>, pos: int, m: int) -> Result<Seq<u8>, CouchstoreError> {
    chunk_read_at(data, pos, Some(m))
}

/// What a compressed chunk read at `pos` yields: the chunk body is
/// verified against its digest, then decompressed; an ill-formed
/// compressed stream is a fatal corruption.
pub open spec fn compressed_read(data: Seq<u8>, pos: int) -> Result<Seq<u8>, CouchstoreError> {
    match chunk_read(data, pos) {
        Ok(body) => match snappy_decompress(body) {
            Some(v) => Ok(v),
            None => Err(CouchstoreError::Decompression),
        },
        Err(e) => Err(e),
    }
}

/// The framed bytes of one chunk holding `stored` as its body.
pub open spec fn chunk_bytes(stored: Seq<u8>) -> Seq<u8> {
    be32_bytes(stored.len() as u32) + be32_bytes(crc32c_of(stored)) + stored
}

impl TreeFile {
    /// Fills a buffer of up to `len` payload bytes starting at physical
    /// position `pos`, skipping the reserved marker byte whenever the
    /// running position lands on a block boundary; returns the next
    /// physical position and the bytes read.  The buffer is short
    /// exactly when the store ran out.
    pub fn read_skipping_prefixes(&mut self, pos: usize, len: usize) -> (r: (usize, Vec<u8>))
        ensures
            final(self).data@ == old(self).data@,
            r.1@ == payload_read(old(self).data@, pos as int, len as nat),
            r.0 == payload_end(old(self).data@, pos as int, len as nat),
    {
        let mut out: Vec<u8> = Vec::new();
        let mut p: usize = pos;
        let mut i: usize = 0;
        let mut eof = false;
        while i < len && !eof
            invariant
                i <= len,
                self.data@ == old(self).data@,
                !eof ==> out@ + payload_read(self.data@, p as int, (len - i) as nat)
                    == payload_read(self.data@, pos as int, len as nat),
                !eof ==> payload_end(self.data@, p as int, (len - i) as nat)
                    == payload_end(self.data@, pos as int, len as nat),
                eof ==> out@ == payload_read(self.data@, pos as int, len as nat),
                eof ==> p as int == payload_end(self.data@, pos as int, len as nat),
            decreases len - i,
        {
            let mut p2 = p;
            if p2 % COUCH_BLOCK_SIZE == 0 {
                proof {
                    assert(usize::MAX % COUCH_BLOCK_SIZE != 0);
                    assert(p2 < usize::MAX);
                }
                p2 = p2 + 1;
            }
            if p2 >= self.data.len() {
                p = p2;
                eof = true;
                proof {
                    assert(payload_read(self.data@, p as int, (len - i) as nat)
                        =~= Seq::<u8>::empty());
                    assert(out@ + Seq::<u8>::empty() =~= out@);
                    assert(payload_end(self.data@, p as int, (len - i) as nat) == p as int);
                }
                break;
            }
            let byte = self.data[p2];
            proof {
                assert(payload_read(self.data@, p as int, (len - i) as nat)
                    =~= seq![byte] + payload_read(self.data@, p2 as int + 1, (len - i - 1) as nat));
                assert(out@ + (seq![byte] + payload_read(
                    self.data@,
                    p2 as int + 1,
                    (len - i - 1) as nat,
                )) =~= out@.push(byte) + payload_read(self.data@, p2 as int + 1, (len - i - 1) as nat));
            }
            out.push(byte);
            p = p2 + 1;
            i = i + 1;
        }
        if !eof {
            // the check-and-skip applies after the last payload byte too
            if p % COUCH_BLOCK_SIZE == 0 {
                proof {
                    assert(usize::MAX % COUCH_BLOCK_SIZE != 0);
                    assert(p < usize::MAX);
                }
                p = p + 1;
            }
            proof {
                assert(i >= len);
                assert(out@ + Seq::<u8>::empty() =~= out@);
            }
        }
        (p, out)
    }

    /// Appends `bytes` to the payload stream at the end of the store,
    /// laying down a marker byte at every block boundary crossed.
    fn write_payload(&mut self, bytes: &Vec<u8>)
        ensures
            final(self).data@ == payload_append(old(self).data@, bytes@),
    {
        let mut i: usize = 0;
        proof {
            assert(bytes@.skip(0) =~= bytes@);
        }
        while i < bytes.len()
            invariant
                i <= bytes@.len(),
                payload_append(self.data@, bytes@.skip(i as int))
                    == payload_append(old(self).data@, bytes@),
            decreases bytes@.len() - i,
        {
            proof {
                assert(bytes@.skip(i as int).len() != 0);
                assert(bytes@.skip(i as int)[0] == bytes@[i as int]);
                assert(bytes@.skip(i as int).skip(1) =~= bytes@.skip(i as int + 1));
            }
            if self.data.len() % COUCH_BLOCK_SIZE == 0 {
                self.data.push(0u8);
            }
            self.data.push(bytes[i]);
            i = i + 1;
        }
        proof {
            assert(bytes@.skip(i as int) =~= Seq::<u8>::empty());
        }
    }

    /// Writes one chunk holding `body` (compressed first when `compress`
    /// is set) at the end of the file and returns the position at which
    /// a chunk read will find it.  The store only grows, and reading the
    /// returned position gives `body` back.
    pub fn write_chunk(&mut self, body: &Vec<u8>, compress: bool) -> (r: usize)
        requires
            body@.len() < 0x6000_0000,
        ensures
            r == old(self).data@.len(),
            old(self).data@.is_prefix_of(final(self).data@),
            final(self).data@ == payload_append(
                old(self).data@,
                chunk_bytes(if compress { snappy_compress(body@) } else { body@ }),
            ),
            compress ==> compressed_read(final(self).data@, r as int) == Ok::<
                Seq<u8>,
                CouchstoreError,
            >(body@),
            !compress ==> chunk_read(final(self).data@, r as int) == Ok::<
                Seq<u8>,
                CouchstoreError,
            >(body@),
    {
        let pos = self.data.len();
        let compressed: Vec<u8>;
        let stored: &Vec<u8> = if compress {
            compressed = snap_compress(body);
            &compressed
        } else {
            body
        };
        proof {
            assert(stored@.len() <= 32 + body@.len() + body@.len() / 6);
            assert(stored@.len() < 0x8000_0000);
        }
        let slen = stored.len();
        let crc = checksum(stored.as_slice());
        let mut buf: Vec<u8> = Vec::new();
        buf.push((slen as u32 >> 24u32) as u8);
        buf.push((slen as u32 >> 16u32) as u8);
        buf.push((slen as u32 >> 8u32) as u8);
        buf.push(slen as u32 as u8);
        buf.push((crc >> 24u32) as u8);
        buf.push((crc >> 16u32) as u8);
        buf.push((crc >> 8u32) as u8);
        buf.push(crc as u8);
        let mut j: usize = 0;
        while j < stored.len()
            invariant
                j <= stored@.len(),
                buf@ == be32_bytes(stored@.len() as u32) + be32_bytes(crc32c_of(stored@))
                    + stored@.take(j as int),
            decreases stored@.len() - j,
        {
            proof {
                assert((be32_bytes(stored@.len() as u32) + be32_bytes(crc32c_of(stored@))
                    + stored@.take(j as int)).push(stored@[j as int]) =~= be32_bytes(
                    stored@.len() as u32,
                ) + be32_bytes(crc32c_of(stored@)) + stored@.take(j as int + 1));
            }
            buf.push(stored[j]);
            j = j + 1;
        }
        proof {
            assert(stored@.take(stored@.len() as int) =~= stored@);
            assert(buf@ =~= chunk_bytes(stored@));
        }
        self.write_payload(&buf);
        proof {
            lemma_append_prefix(old(self).data@, chunk_bytes(stored@));
            lemma_chunk_write_read(old(self).data@, stored@);
            if compress {
                assert(snappy_decompress(stored@) == Some(body@));
            }
        }
        pos
    }
}

impl TreeFile {
    /// Reads the chunk at `pos`: an eight-byte header (31-bit big-endian
    /// length with the format flag masked off, then a big-endian CRC32C),
    /// then the body, which must match the stored digest.  For a header
    /// read the declared length is checked against the caller's maximum
    /// and includes the CRC field itself.
    fn pread_bin_internal(&mut self, pos: usize, max_header_size: Option<usize>) -> (r: Result<
        Vec<u8>,
        CouchstoreError,
    >)
        ensures
            final(self).data@ == old(self).data@,
            match r {
                Ok(v) => chunk_read_at(
                    old(self).data@,
                    pos as int,
                    match max_header_size {
                        Some(m) => Some(m as int),
                        None => None,
                    },
                ) == Ok::<Seq<u8>, CouchstoreError>(v@),
                Err(e) => chunk_read_at(
                    old(self).data@,
                    pos as int,
                    match max_header_size {
                        Some(m) => Some(m as int),
                        None => None,
                    },
                ) == Err::<Seq<u8>, CouchstoreError>(e),
            },
    {
        let (hend, info) = self.read_skipping_prefixes(pos, 8);
        if info.len() < 8 {
            return Err(CouchstoreError::Truncated);
        }
        proof {
            lemma_payload_read_len(old(self).data@, pos as int, 8);
            assert(info@.len() == 8);
            assert(info@.take(4) =~= info@.subrange(0, 4));
            assert(info@.skip(4) =~= info@.subrange(4, 8));
        }
        let raw = be32_from(&info, 0);
        let crc = be32_from(&info, 4);
        let mut chunk_len = (raw & 0x7fff_ffff) as usize;
        if let Some(max_header_size) = max_header_size {
            if chunk_len > max_header_size {
                return Err(CouchstoreError::HeaderTooLarge);
            }
            if chunk_len < 4 {
                return Err(CouchstoreError::Truncated);
            }
            chunk_len = chunk_len - 4;
        }
        let (_bend, buf) = self.read_skipping_prefixes(hend, chunk_len);
        if buf.len() < chunk_len {
            return Err(CouchstoreError::Truncated);
        }
        let crc_calc = checksum(buf.as_slice());
        if crc_calc != crc {
            return Err(CouchstoreError::ChecksumMismatch);
        }
        Ok(buf)
    }

    /// Reads the plain (uncompressed) chunk at `pos` and returns its
    /// verified body.
    pub fn pread_bin(&mut self, pos: usize) -> (r: Result<Vec<u8>, CouchstoreError>)
        ensures
            final(self).data@ == old(self).data@,
            match r {
                Ok(v) => chunk_read(old(self).data@, pos as int) == Ok::<
                    Seq<u8>,
                    CouchstoreError,
                >(v@),
                Err(e) => chunk_read(old(self).data@, pos as int) == Err::<
                    Seq<u8>,
                    CouchstoreError,
                >(e),
            },
    {
        self.pread_bin_internal(pos, None)
    }

    /// Reads the chunk at `pos` and decompresses its verified body; an
    /// ill-formed compressed stream is a fatal corruption.
    pub fn pread_compressed(&mut self, pos: usize) -> (r: Result<Vec<u8>, CouchstoreError>)
        ensures
            final(self).data@ == old(self).data@,
            match r {
                Ok(v) => compressed_read(old(self).data@, pos as int) == Ok::<
                    Seq<u8>,
                    CouchstoreError,
                >(v@),
                Err(e) => compressed_read(old(self).data@, pos as int) == Err::<
                    Seq<u8>,
                    CouchstoreError,
                >(e),
            },
    {
        let compressed_buf = match self.pread_bin_internal(pos, None) {
            Ok(v) => v,
            Err(e) => {
                return Err(e);
            },
        };
        match snap_decompress(&compressed_buf) {
            Some(v) => Ok(v),
            None => Err(CouchstoreError::Decompression),
        }
    }

    /// Reads the header chunk whose block starts at `pos` (its first
    /// byte is the block's marker, so the chunk itself begins one byte
    /// later), enforcing the caller's maximum header size.
    pub fn pread_header(&mut self, pos: usize, max_header_size: Option<usize>) -> (r: Result<
        Vec<u8>,
        CouchstoreError,
    >)
        requires
            max_header_size matches Some(_),
            pos < usize::MAX,
        ensures
            final(self).data@ == old(self).data@,
            match r {
                Ok(v) => header_read(
                    old(self).data@,
                    pos as int + 1,
                    max_header_size->Some_0 as int,
                ) == Ok::<Seq<u8>, CouchstoreError>(v@),
                Err(e) => header_read(
                    old(self).data@,
                    pos as int + 1,
                    max_header_size->Some_0 as int,
                ) == Err::<Seq<u8>, CouchstoreError>(e),
            },
    {
        self.pread_bin_internal(pos + 1, max_header_size)
    }
}

/// After one chunk is appended to the store, a chunk read at the old end
/// of the store yields its body back.
proof fn lemma_chunk_write_read(data: Seq<u8>, stored: Seq<u8>)
    requires
        stored.len() < 0x8000_0000,
    ensures
        chunk_read(payload_append(data, chunk_bytes(stored)), data.len() as int) == Ok::<
            Seq<u8>,
            CouchstoreError,
        >(stored),
    decreases 0int,
{
    let cb = chunk_bytes(stored);
    let fin = payload_append(data, cb);
    let pos = data.len() as int;
    lemma_append_then_read(data, cb);
    assert(payload_read(fin, pos, cb.len() as nat) == cb);
    lemma_read_split(fin, pos, 8, stored.len() as nat);
    let hdr = payload_read(fin, pos, 8);
    assert(hdr =~= cb.take(8));
    assert(hdr.take(4) =~= be32_bytes(stored.len() as u32));
    assert(hdr.skip(4) =~= be32_bytes(crc32c_of(stored)));
    lemma_be32_roundtrip(stored.len() as u32);
    lemma_be32_roundtrip(crc32c_of(stored));
    let raw = spec_be32(hdr.take(4));
    assert(raw == stored.len() as u32);
    assert(raw < 0x8000_0000 ==> (raw & 0x7fff_ffff) == raw) by (bit_vector);
    assert((raw & 0x7fff_ffff) as int == stored.len() as int);
    assert(payload_read(fin, payload_end(fin, pos, 8), stored.len() as nat) =~= cb.skip(8));
    assert(cb.skip(8) =~= stored);
}

/// A successful chunk read is unaffected by later appends to the store.
pub proof fn lemma_chunk_read_stable(data: Seq<u8>, data2: Seq<u8>, pos: int)
    requires
        data.is_prefix_of(data2),
        chunk_read(data, pos) is Ok,
    ensures
        chunk_read(data2, pos) == chunk_read(data, pos),
{
    let hdr = payload_read(data, pos, 8);
    lemma_payload_read_len(data, pos, 8);
    assert(hdr.len() == 8);
    lemma_read_stable(data, data2, pos, 8);
    let len0 = (spec_be32(hdr.take(4)) & 0x7fff_ffff) as int;
    let hend = payload_end(data, pos, 8);
    let body = payload_read(data, hend, len0 as nat);
    lemma_payload_read_len(data, hend, len0 as nat);
    assert(body.len() == len0);
    lemma_read_stable(data, data2, hend, len0 as nat);
}

/// A successful compressed chunk read is unaffected by later appends.
pub proof fn lemma_compressed_read_stable(data: Seq<u8>, data2: Seq<u8>, pos: int)
    requires
        data.is_prefix_of(data2),
        compressed_read(data, pos) is Ok,
    ensures
        compressed_read(data2, pos) == compressed_read(data, pos),
{
    lemma_chunk_read_stable(data, data2, pos);
}

} // verus!
