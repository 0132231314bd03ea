//! Chunk body checksumming, carried out by the CRC32C (Castagnoli)
//! polynomial.  The digest itself is computed by an outside crate and is
//! modeled here as an uninterpreted function of the input bytes alone.

#![allow(unused_imports)]
use vstd::prelude::*;

verus! {

/// The CRC32C digest of a byte sequence.  CRC32C is a pure function of
/// its input, identical on every machine, so the digest may be named
/// without stating its (page-long) definition.
pub uninterp spec fn crc32c_of(b: Seq<u8>) -> u32;

/// Relies on `crc32c::crc32c`: the CRC32C digest of `data`, a
/// deterministic function of the bytes alone.
#[verifier::external_body]
pub fn checksum(data: &[u8]) -> (r: u32)
    ensures
        r == crc32c_of(data@),
{
    crc32c::crc32c(data)
}

} // verus!
