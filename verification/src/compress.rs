//! Raw (frame-less) snappy block compression for chunk bodies, carried
//! out by an outside crate.  Compression and decompression are pure
//! functions of their input bytes, so both results are modeled as
//! uninterpreted functions; the one fact the engine leans on is that
//! decompressing a compressed body gives the body back (the codec is
//! lossless).

#![allow(unused_imports)]
use vstd::prelude::*;

verus! {

/// The raw snappy compression of a byte sequence; a deterministic
/// function of the input alone.
pub uninterp spec fn snappy_compress(b: Seq<u8>) -> Seq<u8>;

/// The raw snappy decompression of a byte sequence: `Some(body)` for a
/// well-formed compressed stream, `None` for anything else; a
/// deterministic function of the input alone.
pub uninterp spec fn snappy_decompress(b: Seq<u8>) -> Option<Seq<u8>>;

/// Relies on `snap::raw::Encoder::compress_vec`: compresses the whole
/// input as one raw snappy block.  It fails only when the input exceeds
/// the format's four-gigabyte limit, which the precondition rules out;
/// its output length is at most `32 + n + n / 6` (the encoder allocates
/// exactly that much and truncates); and the codec is lossless, so
/// `snap::raw::Decoder::decompress_vec` maps the output back to the
/// input.
#[verifier::external_body]
pub fn snap_compress(input: &Vec<u8>) -> (r: Vec<u8>)
    requires
        input@.len() < 0x6000_0000,
    ensures
        r@ == snappy_compress(input@),
        r@.len() <= 32 + input@.len() + input@.len() / 6,
        snappy_decompress(r@) == Some(input@),
{
    snap::raw::Encoder::new().compress_vec(input.as_slice()).unwrap()
}

/// Relies on `snap::raw::Decoder::decompress_vec`: decompresses one raw
/// snappy block, returning an error exactly when the input is not a
/// well-formed compressed stream.
#[verifier::external_body]
pub fn snap_decompress(input: &Vec<u8>) -> (r: Option<Vec<u8>>)
    ensures
        match r {
            Some(v) => snappy_decompress(input@) == Some(v@),
            None => snappy_decompress(input@) is None,
        },
{
    match snap::raw::Decoder::new().decompress_vec(input.as_slice()) {
        Ok(v) => Some(v),
        Err(_) => None,
    }
}

} // verus!
