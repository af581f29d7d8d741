//! The compression layer of the loose-object format. A whole envelope is
//! compressed as one zlib stream; these are the only two calls that cross
//! into the compression crate.

use vstd::prelude::*;

verus! {

/// The zlib stream that compressing `data` at the speed-favouring level
/// produces. The compressor is supplied by an outside crate; this name
/// stands for its (deterministic) result.
pub uninterp spec fn deflate_of(data: Seq<u8>) -> Seq<u8>;

/// What decompressing `data` as a zlib stream yields: the recovered bytes,
/// or nothing when the stream is not well formed. The decompressor is
/// supplied by an outside crate; this name stands for its (deterministic)
/// result.
pub uninterp spec fn inflate_of(data: Seq<u8>) -> Option<Seq<u8>>;

/// Relies on `flate2::write::ZlibEncoder` at `Compression::fast`, and on
/// zlib round-tripping: decompressing a stream it produced recovers the
/// input exactly. Compressing into memory always succeeds: writing into a
/// `Vec` cannot fail, and the deflate stream reports an error only for an
/// invalid compression level, while this one is fixed and valid.
#[verifier::external_body]
pub(crate) fn zlib_compress(data: &[u8]) -> (r: Vec<u8>)
    ensures
        r@ == deflate_of(data@),
        inflate_of(r@) == Some(data@),
{
    let mut encoder = flate2::write::ZlibEncoder::new(Vec::new(), flate2::Compression::fast());
    std::io::Write::write_all(&mut encoder, data).unwrap();
    encoder.finish().unwrap()
}

/// Relies on `flate2::read::ZlibDecoder`: reading it to the end yields the
/// decompressed bytes, or an error when the stream is not well formed.
#[verifier::external_body]
pub(crate) fn zlib_decompress(data: &[u8]) -> (r: Option<Vec<u8>>)
    ensures
        match r {
            Some(v) => inflate_of(data@) == Some(v@),
            None => inflate_of(data@) is None,
        },
{
    let mut decoder = flate2::read::ZlibDecoder::new(data);
    let mut out = Vec::new();
    match std::io::Read::read_to_end(&mut decoder, &mut out) {
        Ok(_) => Some(out),
        Err(_) => None,
    }
}

} // verus!
