use vstd::prelude::*;

use crate::bytes::push_bytes;
use crate::clut::CompressType;

verus! {

/// The zlib stream flate2's encoder makes of `src` at `level`.
pub uninterp spec fn zlib_compressed(src: Seq<u8>, level: u32) -> Seq<u8>;

/// What flate2's zlib decoder makes of `src`, read to the end; nothing when it fails.
pub uninterp spec fn zlib_inflated(src: Seq<u8>) -> Option<Seq<u8>>;

/// What flate2's raw DEFLATE decoder makes of `src`, read to the end; nothing when it fails.
pub uninterp spec fn deflate_inflated(src: Seq<u8>) -> Option<Seq<u8>>;

/// The stream the brotli crate's encoder makes of `src` at `quality`.
pub uninterp spec fn brotli_compressed(src: Seq<u8>, quality: i32) -> Seq<u8>;

/// What the brotli crate's decompressor makes of `src`, read to the end; nothing when it fails.
pub uninterp spec fn brotli_inflated(src: Seq<u8>) -> Option<Seq<u8>>;

/// The frame zstd's bulk compressor makes of `src` at `level`.
pub uninterp spec fn zstd_compressed(src: Seq<u8>, level: i32) -> Seq<u8>;

/// What zstd's streaming decoder makes of `src`, read to the end; nothing when it fails.
pub uninterp spec fn zstd_inflated(src: Seq<u8>) -> Option<Seq<u8>>;

/// Compression levels: the strongest each codec offers, and zstd's chosen level.
pub const ZLIB_LEVEL: u32 = 9;

pub const BROTLI_QUALITY: i32 = 11;

pub const ZSTD_LEVEL: i32 = 19;

/// `flate2::write::ZlibEncoder` at `level`, written and finished: the zlib stream of `src`,
/// which flate2's decoder inflates back to `src`. Writing into a `Vec` cannot fail, so a
/// stream always comes back. Levels above 9 are left out: flate2's backends assert a bound
/// on the level.
#[verifier::external_body]
fn zlib_compress(src: &[u8], level: u32) -> (r: Option<Vec<u8>>)
    requires
        level <= 9,
    ensures
        r is Some,
        r matches Some(v) ==> v@ == zlib_compressed(src@, level) && zlib_inflated(v@) == Some(src@),
{
    let mut encoder = flate2::write::ZlibEncoder::new(Vec::new(), flate2::Compression::new(level));
    match std::io::Write::write_all(&mut encoder, src) {
        Ok(()) => encoder.finish().ok(),
        Err(_) => None,
    }
}

/// `flate2::read::ZlibDecoder` over `src`, read to the end.
#[verifier::external_body]
fn zlib_inflate(src: &[u8]) -> (r: Option<Vec<u8>>)
    ensures
        r matches Some(v) ==> zlib_inflated(src@) == Some(v@),
        r is None ==> zlib_inflated(src@) is None,
{
    let mut out = Vec::new();
    match std::io::Read::read_to_end(&mut flate2::read::ZlibDecoder::new(src), &mut out) {
        Ok(_) => Some(out),
        Err(_) => None,
    }
}

/// `flate2::read::DeflateDecoder` over `src` with a 16 KiB buffer, read to the end.
#[verifier::external_body]
pub(crate) fn deflate_inflate(src: &[u8]) -> (r: Option<Vec<u8>>)
    ensures
        r matches Some(v) ==> deflate_inflated(src@) == Some(v@),
        r is None ==> deflate_inflated(src@) is None,
{
    let mut out = Vec::new();
    let mut decoder = flate2::read::DeflateDecoder::new_with_buf(src, vec![0; 1 << 14]);
    match std::io::Read::read_to_end(&mut decoder, &mut out) {
        Ok(_) => Some(out),
        Err(_) => None,
    }
}

/// `brotli::BrotliCompress` at `quality` (its other parameters left at their defaults): the
/// brotli stream of `src`, which the brotli decompressor inflates back to `src`. Reading from
/// a slice and writing into a `Vec` cannot fail, so a stream always comes back.
#[verifier::external_body]
fn brotli_compress(src: &[u8], quality: i32) -> (r: Option<Vec<u8>>)
    ensures
        r is Some,
        r matches Some(v) ==> v@ == brotli_compressed(src@, quality) && brotli_inflated(v@) == Some(src@),
{
    let mut out = Vec::new();
    let params = brotli::enc::BrotliEncoderParams { quality, ..Default::default() };
    match brotli::BrotliCompress(&mut std::io::Cursor::new(src), &mut out, &params) {
        Ok(_) => Some(out),
        Err(_) => None,
    }
}

/// `brotli::Decompressor` over `src` with an 8 KiB buffer, read to the end.
#[verifier::external_body]
fn brotli_inflate(src: &[u8]) -> (r: Option<Vec<u8>>)
    ensures
        r matches Some(v) ==> brotli_inflated(src@) == Some(v@),
        r is None ==> brotli_inflated(src@) is None,
{
    let mut out = Vec::new();
    match std::io::Read::read_to_end(&mut brotli::Decompressor::new(src, 8192), &mut out) {
        Ok(_) => Some(out),
        Err(_) => None,
    }
}

/// `zstd::bulk::compress` at `level`: a zstd frame of `src`, which zstd's decoder inflates
/// back to `src`. The output buffer is sized by the compression bound, so a frame always
/// comes back.
#[verifier::external_body]
fn zstd_compress(src: &[u8], level: i32) -> (r: Option<Vec<u8>>)
    ensures
        r is Some,
        r matches Some(v) ==> v@ == zstd_compressed(src@, level) && zstd_inflated(v@) == Some(src@),
{
    zstd::bulk::compress(src, level).ok()
}

/// `zstd::Decoder` over `src`, read to the end.
#[verifier::external_body]
fn zstd_inflate(src: &[u8]) -> (r: Option<Vec<u8>>)
    ensures
        r matches Some(v) ==> zstd_inflated(src@) == Some(v@),
        r is None ==> zstd_inflated(src@) is None,
{
    let mut out = Vec::new();
    match zstd::Decoder::new(src) {
        Ok(mut decoder) => match std::io::Read::read_to_end(&mut decoder, &mut out) {
            Ok(_) => Some(out),
            Err(_) => None,
        },
        Err(_) => None,
    }
}

/// What compressing `src` with `kind` gives.
pub open spec fn compressed(kind: CompressType, src: Seq<u8>) -> Seq<u8> {
    match kind {
        CompressType::Uncompressed => src,
        CompressType::Zlib => zlib_compressed(src, ZLIB_LEVEL),
        CompressType::Brotli => brotli_compressed(src, BROTLI_QUALITY),
        CompressType::Zstd => zstd_compressed(src, ZSTD_LEVEL),
    }
}

/// What inflating `src` with `kind` gives, to the end of the stream.
pub open spec fn inflated(kind: CompressType, src: Seq<u8>) -> Option<Seq<u8>> {
    match kind {
        CompressType::Uncompressed => Some(src),
        CompressType::Zlib => zlib_inflated(src),
        CompressType::Brotli => brotli_inflated(src),
        CompressType::Zstd => zstd_inflated(src),
    }
}

/// Compress with the given codec; nothing when the codec fails.
pub fn compress_chunk(kind: CompressType, src: &[u8]) -> (r: Option<Vec<u8>>)
    ensures
        r matches Some(v) && v@ == compressed(kind, src@),
        inflated(kind, compressed(kind, src@)) == Some(src@),
{
    match kind {
        CompressType::Uncompressed => {
            let mut out = Vec::new();
            push_bytes(&mut out, src);
            assert(out@ =~= src@);
            Some(out)
        },
        CompressType::Zlib => zlib_compress(src, ZLIB_LEVEL),
        CompressType::Brotli => brotli_compress(src, BROTLI_QUALITY),
        CompressType::Zstd => zstd_compress(src, ZSTD_LEVEL),
    }
}

/// Decompress a payload of unknown length with the given codec.
pub fn inflate(kind: CompressType, src: &[u8]) -> (r: Option<Vec<u8>>)
    ensures
        r matches Some(v) ==> inflated(kind, src@) == Some(v@),
        r is None ==> inflated(kind, src@) is None,
{
    match kind {
        CompressType::Uncompressed => {
            let mut out = Vec::new();
            push_bytes(&mut out, src);
            assert(out@ =~= src@);
            Some(out)
        },
        CompressType::Zlib => zlib_inflate(src),
        CompressType::Brotli => brotli_inflate(src),
        CompressType::Zstd => zstd_inflate(src),
    }
}

} // verus!
