//! The outside compression libraries and the worker pool, each behind one
//! small trusted function. Nothing else in the crate calls them.
use std::io::{Read, Write};

use rayon::iter::{IntoParallelIterator, ParallelIterator};
use vstd::prelude::*;

verus! {

/// rayon's `ThreadPool`, held opaque: the engines keep one and hand it to
/// `map_in_pool`.
#[verifier::external_type_specification]
#[verifier::external_body]
pub struct ExThreadPool(rayon::ThreadPool);

/// What flate2's zlib encoder makes of `data` at `level`; `None` where it fails.
pub uninterp spec fn zlib_compressed(level: u32, data: Seq<u8>) -> Option<Seq<u8>>;

/// What flate2's zlib decoder makes of `blob`; `None` where it fails.
pub uninterp spec fn zlib_decompressed(blob: Seq<u8>) -> Option<Seq<u8>>;

/// What brotli's encoder makes of `data` at `quality`; `None` where it fails.
pub uninterp spec fn brotli_compressed(quality: u32, data: Seq<u8>) -> Option<Seq<u8>>;

/// What brotli's decoder makes of `blob`; `None` where it fails.
pub uninterp spec fn brotli_decompressed(blob: Seq<u8>) -> Option<Seq<u8>>;

/// What lz4's frame encoder makes of `data` at `level`; `None` where it fails.
pub uninterp spec fn lz4_compressed(level: u32, data: Seq<u8>) -> Option<Seq<u8>>;

/// What lz4's frame decoder makes of `blob`; `None` where it fails.
pub uninterp spec fn lz4_decompressed(blob: Seq<u8>) -> Option<Seq<u8>>;

/// The highest zlib level flate2's default backend accepts (it asserts this).
pub const MAX_ZLIB_LEVEL: u32 = 10;

/// `r` is the executable form of the codec result `c`.
pub open spec fn outcome(r: Option<Vec<u8>>, c: Option<Seq<u8>>) -> bool {
    match r {
        Some(b) => c == Some(b@),
        None => c is None,
    }
}

/// Relies on rayon's `ThreadPoolBuilder::num_threads` and `build`: a pool of
/// `threads` workers, or `None` where the threads cannot be started.
#[verifier::external_body]
pub(crate) fn build_pool(threads: usize) -> (r: Option<rayon::ThreadPool>) {
    rayon::ThreadPoolBuilder::new().num_threads(threads).build().ok()
}

/// Relies on rayon's `ThreadPool::install` with an indexed parallel `map` and
/// `collect`: `f` runs once on every item, on the pool's workers, and the
/// results come back in the items' order.
#[verifier::external_body]
pub(crate) fn map_in_pool<F>(pool: &rayon::ThreadPool, items: Vec<Vec<u8>>, f: F) -> (r: Vec<Option<Vec<u8>>>)
    where
        F: Fn(Vec<u8>) -> Option<Vec<u8>> + Sync + Send,
    requires
        forall|i: int| 0 <= i < items@.len() ==> f.requires((#[trigger] items@[i],)),
    ensures
        r@.len() == items@.len(),
        forall|i: int| 0 <= i < items@.len() ==> f.ensures((#[trigger] items@[i],), r@[i]),
{
    pool.install(|| items.into_par_iter().map(|item| f(item)).collect())
}

/// Relies on flate2's `ZlibEncoder` (`write_all`, then `finish`) at `level`,
/// which its miniz backend asserts is at most 10;
/// the stream is lossless: flate2's `ZlibDecoder` gives the data back.
#[verifier::external_body]
pub(crate) fn zlib_compress(data: &[u8], level: u32) -> (r: Option<Vec<u8>>)
    requires
        level <= MAX_ZLIB_LEVEL,
    ensures
        outcome(r, zlib_compressed(level, data@)),
        r matches Some(b) ==> zlib_decompressed(b@) == Some(data@),
{
    let mut encoder = flate2::write::ZlibEncoder::new(Vec::new(), flate2::Compression::new(level));
    encoder.write_all(data).ok()?;
    encoder.finish().ok()
}

/// Relies on flate2's `ZlibDecoder` read to the end.
#[verifier::external_body]
pub(crate) fn zlib_decompress(blob: &[u8]) -> (r: Option<Vec<u8>>)
    ensures
        outcome(r, zlib_decompressed(blob@)),
{
    let mut out = Vec::new();
    flate2::read::ZlibDecoder::new(blob).read_to_end(&mut out).ok()?;
    Some(out)
}

/// Relies on brotli's `enc::BrotliCompress` with default parameters but the
/// quality; the stream is lossless: `BrotliDecompress` gives the data back.
#[verifier::external_body]
pub(crate) fn brotli_compress(data: &[u8], quality: u32) -> (r: Option<Vec<u8>>)
    ensures
        outcome(r, brotli_compressed(quality, data@)),
        r matches Some(b) ==> brotli_decompressed(b@) == Some(data@),
{
    let params = brotli::enc::BrotliEncoderParams { quality: quality as i32, ..Default::default() };
    let mut out = Vec::new();
    brotli::enc::BrotliCompress(&mut std::io::Cursor::new(data), &mut out, &params).ok()?;
    Some(out)
}

/// Relies on brotli's `BrotliDecompress`.
#[verifier::external_body]
pub(crate) fn brotli_decompress(blob: &[u8]) -> (r: Option<Vec<u8>>)
    ensures
        outcome(r, brotli_decompressed(blob@)),
{
    let mut out = Vec::new();
    brotli::BrotliDecompress(&mut std::io::Cursor::new(blob), &mut out).ok()?;
    Some(out)
}

/// Relies on lz4's `EncoderBuilder` at `level` (`write_all`, then `finish`);
/// the frame is lossless: lz4's frame `Decoder` gives the data back.
#[verifier::external_body]
pub(crate) fn lz4_compress(data: &[u8], level: u32) -> (r: Option<Vec<u8>>)
    ensures
        outcome(r, lz4_compressed(level, data@)),
        r matches Some(b) ==> lz4_decompressed(b@) == Some(data@),
{
    let mut encoder = lz4::EncoderBuilder::new().level(level).build(Vec::new()).ok()?;
    encoder.write_all(data).ok()?;
    let (out, result) = encoder.finish();
    result.ok()?;
    Some(out)
}

/// Relies on lz4's frame `Decoder` read to the end.
#[verifier::external_body]
pub(crate) fn lz4_decompress(blob: &[u8]) -> (r: Option<Vec<u8>>)
    ensures
        outcome(r, lz4_decompressed(blob@)),
{
    let mut out = Vec::new();
    lz4::Decoder::new(blob).ok()?.read_to_end(&mut out).ok()?;
    Some(out)
}

} // verus!
