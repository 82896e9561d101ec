//! The codec interface and its implementations.
use vstd::prelude::*;

use crate::codecs::{
    brotli_compress, brotli_compressed, brotli_decompress, brotli_decompressed, build_pool, lz4_compress,
    lz4_compressed, lz4_decompress, lz4_decompressed, map_in_pool, outcome, zlib_compress, zlib_compressed,
    zlib_decompress, zlib_decompressed, MAX_ZLIB_LEVEL,
};
use crate::error::ArchiveError;
use crate::frame::{ChunkWriter, MAX_FRAME_LEN, chunks_of, frames_wire};
use crate::header::{bytes_are, known_compression};

verus! {

/// A codec function on chunks: what each chunk becomes, `None` where it fails.
pub type ChunkCodec = spec_fn(Seq<u8>) -> Option<Seq<u8>>;

/// Whether every chunk compresses, each to a blob the length prefix can hold.
pub open spec fn encodes_all(enc: ChunkCodec, chunks: Seq<Seq<u8>>) -> bool {
    forall|i: int|
        0 <= i < chunks.len() ==> match #[trigger] enc(chunks[i]) {
            Some(b) => b.len() <= MAX_FRAME_LEN,
            None => false,
        }
}

/// What each chunk becomes (empty where it fails).
pub open spec fn blobs_of(enc: ChunkCodec, chunks: Seq<Seq<u8>>) -> Seq<Seq<u8>> {
    Seq::new(
        chunks.len(),
        |i: int|
            match enc(chunks[i]) {
                Some(b) => b,
                None => Seq::empty(),
            },
    )
}

/// Whether `dec` turns each blob back into its chunk.
pub open spec fn restores_all(dec: ChunkCodec, chunks: Seq<Seq<u8>>, blobs: Seq<Seq<u8>>) -> bool {
    forall|i: int| 0 <= i < chunks.len() ==> dec(#[trigger] blobs[i]) == Some(chunks[i])
}

/// A compressor: turns the logical chunks of an entry into framed chunks, in
/// order, a round of one or more chunks per call.
pub trait Compressor: Sized {
    /// The codec name written into the archive header.
    spec fn spec_name(&self) -> Seq<char>;

    /// What one logical chunk compresses to; `None` where the codec fails.
    spec fn encoder(&self) -> ChunkCodec;

    /// The compressor's own invariant.
    spec fn wf(&self) -> bool;

    /// How many chunks one call compresses when `remaining` are left.
    spec fn round_width(&self, remaining: nat) -> nat;

    /// What turns a blob it wrote back into the chunk.
    spec fn restorer(&self) -> ChunkCodec;

    fn name(&self) -> (r: &'static str)
        ensures
            r@ == self.spec_name(),
            known_compression(r@),
    ;

    /// Frames the next chunks of `input` (the rest of an entry's payload,
    /// `remaining_chunks` chunks of `chunk_size` bytes) into `chunk_writer`.
    /// A call compresses exactly `round_width(remaining_chunks)` chunks and
    /// frames them in order; it fails, with `CodecFailure`, exactly where one
    /// of them does not compress to a blob the length prefix can hold. On
    /// success returns how many input bytes it used; the chunks written are
    /// counted off `chunk_writer.chunk_count`.
    fn compress(
        &mut self,
        input: &[u8],
        remaining_chunks: usize,
        chunk_size: u32,
        chunk_writer: &mut ChunkWriter,
    ) -> (r: Result<usize, ArchiveError>)
        requires
            old(self).wf(),
            chunk_size > 0,
            remaining_chunks >= 1,
            chunks_of(input@, chunk_size as nat).len() == remaining_chunks,
            old(chunk_writer).chunk_count == remaining_chunks,
        ensures
            final(self).wf(),
            final(self).spec_name() == old(self).spec_name(),
            final(self).encoder() == old(self).encoder(),
            final(self).restorer() == old(self).restorer(),
            1 <= old(self).round_width(remaining_chunks as nat) <= remaining_chunks,
            match r {
                Ok(used) => {
                    let n = (old(chunk_writer).chunk_count - final(chunk_writer).chunk_count) as int;
                    let done = chunks_of(input@, chunk_size as nat).take(n);
                    &&& n == old(self).round_width(remaining_chunks as nat)
                    &&& 1 <= n <= remaining_chunks
                    &&& final(chunk_writer).chunk_count <= old(chunk_writer).chunk_count
                    &&& encodes_all(old(self).encoder(), done)
                    &&& restores_all(old(self).restorer(), done, blobs_of(old(self).encoder(), done))
                    &&& final(chunk_writer).writer@ == old(chunk_writer).writer@ + frames_wire(
                        blobs_of(old(self).encoder(), done),
                    )
                    &&& used <= input@.len()
                    &&& used == (if n == remaining_chunks {
                        input@.len() as int
                    } else {
                        n * chunk_size
                    })
                    &&& chunks_of(input@.skip(used as int), chunk_size as nat) == chunks_of(
                        input@,
                        chunk_size as nat,
                    ).skip(n)
                },
                Err(e) => {
                    &&& e == ArchiveError::CodecFailure
                    &&& !encodes_all(
                        old(self).encoder(),
                        chunks_of(input@, chunk_size as nat).take(
                            old(self).round_width(remaining_chunks as nat) as int,
                        ),
                    )
                },
            },
    ;
}

/// A decompressor: turns a batch of compressed chunks back into logical ones.
pub trait Decompressor: Sized {
    /// What one compressed chunk decompresses to; `None` where the codec fails.
    spec fn decoder(&self) -> ChunkCodec;

    /// The decompressor's own invariant.
    spec fn wf(&self) -> bool;


    /// How many compressed chunks it prefers per call.
    spec fn batch(&self) -> nat;

    /// How many compressed chunks it takes per call.
    fn decompress_inputs(&self) -> (r: usize)
        requires
            self.wf(),
        ensures
            r >= 1,
            r == self.batch(),
    ;

    /// Decompresses each input, keeping their order. Fails with
    /// `CodecFailure` exactly where one of them does not decompress.
    fn decompress(&mut self, inputs: Vec<Vec<u8>>) -> (r: Result<Vec<Vec<u8>>, ArchiveError>)
        requires
            old(self).wf(),
        ensures
            final(self).wf(),
            final(self).decoder() == old(self).decoder(),
            final(self).batch() == old(self).batch(),
            match r {
                Ok(outs) => {
                    &&& forall|i: int| 0 <= i < inputs@.len() ==> (#[trigger] (old(self).decoder())(inputs@[i]@)) is Some
                    &&& outs@.len() == inputs@.len()
                    &&& forall|i: int|
                        0 <= i < inputs@.len() ==> (old(self).decoder())(inputs@[i]@) == Some(
                            #[trigger] outs@[i]@,
                        )
                },
                Err(e) => {
                    &&& e == ArchiveError::CodecFailure
                    &&& exists|i: int| 0 <= i < inputs@.len() && (#[trigger] (old(self).decoder())(inputs@[i]@)) is None
                },
            },
    ;
}

/// Stores chunks as they are.
pub struct NoCompressor {}

impl NoCompressor {
    pub fn new() -> (r: Self)
        ensures
            r.wf(),
    {
        NoCompressor {  }
    }
}

impl Default for NoCompressor {
    fn default() -> (r: Self)
        ensures
            r.wf(),
    {
        NoCompressor::new()
    }
}

impl Compressor for NoCompressor {
    open spec fn spec_name(&self) -> Seq<char> {
        "none"@
    }

    open spec fn encoder(&self) -> ChunkCodec {
        |chunk: Seq<u8>| Some(chunk)
    }

    open spec fn wf(&self) -> bool {
        true
    }

    /// One chunk per call.
    open spec fn round_width(&self, remaining: nat) -> nat {
        1
    }

    open spec fn restorer(&self) -> ChunkCodec {
        |blob: Seq<u8>| Some(blob)
    }

    fn name(&self) -> (r: &'static str) {
        proof {
            reveal_strlit("none");
        }
        "none"
    }

    /// Writes exactly one chunk per call.
    fn compress(
        &mut self,
        input: &[u8],
        remaining_chunks: usize,
        chunk_size: u32,
        chunk_writer: &mut ChunkWriter,
    ) -> (r: Result<usize, ArchiveError>) {
        let ghost chunks = chunks_of(input@, chunk_size as nat);
        let len = input.len();
        let take: usize = if len <= chunk_size as usize {
            len
        } else {
            chunk_size as usize
        };
        let chunk = &input[0..take];
        assert(chunk@ == chunks[0]);
        assert(input@.skip(take as int) == input@.skip(chunk_size as int) || take == len);
        if len <= chunk_size as usize {
            assert(input@.skip(take as int) =~= Seq::<u8>::empty());
        }
        assert(chunks_of(input@.skip(take as int), chunk_size as nat) =~= chunks.skip(1));
        match chunk_writer.write_chunk(chunk) {
            Ok(()) => {
                assert(chunks.take(1) =~= seq![chunk@]);
                assert(blobs_of(self.encoder(), chunks.take(1)) =~= seq![chunk@]);
                assert(frames_wire(seq![chunk@]) =~= crate::frame::frame_wire(chunk@)) by {
                    assert(seq![chunk@].drop_first() =~= Seq::<Seq<u8>>::empty());
                    assert(frames_wire(Seq::<Seq<u8>>::empty()) =~= Seq::<u8>::empty());
                }
                Ok(take)
            },
            Err(e) => {
                assert(!encodes_all(self.encoder(), chunks.take(1))) by {
                    assert(chunks.take(1)[0] == chunks[0]);
                    assert((self.encoder())(chunks[0]) == Some(chunk@));
                }
                Err(e)
            },
        }
    }
}

/// Passes compressed chunks through unchanged.
pub struct NoDecompressor {}

impl NoDecompressor {
    pub fn new() -> (r: Self)
        ensures
            r.wf(),
    {
        NoDecompressor {  }
    }
}

impl Decompressor for NoDecompressor {
    open spec fn decoder(&self) -> ChunkCodec {
        |blob: Seq<u8>| Some(blob)
    }

    /// One chunk at a time.
    open spec fn batch(&self) -> nat {
        1
    }

    open spec fn wf(&self) -> bool {
        true
    }

    fn decompress_inputs(&self) -> (r: usize) {
        1
    }

    fn decompress(&mut self, inputs: Vec<Vec<u8>>) -> (r: Result<Vec<Vec<u8>>, ArchiveError>) {
        Ok(inputs)
    }
}

} // verus!

verus! {

/// A compression algorithm run one chunk per worker, with its setting.
#[derive(Clone, Copy, Debug, PartialEq, Eq, Structural)]
enum BlockCodec {
    Zlib(u32),
    Brotli(u32),
    Lz4(u32),
}

/// What the algorithm makes of one logical chunk.
spec fn block_encoder(c: BlockCodec) -> ChunkCodec {
    match c {
        BlockCodec::Zlib(level) => |x: Seq<u8>| zlib_compressed(level, x),
        BlockCodec::Brotli(quality) => |x: Seq<u8>| brotli_compressed(quality, x),
        BlockCodec::Lz4(level) => |x: Seq<u8>| lz4_compressed(level, x),
    }
}

/// What the algorithm makes of one compressed chunk.
spec fn block_decoder(c: BlockCodec) -> ChunkCodec {
    match c {
        BlockCodec::Zlib(_) => |x: Seq<u8>| zlib_decompressed(x),
        BlockCodec::Brotli(_) => |x: Seq<u8>| brotli_decompressed(x),
        BlockCodec::Lz4(_) => |x: Seq<u8>| lz4_decompressed(x),
    }
}

spec fn encode_spec(c: BlockCodec, x: Seq<u8>) -> Option<Seq<u8>> {
    (block_encoder(c))(x)
}

spec fn decode_spec(c: BlockCodec, x: Seq<u8>) -> Option<Seq<u8>> {
    (block_decoder(c))(x)
}

/// A setting the algorithm accepts: zlib levels go up to `MAX_ZLIB_LEVEL`.
spec fn setting_ok(c: BlockCodec) -> bool {
    match c {
        BlockCodec::Zlib(level) => level <= MAX_ZLIB_LEVEL,
        _ => true,
    }
}

fn encode_chunk(codec: BlockCodec, data: Vec<u8>) -> (r: Option<Vec<u8>>)
    requires
        setting_ok(codec),
    ensures
        outcome(r, encode_spec(codec, data@)),
        r matches Some(b) ==> decode_spec(codec, b@) == Some(data@),
{
    match codec {
        BlockCodec::Zlib(level) => zlib_compress(data.as_slice(), level),
        BlockCodec::Brotli(quality) => brotli_compress(data.as_slice(), quality),
        BlockCodec::Lz4(level) => lz4_compress(data.as_slice(), level),
    }
}

fn decode_chunk(codec: BlockCodec, blob: Vec<u8>) -> (r: Option<Vec<u8>>)
    ensures
        outcome(r, decode_spec(codec, blob@)),
{
    match codec {
        BlockCodec::Zlib(_) => zlib_decompress(blob.as_slice()),
        BlockCodec::Brotli(_) => brotli_decompress(blob.as_slice()),
        BlockCodec::Lz4(_) => lz4_decompress(blob.as_slice()),
    }
}

/// Runs one algorithm over rounds of chunks on a pool of workers.
struct BlockEngine {
    codec: BlockCodec,
    threads: usize,
    pool: rayon::ThreadPool,
}

impl BlockEngine {
    fn new(codec: BlockCodec, threads: usize) -> (r: Option<Self>)
        requires
            threads >= 1,
        ensures
            r matches Some(e) ==> e.codec == codec && e.threads == threads,
    {
        match build_pool(threads) {
            Some(pool) => Some(BlockEngine { codec, threads, pool }),
            None => None,
        }
    }

    /// Compresses the next round: as many chunks as there are workers, or as
    /// are left, one per worker; then frames the results in chunk order.
    fn compress_round(
        &self,
        input: &[u8],
        remaining_chunks: usize,
        chunk_size: u32,
        chunk_writer: &mut ChunkWriter,
    ) -> (r: Result<usize, ArchiveError>)
        requires
            self.threads >= 1,
            setting_ok(self.codec),
            chunk_size > 0,
            remaining_chunks >= 1,
            chunks_of(input@, chunk_size as nat).len() == remaining_chunks,
            old(chunk_writer).chunk_count == remaining_chunks,
        ensures
            match r {
                Ok(used) => {
                    let n = (old(chunk_writer).chunk_count - final(chunk_writer).chunk_count) as int;
                    let done = chunks_of(input@, chunk_size as nat).take(n);
                    &&& n == (if self.threads < remaining_chunks {
                        self.threads as int
                    } else {
                        remaining_chunks as int
                    })
                    &&& 1 <= n <= remaining_chunks
                    &&& final(chunk_writer).chunk_count <= old(chunk_writer).chunk_count
                    &&& encodes_all(block_encoder(self.codec), done)
                    &&& restores_all(block_decoder(self.codec), done, blobs_of(block_encoder(self.codec), done))
                    &&& final(chunk_writer).writer@ == old(chunk_writer).writer@ + frames_wire(
                        blobs_of(block_encoder(self.codec), done),
                    )
                    &&& used <= input@.len()
                    &&& used == (if n == remaining_chunks {
                        input@.len() as int
                    } else {
                        n * chunk_size
                    })
                    &&& chunks_of(input@.skip(used as int), chunk_size as nat) == chunks_of(
                        input@,
                        chunk_size as nat,
                    ).skip(n)
                },
                Err(e) => {
                    &&& e == ArchiveError::CodecFailure
                    &&& !encodes_all(
                        block_encoder(self.codec),
                        chunks_of(input@, chunk_size as nat).take(
                            if self.threads < remaining_chunks {
                                self.threads as int
                            } else {
                                remaining_chunks as int
                            },
                        ),
                    )
                },
            },
    {
        let ghost chunks = chunks_of(input@, chunk_size as nat);
        let ghost enc = block_encoder(self.codec);
        let width: usize = if self.threads < remaining_chunks {
            self.threads
        } else {
            remaining_chunks
        };
        let len = input.len();
        let cs = chunk_size as usize;
        let mut items: Vec<Vec<u8>> = Vec::new();
        let mut off: usize = 0;
        let mut k: usize = 0;
        assert(input@.skip(0) =~= input@);
        while k < width
            invariant
                k <= width <= remaining_chunks,
                chunks.len() == remaining_chunks,
                chunks == chunks_of(input@, chunk_size as nat),
                cs == chunk_size,
                cs > 0,
                len == input@.len(),
                off <= len,
                items@.len() == k,
                forall|j: int| 0 <= j < k ==> (#[trigger] items@[j])@ == chunks[j],
                chunks_of(input@.skip(off as int), cs as nat) == chunks.skip(k as int),
                k < chunks.len() ==> off == k * cs,
                k == chunks.len() ==> off == len,
            decreases width - k,
        {
            let ghost rest = input@.skip(off as int);
            assert(chunks.skip(k as int).len() > 0);
            let take: usize = if len - off <= cs {
                len - off
            } else {
                cs
            };
            let item = crate::header::copy_range(input, off, off + take);
            proof {
                assert(chunks.skip(k as int)[0] == chunks[k as int]);
                if len - off <= cs {
                    assert(item@ =~= rest);
                    assert(input@.skip(off + take) =~= Seq::<u8>::empty());
                    assert(chunks.skip(k as int).len() == 1);
                } else {
                    assert(item@ =~= rest.take(cs as int));
                    assert(input@.skip(off + take) =~= rest.skip(cs as int));
                    assert(rest.skip(cs as int).len() > 0);
                    assert(chunks_of(rest.skip(cs as int), cs as nat).len() >= 1);
                    assert(chunks_of(rest, cs as nat) == seq![rest.take(cs as int)] + chunks_of(
                        rest.skip(cs as int),
                        cs as nat,
                    ));
                    assert(chunks.skip(k as int).len() >= 2);
                    assert((k + 1) * cs == k * cs + cs) by (nonlinear_arith);
                }
                assert(chunks.skip(k as int).drop_first() =~= chunks.skip(k + 1));
            }
            items.push(item);
            off = off + take;
            k = k + 1;
        }
        let ghost views = items@;
        let codec = self.codec;
        let results = map_in_pool(
            &self.pool,
            items,
            (move |data: Vec<u8>| -> (r: Option<Vec<u8>>)
                requires
                    setting_ok(codec),
                ensures
                    outcome(r, encode_spec(codec, data@)),
                    r matches Some(b) ==> decode_spec(codec, b@) == Some(data@),
                { encode_chunk(codec, data) }),
        );
        let ghost base = chunk_writer.writer@;
        let ghost count0 = chunk_writer.chunk_count;
        let mut j: usize = 0;
        assert(chunks.take(0) =~= Seq::<Seq<u8>>::empty());
        assert(blobs_of(enc, Seq::<Seq<u8>>::empty()) =~= Seq::<Seq<u8>>::empty());
        assert(frames_wire(Seq::<Seq<u8>>::empty()) =~= Seq::<u8>::empty());
        while j < width
            invariant
                j <= width <= remaining_chunks,
                width <= chunks.len(),
                enc == block_encoder(self.codec),
                codec == self.codec,
                chunks == chunks_of(input@, chunk_size as nat),
                width == (if self.threads < remaining_chunks {
                    self.threads as int
                } else {
                    remaining_chunks as int
                }),
                width < chunks.len() ==> off == width * cs,
                width == chunks.len() ==> off == len,
                len == input@.len(),
                cs == chunk_size,
                results@.len() == width,
                views.len() == width,
                forall|i: int| 0 <= i < width ==> (#[trigger] views[i])@ == chunks[i],
                forall|i: int| 0 <= i < width ==> outcome(#[trigger] results@[i], enc(views[i]@)),
                forall|i: int|
                    0 <= i < width ==> (#[trigger] results@[i] matches Some(b) ==> decode_spec(codec, b@) == Some(
                        views[i]@,
                    )),
                restores_all(block_decoder(codec), chunks.take(j as int), blobs_of(enc, chunks.take(j as int))),
                chunk_writer.chunk_count == count0 - j,
                count0 == remaining_chunks,
                encodes_all(enc, chunks.take(j as int)),
                chunk_writer.writer@ == base + frames_wire(blobs_of(enc, chunks.take(j as int))),
            decreases width - j,
        {
            assert(outcome(results@[j as int], enc(views[j as int]@)));
            match &results[j] {
                None => {
                    proof {
                        assert(enc(chunks[j as int]) is None);
                        assert(chunks.take(width as int)[j as int] == chunks[j as int]);
                    }
                    return Err(ArchiveError::CodecFailure);
                },
                Some(blob) => {
                    let ghost before = chunk_writer.writer@;
                    match chunk_writer.write_chunk(blob.as_slice()) {
                        Ok(()) => {
                            proof {
                                let t = chunks.take(j + 1);
                                assert(t =~= chunks.take(j as int).push(chunks[j as int]));
                                assert(blobs_of(enc, t) =~= blobs_of(enc, chunks.take(j as int)).push(blob@));
                                crate::frame::lemma_frames_wire_append(
                                    blobs_of(enc, chunks.take(j as int)),
                                    seq![blob@],
                                );
                                assert(seq![blob@].drop_first() =~= Seq::<Seq<u8>>::empty());
                                assert(frames_wire(Seq::<Seq<u8>>::empty()) =~= Seq::<u8>::empty());
                                assert(frames_wire(seq![blob@]) =~= crate::frame::frame_wire(blob@));
                                assert(blobs_of(enc, chunks.take(j as int)) + seq![blob@] =~= blobs_of(enc, t));
                                assert(restores_all(block_decoder(codec), t, blobs_of(enc, t))) by {
                                    assert forall|i: int| 0 <= i < t.len() implies (block_decoder(codec))(
                                        #[trigger] blobs_of(enc, t)[i],
                                    ) == Some(t[i]) by {
                                        if i < j {
                                            assert(t[i] == chunks.take(j as int)[i]);
                                            assert(blobs_of(enc, t)[i] == blobs_of(enc, chunks.take(j as int))[i]);
                                        } else {
                                            assert(results@[j as int] matches Some(b) ==> decode_spec(codec, b@) == Some(
                                                views[j as int]@,
                                            ));
                                        }
                                    }
                                }
                                assert(encodes_all(enc, t)) by {
                                    assert forall|i: int| 0 <= i < t.len() implies match #[trigger] enc(t[i]) {
                                        Some(b) => b.len() <= MAX_FRAME_LEN,
                                        None => false,
                                    } by {
                                        if i < j {
                                            assert(t[i] == chunks.take(j as int)[i]);
                                        }
                                    }
                                }
                            }
                        },
                        Err(e) => {
                            proof {
                                assert(enc(chunks[j as int]) == Some(blob@));
                                assert(chunks.take(width as int)[j as int] == chunks[j as int]);
                            }
                            return Err(e);
                        },
                    }
                },
            }
            j = j + 1;
        }
        Ok(off)
    }

    /// Decompresses a batch, one chunk per worker, keeping the order.
    fn decompress_batch(&self, inputs: Vec<Vec<u8>>) -> (r: Result<Vec<Vec<u8>>, ArchiveError>)
        ensures
            match r {
                Ok(outs) => {
                    &&& forall|i: int| 0 <= i < inputs@.len() ==> decode_spec(self.codec, #[trigger] inputs@[i]@) is Some
                    &&& outs@.len() == inputs@.len()
                    &&& forall|i: int|
                        0 <= i < inputs@.len() ==> decode_spec(self.codec, inputs@[i]@) == Some(
                            #[trigger] outs@[i]@,
                        )
                },
                Err(e) => {
                    &&& e == ArchiveError::CodecFailure
                    &&& exists|i: int| 0 <= i < inputs@.len() && decode_spec(self.codec, #[trigger] inputs@[i]@) is None
                },
            },
    {
        let ghost views = inputs@;
        let ghost dec = block_decoder(self.codec);
        let codec = self.codec;
        let results = map_in_pool(
            &self.pool,
            inputs,
            (move |blob: Vec<u8>| -> (r: Option<Vec<u8>>)
                ensures
                    outcome(r, decode_spec(codec, blob@)),
                { decode_chunk(codec, blob) }),
        );
        let mut outs: Vec<Vec<u8>> = Vec::new();
        let mut j: usize = 0;
        while j < results.len()
            invariant
                j <= results@.len() == views.len(),
                dec == block_decoder(codec),
                codec == self.codec,
                views == inputs@,
                forall|i: int| 0 <= i < views.len() ==> outcome(#[trigger] results@[i], dec(views[i]@)),
                outs@.len() == j,
                forall|i: int| 0 <= i < j ==> dec(views[i]@) == Some((#[trigger] outs@[i])@),
            decreases results@.len() - j,
        {
            assert(outcome(results@[j as int], dec(views[j as int]@)));
            match &results[j] {
                None => {
                    assert(decode_spec(self.codec, inputs@[j as int]@) is None);
                    return Err(ArchiveError::CodecFailure);
                },
                Some(out) => {
                    outs.push(out.clone());
                },
            }
            j = j + 1;
        }
        assert forall|i: int| 0 <= i < inputs@.len() implies decode_spec(self.codec, #[trigger] inputs@[i]@) is Some by {
            assert(dec(views[i]@) == Some(outs@[i]@));
        }
        Ok(outs)
    }
}

} // verus!

verus! {

/// Compresses each chunk with zlib (flate2) on a pool of workers.
pub struct Flate2Compressor {
    engine: BlockEngine,
}

impl Flate2Compressor {
    /// A compressor with `threads` workers at zlib level `level` (0 to 10); `None`
    /// where the workers cannot be started.
    pub fn new(threads: usize, level: u32) -> (r: Option<Self>)
        requires
            threads >= 1,
            level <= MAX_ZLIB_LEVEL,
        ensures
            r matches Some(c) ==> c.wf() && c.level() == level && c.threads() == threads,
    {
        match BlockEngine::new(BlockCodec::Zlib(level), threads) {
            Some(engine) => Some(Flate2Compressor { engine }),
            None => None,
        }
    }

    /// The zlib level.
    pub closed spec fn level(&self) -> u32 {
        match self.engine.codec {
            BlockCodec::Zlib(v) => v,
            _ => 0,
        }
    }

    /// How many workers it runs.
    pub closed spec fn threads(&self) -> nat {
        self.engine.threads as nat
    }
}

impl Compressor for Flate2Compressor {
    open spec fn spec_name(&self) -> Seq<char> {
        "flate2"@
    }

    open spec fn encoder(&self) -> ChunkCodec {
        |x: Seq<u8>| zlib_compressed(self.level(), x)
    }

    closed spec fn wf(&self) -> bool {
        &&& self.engine.threads >= 1
        &&& self.engine.codec is Zlib
        &&& setting_ok(self.engine.codec)
    }

    /// As many chunks as there are workers, or as are left.
    open spec fn round_width(&self, remaining: nat) -> nat {
        if self.threads() < remaining {
            self.threads()
        } else {
            remaining
        }
    }

    open spec fn restorer(&self) -> ChunkCodec {
        |x: Seq<u8>| zlib_decompressed(x)
    }

    fn name(&self) -> (r: &'static str) {
        proof {
            reveal_strlit("flate2");
        }
        "flate2"
    }

    fn compress(
        &mut self,
        input: &[u8],
        remaining_chunks: usize,
        chunk_size: u32,
        chunk_writer: &mut ChunkWriter,
    ) -> (r: Result<usize, ArchiveError>) {
        assert(block_encoder(self.engine.codec) =~= self.encoder());
        assert(block_decoder(self.engine.codec) =~= self.restorer());
        self.engine.compress_round(input, remaining_chunks, chunk_size, chunk_writer)
    }
}

/// Compresses each chunk with brotli on a pool of workers.
pub struct BrotliCompressor {
    engine: BlockEngine,
}

impl BrotliCompressor {
    /// A compressor with `threads` workers at brotli quality `quality`; `None`
    /// where the workers cannot be started.
    pub fn new(threads: usize, quality: u32) -> (r: Option<Self>)
        requires
            threads >= 1,
        ensures
            r matches Some(c) ==> c.wf() && c.quality() == quality && c.threads() == threads,
    {
        match BlockEngine::new(BlockCodec::Brotli(quality), threads) {
            Some(engine) => Some(BrotliCompressor { engine }),
            None => None,
        }
    }

    /// The brotli quality.
    pub closed spec fn quality(&self) -> u32 {
        match self.engine.codec {
            BlockCodec::Brotli(v) => v,
            _ => 0,
        }
    }

    /// How many workers it runs.
    pub closed spec fn threads(&self) -> nat {
        self.engine.threads as nat
    }
}

impl Compressor for BrotliCompressor {
    open spec fn spec_name(&self) -> Seq<char> {
        "brotli"@
    }

    open spec fn encoder(&self) -> ChunkCodec {
        |x: Seq<u8>| brotli_compressed(self.quality(), x)
    }

    closed spec fn wf(&self) -> bool {
        &&& self.engine.threads >= 1
        &&& self.engine.codec is Brotli
        &&& setting_ok(self.engine.codec)
    }

    /// As many chunks as there are workers, or as are left.
    open spec fn round_width(&self, remaining: nat) -> nat {
        if self.threads() < remaining {
            self.threads()
        } else {
            remaining
        }
    }

    open spec fn restorer(&self) -> ChunkCodec {
        |x: Seq<u8>| brotli_decompressed(x)
    }

    fn name(&self) -> (r: &'static str) {
        proof {
            reveal_strlit("brotli");
        }
        "brotli"
    }

    fn compress(
        &mut self,
        input: &[u8],
        remaining_chunks: usize,
        chunk_size: u32,
        chunk_writer: &mut ChunkWriter,
    ) -> (r: Result<usize, ArchiveError>) {
        assert(block_encoder(self.engine.codec) =~= self.encoder());
        assert(block_decoder(self.engine.codec) =~= self.restorer());
        self.engine.compress_round(input, remaining_chunks, chunk_size, chunk_writer)
    }
}

/// Compresses each chunk with the lz4 frame format on a pool of workers.
pub struct Lz4Compressor {
    engine: BlockEngine,
}

impl Lz4Compressor {
    /// A compressor with `threads` workers at lz4 level `level`; `None`
    /// where the workers cannot be started.
    pub fn new(threads: usize, level: u32) -> (r: Option<Self>)
        requires
            threads >= 1,
        ensures
            r matches Some(c) ==> c.wf() && c.level() == level && c.threads() == threads,
    {
        match BlockEngine::new(BlockCodec::Lz4(level), threads) {
            Some(engine) => Some(Lz4Compressor { engine }),
            None => None,
        }
    }

    /// The lz4 level.
    pub closed spec fn level(&self) -> u32 {
        match self.engine.codec {
            BlockCodec::Lz4(v) => v,
            _ => 0,
        }
    }

    /// How many workers it runs.
    pub closed spec fn threads(&self) -> nat {
        self.engine.threads as nat
    }
}

impl Compressor for Lz4Compressor {
    open spec fn spec_name(&self) -> Seq<char> {
        "lz4"@
    }

    open spec fn encoder(&self) -> ChunkCodec {
        |x: Seq<u8>| lz4_compressed(self.level(), x)
    }

    closed spec fn wf(&self) -> bool {
        &&& self.engine.threads >= 1
        &&& self.engine.codec is Lz4
        &&& setting_ok(self.engine.codec)
    }

    /// As many chunks as there are workers, or as are left.
    open spec fn round_width(&self, remaining: nat) -> nat {
        if self.threads() < remaining {
            self.threads()
        } else {
            remaining
        }
    }

    open spec fn restorer(&self) -> ChunkCodec {
        |x: Seq<u8>| lz4_decompressed(x)
    }

    fn name(&self) -> (r: &'static str) {
        proof {
            reveal_strlit("lz4");
        }
        "lz4"
    }

    fn compress(
        &mut self,
        input: &[u8],
        remaining_chunks: usize,
        chunk_size: u32,
        chunk_writer: &mut ChunkWriter,
    ) -> (r: Result<usize, ArchiveError>) {
        assert(block_encoder(self.engine.codec) =~= self.encoder());
        assert(block_decoder(self.engine.codec) =~= self.restorer());
        self.engine.compress_round(input, remaining_chunks, chunk_size, chunk_writer)
    }
}

/// Decompresses zlib (flate2) chunks, one per worker, on a pool of workers.
pub struct Flate2Decompressor {
    engine: BlockEngine,
}

impl Flate2Decompressor {
    /// A decompressor with `threads` workers; `None` where they cannot be started.
    pub fn new(threads: usize) -> (r: Option<Self>)
        requires
            threads >= 1,
        ensures
            r matches Some(d) ==> d.wf() && d.threads() == threads,
    {
        // the setting plays no part in decoding
        match BlockEngine::new(BlockCodec::Zlib(0), threads) {
            Some(engine) => Some(Flate2Decompressor { engine }),
            None => None,
        }
    }

    /// How many workers it runs.
    pub closed spec fn threads(&self) -> nat {
        self.engine.threads as nat
    }
}

impl Decompressor for Flate2Decompressor {
    open spec fn decoder(&self) -> ChunkCodec {
        |x: Seq<u8>| zlib_decompressed(x)
    }

    /// One chunk per worker.
    open spec fn batch(&self) -> nat {
        self.threads()
    }

    closed spec fn wf(&self) -> bool {
        &&& self.engine.threads >= 1
        &&& self.engine.codec is Zlib
        &&& setting_ok(self.engine.codec)
    }

    /// One chunk per worker.
    fn decompress_inputs(&self) -> (r: usize) {
        self.engine.threads
    }

    fn decompress(&mut self, inputs: Vec<Vec<u8>>) -> (r: Result<Vec<Vec<u8>>, ArchiveError>) {
        assert(block_decoder(self.engine.codec) =~= self.decoder());
        self.engine.decompress_batch(inputs)
    }
}

/// Decompresses brotli chunks, one per worker, on a pool of workers.
pub struct BrotliDecompressor {
    engine: BlockEngine,
}

impl BrotliDecompressor {
    /// A decompressor with `threads` workers; `None` where they cannot be started.
    pub fn new(threads: usize) -> (r: Option<Self>)
        requires
            threads >= 1,
        ensures
            r matches Some(d) ==> d.wf() && d.threads() == threads,
    {
        // the setting plays no part in decoding
        match BlockEngine::new(BlockCodec::Brotli(0), threads) {
            Some(engine) => Some(BrotliDecompressor { engine }),
            None => None,
        }
    }

    /// How many workers it runs.
    pub closed spec fn threads(&self) -> nat {
        self.engine.threads as nat
    }
}

impl Decompressor for BrotliDecompressor {
    open spec fn decoder(&self) -> ChunkCodec {
        |x: Seq<u8>| brotli_decompressed(x)
    }

    /// One chunk per worker.
    open spec fn batch(&self) -> nat {
        self.threads()
    }

    closed spec fn wf(&self) -> bool {
        &&& self.engine.threads >= 1
        &&& self.engine.codec is Brotli
        &&& setting_ok(self.engine.codec)
    }

    /// One chunk per worker.
    fn decompress_inputs(&self) -> (r: usize) {
        self.engine.threads
    }

    fn decompress(&mut self, inputs: Vec<Vec<u8>>) -> (r: Result<Vec<Vec<u8>>, ArchiveError>) {
        assert(block_decoder(self.engine.codec) =~= self.decoder());
        self.engine.decompress_batch(inputs)
    }
}

/// Decompresses lz4 chunks, one per worker, on a pool of workers.
pub struct Lz4Decompressor {
    engine: BlockEngine,
}

impl Lz4Decompressor {
    /// A decompressor with `threads` workers; `None` where they cannot be started.
    pub fn new(threads: usize) -> (r: Option<Self>)
        requires
            threads >= 1,
        ensures
            r matches Some(d) ==> d.wf() && d.threads() == threads,
    {
        // the setting plays no part in decoding
        match BlockEngine::new(BlockCodec::Lz4(0), threads) {
            Some(engine) => Some(Lz4Decompressor { engine }),
            None => None,
        }
    }

    /// How many workers it runs.
    pub closed spec fn threads(&self) -> nat {
        self.engine.threads as nat
    }
}

impl Decompressor for Lz4Decompressor {
    open spec fn decoder(&self) -> ChunkCodec {
        |x: Seq<u8>| lz4_decompressed(x)
    }

    /// One chunk per worker.
    open spec fn batch(&self) -> nat {
        self.threads()
    }

    closed spec fn wf(&self) -> bool {
        &&& self.engine.threads >= 1
        &&& self.engine.codec is Lz4
        &&& setting_ok(self.engine.codec)
    }

    /// One chunk per worker.
    fn decompress_inputs(&self) -> (r: usize) {
        self.engine.threads
    }

    fn decompress(&mut self, inputs: Vec<Vec<u8>>) -> (r: Result<Vec<Vec<u8>>, ArchiveError>) {
        assert(block_decoder(self.engine.codec) =~= self.decoder());
        self.engine.decompress_batch(inputs)
    }
}

} // verus!

verus! {

/// The codecs an archive can name.
#[derive(Clone, Copy, Debug, PartialEq, Eq, Structural)]
pub enum CompressionFormat {
    Uncompressed,
    Flate2,
    Brotli,
    Lz4,
}

impl CompressionFormat {
    /// The name written into the archive header.
    pub open spec fn spec_name(self) -> Seq<char> {
        match self {
            CompressionFormat::Uncompressed => "none"@,
            CompressionFormat::Flate2 => "flate2"@,
            CompressionFormat::Brotli => "brotli"@,
            CompressionFormat::Lz4 => "lz4"@,
        }
    }

    pub fn name(&self) -> (r: &'static str)
        ensures
            r@ == self.spec_name(),
    {
        match self {
            CompressionFormat::Uncompressed => "none",
            CompressionFormat::Flate2 => "flate2",
            CompressionFormat::Brotli => "brotli",
            CompressionFormat::Lz4 => "lz4",
        }
    }

    /// The codec a header names, if a reader knows it.
    pub fn from_name(name: &str) -> (r: Option<CompressionFormat>)
        ensures
            r is Some <==> known_compression(name@),
            r matches Some(f) ==> f.spec_name() == name@,
    {
        let b = name.as_bytes();
        proof {
            reveal_strlit("none");
            reveal_strlit("flate2");
            reveal_strlit("brotli");
            reveal_strlit("lz4");
            broadcast use vstd::utf8::encode_utf8_decode_utf8;

            assert(vstd::utf8::decode_utf8(vstd::utf8::encode_utf8(name@)) == name@);
            assert(vstd::utf8::decode_utf8(vstd::utf8::encode_utf8("none"@)) == "none"@);
            assert(vstd::utf8::decode_utf8(vstd::utf8::encode_utf8("flate2"@)) == "flate2"@);
            assert(vstd::utf8::decode_utf8(vstd::utf8::encode_utf8("brotli"@)) == "brotli"@);
            assert(vstd::utf8::decode_utf8(vstd::utf8::encode_utf8("lz4"@)) == "lz4"@);
        }
        if bytes_are(b, "none".as_bytes()) {
            Some(CompressionFormat::Uncompressed)
        } else if bytes_are(b, "flate2".as_bytes()) {
            Some(CompressionFormat::Flate2)
        } else if bytes_are(b, "brotli".as_bytes()) {
            Some(CompressionFormat::Brotli)
        } else if bytes_are(b, "lz4".as_bytes()) {
            Some(CompressionFormat::Lz4)
        } else {
            None
        }
    }
}

} // verus!
