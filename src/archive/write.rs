//! The streaming writer: archive header once, then entries one after another.
use vstd::prelude::*;

use crate::compression::{Compressor, encodes_all, blobs_of, restores_all};
use crate::error::ArchiveError;
use crate::frame::{
    ChunkWriter, chunks_of, frames_wire, lemma_chunk_count, lemma_chunks_lens, lemma_chunks_bound, lemma_frames_wire_append,
};
use crate::header::{
    ArchiveEntryHeader, ArchiveEntryHeaderView, ArchiveHeader, ArchiveHeaderView, ARCHIVE_VERSION,
    MIN_CHUNK_SIZE, archive_header_wire, entry_header_wire, lemma_known_name_bytes, text_bytes,
};
use crate::wire::Serialize;

verus! {

/// The bytes an entry takes in an archive written by `c` with chunks of `cs`
/// bytes: its header, then the framed chunks of its payload.
pub open spec fn entry_wire<C: Compressor>(c: C, h: ArchiveEntryHeaderView, payload: Seq<u8>, cs: nat) -> Seq<u8> {
    entry_header_wire(h) + frames_wire(blobs_of(c.encoder(), chunks_of(payload, cs)))
}

/// Writes an archive into a byte vector.
pub struct ArchiveWriter<C: Compressor> {
    sink: ChunkWriter,
    compressor: C,
    header: ArchiveHeader,
    failed: Option<ArchiveError>,
}

impl<C: Compressor> ArchiveWriter<C> {
    /// Everything written so far, the archive header included.
    pub closed spec fn written(&self) -> Seq<u8> {
        self.sink.writer@
    }

    /// The logical chunk size.
    pub closed spec fn chunk_size(&self) -> nat {
        self.header.compression_chunk_size as nat
    }

    /// The compressor.
    pub closed spec fn compressor(&self) -> C {
        self.compressor
    }

    /// The error that stopped the writer, if one did.
    pub closed spec fn failed(&self) -> Option<ArchiveError> {
        self.failed
    }

    pub closed spec fn wf(&self) -> bool {
        &&& self.compressor.wf()
        &&& self.header.compression_chunk_size >= MIN_CHUNK_SIZE
    }

    /// Starts an archive after the bytes already in `writer`: writes the
    /// archive header with version 1, the compressor's name and the chunk size.
    pub fn new(writer: Vec<u8>, compressor: C, compression_chunk_size: u32) -> (r: Self)
        requires
            compressor.wf(),
            compression_chunk_size >= MIN_CHUNK_SIZE,
        ensures
            r.wf(),
            r.written() == writer@ + archive_header_wire(
                ArchiveHeaderView {
                    version: ARCHIVE_VERSION,
                    compression: compressor.spec_name(),
                    compression_chunk_size: compression_chunk_size,
                },
            ),
            r.chunk_size() == compression_chunk_size,
            r.compressor() == compressor,
            r.failed() is None,
    {
        let name = compressor.name();
        proof {
            lemma_known_name_bytes(name@);
        }
        let header = ArchiveHeader {
            version: ARCHIVE_VERSION,
            compression: name.to_owned(),
            compression_chunk_size,
        };
        let mut out = writer;
        header.serialize(&mut out);
        ArchiveWriter { sink: ChunkWriter { writer: out, chunk_count: 0 }, compressor, header, failed: None }
    }

    /// Writes one entry: its header, then its payload `input` (which holds
    /// `entry.size` bytes) cut into chunks, each compressed and framed in order.
    /// Fails with `CodecFailure` where a chunk does not compress or its blob
    /// does not fit the length prefix; after any failure the writer refuses
    /// every further entry with the same error.
    pub fn write_entry(&mut self, entry: ArchiveEntryHeader, input: &[u8]) -> (r: Result<(), ArchiveError>)
        requires
            old(self).wf(),
            input@.len() == entry.size.0,
        ensures
            final(self).wf(),
            final(self).chunk_size() == old(self).chunk_size(),
            final(self).compressor().encoder() == old(self).compressor().encoder(),
            final(self).compressor().restorer() == old(self).compressor().restorer(),
            final(self).compressor().spec_name() == old(self).compressor().spec_name(),
            old(self).failed() matches Some(e) ==> r == Err::<(), ArchiveError>(e) && final(self).written()
                == old(self).written() && final(self).failed() == old(self).failed(),
            old(self).failed() is None ==> {
                let chunks = chunks_of(input@, old(self).chunk_size());
                if encodes_all(old(self).compressor().encoder(), chunks) {
                    &&& r is Ok
                    &&& final(self).failed() is None
                    &&& restores_all(
                        old(self).compressor().restorer(),
                        chunks,
                        blobs_of(old(self).compressor().encoder(), chunks),
                    )
                    &&& final(self).written() == old(self).written() + entry_wire(
                        old(self).compressor(),
                        entry@,
                        input@,
                        old(self).chunk_size(),
                    )
                } else {
                    &&& r == Err::<(), ArchiveError>(ArchiveError::CodecFailure)
                    &&& final(self).failed() == Some(ArchiveError::CodecFailure)
                }
            },
    {
        if let Some(e) = self.failed {
            return Err(e);
        }
        let path_len = entry.path.as_str().as_bytes().len();
        entry.serialize(&mut self.sink.writer);
        let ghost base = self.sink.writer@;
        let ghost c0 = self.compressor;
        let cs = self.header.compression_chunk_size;
        let size = entry.size.0;
        assert(size / (cs as u64) < u64::MAX) by (nonlinear_arith)
            requires
                cs >= 1024,
        ;
        let count: u64 = size / (cs as u64) + if size % (cs as u64) > 0 {
            1
        } else {
            0
        };
        let ghost chunks = chunks_of(input@, cs as nat);
        proof {
            lemma_chunk_count(size as nat, cs as nat);
            lemma_chunks_lens(input@, cs as nat);
            lemma_chunks_bound(input@, cs as nat);
            assert(input@.skip(0) =~= input@);
            assert(chunks.take(0) =~= Seq::<Seq<u8>>::empty());
            assert(blobs_of(c0.encoder(), Seq::<Seq<u8>>::empty()) =~= Seq::<Seq<u8>>::empty());
            assert(frames_wire(Seq::<Seq<u8>>::empty()) =~= Seq::<u8>::empty());
        }
        self.sink.chunk_count = count;
        let mut off: usize = 0;
        while self.sink.chunk_count > 0
            invariant
                self.compressor.wf(),
                self.header.compression_chunk_size == cs,
                cs == old(self).header.compression_chunk_size,
                c0 == old(self).compressor,
                cs >= MIN_CHUNK_SIZE,
                self.failed is None,
                old(self).failed is None,
                self.compressor.encoder() == c0.encoder(),
                self.compressor.spec_name() == c0.spec_name(),
                chunks == chunks_of(input@, cs as nat),
                count == chunks.len(),
                count <= input@.len(),
                off <= input@.len(),
                self.sink.chunk_count <= count,
                chunks_of(input@.skip(off as int), cs as nat) == chunks.skip(
                    (count - self.sink.chunk_count) as int,
                ),
                encodes_all(c0.encoder(), chunks.take((count - self.sink.chunk_count) as int)),
                self.compressor.restorer() == c0.restorer(),
                restores_all(
                    c0.restorer(),
                    chunks.take((count - self.sink.chunk_count) as int),
                    blobs_of(c0.encoder(), chunks.take((count - self.sink.chunk_count) as int)),
                ),
                self.sink.writer@ == base + frames_wire(
                    blobs_of(c0.encoder(), chunks.take((count - self.sink.chunk_count) as int)),
                ),
            decreases self.sink.chunk_count,
        {
            let ghost done = (count - self.sink.chunk_count) as int;
            let ghost before = self.sink.writer@;
            let ghost cself = self.compressor;
            let ghost cnt0 = self.sink.chunk_count;
            let rest = &input[off..input.len()];
            assert(rest@ == input@.skip(off as int));
            match self.compressor.compress(rest, self.sink.chunk_count as usize, cs, &mut self.sink) {
                Ok(used) => {
                    proof {
                        let n = (count - self.sink.chunk_count) as int - done;
                        let round = chunks_of(rest@, cs as nat).take(n);
                        assert(round =~= chunks.take(done + n).skip(done));
                        assert(chunks.take(done + n) =~= chunks.take(done) + round);
                        assert(blobs_of(c0.encoder(), chunks.take(done + n)) =~= blobs_of(
                            c0.encoder(),
                            chunks.take(done),
                        ) + blobs_of(c0.encoder(), round));
                        lemma_frames_wire_append(
                            blobs_of(c0.encoder(), chunks.take(done)),
                            blobs_of(c0.encoder(), round),
                        );
                        assert(input@.skip(off + used) =~= rest@.skip(used as int));
                        assert(chunks.skip(done).skip(n) =~= chunks.skip(done + n));
                        assert(restores_all(
                            c0.restorer(),
                            chunks.take(done + n),
                            blobs_of(c0.encoder(), chunks.take(done + n)),
                        )) by {
                            assert forall|i: int| 0 <= i < done + n implies (c0.restorer())(
                                #[trigger] blobs_of(c0.encoder(), chunks.take(done + n))[i],
                            ) == Some(chunks.take(done + n)[i]) by {
                                if i >= done {
                                    assert(chunks.take(done + n)[i] == round[i - done]);
                                    assert(blobs_of(c0.encoder(), chunks.take(done + n))[i] == blobs_of(
                                        c0.encoder(),
                                        round,
                                    )[i - done]);
                                } else {
                                    assert(chunks.take(done + n)[i] == chunks.take(done)[i]);
                                    assert(blobs_of(c0.encoder(), chunks.take(done + n))[i] == blobs_of(
                                        c0.encoder(),
                                        chunks.take(done),
                                    )[i]);
                                }
                            }
                        }
                        assert(encodes_all(c0.encoder(), chunks.take(done + n))) by {
                            assert forall|i: int| 0 <= i < done + n implies match #[trigger] (c0.encoder())(
                                chunks.take(done + n)[i],
                            ) {
                                Some(b) => b.len() <= crate::frame::MAX_FRAME_LEN,
                                None => false,
                            } by {
                                if i >= done {
                                    assert(chunks.take(done + n)[i] == round[i - done]);
                                } else {
                                    assert(chunks.take(done + n)[i] == chunks.take(done)[i]);
                                }
                            }
                        }
                    }
                    off = off + used;
                },
                Err(e) => {
                    proof {
                        assert(!encodes_all(c0.encoder(), chunks)) by {
                            let w = cself.round_width(cnt0 as nat);
                            let rs = chunks_of(rest@, cs as nat).take(w as int);
                            assert(chunks_of(rest@, cs as nat) == chunks.skip(done));
                            if encodes_all(c0.encoder(), chunks) {
                                assert forall|i: int| 0 <= i < rs.len() implies match #[trigger] (cself.encoder())(rs[i]) {
                                    Some(b) => b.len() <= crate::frame::MAX_FRAME_LEN,
                                    None => false,
                                } by {
                                    assert(rs[i] == chunks[done + i]);
                                }
                            }
                        }
                    }
                    self.failed = Some(e);
                    return Err(e);
                },
            }
        }
        proof {
            assert(chunks.take(count as int) =~= chunks);
        }
        Ok(())
    }

    /// The bytes written so far, leaving the writer empty-handed but able to
    /// go on: what follows is appended to a fresh buffer.
    pub fn take_output(&mut self) -> (r: Vec<u8>)
        requires
            old(self).wf(),
        ensures
            final(self).wf(),
            r@ == old(self).written(),
            final(self).written() == Seq::<u8>::empty(),
            final(self).chunk_size() == old(self).chunk_size(),
            final(self).compressor() == old(self).compressor(),
            final(self).failed() == old(self).failed(),
    {
        let mut out: Vec<u8> = Vec::new();
        std::mem::swap(&mut out, &mut self.sink.writer);
        out
    }

    /// Ends the archive and hands back everything written.
    pub fn into_inner(self) -> (r: Vec<u8>)
        ensures
            r@ == self.written(),
    {
        self.sink.writer
    }
}

} // verus!
