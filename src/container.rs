//! Facts about archives as a whole: what the writer produces, the reader
//! reads back.
use vstd::prelude::*;

use crate::compression::{
    BrotliCompressor, BrotliDecompressor, ChunkCodec, Compressor, Decompressor, Flate2Compressor, Flate2Decompressor,
    Lz4Compressor, Lz4Decompressor, blobs_of, encodes_all, restores_all,
};
use crate::error::ArchiveError;
use crate::frame::{
    chunk_count, chunk_lens, chunks_of, frames_fit, frames_scan, frames_wire, lemma_chunk_count, lemma_chunks_lens,
    lemma_frames_cut, lemma_frames_round_trip, lens_sum, MAX_FRAME_LEN,
};
use crate::header::{ArchiveEntryHeaderView, entry_header_parse, entry_header_wire, lemma_entry_header_cut, lemma_entry_header_round_trip, text_bytes};
use crate::archive::read::{decode_prefix, entry_at, entry_payload, lemma_lens_sum_snoc};
use crate::archive::write::entry_wire;

verus! {

/// Chunk `k` of `p` is the stretch of `p` after the chunks before it.
proof fn lemma_chunk_is_slice(p: Seq<u8>, cs: nat, k: nat)
    requires
        cs > 0,
        k < chunks_of(p, cs).len(),
    ensures
        chunk_lens(p.len(), cs).len() == chunks_of(p, cs).len(),
        chunks_of(p, cs)[k as int] == p.subrange(
            lens_sum(chunk_lens(p.len(), cs).take(k as int)) as int,
            (lens_sum(chunk_lens(p.len(), cs).take(k as int)) + chunk_lens(p.len(), cs)[k as int]) as int,
        ),
    decreases k,
{
    lemma_chunks_lens(p, cs);
    let l = chunk_lens(p.len(), cs);
    if k == 0 {
        assert(l.take(0) =~= Seq::<nat>::empty());
        if p.len() <= cs {
            assert(p.subrange(0, p.len() as int) =~= p);
        } else {
            assert(p.take(cs as int) =~= p.subrange(0, cs as int));
        }
    } else {
        let q = p.skip(cs as int);
        let t = chunk_lens(q.len(), cs);
        assert(q.len() == p.len() - cs);
        lemma_chunk_is_slice(q, cs, (k - 1) as nat);
        crate::frame::lemma_chunk_len_at(q.len(), cs, (k - 1) as nat);
        assert(l == seq![cs] + t);
        assert(l.take(k as int).drop_first() =~= t.take(k - 1));
        let before = lens_sum(t.take(k - 1));
        assert(lens_sum(l.take(k as int)) == cs + before);
        assert(q.subrange(before as int, (before + t[k - 1]) as int) =~= p.subrange(
            (cs + before) as int,
            (cs + before + t[k - 1]) as int,
        ));
    }
}

/// Decoding the chunks of `p`, where each blob decodes to its chunk, gives
/// back the first `k` chunks' worth of `p`.
proof fn lemma_decode_chunks(dec: ChunkCodec, blobs: Seq<Seq<u8>>, p: Seq<u8>, cs: nat, k: nat)
    requires
        cs > 0,
        k <= chunks_of(p, cs).len(),
        blobs.len() == chunks_of(p, cs).len(),
        forall|i: int| 0 <= i < blobs.len() ==> dec(#[trigger] blobs[i]) == Some(chunks_of(p, cs)[i]),
    ensures
        decode_prefix(dec, blobs, chunk_lens(p.len(), cs), k) == Some(
            p.take(lens_sum(chunk_lens(p.len(), cs).take(k as int)) as int),
        ),
    decreases k,
{
    lemma_chunks_lens(p, cs);
    let l = chunk_lens(p.len(), cs);
    if k == 0 {
        assert(l.take(0) =~= Seq::<nat>::empty());
        assert(p.take(0) =~= Seq::<u8>::empty());
    } else {
        lemma_decode_chunks(dec, blobs, p, cs, (k - 1) as nat);
        lemma_chunk_is_slice(p, cs, (k - 1) as nat);
        lemma_lens_sum_snoc(l, k);
        crate::frame::lemma_chunk_lens_shape(p.len(), cs);
        crate::archive::read::lemma_lens_sum_prefix_mono(l, k, l.len());
        assert(l.take(l.len() as int) =~= l);
        let a = lens_sum(l.take(k - 1));
        assert(p.take(a as int) + chunks_of(p, cs)[k - 1] =~= p.take((a + l[k - 1]) as int));
    }
}

proof fn lemma_blobs_fit<C: Compressor>(c: C, payload: Seq<u8>, cs: nat)
    requires
        encodes_all(c.encoder(), chunks_of(payload, cs)),
    ensures
        frames_fit(blobs_of(c.encoder(), chunks_of(payload, cs))),
{
    let chunks = chunks_of(payload, cs);
    let blobs = blobs_of(c.encoder(), chunks);
    assert forall|i: int| 0 <= i < blobs.len() implies #[trigger] blobs[i].len() <= MAX_FRAME_LEN by {
        assert(match (c.encoder())(chunks[i]) {
            Some(b) => b.len() <= MAX_FRAME_LEN,
            None => false,
        });
    }
}

/// The reader finds, where the writer put an entry, that entry's header, the
/// framed chunks the writer wrote and the end of the entry, whatever comes
/// before or after it.
#[verifier::rlimit(80)]
pub proof fn lemma_entry_found<C: Compressor>(
    c: C,
    h: ArchiveEntryHeaderView,
    payload: Seq<u8>,
    cs: nat,
    before: Seq<u8>,
    after: Seq<u8>,
)
    requires
        cs > 0,
        h.size == payload.len(),
        text_bytes(h.path).len() <= u64::MAX,
        encodes_all(c.encoder(), chunks_of(payload, cs)),
    ensures
        entry_at(before + entry_wire(c, h, payload, cs) + after, before.len(), cs) == Some(
            Ok::<(ArchiveEntryHeaderView, Seq<Seq<u8>>, nat), ArchiveError>(
                (
                    h,
                    blobs_of(c.encoder(), chunks_of(payload, cs)),
                    before.len() + entry_wire(c, h, payload, cs).len(),
                ),
            ),
        ),
{
    let chunks = chunks_of(payload, cs);
    let blobs = blobs_of(c.encoder(), chunks);
    let hw = entry_header_wire(h);
    let fw = frames_wire(blobs);
    let data = before + entry_wire(c, h, payload, cs) + after;
    let pos = before.len();
    assert(data.skip(pos as int) =~= hw + (fw + after));
    lemma_entry_header_round_trip(h, fw + after);
    assert(data.skip((pos + hw.len()) as int) =~= fw + after);
    lemma_chunks_lens(payload, cs);
    lemma_chunk_count(payload.len(), cs);
    lemma_blobs_fit(c, payload, cs);
    lemma_frames_round_trip(blobs, after);
    assert(entry_header_parse(data.skip(pos as int)) == Ok::<(ArchiveEntryHeaderView, nat), ArchiveError>(
        (h, hw.len()),
    ));
    assert(chunk_count(h.size as nat, cs) == blobs.len());
    assert(frames_scan(data.skip((pos + hw.len()) as int), chunk_count(h.size as nat, cs)) == Some(
        (blobs, fw.len()),
    ));
    assert(pos < data.len());
}

/// Where the decompressor turns each blob the writer made back into its chunk
/// (what `write_entry` ensures of the compressor's `restorer`), the entry's
/// chunks decode to the payload that was written.
pub proof fn lemma_payload_identity<C: Compressor, D: Decompressor>(c: C, d: D, payload: Seq<u8>, cs: nat)
    requires
        cs > 0,
        restores_all(d.decoder(), chunks_of(payload, cs), blobs_of(c.encoder(), chunks_of(payload, cs))),
    ensures
        entry_payload(d.decoder(), blobs_of(c.encoder(), chunks_of(payload, cs)), payload.len(), cs)
            == Some(payload),
{
    let chunks = chunks_of(payload, cs);
    let blobs = blobs_of(c.encoder(), chunks);
    lemma_chunks_lens(payload, cs);
    assert forall|i: int| 0 <= i < blobs.len() implies (d.decoder())(#[trigger] blobs[i]) == Some(chunks[i]) by {}
    lemma_decode_chunks(d.decoder(), blobs, payload, cs, chunks.len());
    crate::frame::lemma_chunk_lens_shape(payload.len(), cs);
    assert(chunk_lens(payload.len(), cs).take(chunks.len() as int) =~= chunk_lens(payload.len(), cs));
    assert(payload.take(payload.len() as int) =~= payload);
}

/// Each codec's decompressor is what undoes its compressor, whatever the
/// settings and worker counts: so with `write_entry`'s guarantee, every entry
/// written with one of them decodes to its payload.
pub proof fn lemma_decompressors_undo_compressors(
    f: Flate2Compressor,
    fd: Flate2Decompressor,
    b: BrotliCompressor,
    bd: BrotliDecompressor,
    l: Lz4Compressor,
    ld: Lz4Decompressor,
    n: crate::compression::NoCompressor,
    nd: crate::compression::NoDecompressor,
)
    ensures
        f.restorer() == fd.decoder(),
        b.restorer() == bd.decoder(),
        l.restorer() == ld.decoder(),
        n.restorer() == nd.decoder(),
{
    assert(f.restorer() =~= fd.decoder());
    assert(b.restorer() =~= bd.decoder());
    assert(l.restorer() =~= ld.decoder());
    assert(n.restorer() =~= nd.decoder());
}

/// Stored chunks read back unchanged: an archive written without compression
/// gives back every payload it holds.
pub proof fn lemma_stored_payload_identity(payload: Seq<u8>, cs: nat)
    requires
        0 < cs <= MAX_FRAME_LEN,
    ensures
        encodes_all(crate::compression::NoCompressor {  }.encoder(), chunks_of(payload, cs)),
        entry_payload(
            crate::compression::NoDecompressor {  }.decoder(),
            blobs_of(crate::compression::NoCompressor {  }.encoder(), chunks_of(payload, cs)),
            payload.len(),
            cs,
        ) == Some(payload),
{
    let c = crate::compression::NoCompressor {  };
    let d = crate::compression::NoDecompressor {  };
    let chunks = chunks_of(payload, cs);
    lemma_chunks_lens(payload, cs);
    crate::frame::lemma_chunk_lens_shape(payload.len(), cs);
    assert forall|i: int| 0 <= i < chunks.len() implies match #[trigger] (c.encoder())(chunks[i]) {
        Some(b) => b.len() <= MAX_FRAME_LEN,
        None => false,
    } by {
        assert(chunks[i].len() == chunk_lens(payload.len(), cs)[i]);
    }
    assert(restores_all(d.decoder(), chunks, blobs_of(c.encoder(), chunks)));
    lemma_payload_identity(c, d, payload, cs);
}

} // verus!

verus! {

/// A payload of `k` full chunks and `r` bytes more (`0 < r < cs`) has `k + 1`
/// chunks: `k` of `cs` bytes, then one of `r` bytes.
pub proof fn lemma_chunk_boundaries(payload: Seq<u8>, cs: nat, k: nat, r: nat)
    requires
        0 < r < cs,
        payload.len() == k * cs + r,
    ensures
        chunk_count(payload.len(), cs) == k + 1,
        chunks_of(payload, cs).len() == k + 1,
        chunk_lens(payload.len(), cs) == Seq::new(k + 1, |i: int| if i < k { cs } else { r }),
        forall|i: int| 0 <= i < k ==> (#[trigger] chunks_of(payload, cs)[i]).len() == cs,
        chunks_of(payload, cs)[k as int].len() == r,
{
    lemma_lens_shape(payload.len(), cs, k, r);
    lemma_chunks_lens(payload, cs);
    lemma_chunk_count(payload.len(), cs);
}

proof fn lemma_lens_shape(size: nat, cs: nat, k: nat, r: nat)
    requires
        0 < r < cs,
        size == k * cs + r,
    ensures
        chunk_lens(size, cs) == Seq::new(k + 1, |i: int| if i < k { cs } else { r }),
    decreases k,
{
    if k == 0 {
        assert(chunk_lens(size, cs) =~= Seq::new(1, |i: int| if i < 0 { cs } else { r }));
    } else {
        assert(size - cs == (k - 1) * cs + r) by (nonlinear_arith)
            requires
                size == k * cs + r,
                k > 0,
        ;
        assert(size > cs) by (nonlinear_arith)
            requires
                size == k * cs + r,
                k > 0,
                r > 0,
        ;
        lemma_lens_shape((size - cs) as nat, cs, (k - 1) as nat, r);
        assert(chunk_lens(size, cs) =~= Seq::new(k + 1, |i: int| if i < k { cs } else { r }));
    }
}

/// An empty entry has no chunks: its bytes are its header alone, so the next
/// entry's header follows it at once.
pub proof fn lemma_empty_entry<C: Compressor>(c: C, h: ArchiveEntryHeaderView, cs: nat)
    requires
        h.size == 0,
    ensures
        chunk_count(0, cs) == 0,
        entry_wire(c, h, Seq::<u8>::empty(), cs) == entry_header_wire(h),
{
    assert(blobs_of(c.encoder(), chunks_of(Seq::<u8>::empty(), cs)) =~= Seq::<Seq<u8>>::empty());
    assert(frames_wire(Seq::<Seq<u8>>::empty()) =~= Seq::<u8>::empty());
    assert(entry_header_wire(h) + Seq::<u8>::empty() =~= entry_header_wire(h));
}

/// Two entries written one after the other are found one after the other: the
/// second starts exactly where the first ends, however much of the first was
/// read (`read` never moves that boundary).
#[verifier::rlimit(80)]
pub proof fn lemma_entries_in_sequence<C: Compressor>(
    c: C,
    h1: ArchiveEntryHeaderView,
    p1: Seq<u8>,
    h2: ArchiveEntryHeaderView,
    p2: Seq<u8>,
    cs: nat,
    before: Seq<u8>,
    after: Seq<u8>,
)
    requires
        cs > 0,
        h1.size == p1.len(),
        h2.size == p2.len(),
        text_bytes(h1.path).len() <= u64::MAX,
        text_bytes(h2.path).len() <= u64::MAX,
        encodes_all(c.encoder(), chunks_of(p1, cs)),
        encodes_all(c.encoder(), chunks_of(p2, cs)),
    ensures
        ({
            let w1 = entry_wire(c, h1, p1, cs);
            let w2 = entry_wire(c, h2, p2, cs);
            let data = before + w1 + w2 + after;
            &&& entry_at(data, before.len(), cs) == Some(
                Ok::<(ArchiveEntryHeaderView, Seq<Seq<u8>>, nat), ArchiveError>(
                    (h1, blobs_of(c.encoder(), chunks_of(p1, cs)), before.len() + w1.len()),
                ),
            )
            &&& entry_at(data, before.len() + w1.len(), cs) == Some(
                Ok::<(ArchiveEntryHeaderView, Seq<Seq<u8>>, nat), ArchiveError>(
                    (h2, blobs_of(c.encoder(), chunks_of(p2, cs)), before.len() + w1.len() + w2.len()),
                ),
            )
        }),
{
    let w1 = entry_wire(c, h1, p1, cs);
    let w2 = entry_wire(c, h2, p2, cs);
    assert(before + w1 + (w2 + after) =~= before + w1 + w2 + after);
    lemma_entry_found(c, h1, p1, cs, before, w2 + after);
    lemma_entry_found(c, h2, p2, cs, before + w1, after);
}

/// The number of workers changes nothing in what is written or read: two
/// compressors of one algorithm and setting write the same bytes, and any two
/// decompressors of one algorithm decode alike.
pub proof fn lemma_workers_do_not_matter(
    f1: Flate2Compressor,
    f2: Flate2Compressor,
    b1: BrotliCompressor,
    b2: BrotliCompressor,
    l1: Lz4Compressor,
    l2: Lz4Compressor,
    fd1: Flate2Decompressor,
    fd2: Flate2Decompressor,
    bd1: BrotliDecompressor,
    bd2: BrotliDecompressor,
    ld1: Lz4Decompressor,
    ld2: Lz4Decompressor,
    h: ArchiveEntryHeaderView,
    payload: Seq<u8>,
    cs: nat,
)
    requires
        f1.level() == f2.level(),
        b1.quality() == b2.quality(),
        l1.level() == l2.level(),
    ensures
        entry_wire(f1, h, payload, cs) == entry_wire(f2, h, payload, cs),
        entry_wire(b1, h, payload, cs) == entry_wire(b2, h, payload, cs),
        entry_wire(l1, h, payload, cs) == entry_wire(l2, h, payload, cs),
        fd1.decoder() == fd2.decoder(),
        bd1.decoder() == bd2.decoder(),
        ld1.decoder() == ld2.decoder(),
{
    assert(f1.encoder() =~= f2.encoder());
    assert(b1.encoder() =~= b2.encoder());
    assert(l1.encoder() =~= l2.encoder());
    assert(fd1.decoder() =~= fd2.decoder());
    assert(bd1.decoder() =~= bd2.decoder());
    assert(ld1.decoder() =~= ld2.decoder());
}

} // verus!

verus! {

/// An archive cut anywhere inside an entry the writer wrote — after the
/// entry's first byte and before its last — is caught: looking for that entry
/// reports a truncated entry, never an entry.
#[verifier::rlimit(100)]
pub proof fn lemma_truncation_detected<C: Compressor>(
    c: C,
    h: ArchiveEntryHeaderView,
    payload: Seq<u8>,
    cs: nat,
    before: Seq<u8>,
    k: nat,
)
    requires
        cs > 0,
        h.size == payload.len(),
        text_bytes(h.path).len() <= u64::MAX,
        encodes_all(c.encoder(), chunks_of(payload, cs)),
        0 < k < entry_wire(c, h, payload, cs).len(),
    ensures
        entry_at(before + entry_wire(c, h, payload, cs).take(k as int), before.len(), cs) == Some(
            Err::<(ArchiveEntryHeaderView, Seq<Seq<u8>>, nat), ArchiveError>(ArchiveError::TruncatedEntry),
        ),
{
    let chunks = chunks_of(payload, cs);
    let blobs = blobs_of(c.encoder(), chunks);
    let hw = entry_header_wire(h);
    let fw = frames_wire(blobs);
    let w = entry_wire(c, h, payload, cs);
    let data = before + w.take(k as int);
    let pos = before.len();
    assert(data.skip(pos as int) =~= w.take(k as int));
    if k < hw.len() {
        assert(w.take(k as int) =~= hw.take(k as int));
        lemma_entry_header_cut(h, k);
    } else {
        let j = (k - hw.len()) as nat;
        assert(w.take(k as int) =~= hw + fw.take(j as int));
        lemma_entry_header_round_trip(h, fw.take(j as int));
        assert(data.skip((pos + hw.len()) as int) =~= fw.take(j as int));
        lemma_chunks_lens(payload, cs);
        lemma_chunk_count(payload.len(), cs);
        lemma_blobs_fit(c, payload, cs);
        lemma_frames_cut(blobs, j);
        assert(chunk_count(h.size as nat, cs) == blobs.len());
    }
}

} // verus!

verus! {

/// Stored chunks are never empty: an entry written without compression frames
/// no chunk of length zero.
pub proof fn lemma_stored_frames_not_empty(payload: Seq<u8>, cs: nat)
    requires
        cs > 0,
    ensures
        forall|i: int|
            0 <= i < chunks_of(payload, cs).len() ==> (#[trigger] blobs_of(
                crate::compression::NoCompressor {  }.encoder(),
                chunks_of(payload, cs),
            )[i]).len() > 0,
{
    lemma_chunks_lens(payload, cs);
    crate::frame::lemma_chunk_lens_shape(payload.len(), cs);
}

} // verus!
