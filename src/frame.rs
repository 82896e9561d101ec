//! Logical chunks of a payload and their framing on the wire.
use vstd::prelude::*;
use vstd::arithmetic::div_mod::{lemma_div_minus_one, lemma_mod_sub_multiples_vanish};

use crate::error::ArchiveError;

verus! {

/// The largest framed-chunk length: the length prefix has 24 bits.
pub const MAX_FRAME_LEN: usize = 0xFF_FFFF;

/// The logical chunks of `p`: `cs` bytes each from the front, the last one
/// shorter where `cs` does not divide the length. An empty payload has none.
pub open spec fn chunks_of(p: Seq<u8>, cs: nat) -> Seq<Seq<u8>>
    recommends
        cs > 0,
    decreases p.len(),
{
    if p.len() == 0 || cs == 0 {
        Seq::empty()
    } else if p.len() <= cs {
        seq![p]
    } else {
        seq![p.take(cs as int)] + chunks_of(p.skip(cs as int), cs)
    }
}

/// The logical sizes of the chunks of a `size`-byte payload.
pub open spec fn chunk_lens(size: nat, cs: nat) -> Seq<nat>
    decreases size,
{
    if size == 0 || cs == 0 {
        Seq::empty()
    } else if size <= cs {
        seq![size]
    } else {
        seq![cs] + chunk_lens((size - cs) as nat, cs)
    }
}

/// How many chunks a `size`-byte payload has: `size / cs` rounded up.
pub open spec fn chunk_count(size: nat, cs: nat) -> nat {
    if cs == 0 {
        0
    } else {
        size / cs + if size % cs > 0 {
            1nat
        } else {
            0nat
        }
    }
}

/// The 3-byte big-endian length prefix.
pub open spec fn u24_wire(n: nat) -> Seq<u8> {
    seq![(n / 0x1_0000) as u8, ((n / 0x100) % 0x100) as u8, (n % 0x100) as u8]
}

/// The value of a 3-byte big-endian length prefix.
pub open spec fn u24_value(b: Seq<u8>) -> nat {
    b[0] as nat * 0x1_0000 + b[1] as nat * 0x100 + b[2] as nat
}

/// One framed chunk.
pub open spec fn frame_wire(blob: Seq<u8>) -> Seq<u8> {
    u24_wire(blob.len()) + blob
}

/// Framed chunks, one after the other.
pub open spec fn frames_wire(blobs: Seq<Seq<u8>>) -> Seq<u8>
    decreases blobs.len(),
{
    if blobs.len() == 0 {
        Seq::empty()
    } else {
        frame_wire(blobs[0]) + frames_wire(blobs.drop_first())
    }
}

/// Reads `count` framed chunks from the front of `s`: their payloads and the
/// bytes they take, or `None` where `s` ends first.
pub open spec fn frames_scan(s: Seq<u8>, count: nat) -> Option<(Seq<Seq<u8>>, nat)>
    decreases count,
{
    if count == 0 {
        Some((Seq::empty(), 0))
    } else if s.len() < 3 {
        None
    } else {
        let n = u24_value(s.take(3)) as int;
        if s.len() < 3 + n {
            None
        } else {
            match frames_scan(s.skip(3 + n), (count - 1) as nat) {
                Some((bs, m)) => Some((seq![s.subrange(3, 3 + n)] + bs, (3 + n + m) as nat)),
                None => None,
            }
        }
    }
}

/// Whether every blob fits the length prefix.
pub open spec fn frames_fit(blobs: Seq<Seq<u8>>) -> bool {
    forall|i: int| 0 <= i < blobs.len() ==> #[trigger] blobs[i].len() <= MAX_FRAME_LEN
}

pub proof fn lemma_chunks_lens(p: Seq<u8>, cs: nat)
    requires
        cs > 0,
    ensures
        chunks_of(p, cs).len() == chunk_lens(p.len(), cs).len(),
        forall|i: int|
            0 <= i < chunks_of(p, cs).len() ==> #[trigger] chunks_of(p, cs)[i].len() == chunk_lens(
                p.len(),
                cs,
            )[i],
    decreases p.len(),
{
    if p.len() > cs {
        lemma_chunks_lens(p.skip(cs as int), cs);
        let t = chunks_of(p.skip(cs as int), cs);
        assert forall|i: int| 0 <= i < chunks_of(p, cs).len() implies #[trigger] chunks_of(p, cs)[i].len()
            == chunk_lens(p.len(), cs)[i] by {
            if i > 0 {
                assert(chunks_of(p, cs)[i] == t[i - 1]);
            }
        }
    }
}

/// No payload has more chunks than bytes.
pub proof fn lemma_chunks_bound(p: Seq<u8>, cs: nat)
    requires
        cs > 0,
    ensures
        chunks_of(p, cs).len() <= p.len(),
    decreases p.len(),
{
    if p.len() > cs {
        lemma_chunks_bound(p.skip(cs as int), cs);
    }
}

/// The chunk count is `size / cs` rounded up.
pub proof fn lemma_chunk_count(size: nat, cs: nat)
    requires
        cs > 0,
    ensures
        chunk_lens(size, cs).len() == chunk_count(size, cs),
    decreases size,
{
    if size > cs {
        lemma_chunk_count((size - cs) as nat, cs);
        lemma_div_minus_one(size as int, cs as int);
        lemma_mod_sub_multiples_vanish(size as int, cs as int);
    } else if size == cs {
        assert(size / cs == 1) by (nonlinear_arith)
            requires
                size == cs,
                cs > 0,
        ;
        assert(size % cs == 0) by (nonlinear_arith)
            requires
                size == cs,
                cs > 0,
        ;
    } else if size > 0 {
        assert(size / cs == 0) by (nonlinear_arith)
            requires
                size < cs,
                cs > 0,
        ;
        assert(size % cs == size) by (nonlinear_arith)
            requires
                size < cs,
                cs > 0,
        ;
    }
}

/// Every chunk but the last is full, the last is not empty, and the sizes add
/// up to the payload size.
pub open spec fn lens_sum(lens: Seq<nat>) -> nat
    decreases lens.len(),
{
    if lens.len() == 0 {
        0
    } else {
        lens[0] + lens_sum(lens.drop_first())
    }
}

pub proof fn lemma_chunk_lens_shape(size: nat, cs: nat)
    requires
        cs > 0,
    ensures
        lens_sum(chunk_lens(size, cs)) == size,
        forall|i: int|
            0 <= i < chunk_lens(size, cs).len() ==> 0 < #[trigger] chunk_lens(size, cs)[i] <= cs,
        forall|i: int|
            0 <= i < chunk_lens(size, cs).len() - 1 ==> #[trigger] chunk_lens(size, cs)[i] == cs,
    decreases size,
{
    if size > cs {
        lemma_chunk_lens_shape((size - cs) as nat, cs);
        let l = chunk_lens(size, cs);
        let t = chunk_lens((size - cs) as nat, cs);
        assert(l.drop_first() =~= t);
        assert forall|i: int| 0 < i < l.len() implies l[i] == t[i - 1] by {}
        assert(lens_sum(l) == l[0] + lens_sum(l.drop_first()));
    } else if size > 0 {
        let l = chunk_lens(size, cs);
        assert(l.drop_first() =~= Seq::<nat>::empty());
        assert(lens_sum(l.drop_first()) == 0);
        assert(lens_sum(l) == l[0] + lens_sum(l.drop_first()));
    }
}

/// Scanned frames number as many as asked for and lie within the input.
pub proof fn lemma_frames_scan_len(s: Seq<u8>, count: nat)
    requires
        frames_scan(s, count) is Some,
    ensures
        frames_scan(s, count)->Some_0.0.len() == count,
        frames_scan(s, count)->Some_0.1 <= s.len(),
    decreases count,
{
    if count > 0 {
        let n = u24_value(s.take(3)) as int;
        lemma_frames_scan_len(s.skip(3 + n), (count - 1) as nat);
    }
}

/// The size of chunk `k` is the chunk size, or what is left of the payload
/// after the chunks before it, whichever is smaller.
pub proof fn lemma_chunk_len_at(size: nat, cs: nat, k: nat)
    requires
        cs > 0,
        k < chunk_lens(size, cs).len(),
    ensures
        lens_sum(chunk_lens(size, cs).take(k as int)) < size,
        chunk_lens(size, cs)[k as int] == if size - lens_sum(chunk_lens(size, cs).take(k as int)) <= cs {
            size - lens_sum(chunk_lens(size, cs).take(k as int))
        } else {
            cs as int
        },
    decreases k,
{
    let l = chunk_lens(size, cs);
    if k == 0 {
        assert(l.take(0) =~= Seq::<nat>::empty());
    } else {
        let t = chunk_lens((size - cs) as nat, cs);
        assert(l == seq![cs] + t);
        lemma_chunk_len_at((size - cs) as nat, cs, (k - 1) as nat);
        assert(l.take(k as int).drop_first() =~= t.take(k - 1));
        assert(l.take(k as int)[0] == cs);
        assert(l[k as int] == t[k - 1]);
    }
}

/// The frames of `a + b` are those of `a` followed by those of `b`.
pub proof fn lemma_frames_wire_append(a: Seq<Seq<u8>>, b: Seq<Seq<u8>>)
    ensures
        frames_wire(a + b) == frames_wire(a) + frames_wire(b),
    decreases a.len(),
{
    if a.len() == 0 {
        assert(a + b =~= b);
    } else {
        assert((a + b).drop_first() =~= a.drop_first() + b);
        lemma_frames_wire_append(a.drop_first(), b);
        assert(frames_wire(a + b) =~= frame_wire(a[0]) + frames_wire(a.drop_first() + b));
    }
}

proof fn lemma_u24_round_trip(n: nat)
    requires
        n <= MAX_FRAME_LEN,
    ensures
        u24_value(u24_wire(n)) == n,
{
    assert(((n / 0x1_0000) as u8) as nat == n / 0x1_0000);
    assert((((n / 0x100) % 0x100) as u8) as nat == (n / 0x100) % 0x100);
    assert(((n % 0x100) as u8) as nat == n % 0x100);
    assert((n / 0x1_0000) * 0x1_0000 + ((n / 0x100) % 0x100) * 0x100 + n % 0x100 == n) by (nonlinear_arith)
        requires
            n <= MAX_FRAME_LEN,
    ;
}

/// Framed chunks whose lengths fit read back as themselves, whatever follows.
#[verifier::rlimit(50)]
pub proof fn lemma_frames_round_trip(blobs: Seq<Seq<u8>>, rest: Seq<u8>)
    requires
        frames_fit(blobs),
    ensures
        frames_scan(frames_wire(blobs) + rest, blobs.len()) == Some(
            (blobs, frames_wire(blobs).len()),
        ),
    decreases blobs.len(),
{
    if blobs.len() > 0 {
        let b = blobs[0];
        let s = frames_wire(blobs) + rest;
        let tail = blobs.drop_first();
        assert(frames_fit(tail)) by {
            assert forall|i: int| 0 <= i < tail.len() implies #[trigger] tail[i].len() <= MAX_FRAME_LEN by {
                assert(tail[i] == blobs[i + 1]);
            }
        }
        lemma_frames_round_trip(tail, rest);
        lemma_u24_round_trip(b.len());
        assert(s =~= u24_wire(b.len()) + b + (frames_wire(tail) + rest));
        assert(s.take(3) =~= u24_wire(b.len()));
        assert(s.subrange(3, 3 + b.len() as int) =~= b);
        assert(s.skip(3 + b.len() as int) =~= frames_wire(tail) + rest);
        assert(seq![b] + tail =~= blobs);
    }
}

/// The big-endian length prefix of a frame.
pub fn u32_to_u24_bytes(value: u32) -> (r: [u8; 3])
    requires
        value <= MAX_FRAME_LEN,
    ensures
        r@ == u24_wire(value as nat),
{
    let r = [(value / 0x1_0000) as u8, ((value / 0x100) % 0x100) as u8, (value % 0x100) as u8];
    assert(r@ =~= u24_wire(value as nat));
    r
}

/// The length that a 3-byte big-endian prefix holds.
pub fn u24_bytes_to_u32(bytes: [u8; 3]) -> (r: u32)
    ensures
        r as nat == u24_value(bytes@),
{
    (bytes[0] as u32) * 0x1_0000 + (bytes[1] as u32) * 0x100 + (bytes[2] as u32)
}

/// Writes framed chunks and counts down the chunks an entry still owes.
pub struct ChunkWriter {
    pub writer: Vec<u8>,
    pub chunk_count: u64,
}

impl ChunkWriter {
    /// Appends one framed chunk and counts it off. A chunk longer than the
    /// length prefix can hold, or one more than the entry owes, is refused
    /// with `CodecFailure`, and nothing is written.
    pub fn write_chunk(&mut self, chunk: &[u8]) -> (r: Result<(), ArchiveError>)
        ensures
            chunk@.len() <= MAX_FRAME_LEN && old(self).chunk_count > 0 ==> r is Ok && final(self).writer@
                == old(self).writer@ + frame_wire(chunk@) && final(self).chunk_count == old(self).chunk_count - 1,
            chunk@.len() > MAX_FRAME_LEN || old(self).chunk_count == 0 ==> r == Err::<(), ArchiveError>(
                ArchiveError::CodecFailure,
            ) && *final(self) == *old(self),
    {
        if chunk.len() > MAX_FRAME_LEN || self.chunk_count == 0 {
            return Err(ArchiveError::CodecFailure);
        }
        let prefix = u32_to_u24_bytes(chunk.len() as u32);
        let mut i: usize = 0;
        while i < 3
            invariant
                i <= 3,
                self.writer@ == old(self).writer@ + prefix@.take(i as int),
                self.chunk_count == old(self).chunk_count,
            decreases 3 - i,
        {
            self.writer.push(prefix[i]);
            assert(prefix@.take(i + 1) =~= prefix@.take(i as int).push(prefix@[i as int]));
            i = i + 1;
        }
        assert(prefix@.take(3) =~= prefix@);
        crate::wire::push_bytes(&mut self.writer, chunk);
        assert(self.writer@ =~= old(self).writer@ + frame_wire(chunk@));
        self.chunk_count = self.chunk_count - 1;
        Ok(())
    }
}

} // verus!

verus! {

/// Framed chunks cut before their end cannot all be read.
#[verifier::rlimit(50)]
pub proof fn lemma_frames_cut(blobs: Seq<Seq<u8>>, j: nat)
    requires
        frames_fit(blobs),
        j < frames_wire(blobs).len(),
    ensures
        frames_scan(frames_wire(blobs).take(j as int), blobs.len()) is None,
    decreases blobs.len(),
{
    let w = frames_wire(blobs);
    let s = w.take(j as int);
    if blobs.len() == 0 {
        assert(w.len() == 0);
    } else {
        let b = blobs[0];
        let tail = blobs.drop_first();
        assert(w =~= u24_wire(b.len()) + b + frames_wire(tail));
        if j >= 3 {
            lemma_u24_round_trip(b.len());
            assert(s.take(3) =~= u24_wire(b.len()));
            if j >= 3 + b.len() {
                assert(frames_fit(tail)) by {
                    assert forall|i: int| 0 <= i < tail.len() implies #[trigger] tail[i].len() <= MAX_FRAME_LEN by {
                        assert(tail[i] == blobs[i + 1]);
                    }
                }
                assert(s.skip(3 + b.len() as int) =~= frames_wire(tail).take(j - 3 - b.len()));
                lemma_frames_cut(tail, (j - 3 - b.len()) as nat);
            }
        }
    }
}

} // verus!
