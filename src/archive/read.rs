//! The streaming reader: the archive header, then entries one at a time, each
//! payload decompressed a batch of chunks at a time as it is read.
use vstd::prelude::*;

use crate::compression::{ChunkCodec, Decompressor};
use crate::error::ArchiveError;
use crate::frame::{
    chunk_count, chunk_lens, frames_scan, lemma_chunk_count, lemma_frames_scan_len, lemma_chunk_len_at, lemma_chunk_lens_shape, lens_sum, u24_bytes_to_u32,
    u24_value,
};
use crate::header::{
    ArchiveEntryHeader, ArchiveEntryHeaderView, ArchiveHeader, ArchiveHeaderView, MIN_CHUNK_SIZE,
    archive_header_parse, entry_header_parse,
};
use crate::wire::{Deserialize, rest_of};
use crate::header::copy_range;

verus! {

/// What the reader finds at `pos` of `data` when it looks for the next entry:
/// `None` at the clean end of the input; else the entry's header, the payloads
/// of its framed chunks and the position after them, or the error met.
pub open spec fn entry_at(data: Seq<u8>, pos: nat, cs: nat) -> Option<
    Result<(ArchiveEntryHeaderView, Seq<Seq<u8>>, nat), ArchiveError>,
> {
    if pos >= data.len() {
        None
    } else {
        match entry_header_parse(data.skip(pos as int)) {
            Err(e) => Some(Err(e)),
            Ok((h, n)) => match frames_scan(data.skip((pos + n) as int), chunk_count(h.size as nat, cs)) {
                None => Some(Err(ArchiveError::TruncatedEntry)),
                Some((blobs, m)) => Some(Ok((h, blobs, pos + n + m))),
            },
        }
    }
}

/// The payload that the first `k` chunks decompress to, where each does and
/// has its logical size `lens[i]`.
pub open spec fn decode_prefix(dec: ChunkCodec, blobs: Seq<Seq<u8>>, lens: Seq<nat>, k: nat) -> Option<Seq<u8>>
    decreases k,
{
    if k == 0 {
        Some(Seq::empty())
    } else {
        match decode_prefix(dec, blobs, lens, (k - 1) as nat) {
            None => None,
            Some(p) => match dec(blobs[k - 1]) {
                Some(x) => if x.len() == lens[k - 1] {
                    Some(p + x)
                } else {
                    None
                },
                None => None,
            },
        }
    }
}

/// The whole payload of an entry with chunks `blobs` and size `size`.
pub open spec fn entry_payload(dec: ChunkCodec, blobs: Seq<Seq<u8>>, size: nat, cs: nat) -> Option<Seq<u8>> {
    decode_prefix(dec, blobs, chunk_lens(size, cs), blobs.len())
}

pub proof fn lemma_decode_prefix_len(dec: ChunkCodec, blobs: Seq<Seq<u8>>, lens: Seq<nat>, k: nat)
    requires
        k <= lens.len(),
        decode_prefix(dec, blobs, lens, k) is Some,
    ensures
        decode_prefix(dec, blobs, lens, k)->Some_0.len() == lens_sum(lens.take(k as int)),
    decreases k,
{
    if k > 0 {
        lemma_decode_prefix_len(dec, blobs, lens, (k - 1) as nat);
        lemma_lens_sum_snoc(lens, k);
    } else {
        assert(lens.take(0) =~= Seq::<nat>::empty());
    }
}

pub proof fn lemma_lens_sum_snoc(lens: Seq<nat>, k: nat)
    requires
        0 < k <= lens.len(),
    ensures
        lens_sum(lens.take(k as int)) == lens_sum(lens.take(k - 1)) + lens[k - 1],
    decreases k,
{
    let t = lens.take(k as int);
    if k == 1 {
        assert(t.drop_first() =~= Seq::<nat>::empty());
        assert(lens.take(0) =~= Seq::<nat>::empty());
    } else {
        lemma_lens_sum_snoc(lens.drop_first(), (k - 1) as nat);
        assert(t.drop_first() =~= lens.drop_first().take(k - 1));
        assert(lens.take(k - 1).drop_first() =~= lens.drop_first().take(k - 2));
    }
}

pub proof fn lemma_lens_sum_prefix_mono(lens: Seq<nat>, j: nat, k: nat)
    requires
        j <= k <= lens.len(),
    ensures
        lens_sum(lens.take(j as int)) <= lens_sum(lens.take(k as int)),
    decreases k,
{
    if j < k {
        lemma_lens_sum_prefix_mono(lens, j, (k - 1) as nat);
        lemma_lens_sum_snoc(lens, k);
    }
}

/// A chunk that fails makes every longer prefix fail.
pub proof fn lemma_decode_prefix_fails(dec: ChunkCodec, blobs: Seq<Seq<u8>>, lens: Seq<nat>, j: nat, k: nat)
    requires
        j < k,
        decode_prefix(dec, blobs, lens, j + 1) is None,
    ensures
        decode_prefix(dec, blobs, lens, k) is None,
    decreases k,
{
    if k > j + 1 {
        lemma_decode_prefix_fails(dec, blobs, lens, j, (k - 1) as nat);
    }
}

/// A prefix that decodes is a prefix of every longer one that does.
pub proof fn lemma_decode_prefix_grows(dec: ChunkCodec, blobs: Seq<Seq<u8>>, lens: Seq<nat>, j: nat, k: nat)
    requires
        j <= k,
        decode_prefix(dec, blobs, lens, k) is Some,
    ensures
        decode_prefix(dec, blobs, lens, j) is Some,
        decode_prefix(dec, blobs, lens, j)->Some_0.len() <= decode_prefix(dec, blobs, lens, k)->Some_0.len(),
        decode_prefix(dec, blobs, lens, k)->Some_0.take(decode_prefix(dec, blobs, lens, j)->Some_0.len() as int)
            == decode_prefix(dec, blobs, lens, j)->Some_0,
    decreases k,
{
    if j < k {
        lemma_decode_prefix_grows(dec, blobs, lens, j, (k - 1) as nat);
        let p = decode_prefix(dec, blobs, lens, (k - 1) as nat)->Some_0;
        let q = decode_prefix(dec, blobs, lens, j)->Some_0;
        let full = decode_prefix(dec, blobs, lens, k)->Some_0;
        assert(full.take(p.len() as int) =~= p);
        assert(full.take(q.len() as int) =~= p.take(q.len() as int));
    } else {
        let full = decode_prefix(dec, blobs, lens, k)->Some_0;
        assert(full.take(full.len() as int) =~= full);
    }
}

/// Walks `count` framed chunks from `p` on: the position after them, or
/// `None` where the input ends first.
fn scan_frames(data: &[u8], p: usize, count: u64) -> (r: Option<usize>)
    requires
        p <= data@.len(),
    ensures
        match frames_scan(data@.skip(p as int), count as nat) {
            Some((_, m)) => r == Some((p + m) as usize),
            None => r is None,
        },
{
    let len = data.len();
    let ghost sp = data@.skip(p as int);
    let mut q: usize = p;
    let mut k: u64 = 0;
    while k < count
        invariant
            data@.len() == len,
            p <= q <= len,
            k <= count,
            sp == data@.skip(p as int),
            frames_scan(sp, count as nat) is None <==> frames_scan(data@.skip(q as int), (count - k) as nat) is None,
            frames_scan(data@.skip(q as int), (count - k) as nat) matches Some((_, m)) ==> frames_scan(
                sp,
                count as nat,
            )->Some_0.1 == (q - p) + m,
        decreases count - k,
    {
        let ghost sq = data@.skip(q as int);
        if len - q < 3 {
            return None;
        }
        let prefix = [data[q], data[q + 1], data[q + 2]];
        assert(prefix@ =~= sq.take(3));
        let n = u24_bytes_to_u32(prefix) as usize;
        if len - q - 3 < n {
            return None;
        }
        assert(sq.skip(3 + n as int) =~= data@.skip(q + 3 + n));
        q = q + 3 + n;
        k = k + 1;
    }
    Some(q)
}

/// Takes `batch` framed chunks off the wire at `pos`, where `count` frames
/// with payloads `bs` stand: their payloads, and the position after them.
fn pull_frames(
    data: &[u8],
    pos: usize,
    count: u64,
    batch: usize,
    Ghost(bs): Ghost<Seq<Seq<u8>>>,
    Ghost(m): Ghost<nat>,
) -> (r: (Vec<Vec<u8>>, usize))
    requires
        pos <= data@.len(),
        batch <= count,
        frames_scan(data@.skip(pos as int), count as nat) == Some((bs, m)),
    ensures
        r.0@.len() == batch,
        forall|j: int| 0 <= j < batch ==> (#[trigger] r.0@[j])@ == bs[j],
        pos <= r.1 <= data@.len(),
        r.1 - pos <= m,
        frames_scan(data@.skip(r.1 as int), (count - batch) as nat) == Some(
            (bs.skip(batch as int), (m - (r.1 - pos)) as nat),
        ),
{
    let len = data.len();
    let mut out: Vec<Vec<u8>> = Vec::new();
    let mut q: usize = pos;
    let mut i: usize = 0;
    proof {
        assert(bs.skip(0) =~= bs);
        lemma_frames_scan_len(data@.skip(pos as int), count as nat);
    }
    while i < batch
        invariant
            data@.len() == len,
            pos <= q <= len,
            i <= batch <= count,
            bs.len() == count,
            q - pos <= m,
            out@.len() == i,
            forall|j: int| 0 <= j < i ==> (#[trigger] out@[j])@ == bs[j],
            frames_scan(data@.skip(q as int), (count - i) as nat) == Some(
                (bs.skip(i as int), (m - (q - pos)) as nat),
            ),
        decreases batch - i,
    {
        let ghost sq = data@.skip(q as int);
        proof {
            lemma_frames_scan_len(sq, (count - i) as nat);
        }
        let prefix = [data[q], data[q + 1], data[q + 2]];
        assert(prefix@ =~= sq.take(3));
        let n = u24_bytes_to_u32(prefix) as usize;
        let blob = copy_range(data, q + 3, q + 3 + n);
        assert(blob@ =~= sq.subrange(3, 3 + n as int));
        assert(bs.skip(i as int)[0] == bs[i as int]);
        assert(sq.skip(3 + n as int) =~= data@.skip(q + 3 + n));
        assert(bs.skip(i as int).drop_first() =~= bs.skip(i + 1));
        out.push(blob);
        q = q + 3 + n;
        i = i + 1;
    }
    (out, q)
}

/// Checks that each decompressed chunk has its logical size and joins them:
/// `None` where one does not.
fn stage_outputs(
    outs: &Vec<Vec<u8>>,
    size: u64,
    cs: u32,
    consumed: u64,
    Ghost(dec): Ghost<ChunkCodec>,
    Ghost(blobs): Ghost<Seq<Seq<u8>>>,
    Ghost(rc): Ghost<nat>,
) -> (r: Option<Vec<u8>>)
    requires
        cs > 0,
        rc + outs@.len() <= chunk_lens(size as nat, cs as nat).len(),
        decode_prefix(dec, blobs, chunk_lens(size as nat, cs as nat), rc) is Some,
        consumed == decode_prefix(dec, blobs, chunk_lens(size as nat, cs as nat), rc)->Some_0.len(),
        consumed == lens_sum(chunk_lens(size as nat, cs as nat).take(rc as int)),
        forall|j: int| 0 <= j < outs@.len() ==> dec(blobs[rc + j]) == Some((#[trigger] outs@[j])@),
    ensures
        match r {
            Some(st) => {
                &&& decode_prefix(dec, blobs, chunk_lens(size as nat, cs as nat), rc + outs@.len())
                    == Some(decode_prefix(dec, blobs, chunk_lens(size as nat, cs as nat), rc)->Some_0 + st@)
                &&& consumed + st@.len() == lens_sum(
                    chunk_lens(size as nat, cs as nat).take((rc + outs@.len()) as int),
                )
            },
            None => decode_prefix(
                dec,
                blobs,
                chunk_lens(size as nat, cs as nat),
                chunk_lens(size as nat, cs as nat).len(),
            ) is None,
        },
{
    let ghost lens = chunk_lens(size as nat, cs as nat);
    let ghost q0 = decode_prefix(dec, blobs, lens, rc)->Some_0;
    let mut st: Vec<u8> = Vec::new();
    let mut done: u64 = consumed;
    let mut j: usize = 0;
    assert(q0 + st@ =~= q0);
    while j < outs.len()
        invariant
            cs > 0,
            lens == chunk_lens(size as nat, cs as nat),
            rc + outs@.len() <= lens.len(),
            q0 == decode_prefix(dec, blobs, lens, rc)->Some_0,
            j <= outs@.len(),
            decode_prefix(dec, blobs, lens, (rc + j) as nat) == Some(q0 + st@),
            done == consumed + st@.len(),
            done == lens_sum(lens.take((rc + j) as int)),
            forall|i: int| 0 <= i < outs@.len() ==> dec(blobs[rc + i]) == Some((#[trigger] outs@[i])@),
        decreases outs@.len() - j,
    {
        let ghost k = (rc + j) as nat;
        proof {
            lemma_chunk_len_at(size as nat, cs as nat, k);
            lemma_lens_sum_snoc(lens, k + 1);
        }
        let left = size - done;
        let expected: u64 = if left <= cs as u64 {
            left
        } else {
            cs as u64
        };
        let out = &outs[j];
        assert(dec(blobs[k as int]) == Some(out@));
        if out.len() as u64 != expected {
            proof {
                lemma_decode_prefix_fails(dec, blobs, lens, k, lens.len());
            }
            return None;
        }
        let ghost before = st@;
        crate::wire::push_bytes(&mut st, out.as_slice());
        assert(q0 + st@ =~= (q0 + before) + out@);
        done = done + out.len() as u64;
        j = j + 1;
    }
    Some(st)
}

/// The `n` bytes at the front of `buf` are the payload bytes after the
/// `r.delivered()` handed out so far, as the first `k` chunks of the current
/// entry decode.
pub open spec fn decoded_bytes<D: Decompressor>(r: ArchiveEntriesReader<D>, k: nat, buf: Seq<u8>, n: usize) -> bool {
    match r.current() {
        Some((size, blobs)) => {
            &&& k <= blobs.len()
            &&& decode_prefix(r.decoder(), blobs, chunk_lens(size as nat, r.chunk_size()), k) matches Some(q)
                && r.delivered() + n <= q.len() && buf.take(n as int) == q.subrange(
                r.delivered() as int,
                r.delivered() + n,
            )
        },
        None => false,
    }
}

/// An archive being read from a byte vector.
pub struct Archive {
    reader: Vec<u8>,
    pos: usize,
    header: Option<ArchiveHeader>,
}

impl Archive {
    /// The bytes of the archive.
    pub closed spec fn data(&self) -> Seq<u8> {
        self.reader@
    }

    /// Where reading goes on.
    pub closed spec fn position(&self) -> nat {
        self.pos as nat
    }

    /// The archive header, once it has been read.
    pub closed spec fn cached_header(&self) -> Option<ArchiveHeaderView> {
        match self.header {
            Some(h) => Some(h@),
            None => None,
        }
    }

    pub closed spec fn wf(&self) -> bool {
        &&& self.pos <= self.reader@.len()
        &&& self.header matches Some(h) ==> h.compression_chunk_size >= MIN_CHUNK_SIZE
    }

    pub fn new(reader: Vec<u8>) -> (r: Self)
        ensures
            r.wf(),
            r.data() == reader@,
            r.position() == 0,
            r.cached_header() is None,
    {
        Archive { reader, pos: 0, header: None }
    }

    /// Reads the archive header on first use and keeps it; later calls hand
    /// back the kept one.
    pub fn header(&mut self) -> (r: Result<&ArchiveHeader, ArchiveError>)
        requires
            old(self).wf(),
        ensures
            final(self).wf(),
            final(self).data() == old(self).data(),
            old(self).cached_header() matches Some(h) ==> (r matches Ok(x) && x@ == h) && *final(self)
                == *old(self),
            old(self).cached_header() is None ==> match archive_header_parse(
                rest_of(old(self).data(), old(self).position()),
            ) {
                Ok((h, n)) => {
                    &&& r matches Ok(x) && x@ == h
                    &&& final(self).cached_header() == Some(h)
                    &&& final(self).position() == old(self).position() + n
                },
                Err(e) => r matches Err(x) && x == e && *final(self) == *old(self),
            },
    {
        if self.header.is_none() {
            match ArchiveHeader::deserialize(self.reader.as_slice(), self.pos) {
                Ok((h, end)) => {
                    self.header = Some(h);
                    self.pos = end;
                },
                Err(e) => {
                    return Err(e);
                },
            }
        }
        match &self.header {
            Some(h) => Ok(h),
            None => Err(ArchiveError::MalformedHeader),
        }
    }
}

} // verus!

verus! {

/// One entry, as `next_entry` hands it out; its payload is read through the
/// reader that produced it.
pub struct ArchiveEntry {
    header: ArchiveEntryHeader,
}

impl View for ArchiveEntry {
    type V = ArchiveEntryHeaderView;

    closed spec fn view(&self) -> ArchiveEntryHeaderView {
        self.header@
    }
}

impl ArchiveEntry {
    pub fn header(&self) -> (r: &ArchiveEntryHeader)
        ensures
            r@ == self@,
    {
        &self.header
    }
}

/// Reads the entries of an archive one after another.
pub struct ArchiveEntriesReader<D: Decompressor> {
    data: Vec<u8>,
    pos: usize,
    chunk_size: u32,
    decompressor: D,
    failed: Option<ArchiveError>,
    active: bool,
    size: u64,
    chunks: u64,
    read_chunks: u64,
    read_bytes: u64,
    entry_end: usize,
    staging: Vec<u8>,
    staged: usize,
    blobs: Ghost<Seq<Seq<u8>>>,
}

impl<D: Decompressor> ArchiveEntriesReader<D> {
    /// The bytes of the archive.
    pub closed spec fn data(&self) -> Seq<u8> {
        self.data@
    }

    /// The logical chunk size from the archive header.
    pub closed spec fn chunk_size(&self) -> nat {
        self.chunk_size as nat
    }

    /// What the decompressor makes of one compressed chunk.
    pub closed spec fn decoder(&self) -> ChunkCodec {
        self.decompressor.decoder()
    }

    /// The error that stopped the reader, if one did.
    pub closed spec fn failed(&self) -> Option<ArchiveError> {
        self.failed
    }

    /// Where the next entry starts: after the current entry, or where reading
    /// stands where there is none.
    pub closed spec fn boundary(&self) -> nat {
        if self.active {
            self.entry_end as nat
        } else {
            self.pos as nat
        }
    }

    /// The size and compressed chunks of the entry being read, if any.
    pub closed spec fn current(&self) -> Option<(u64, Seq<Seq<u8>>)> {
        if self.active {
            Some((self.size, self.blobs@))
        } else {
            None
        }
    }

    /// Payload bytes of the current entry handed out so far.
    pub closed spec fn delivered(&self) -> nat {
        self.read_bytes as nat
    }

    /// Decoded bytes staged but not yet handed out.
    pub closed spec fn pending(&self) -> nat {
        (self.staging@.len() - self.staged) as nat
    }

    /// Compressed chunks of the current entry taken off the wire so far.
    pub closed spec fn chunks_taken(&self) -> nat {
        self.read_chunks as nat
    }

    /// How many compressed chunks the decompressor takes per call.
    pub closed spec fn batch(&self) -> nat {
        self.decompressor.batch()
    }

    /// Where the next batch of chunks ends: `batch()` more chunks, or as many
    /// as the entry has left.
    pub open spec fn next_batch_end(&self) -> nat {
        match self.current() {
            Some((_, blobs)) => if self.chunks_taken() + self.batch() < blobs.len() {
                self.chunks_taken() + self.batch()
            } else {
                blobs.len()
            },
            None => 0,
        }
    }

    /// How many bytes the next read can hand out: none once the payload is
    /// read; else the staged bytes; else, when none are staged, the logical
    /// size of the next batch of chunks.
    pub open spec fn available(&self) -> nat {
        match self.current() {
            Some((size, _)) => if self.delivered() >= size {
                0
            } else if self.pending() > 0 {
                self.pending()
            } else {
                (lens_sum(chunk_lens(size as nat, self.chunk_size()).take(self.next_batch_end() as int))
                    - self.delivered()) as nat
            },
            None => 0,
        }
    }

    pub closed spec fn lens(&self) -> Seq<nat> {
        chunk_lens(self.size as nat, self.chunk_size as nat)
    }

    /// The payload decoded so far: the chunks taken off the wire.
    pub closed spec fn decoded(&self) -> Seq<u8> {
        decode_prefix(self.decompressor.decoder(), self.blobs@, self.lens(), self.read_chunks as nat)->Some_0
    }

    pub closed spec fn wf(&self) -> bool {
        &&& self.decompressor.wf()
        &&& self.chunk_size >= MIN_CHUNK_SIZE
        &&& self.pos <= self.data@.len()
        &&& self.active ==> {
            &&& self.pos <= self.entry_end <= self.data@.len()
            &&& self.chunks == self.blobs@.len()
            &&& self.chunks == self.lens().len()
            &&& self.read_chunks <= self.chunks
            &&& frames_scan(self.data@.skip(self.pos as int), (self.chunks - self.read_chunks) as nat)
                == Some((self.blobs@.skip(self.read_chunks as int), (self.entry_end - self.pos) as nat))
            &&& decode_prefix(self.decompressor.decoder(), self.blobs@, self.lens(), self.read_chunks as nat) is Some
            &&& self.decoded().len() == lens_sum(self.lens().take(self.read_chunks as int))
            &&& self.staged <= self.staging@.len()
            &&& self.read_bytes + (self.staging@.len() - self.staged) == self.decoded().len()
            &&& self.staging@.skip(self.staged as int) == self.decoded().skip(self.read_bytes as int)
            &&& self.read_bytes <= self.size
        }
    }

    /// Moves to the next entry. The rest of the current entry, read or not, is
    /// skipped first. `None` at the clean end of the input; after an error the
    /// reader returns that error from then on.
    pub fn next_entry(&mut self) -> (r: Option<Result<ArchiveEntry, ArchiveError>>)
        requires
            old(self).wf(),
        ensures
            final(self).wf(),
            final(self).data() == old(self).data(),
            final(self).chunk_size() == old(self).chunk_size(),
            final(self).decoder() == old(self).decoder(),
            old(self).failed() matches Some(e) ==> r == Some(Err::<ArchiveEntry, ArchiveError>(e))
                && *final(self) == *old(self),
            old(self).failed() is None ==> match entry_at(old(self).data(), old(self).boundary(), old(self).chunk_size()) {
                None => r is None && final(self).failed() is None && final(self).current() is None,
                Some(Err(e)) => r == Some(Err::<ArchiveEntry, ArchiveError>(e)) && final(self).failed() == Some(e),
                Some(Ok((h, blobs, end))) => {
                    &&& r matches Some(Ok(x)) && x@ == h
                    &&& final(self).failed() is None
                    &&& final(self).current() == Some((h.size, blobs))
                    &&& blobs.len() == chunk_count(h.size as nat, old(self).chunk_size())
                    &&& final(self).boundary() == end
                    &&& final(self).delivered() == 0
                },
            },
    {
        if let Some(e) = self.failed {
            return Some(Err(e));
        }
        if self.active {
            self.pos = self.entry_end;
            self.active = false;
        }
        let len = self.data.len();
        if self.pos >= len {
            return None;
        }
        let start = self.pos;
        let (header, p) = match ArchiveEntryHeader::deserialize(self.data.as_slice(), start) {
            Ok(x) => x,
            Err(e) => {
                self.failed = Some(e);
                return Some(Err(e));
            },
        };
        let cs = self.chunk_size as u64;
        let size = header.size.0;
        assert(self.data@.skip(start as int) =~= self.data@.subrange(start as int, len as int));
        assert(size / cs < u64::MAX) by (nonlinear_arith)
            requires
                cs >= 1024,
        ;
        let count: u64 = size / cs + if size % cs > 0 {
            1
        } else {
            0
        };
        let ghost sp = self.data@.skip(p as int);
        let q = match scan_frames(self.data.as_slice(), p, count) {
            Some(q) => q,
            None => {
                self.failed = Some(ArchiveError::TruncatedEntry);
                return Some(Err(ArchiveError::TruncatedEntry));
            },
        };
        proof {
            lemma_frames_scan_len(sp, count as nat);
            lemma_chunk_count(size as nat, cs as nat);
        }
        let ghost blobs = frames_scan(sp, count as nat)->Some_0.0;
        self.active = true;
        self.size = size;
        self.chunks = count;
        self.read_chunks = 0;
        self.read_bytes = 0;
        self.entry_end = q;
        self.pos = p;
        self.staging = Vec::new();
        self.staged = 0;
        self.blobs = Ghost(blobs);
        proof {
            assert(blobs.skip(0) =~= blobs);
            assert(self.lens().take(0) =~= Seq::<nat>::empty());
            assert(self.decoded() =~= Seq::<u8>::empty());
            assert(self.staging@.skip(0) =~= self.decoded().skip(0));
        }
        Some(Ok(ArchiveEntry { header }))
    }

    /// The payload the current entry decodes to, where every chunk decodes to
    /// its logical size.
    pub open spec fn payload(&self) -> Option<Seq<u8>> {
        match self.current() {
            Some((size, blobs)) => entry_payload(self.decoder(), blobs, size as nat, self.chunk_size()),
            None => None,
        }
    }

    /// Reads payload bytes of the current entry into the front of `buf` and
    /// says how many: as many as fit of `available()` — the staged bytes, or,
    /// when none are staged, the next batch of at most `batch()` chunks, which
    /// is taken off the wire first. These are the next decoded bytes of the
    /// payload; `0` once the whole payload was read or where there is no
    /// current entry.
    /// Chunks are taken off the wire and decompressed a batch at a time as
    /// needed; a chunk that does not decompress to its logical size fails the
    /// read with `CodecFailure`, and the reader with it.
    #[verifier::rlimit(60)]
    #[verifier::spinoff_prover]
    pub fn read(&mut self, buf: &mut [u8]) -> (r: Result<usize, ArchiveError>)
        requires
            old(self).wf(),
        ensures
            final(self).wf(),
            final(self).data() == old(self).data(),
            final(self).chunk_size() == old(self).chunk_size(),
            final(self).decoder() == old(self).decoder(),
            final(self).batch() == old(self).batch(),
            final(self).boundary() == old(self).boundary(),
            final(self).current() == old(self).current(),
            final(buf)@.len() == old(buf)@.len(),
            old(self).failed() matches Some(e) ==> r == Err::<usize, ArchiveError>(e) && *final(self) == *old(self),
            old(self).failed() is None && old(self).current() is None ==> r == Ok::<usize, ArchiveError>(0),
            old(self).failed() is None && old(self).current() is Some ==> match r {
                Ok(n) => {
                    &&& n <= old(buf)@.len()
                    &&& n == (if old(buf)@.len() < old(self).available() {
                        old(buf)@.len()
                    } else {
                        old(self).available()
                    })
                    &&& final(self).chunks_taken() == (if old(self).delivered() < old(self).current()->Some_0.0
                        && old(self).pending() == 0 {
                        old(self).next_batch_end()
                    } else {
                        old(self).chunks_taken()
                    })
                    &&& final(self).delivered() == old(self).delivered() + n
                    &&& final(self).failed() is None
                    &&& final(buf)@.skip(n as int) == old(buf)@.skip(n as int)
                    &&& exists|k: nat| #[trigger] decoded_bytes(*old(self), k, final(buf)@, n)
                    &&& old(self).payload() matches Some(p) ==> {
                        &&& old(self).delivered() + n <= p.len()
                        &&& final(buf)@.take(n as int) == p.subrange(
                            old(self).delivered() as int,
                            old(self).delivered() + n,
                        )
                        &&& (old(buf)@.len() > 0 && old(self).delivered() < p.len() ==> n > 0)
                    }
                },
                Err(e) => {
                    &&& e == ArchiveError::CodecFailure
                    &&& old(self).payload() is None
                    &&& final(self).failed() == Some(e)
                },
            },
            old(self).current() matches Some((size, _)) ==> final(self).delivered() <= size,
            old(self).current() matches Some((size, _)) ==> (old(self).payload() matches Some(p) ==> p.len() == size),
    {
        proof {
            if self.active {
                assert(self.payload() == entry_payload(
                    self.decompressor.decoder(),
                    self.blobs@,
                    self.size as nat,
                    self.chunk_size as nat,
                ));
                lemma_chunk_lens_shape(self.size as nat, self.chunk_size as nat);
                assert(self.lens().take(self.chunks as int) =~= self.lens());
                if self.payload() is Some {
                    lemma_decode_prefix_len(self.decompressor.decoder(), self.blobs@, self.lens(), self.chunks as nat);
                }
            }
        }
        if let Some(e) = self.failed {
            return Err(e);
        }
        if !self.active || self.read_bytes >= self.size {
            proof {
                if self.active {
                    let q = self.decoded();
                    assert(buf@.take(0) =~= q.subrange(self.read_bytes as int, self.read_bytes as int));
                    assert(decoded_bytes(*self, self.read_chunks as nat, buf@, 0));
                }
                if self.active {
                    assert(self.available() == 0);
                    assert(0 == (if buf@.len() < self.available() { buf@.len() as nat } else { self.available() }));
                    assert(!(self.delivered() < self.current()->Some_0.0 && self.pending() == 0));
                }
                if self.active && self.payload() is Some {
                    lemma_decode_prefix_grows(
                        self.decompressor.decoder(),
                        self.blobs@,
                        self.lens(),
                        self.read_chunks as nat,
                        self.chunks as nat,
                    );
                }
            }
            return Ok(0);
        }
        let ghost avail0 = self.available();
        let ghost nbe = self.next_batch_end();
        proof {
            lemma_decode_prefix_len(self.decompressor.decoder(), self.blobs@, self.lens(), self.read_chunks as nat);
        }
        if self.staged == self.staging.len() {
            self.refill()?;
            assert(self.staging@.len() - self.staged == avail0);
            assert(self.read_chunks == nbe);
        } else {
            assert(self.staging@.len() - self.staged == avail0);
        }
        proof {
            if self.payload() is Some {
                lemma_decode_prefix_grows(
                    self.decompressor.decoder(),
                    self.blobs@,
                    self.lens(),
                    self.read_chunks as nat,
                    self.chunks as nat,
                );
            }
        }
        let ghost d = self.decoded();
        let ghost k = self.read_chunks as nat;
        let n = self.hand_out(buf);
        assert(n == (if buf@.len() < avail0 { buf@.len() as nat } else { avail0 }));
        assert(avail0 == old(self).available());
        assert(self.read_chunks as nat == (if old(self).delivered() < old(self).current()->Some_0.0
            && old(self).pending() == 0 {
            old(self).next_batch_end()
        } else {
            old(self).chunks_taken()
        }));
        proof {
            assert(decoded_bytes(*old(self), k, buf@, n));
            if self.payload() is Some {
                let p = self.payload()->Some_0;
                assert(d.subrange(old(self).read_bytes as int, old(self).read_bytes + n) =~= p.subrange(
                    old(self).read_bytes as int,
                    old(self).read_bytes + n,
                )) by {
                    assert forall|j: int| 0 <= j < n implies #[trigger] d.subrange(
                        old(self).read_bytes as int,
                        old(self).read_bytes + n,
                    )[j] == p.subrange(old(self).read_bytes as int, old(self).read_bytes + n)[j] by {
                        assert(p.take(d.len() as int)[old(self).read_bytes + j] == d[old(self).read_bytes + j]);
                    }
                }
            }
        }
        Ok(n)
    }

    /// Copies staged bytes to the front of `buf`, as many as fit.
    fn hand_out(&mut self, buf: &mut [u8]) -> (n: usize)
        requires
            old(self).wf(),
            old(self).active,
        ensures
            final(self).wf(),
            final(self).data == old(self).data,
            final(self).pos == old(self).pos,
            final(self).chunk_size == old(self).chunk_size,
            final(self).decompressor == old(self).decompressor,
            final(self).failed == old(self).failed,
            final(self).active,
            final(self).entry_end == old(self).entry_end,
            final(self).size == old(self).size,
            final(self).blobs == old(self).blobs,
            final(self).chunks == old(self).chunks,
            final(self).read_chunks == old(self).read_chunks,
            final(self).read_bytes == old(self).read_bytes + n,
            n <= old(buf)@.len(),
            n <= old(self).staging@.len() - old(self).staged,
            n == old(buf)@.len() || n == old(self).staging@.len() - old(self).staged,
            old(self).read_bytes + n <= old(self).decoded().len(),
            final(buf)@.len() == old(buf)@.len(),
            final(buf)@.skip(n as int) == old(buf)@.skip(n as int),
            final(buf)@.take(n as int) == old(self).decoded().subrange(
                old(self).read_bytes as int,
                old(self).read_bytes + n,
            ),
    {
        let avail = self.staging.len() - self.staged;
        let n = if buf.len() < avail {
            buf.len()
        } else {
            avail
        };
        let ghost old_buf = buf@;
        let slen = self.staging.len();
        proof {
            lemma_lens_sum_prefix_mono(self.lens(), self.read_chunks as nat, self.chunks as nat);
            lemma_chunk_lens_shape(self.size as nat, self.chunk_size as nat);
            assert(self.lens().take(self.chunks as int) =~= self.lens());
        }
        let mut i: usize = 0;
        #[verifier::loop_isolation(false)]
        while i < n
            invariant
                slen == self.staging@.len(),
                self.staged + n <= slen,
                i <= n <= buf@.len(),
                self.staged + n <= self.staging@.len(),
                buf@.len() == old_buf.len(),
                forall|j: int| 0 <= j < i ==> buf@[j] == self.staging@[self.staged + j],
                forall|j: int| i <= j < buf@.len() ==> buf@[j] == old_buf[j],
            decreases n - i,
        {
            buf[i] = self.staging[self.staged + i];
            i = i + 1;
        }
        proof {
            let d = self.decoded();
            assert(buf@.skip(n as int) =~= old_buf.skip(n as int));
            assert(buf@.take(n as int) =~= d.subrange(self.read_bytes as int, self.read_bytes + n)) by {
                assert forall|j: int| 0 <= j < n implies #[trigger] buf@.take(n as int)[j] == d.subrange(
                    self.read_bytes as int,
                    self.read_bytes + n,
                )[j] by {
                    assert(self.staging@.skip(self.staged as int)[j] == d.skip(self.read_bytes as int)[j]);
                }
            }
            assert(self.staging@.skip(self.staged + n) =~= d.skip(self.read_bytes + n)) by {
                assert forall|j: int| 0 <= j < self.staging@.len() - (self.staged + n) implies #[trigger] self.staging@.skip(
                    self.staged + n,
                )[j] == d.skip(self.read_bytes + n)[j] by {
                    assert(self.staging@.skip(self.staged as int)[n + j] == d.skip(self.read_bytes as int)[n + j]);
                }
            }
        }
        self.staged = self.staged + n;
        self.read_bytes = self.read_bytes + n as u64;
        n
    }

    /// Takes the next batch of chunks off the wire and decompresses it into
    /// the staging buffer, once all staged bytes were handed out.
    fn refill(&mut self) -> (r: Result<(), ArchiveError>)
        requires
            old(self).wf(),
            old(self).failed is None,
            old(self).active,
            old(self).read_bytes < old(self).size,
            old(self).staged == old(self).staging@.len(),
        ensures
            final(self).wf(),
            final(self).data == old(self).data,
            final(self).chunk_size == old(self).chunk_size,
            final(self).decoder() == old(self).decoder(),
            final(self).active,
            final(self).entry_end == old(self).entry_end,
            final(self).size == old(self).size,
            final(self).blobs == old(self).blobs,
            final(self).read_bytes == old(self).read_bytes,
            final(self).chunks == old(self).chunks,
            final(self).decompressor.batch() == old(self).decompressor.batch(),
            r is Ok ==> final(self).failed is None && final(self).staged < final(self).staging@.len()
                && final(self).staged == 0,
            r is Ok ==> final(self).read_chunks == (if old(self).read_chunks + old(self).decompressor.batch()
                < old(self).chunks {
                old(self).read_chunks + old(self).decompressor.batch()
            } else {
                old(self).chunks as int
            }),
            r is Ok ==> final(self).staging@.len() + old(self).read_bytes == lens_sum(
                old(self).lens().take(final(self).read_chunks as int),
            ),
            r matches Err(e) ==> e == ArchiveError::CodecFailure && final(self).failed == Some(e)
                && final(self).payload() is None,
    {
        let ghost dec = self.decompressor.decoder();
        let ghost lens = self.lens();
        let ghost rc = self.read_chunks as nat;
        proof {
            lemma_chunk_lens_shape(self.size as nat, self.chunk_size as nat);
            if self.read_chunks == self.chunks {
                assert(lens.take(self.chunks as int) =~= lens);
            }
        }
        let want = self.decompressor.decompress_inputs();
        let left = self.chunks - self.read_chunks;
        let batch: usize = if (want as u64) < left {
            want
        } else {
            left as usize
        };
        let (inputs, newpos) = pull_frames(
            self.data.as_slice(),
            self.pos,
            left,
            batch,
            Ghost(self.blobs@.skip(self.read_chunks as int)),
            Ghost((self.entry_end - self.pos) as nat),
        );
        let ghost ins = inputs@;
        let ghost d0 = self.decompressor;
        let outs = match self.decompressor.decompress(inputs) {
            Ok(o) => o,
            Err(e) => {
                proof {
                    let i = choose|i: int| 0 <= i < ins.len() && (#[trigger] (d0.decoder())(ins[i]@)) is None;
                    assert(ins[i]@ == self.blobs@[rc + i]);
                    lemma_decode_prefix_fails(dec, self.blobs@, lens, (rc + i) as nat, lens.len());
                }
                self.failed = Some(e);
                return Err(e);
            },
        };
        proof {
            assert forall|j: int| 0 <= j < outs@.len() implies dec(self.blobs@[rc + j]) == Some((#[trigger] outs@[j])@) by {
                assert(ins[j]@ == self.blobs@[rc + j]);
            }
        }
        let consumed = self.read_bytes;
        match stage_outputs(
            &outs,
            self.size,
            self.chunk_size,
            consumed,
            Ghost(dec),
            Ghost(self.blobs@),
            Ghost(rc),
        ) {
            Some(st) => {
                proof {
                    assert(lens_sum(lens.take((rc + batch) as int)) == lens_sum(lens.take(rc as int)) + st@.len()) by {
                        if batch > 0 {
                            lemma_lens_sum_snoc(lens, (rc + 1) as nat);
                        }
                    }
                    assert(st@.len() > 0) by {
                        lemma_lens_sum_snoc(lens, (rc + 1) as nat);
                        lemma_lens_sum_prefix_mono(lens, (rc + 1) as nat, (rc + batch) as nat);
                    }
                    assert(self.blobs@.skip(rc as int).skip(batch as int) =~= self.blobs@.skip(rc + batch));
                }
                self.staging = st;
                self.staged = 0;
                self.read_chunks = self.read_chunks + batch as u64;
                self.pos = newpos;
                proof {
                    let q = decode_prefix(dec, self.blobs@, lens, rc)->Some_0;
                    assert(self.decoded() == q + st@);
                    assert(self.staging@.skip(0) =~= (q + st@).skip(self.read_bytes as int));
                }
                Ok(())
            },
            None => {
                self.failed = Some(ArchiveError::CodecFailure);
                Err(ArchiveError::CodecFailure)
            },
        }
    }
}

impl Archive {
    /// Reads the archive header if it was not read yet, then starts reading
    /// entries with `decompressor`.
    pub fn entries<D: Decompressor>(self, decompressor: D) -> (r: Result<ArchiveEntriesReader<D>, ArchiveError>)
        requires
            self.wf(),
            decompressor.wf(),
        ensures
            self.cached_header() matches Some(h) ==> r matches Ok(x) && {
                &&& x.wf()
                &&& x.data() == self.data()
                &&& x.boundary() == self.position()
                &&& x.chunk_size() == h.compression_chunk_size
            },
            self.cached_header() is None ==> match archive_header_parse(rest_of(self.data(), self.position())) {
                Ok((h, n)) => r matches Ok(x) && {
                    &&& x.wf()
                    &&& x.data() == self.data()
                    &&& x.boundary() == self.position() + n
                    &&& x.chunk_size() == h.compression_chunk_size
                },
                Err(e) => r matches Err(x) && x == e,
            },
            r matches Ok(x) ==> x.decoder() == decompressor.decoder() && x.batch() == decompressor.batch()
                && x.failed() is None && x.current() is None,
    {
        let mut archive = self;
        let cs = match archive.header() {
            Ok(h) => h.compression_chunk_size,
            Err(e) => {
                return Err(e);
            },
        };
        Ok(
            ArchiveEntriesReader {
                data: archive.reader,
                pos: archive.pos,
                chunk_size: cs,
                decompressor,
                failed: None,
                active: false,
                size: 0,
                chunks: 0,
                read_chunks: 0,
                read_bytes: 0,
                entry_end: 0,
                staging: Vec::new(),
                staged: 0,
                blobs: Ghost(Seq::empty()),
            },
        )
    }
}

} // verus!
