use ataf::compression::{
    BrotliCompressor, BrotliDecompressor, CompressionFormat, Compressor, Decompressor, Flate2Compressor,
    Flate2Decompressor, Lz4Compressor, Lz4Decompressor, NoCompressor, NoDecompressor,
};
use ataf::error::ArchiveError;
use ataf::header::{ArchiveEntryHeader, ArchiveEntryHeaderType};
use ataf::archive::read::{Archive, ArchiveEntriesReader};
use ataf::varint::{VariableSizedU32, VariableSizedU64};
use ataf::archive::write::ArchiveWriter;

const HEADER_LEN_NONE: usize = 14;

fn entry(kind: ArchiveEntryHeaderType, path: &str, size: u64) -> ArchiveEntryHeader {
    ArchiveEntryHeader {
        kind,
        path: path.to_string(),
        mode: 0,
        uid: VariableSizedU32::new(0),
        gid: VariableSizedU32::new(0),
        mtime: VariableSizedU64::new(0),
        size: VariableSizedU64::new(size),
    }
}

fn write_one<C: Compressor>(c: C, chunk_size: u32, path: &str, payload: &[u8]) -> Vec<u8> {
    let mut w = ArchiveWriter::new(Vec::new(), c, chunk_size);
    w.write_entry(entry(ArchiveEntryHeaderType::File, path, payload.len() as u64), payload).unwrap();
    w.into_inner()
}

fn read_all<D: Decompressor>(r: &mut ArchiveEntriesReader<D>, step: usize) -> Result<Vec<u8>, ArchiveError> {
    let mut out = Vec::new();
    let mut buf = vec![0u8; step];
    loop {
        let n = r.read(&mut buf)?;
        if n == 0 {
            return Ok(out);
        }
        out.extend_from_slice(&buf[..n]);
    }
}

fn pseudo_random(n: usize) -> Vec<u8> {
    let mut x: u64 = 0x9E37_79B9_7F4A_7C15;
    (0..n)
        .map(|_| {
            x ^= x << 13;
            x ^= x >> 7;
            x ^= x << 17;
            (x >> 24) as u8
        })
        .collect()
}

fn round_trip<C: Compressor, D: Decompressor>(c: C, d: D, payload: &[u8], step: usize) -> Vec<u8> {
    let bytes = write_one(c, 1024, "p", payload);
    let mut entries = Archive::new(bytes).entries(d).unwrap();
    let e = entries.next_entry().unwrap().unwrap();
    assert_eq!(e.header().size.get(), payload.len() as u64);
    let out = read_all(&mut entries, step).unwrap();
    assert!(entries.next_entry().is_none());
    out
}

/// Frame lengths of the payload that starts at `pos`, `count` frames.
fn frame_lens(bytes: &[u8], mut pos: usize, count: usize) -> (Vec<usize>, usize) {
    let mut lens = Vec::new();
    for _ in 0..count {
        let n = ((bytes[pos] as usize) << 16) | ((bytes[pos + 1] as usize) << 8) | bytes[pos + 2] as usize;
        lens.push(n);
        pos += 3 + n;
    }
    (lens, pos)
}

#[test]
fn header_bytes_for_none() {
    let w = ArchiveWriter::new(Vec::new(), NoCompressor::new(), 1024);
    let bytes = w.into_inner();
    assert_eq!(bytes, vec![1, 0, 0, 0, 4, 0, b'n', b'o', b'n', b'e', 0x00, 0x04, 0, 0]);
}

#[test]
fn scenario_empty_file_entry() {
    let bytes = write_one(NoCompressor::new(), 1024, "a", b"");
    assert_eq!(&bytes[HEADER_LEN_NONE..], &[0x00, 0x01, 0x61, 0x00, 0x00, 0x00, 0x00, 0x00, 0x00, 0x00, 0x00]);
    let mut entries = Archive::new(bytes).entries(NoDecompressor::new()).unwrap();
    let e = entries.next_entry().unwrap().unwrap();
    assert_eq!(e.header().path, "a");
    assert_eq!(read_all(&mut entries, 16).unwrap(), Vec::<u8>::new());
    assert!(entries.next_entry().is_none());
}

#[test]
fn scenario_three_bytes() {
    let bytes = write_one(NoCompressor::new(), 1024, "a", b"xyz");
    let after_header = HEADER_LEN_NONE + 11;
    assert_eq!(&bytes[after_header..], &[0x00, 0x00, 0x03, 0x78, 0x79, 0x7A]);
}

#[test]
fn scenario_two_full_chunks() {
    let payload = vec![0u8; 2048];
    let bytes = write_one(NoCompressor::new(), 1024, "z", &payload);
    let start = HEADER_LEN_NONE + 1 + 1 + 1 + 4 + 1 + 1 + 1 + 2;
    let (lens, end) = frame_lens(&bytes, start, 2);
    assert_eq!(lens, vec![1024, 1024]);
    assert_eq!(end, bytes.len());
    assert_eq!(round_trip(NoCompressor::new(), NoDecompressor::new(), &payload, 100), payload);
}

#[test]
fn scenario_one_byte_tail() {
    let payload = pseudo_random(1025);
    let bytes = write_one(NoCompressor::new(), 1024, "z", &payload);
    let start = HEADER_LEN_NONE + 1 + 1 + 1 + 4 + 1 + 1 + 1 + 2;
    let (lens, end) = frame_lens(&bytes, start, 2);
    assert_eq!(lens, vec![1024, 1]);
    assert_eq!(end, bytes.len());
}

#[test]
fn scenario_directory_then_file() {
    let mut w = ArchiveWriter::new(Vec::new(), NoCompressor::new(), 1024);
    w.write_entry(entry(ArchiveEntryHeaderType::Directory, "d", 0), b"").unwrap();
    w.write_entry(entry(ArchiveEntryHeaderType::File, "d/f", 4), b"test").unwrap();
    let mut entries = Archive::new(w.into_inner()).entries(NoDecompressor::new()).unwrap();
    let d = entries.next_entry().unwrap().unwrap();
    assert_eq!(d.header().kind, ArchiveEntryHeaderType::Directory);
    assert_eq!(d.header().path, "d");
    assert_eq!(read_all(&mut entries, 8).unwrap(), Vec::<u8>::new());
    let f = entries.next_entry().unwrap().unwrap();
    assert_eq!(f.header().kind, ArchiveEntryHeaderType::File);
    assert_eq!(f.header().path, "d/f");
    assert_eq!(read_all(&mut entries, 8).unwrap(), b"test".to_vec());
    assert!(entries.next_entry().is_none());
}

#[test]
fn scenario_flate2_four_threads_one_mebibyte() {
    let payload = pseudo_random(1 << 20);
    let out = round_trip(
        Flate2Compressor::new(4, 9).unwrap(),
        Flate2Decompressor::new(4).unwrap(),
        &payload,
        65536,
    );
    assert_eq!(out, payload);
}

#[test]
fn payload_identity_every_codec() {
    let mut payload = pseudo_random(5000);
    payload.extend(vec![7u8; 3000]);
    assert_eq!(round_trip(NoCompressor::new(), NoDecompressor::new(), &payload, 333), payload);
    assert_eq!(
        round_trip(Flate2Compressor::new(2, 6).unwrap(), Flate2Decompressor::new(2).unwrap(), &payload, 333),
        payload
    );
    assert_eq!(
        round_trip(BrotliCompressor::new(2, 5).unwrap(), BrotliDecompressor::new(2).unwrap(), &payload, 333),
        payload
    );
    assert_eq!(
        round_trip(Lz4Compressor::new(2, 4).unwrap(), Lz4Decompressor::new(2).unwrap(), &payload, 333),
        payload
    );
}

#[test]
fn compressed_chunks_are_not_the_input() {
    let payload = vec![b'a'; 4096];
    let bytes = write_one(Flate2Compressor::new(1, 9).unwrap(), 1024, "z", &payload);
    assert!(bytes.len() < 4096);
    let bytes = write_one(BrotliCompressor::new(1, 9).unwrap(), 1024, "z", &payload);
    assert!(bytes.len() < 4096);
    let bytes = write_one(Lz4Compressor::new(1, 4).unwrap(), 1024, "z", &payload);
    assert!(bytes.len() < 4096);
}

#[test]
fn chunk_boundary_law() {
    let payload = pseudo_random(3 * 1024 + 17);
    let bytes = write_one(NoCompressor::new(), 1024, "z", &payload);
    let start = HEADER_LEN_NONE + 1 + 1 + 1 + 4 + 1 + 1 + 1 + 2;
    let (lens, end) = frame_lens(&bytes, start, 4);
    assert_eq!(lens, vec![1024, 1024, 1024, 17]);
    assert_eq!(end, bytes.len());
}

#[test]
fn empty_entry_writes_no_frames() {
    let mut w = ArchiveWriter::new(Vec::new(), Flate2Compressor::new(2, 6).unwrap(), 1024);
    w.write_entry(entry(ArchiveEntryHeaderType::File, "e", 0), b"").unwrap();
    let len_after_first = w.take_output().len();
    assert_eq!(len_after_first, 4 + 2 + 6 + 4 + 11);
    w.write_entry(entry(ArchiveEntryHeaderType::File, "f", 2), b"hi").unwrap();
    let rest = w.take_output();
    assert_eq!(&rest[..3], &[0x00, 0x01, b'f']);
}

#[test]
fn abandoned_entry_is_skipped() {
    let first = pseudo_random(5000);
    let mut w = ArchiveWriter::new(Vec::new(), NoCompressor::new(), 1024);
    w.write_entry(entry(ArchiveEntryHeaderType::File, "one", first.len() as u64), &first).unwrap();
    w.write_entry(entry(ArchiveEntryHeaderType::File, "two", 3), b"abc").unwrap();
    let mut entries = Archive::new(w.into_inner()).entries(NoDecompressor::new()).unwrap();
    entries.next_entry().unwrap().unwrap();
    let mut buf = [0u8; 10];
    assert_eq!(entries.read(&mut buf).unwrap(), 10);
    assert_eq!(&buf, &first[..10]);
    let second = entries.next_entry().unwrap().unwrap();
    assert_eq!(second.header().path, "two");
    assert_eq!(read_all(&mut entries, 2).unwrap(), b"abc".to_vec());
}

#[test]
fn thread_counts_give_the_same_archive() {
    let payload = pseudo_random(20_000);
    let one = write_one(Flate2Compressor::new(1, 6).unwrap(), 1024, "z", &payload);
    let two = write_one(Flate2Compressor::new(2, 6).unwrap(), 1024, "z", &payload);
    let eight = write_one(Flate2Compressor::new(8, 6).unwrap(), 1024, "z", &payload);
    assert_eq!(one, two);
    assert_eq!(one, eight);
    for threads in [1usize, 2, 8] {
        let mut entries = Archive::new(one.clone()).entries(Flate2Decompressor::new(threads).unwrap()).unwrap();
        entries.next_entry().unwrap().unwrap();
        assert_eq!(read_all(&mut entries, 4096).unwrap(), payload);
    }
}

#[test]
fn truncation_is_detected() {
    let payload = pseudo_random(2500);
    let bytes = write_one(NoCompressor::new(), 1024, "file", &payload);
    for cut in HEADER_LEN_NONE + 1..bytes.len() {
        let mut entries = Archive::new(bytes[..cut].to_vec()).entries(NoDecompressor::new()).unwrap();
        match entries.next_entry() {
            Some(Err(e)) => assert_eq!(e, ArchiveError::TruncatedEntry),
            other => panic!("cut at {}: {:?}", cut, other.map(|r| r.map(|e| e.header().path.clone()))),
        }
        assert!(matches!(entries.next_entry(), Some(Err(ArchiveError::TruncatedEntry))));
    }
}

#[test]
fn clean_end_after_header() {
    let bytes = ArchiveWriter::new(Vec::new(), NoCompressor::new(), 4096).into_inner();
    let mut entries = Archive::new(bytes).entries(NoDecompressor::new()).unwrap();
    assert!(entries.next_entry().is_none());
}

#[test]
fn archive_header_errors() {
    let good = ArchiveWriter::new(Vec::new(), NoCompressor::new(), 1024).into_inner();
    let mut a = Archive::new(good.clone());
    let h = a.header().unwrap();
    assert_eq!(h.version, 1);
    assert_eq!(h.compression, "none");
    assert_eq!(h.compression_chunk_size, 1024);

    let mut bad_version = good.clone();
    bad_version[0] = 2;
    assert_eq!(Archive::new(bad_version).header().err(), Some(ArchiveError::MalformedHeader));

    let mut small_chunk = good.clone();
    small_chunk[11] = 0x03;
    assert_eq!(Archive::new(small_chunk).header().err(), Some(ArchiveError::MalformedHeader));

    let mut unknown = good.clone();
    unknown[6] = b'x';
    assert_eq!(Archive::new(unknown).header().err(), Some(ArchiveError::UnsupportedCompression));

    let mut bad_utf8 = good.clone();
    bad_utf8[6] = 0xFF;
    assert_eq!(Archive::new(bad_utf8).header().err(), Some(ArchiveError::MalformedHeader));

    assert_eq!(Archive::new(good[..9].to_vec()).header().err(), Some(ArchiveError::MalformedHeader));
    assert_eq!(
        Archive::new(good[..3].to_vec()).entries(NoDecompressor::new()).err(),
        Some(ArchiveError::MalformedHeader)
    );
}

#[test]
fn entry_header_errors() {
    let mut bytes = ArchiveWriter::new(Vec::new(), NoCompressor::new(), 1024).into_inner();
    bytes.push(9);
    let mut entries = Archive::new(bytes.clone()).entries(NoDecompressor::new()).unwrap();
    assert_eq!(entries.next_entry().unwrap().err(), Some(ArchiveError::MalformedHeader));
    assert_eq!(entries.next_entry().unwrap().err(), Some(ArchiveError::MalformedHeader));

    let mut bytes = ArchiveWriter::new(Vec::new(), NoCompressor::new(), 1024).into_inner();
    bytes.extend_from_slice(&[0, 0xFF, 0xFF, 0xFF, 0xFF, 0xFF, 0xFF, 0xFF, 0xFF, 0xFF, 0xFF, 0x01]);
    let mut entries = Archive::new(bytes).entries(NoDecompressor::new()).unwrap();
    assert_eq!(entries.next_entry().unwrap().err(), Some(ArchiveError::MalformedVarint));

    let mut bytes = ArchiveWriter::new(Vec::new(), NoCompressor::new(), 1024).into_inner();
    bytes.extend_from_slice(&[0, 1, 0xC3, 0, 0, 0, 0, 0, 0, 0, 0]);
    let mut entries = Archive::new(bytes).entries(NoDecompressor::new()).unwrap();
    assert_eq!(entries.next_entry().unwrap().err(), Some(ArchiveError::MalformedHeader));
}

#[test]
fn codec_failure_on_bad_chunk() {
    let payload = pseudo_random(3000);
    let bytes = write_one(NoCompressor::new(), 1024, "z", &payload);
    let mut entries = Archive::new(bytes).entries(Flate2Decompressor::new(2).unwrap()).unwrap();
    entries.next_entry().unwrap().unwrap();
    let mut buf = [0u8; 64];
    assert_eq!(entries.read(&mut buf).err(), Some(ArchiveError::CodecFailure));
    assert_eq!(entries.read(&mut buf).err(), Some(ArchiveError::CodecFailure));
    assert_eq!(entries.next_entry().unwrap().err(), Some(ArchiveError::CodecFailure));
}

#[test]
fn short_chunk_is_a_codec_failure() {
    let payload = pseudo_random(2048);
    let mut bytes = write_one(NoCompressor::new(), 1024, "z", &payload);
    let start = HEADER_LEN_NONE + 1 + 1 + 1 + 4 + 1 + 1 + 1 + 2;
    // shorten the first frame to 1023 bytes and drop one byte from the wire
    bytes[start + 2] = 0xFF;
    bytes[start + 1] = 0x03;
    bytes.remove(start + 3);
    let mut entries = Archive::new(bytes).entries(NoDecompressor::new()).unwrap();
    entries.next_entry().unwrap().unwrap();
    let mut buf = [0u8; 64];
    assert_eq!(entries.read(&mut buf).err(), Some(ArchiveError::CodecFailure));
}

#[test]
fn compression_format_names() {
    for f in [CompressionFormat::Uncompressed, CompressionFormat::Flate2, CompressionFormat::Brotli, CompressionFormat::Lz4] {
        assert_eq!(CompressionFormat::from_name(f.name()), Some(f));
    }
    assert_eq!(CompressionFormat::Uncompressed.name(), "none");
    assert_eq!(CompressionFormat::from_name("zstd"), None);
    assert_eq!(Flate2Compressor::new(1, 6).unwrap().name(), "flate2");
    assert_eq!(BrotliCompressor::new(1, 6).unwrap().name(), "brotli");
    assert_eq!(Lz4Compressor::new(1, 6).unwrap().name(), "lz4");
}

#[test]
fn oversized_frame_fails_and_poisons_the_writer() {
    let chunk_size: u32 = 1 << 24;
    let payload = vec![1u8; 1 << 24];
    let mut w = ArchiveWriter::new(Vec::new(), NoCompressor::new(), chunk_size);
    let before = w.take_output().len();
    assert_eq!(before, 14);
    let e = w.write_entry(entry(ArchiveEntryHeaderType::File, "big", payload.len() as u64), &payload);
    assert_eq!(e, Err(ArchiveError::CodecFailure));
    let again = w.write_entry(entry(ArchiveEntryHeaderType::File, "small", 1), b"x");
    assert_eq!(again, Err(ArchiveError::CodecFailure));
}

#[test]
fn trailing_bytes_are_an_error_not_the_end() {
    let mut bytes = write_one(NoCompressor::new(), 1024, "a", b"abc");
    bytes.push(0x00);
    let mut entries = Archive::new(bytes).entries(NoDecompressor::new()).unwrap();
    entries.next_entry().unwrap().unwrap();
    assert_eq!(entries.next_entry().unwrap().err(), Some(ArchiveError::TruncatedEntry));
}

#[test]
fn each_read_hands_out_one_staged_batch() {
    let bytes = write_one(NoCompressor::new(), 1024, "a", &[0x41u8; 1025]);
    let mut entries = Archive::new(bytes).entries(NoDecompressor::new()).unwrap();
    entries.next_entry().unwrap().unwrap();
    let mut buf = [0u8; 4096];
    assert_eq!(entries.read(&mut buf).unwrap(), 1024);
    assert!(buf[..1024].iter().all(|&b| b == 0x41));
    assert_eq!(entries.read(&mut buf).unwrap(), 1);
    assert_eq!(buf[0], 0x41);
    assert_eq!(entries.read(&mut buf).unwrap(), 0);
}

#[test]
fn a_batch_holds_one_chunk_per_worker() {
    let payload = pseudo_random(5 * 1024);
    let bytes = write_one(Flate2Compressor::new(2, 6).unwrap(), 1024, "a", &payload);
    let mut entries = Archive::new(bytes).entries(Flate2Decompressor::new(2).unwrap()).unwrap();
    entries.next_entry().unwrap().unwrap();
    let mut buf = vec![0u8; 8192];
    assert_eq!(entries.read(&mut buf).unwrap(), 2048);
    assert_eq!(entries.read(&mut buf).unwrap(), 2048);
    assert_eq!(entries.read(&mut buf).unwrap(), 1024);
    assert_eq!(entries.read(&mut buf).unwrap(), 0);
}

#[test]
fn highest_zlib_level_round_trips() {
    let payload = pseudo_random(3000);
    assert_eq!(
        round_trip(Flate2Compressor::new(2, 10).unwrap(), Flate2Decompressor::new(3).unwrap(), &payload, 500),
        payload
    );
}
