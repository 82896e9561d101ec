use ataf::error::ArchiveError;
use ataf::header::{ArchiveEntryHeader, ArchiveEntryHeaderType, ArchiveHeader};
use ataf::varint::{VariableSizedU32, VariableSizedU64};
use ataf::wire::{Deserialize, Serialize};

fn bytes_of<T: Serialize>(v: &T) -> Vec<u8> {
    let mut out = Vec::new();
    v.serialize(&mut out);
    out
}

#[test]
fn varint_round_trip_and_minimal_length() {
    let cases: [(u32, usize); 7] = [(0, 1), (1, 1), (127, 1), (128, 2), (16383, 2), (16384, 3), (u32::MAX, 5)];
    for (v, len) in cases {
        let b = bytes_of(&VariableSizedU32::new(v));
        assert_eq!(b.len(), len);
        assert!(b.len() == 1 || *b.last().unwrap() != 0);
        let (d, end) = VariableSizedU32::deserialize(&b, 0).unwrap();
        assert_eq!(d.get(), v);
        assert_eq!(end, len);
        let (d, end) = VariableSizedU64::deserialize(&b, 0).unwrap();
        assert_eq!(d.get(), v as u64);
        assert_eq!(end, len);
    }
    let b = bytes_of(&VariableSizedU64::new(u64::MAX));
    assert_eq!(b.len(), 10);
    assert_eq!(VariableSizedU64::deserialize(&b, 0).unwrap(), (VariableSizedU64::new(u64::MAX), 10));
    assert_eq!(bytes_of(&VariableSizedU32::new(0)), vec![0x00]);
    assert_eq!(bytes_of(&VariableSizedU32::new(300)), vec![0xAC, 0x02]);
}

#[test]
fn varint_rejects_six_continuation_bytes() {
    let b = [0x80u8, 0x80, 0x80, 0x80, 0x80, 0x80];
    assert_eq!(VariableSizedU32::deserialize(&b, 0), Err(ArchiveError::MalformedVarint));
}

#[test]
fn varint_rejects_truncation_and_overflow() {
    assert_eq!(VariableSizedU32::deserialize(&[0x80, 0x80], 0), Err(ArchiveError::MalformedVarint));
    assert_eq!(VariableSizedU32::deserialize(&[], 0), Err(ArchiveError::MalformedVarint));
    assert_eq!(
        VariableSizedU32::deserialize(&[0xFF, 0xFF, 0xFF, 0xFF, 0x1F], 0),
        Err(ArchiveError::MalformedVarint)
    );
    let mut big = vec![0xFFu8; 9];
    big.push(0x7F);
    assert_eq!(VariableSizedU64::deserialize(&big, 0), Err(ArchiveError::MalformedVarint));
    assert_eq!(VariableSizedU32::deserialize(&[0x05, 0x81, 0x01], 1), Ok((VariableSizedU32::new(129), 3)));
}

#[test]
fn archive_header_round_trip() {
    for name in ["none", "flate2", "brotli", "lz4"] {
        let h = ArchiveHeader { version: 1, compression: name.to_string(), compression_chunk_size: 65535 };
        let mut b = bytes_of(&h);
        b.push(0xAA);
        let (back, end) = ArchiveHeader::deserialize(&b, 0).unwrap();
        assert_eq!(end, b.len() - 1);
        assert_eq!(back.version, 1);
        assert_eq!(back.compression, name);
        assert_eq!(back.compression_chunk_size, 65535);
    }
}

#[test]
fn entry_header_round_trip() {
    let kinds = [
        ArchiveEntryHeaderType::File,
        ArchiveEntryHeaderType::Directory,
        ArchiveEntryHeaderType::SymlinkFile,
        ArchiveEntryHeaderType::SymlinkDirectory,
    ];
    for (i, kind) in kinds.into_iter().enumerate() {
        let h = ArchiveEntryHeader {
            kind,
            path: format!("dir/é/{}", i),
            mode: 0o100644,
            uid: VariableSizedU32::new(1000 + i as u32),
            gid: VariableSizedU32::new(u32::MAX),
            mtime: VariableSizedU64::new(1_700_000_000),
            size: VariableSizedU64::new(u64::MAX - i as u64),
        };
        let b = bytes_of(&h);
        assert_eq!(b[0], i as u8);
        let (back, end) = ArchiveEntryHeader::deserialize(&b, 0).unwrap();
        assert_eq!(end, b.len());
        assert_eq!(back.kind, h.kind);
        assert_eq!(back.path, h.path);
        assert_eq!(back.mode, h.mode);
        assert_eq!(back.uid, h.uid);
        assert_eq!(back.gid, h.gid);
        assert_eq!(back.mtime, h.mtime);
        assert_eq!(back.size, h.size);
    }
}

#[test]
fn entry_header_truncated_at_every_byte() {
    let h = ArchiveEntryHeader {
        kind: ArchiveEntryHeaderType::File,
        path: "some/path".to_string(),
        mode: 0o755,
        uid: VariableSizedU32::new(70000),
        gid: VariableSizedU32::new(5),
        mtime: VariableSizedU64::new(1 << 40),
        size: VariableSizedU64::new(123456),
    };
    let b = bytes_of(&h);
    for cut in 0..b.len() {
        assert_eq!(ArchiveEntryHeader::deserialize(&b[..cut], 0).err(), Some(ArchiveError::TruncatedEntry));
    }
}
