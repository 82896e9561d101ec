//! The archive header and the per-entry header.
use vstd::prelude::*;
use vstd::bytes::{
    spec_u16_from_le_bytes, spec_u16_to_le_bytes, spec_u32_from_le_bytes, spec_u32_to_le_bytes,
    u16_from_le_bytes, u16_to_le_bytes, u32_from_le_bytes, u32_to_le_bytes,
    lemma_auto_spec_u16_to_from_le_bytes, lemma_auto_spec_u32_to_from_le_bytes,
};
use vstd::utf8::{valid_utf8, decode_utf8, encode_utf8, encode_utf8_valid_utf8, encode_utf8_decode_utf8};
use vstd::string::StringSliceAdditionalSpecFns;

use crate::error::ArchiveError;
use crate::varint::{
    VariableSizedU32, VariableSizedU64, read_varint, push_varint, varint_read, varint_wire, lemma_varint_round_trip,
    lemma_varint_cut, lemma_varint_wire_widths, U32_VARINT_BYTES,
    U64_VARINT_BYTES,
};
use crate::wire::{Deserialize, Serialize, push_bytes};

verus! {

/// The only archive version defined.
pub const ARCHIVE_VERSION: u32 = 1;

/// The smallest chunk size an archive may declare.
pub const MIN_CHUNK_SIZE: u32 = 1024;

/// Relies on `String::from_utf8`: it succeeds exactly on well-formed UTF-8,
/// and the string then holds the characters those bytes encode.
#[verifier::external_body]
fn string_from_utf8(bytes: Vec<u8>) -> (r: Option<String>)
    ensures
        r is Some <==> valid_utf8(bytes@),
        r matches Some(s) ==> s@ == decode_utf8(bytes@),
{
    String::from_utf8(bytes).ok()
}

/// The bytes of a string.
pub open spec fn text_bytes(s: Seq<char>) -> Seq<u8> {
    encode_utf8(s)
}

/// Copies `input[start..end]` into a new vector.
pub(crate) fn copy_range(input: &[u8], start: usize, end: usize) -> (r: Vec<u8>)
    requires
        start <= end <= input@.len(),
    ensures
        r@ == input@.subrange(start as int, end as int),
{
    let mut r: Vec<u8> = Vec::new();
    let mut i: usize = start;
    while i < end
        invariant
            start <= i <= end <= input@.len(),
            r@ == input@.subrange(start as int, i as int),
        decreases end - i,
    {
        r.push(input[i]);
        assert(input@.subrange(start as int, i + 1) =~= input@.subrange(start as int, i as int).push(
            input@[i as int],
        ));
        i = i + 1;
    }
    r
}

/// Reads the little-endian `u32` at `pos`.
fn read_u32_le(input: &[u8], pos: usize) -> (r: u32)
    requires
        pos + 4 <= input@.len(),
    ensures
        r == spec_u32_from_le_bytes(input@.subrange(pos as int, pos + 4)),
{
    let len = input.len();
    let b = copy_range(input, pos, pos + 4);
    u32_from_le_bytes(b.as_slice())
}

/// The string of a header field, `MalformedHeader` where it is not UTF-8.
fn text_field(bytes: Vec<u8>) -> (r: Result<String, ArchiveError>)
    ensures
        valid_utf8(bytes@) ==> (r matches Ok(s) && s@ == decode_utf8(bytes@)),
        !valid_utf8(bytes@) ==> r == Err::<String, ArchiveError>(ArchiveError::MalformedHeader),
{
    match string_from_utf8(bytes) {
        Some(s) => Ok(s),
        None => Err(ArchiveError::MalformedHeader),
    }
}

// ---------------------------------------------------------------- archive header

/// The archive's prelude: format version, codec name and logical chunk size.
#[derive(Debug)]
pub struct ArchiveHeader {
    pub version: u32,
    pub compression: String,
    pub compression_chunk_size: u32,
}

/// What an `ArchiveHeader` holds.
pub struct ArchiveHeaderView {
    pub version: u32,
    pub compression: Seq<char>,
    pub compression_chunk_size: u32,
}

impl View for ArchiveHeader {
    type V = ArchiveHeaderView;

    open spec fn view(&self) -> ArchiveHeaderView {
        ArchiveHeaderView {
            version: self.version,
            compression: self.compression@,
            compression_chunk_size: self.compression_chunk_size,
        }
    }
}

/// The codec names a reader knows.
pub open spec fn known_compression(name: Seq<char>) -> bool {
    name == "none"@ || name == "flate2"@ || name == "brotli"@ || name == "lz4"@
}

/// The bytes of an archive header.
pub open spec fn archive_header_wire(h: ArchiveHeaderView) -> Seq<u8> {
    spec_u32_to_le_bytes(h.version) + spec_u16_to_le_bytes(text_bytes(h.compression).len() as u16)
        + text_bytes(h.compression) + spec_u32_to_le_bytes(h.compression_chunk_size)
}

/// Reads an archive header from the front of `s`: each field in order, then
/// the checks on version, chunk size and codec name.
pub open spec fn archive_header_parse(s: Seq<u8>) -> Result<(ArchiveHeaderView, nat), ArchiveError> {
    if s.len() < 6 {
        Err(ArchiveError::MalformedHeader)
    } else {
        let version = spec_u32_from_le_bytes(s.subrange(0, 4));
        let n = spec_u16_from_le_bytes(s.subrange(4, 6)) as int;
        if s.len() < 6 + n + 4 {
            Err(ArchiveError::MalformedHeader)
        } else if !valid_utf8(s.subrange(6, 6 + n)) {
            Err(ArchiveError::MalformedHeader)
        } else {
            let name = decode_utf8(s.subrange(6, 6 + n));
            let chunk = spec_u32_from_le_bytes(s.subrange(6 + n, 6 + n + 4));
            if version != ARCHIVE_VERSION || chunk < MIN_CHUNK_SIZE {
                Err(ArchiveError::MalformedHeader)
            } else if !known_compression(name) {
                Err(ArchiveError::UnsupportedCompression)
            } else {
                Ok((ArchiveHeaderView { version, compression: name, compression_chunk_size: chunk }, (6 + n + 4) as nat))
            }
        }
    }
}

/// A header that a reader accepts.
pub open spec fn archive_header_valid(h: ArchiveHeaderView) -> bool {
    &&& h.version == ARCHIVE_VERSION
    &&& h.compression_chunk_size >= MIN_CHUNK_SIZE
    &&& known_compression(h.compression)
}

impl Serialize for ArchiveHeader {
    open spec fn writable(&self) -> bool {
        text_bytes(self.compression@).len() <= u16::MAX
    }

    open spec fn wire(&self) -> Seq<u8> {
        archive_header_wire(self@)
    }

    fn serialize(&self, output: &mut Vec<u8>) {
        let name = self.compression.as_str().as_bytes();
        let v = u32_to_le_bytes(self.version);
        push_bytes(output, v.as_slice());
        let n = u16_to_le_bytes(name.len() as u16);
        push_bytes(output, n.as_slice());
        push_bytes(output, name);
        let c = u32_to_le_bytes(self.compression_chunk_size);
        push_bytes(output, c.as_slice());
        assert(output@ =~= old(output)@ + self.wire());
    }
}

impl Deserialize for ArchiveHeader {
    open spec fn parse(s: Seq<u8>) -> Result<(ArchiveHeaderView, nat), ArchiveError> {
        archive_header_parse(s)
    }

    fn deserialize(input: &[u8], pos: usize) -> (r: Result<(Self, usize), ArchiveError>) {
        let ghost s = input@.subrange(pos as int, input@.len() as int);
        let avail = input.len() - pos;
        if avail < 6 {
            return Err(ArchiveError::MalformedHeader);
        }
        let version = read_u32_le(input, pos);
        let nb = copy_range(input, pos + 4, pos + 6);
        let n = u16_from_le_bytes(nb.as_slice()) as usize;
        assert(s.subrange(0, 4) =~= input@.subrange(pos as int, pos + 4));
        assert(s.subrange(4, 6) =~= nb@);
        if avail - 6 < n + 4 {
            return Err(ArchiveError::MalformedHeader);
        }
        let name_bytes = copy_range(input, pos + 6, pos + 6 + n);
        assert(s.subrange(6, 6 + n as int) =~= name_bytes@);
        assert(s.subrange(6 + n as int, 6 + n + 4) =~= input@.subrange(pos + 6 + n, pos + 6 + n + 4));
        let compression = match text_field(name_bytes) {
            Ok(t) => t,
            Err(e) => {
                return Err(e);
            },
        };
        let chunk = read_u32_le(input, pos + 6 + n);
        if version != ARCHIVE_VERSION || chunk < MIN_CHUNK_SIZE {
            return Err(ArchiveError::MalformedHeader);
        }
        if !compression_is_known(compression.as_str()) {
            return Err(ArchiveError::UnsupportedCompression);
        }
        Ok((ArchiveHeader { version, compression, compression_chunk_size: chunk }, pos + 6 + n + 4))
    }
}

/// Whether a reader knows the codec `name`.
pub fn compression_is_known(name: &str) -> (r: bool)
    ensures
        r == known_compression(name@),
{
    let b = name.as_bytes();
    proof {
        reveal_strlit("none");
        reveal_strlit("flate2");
        reveal_strlit("brotli");
        reveal_strlit("lz4");
    }
    let r = bytes_are(b, "none".as_bytes()) || bytes_are(b, "flate2".as_bytes()) || bytes_are(
        b,
        "brotli".as_bytes(),
    ) || bytes_are(b, "lz4".as_bytes());
    proof {
        broadcast use vstd::utf8::encode_utf8_decode_utf8;

        assert(decode_utf8(encode_utf8(name@)) == name@);
        assert(decode_utf8(encode_utf8("none"@)) == "none"@);
        assert(decode_utf8(encode_utf8("flate2"@)) == "flate2"@);
        assert(decode_utf8(encode_utf8("brotli"@)) == "brotli"@);
        assert(decode_utf8(encode_utf8("lz4"@)) == "lz4"@);
    }
    r
}

/// Byte-wise equality of two slices.
pub(crate) fn bytes_are(a: &[u8], b: &[u8]) -> (r: bool)
    ensures
        r == (a@ == b@),
{
    if a.len() != b.len() {
        return false;
    }
    let mut i: usize = 0;
    while i < a.len()
        invariant
            i <= a@.len() == b@.len(),
            a@.take(i as int) == b@.take(i as int),
        decreases a@.len() - i,
    {
        if a[i] != b[i] {
            return false;
        }
        assert(a@.take(i + 1) =~= a@.take(i as int).push(a@[i as int]));
        assert(b@.take(i + 1) =~= b@.take(i as int).push(b@[i as int]));
        i = i + 1;
    }
    assert(a@ =~= a@.take(i as int));
    assert(b@ =~= b@.take(i as int));
    true
}

} // verus!

verus! {

// ---------------------------------------------------------------- entry header

/// What an entry is on the filesystem.
#[derive(Clone, Copy, Debug, PartialEq, Eq, Structural)]
pub enum ArchiveEntryHeaderType {
    File,
    Directory,
    SymlinkFile,
    SymlinkDirectory,
}

/// The tag byte of an entry type.
pub open spec fn entry_tag(t: ArchiveEntryHeaderType) -> u8 {
    match t {
        ArchiveEntryHeaderType::File => 0,
        ArchiveEntryHeaderType::Directory => 1,
        ArchiveEntryHeaderType::SymlinkFile => 2,
        ArchiveEntryHeaderType::SymlinkDirectory => 3,
    }
}

/// The entry type of a tag byte, if it names one.
pub open spec fn tag_entry_type(b: u8) -> Option<ArchiveEntryHeaderType> {
    if b == 0 {
        Some(ArchiveEntryHeaderType::File)
    } else if b == 1 {
        Some(ArchiveEntryHeaderType::Directory)
    } else if b == 2 {
        Some(ArchiveEntryHeaderType::SymlinkFile)
    } else if b == 3 {
        Some(ArchiveEntryHeaderType::SymlinkDirectory)
    } else {
        None
    }
}

impl View for ArchiveEntryHeaderType {
    type V = ArchiveEntryHeaderType;

    open spec fn view(&self) -> ArchiveEntryHeaderType {
        *self
    }
}

impl Serialize for ArchiveEntryHeaderType {
    open spec fn writable(&self) -> bool {
        true
    }

    open spec fn wire(&self) -> Seq<u8> {
        seq![entry_tag(*self)]
    }

    fn serialize(&self, output: &mut Vec<u8>) {
        let b: u8 = match self {
            ArchiveEntryHeaderType::File => 0,
            ArchiveEntryHeaderType::Directory => 1,
            ArchiveEntryHeaderType::SymlinkFile => 2,
            ArchiveEntryHeaderType::SymlinkDirectory => 3,
        };
        output.push(b);
        assert(output@ =~= old(output)@ + self.wire());
    }
}

impl Deserialize for ArchiveEntryHeaderType {
    /// A missing byte is a truncated entry, an unknown one a malformed header.
    open spec fn parse(s: Seq<u8>) -> Result<(ArchiveEntryHeaderType, nat), ArchiveError> {
        if s.len() == 0 {
            Err(ArchiveError::TruncatedEntry)
        } else {
            match tag_entry_type(s[0]) {
                Some(t) => Ok((t, 1)),
                None => Err(ArchiveError::MalformedHeader),
            }
        }
    }

    fn deserialize(input: &[u8], pos: usize) -> (r: Result<(Self, usize), ArchiveError>) {
        if pos == input.len() {
            return Err(ArchiveError::TruncatedEntry);
        }
        let b = input[pos];
        let t = if b == 0 {
            ArchiveEntryHeaderType::File
        } else if b == 1 {
            ArchiveEntryHeaderType::Directory
        } else if b == 2 {
            ArchiveEntryHeaderType::SymlinkFile
        } else if b == 3 {
            ArchiveEntryHeaderType::SymlinkDirectory
        } else {
            return Err(ArchiveError::MalformedHeader);
        };
        Ok((t, pos + 1))
    }
}

/// The header of one entry: its type, path, permissions, owner, time and
/// logical payload size.
#[derive(Debug)]
pub struct ArchiveEntryHeader {
    pub kind: ArchiveEntryHeaderType,
    pub path: String,
    pub mode: u32,
    pub uid: VariableSizedU32,
    pub gid: VariableSizedU32,
    pub mtime: VariableSizedU64,
    pub size: VariableSizedU64,
}

/// What an `ArchiveEntryHeader` holds.
pub struct ArchiveEntryHeaderView {
    pub kind: ArchiveEntryHeaderType,
    pub path: Seq<char>,
    pub mode: u32,
    pub uid: u32,
    pub gid: u32,
    pub mtime: u64,
    pub size: u64,
}

impl View for ArchiveEntryHeader {
    type V = ArchiveEntryHeaderView;

    open spec fn view(&self) -> ArchiveEntryHeaderView {
        ArchiveEntryHeaderView {
            kind: self.kind,
            path: self.path@,
            mode: self.mode,
            uid: self.uid.0,
            gid: self.gid.0,
            mtime: self.mtime.0,
            size: self.size.0,
        }
    }
}

/// The bytes of an entry header.
pub open spec fn entry_header_wire(h: ArchiveEntryHeaderView) -> Seq<u8> {
    seq![entry_tag(h.kind)] + varint_wire(text_bytes(h.path).len()) + text_bytes(h.path)
        + spec_u32_to_le_bytes(h.mode) + varint_wire(h.uid as nat) + varint_wire(h.gid as nat)
        + varint_wire(h.mtime as nat) + varint_wire(h.size as nat)
}

/// A 32-bit varint in an entry header: a short input is a truncated entry.
pub open spec fn entry_u32(s: Seq<u8>) -> Result<(nat, nat), ArchiveError> {
    varint_read(s, 5, 0x1_0000_0000)
}

/// A 64-bit varint in an entry header: a short input is a truncated entry.
pub open spec fn entry_u64(s: Seq<u8>) -> Result<(nat, nat), ArchiveError> {
    varint_read(s, 10, 0x1_0000_0000_0000_0000)
}

/// The fields after the path, read from `s` where they start at `p`.
pub open spec fn entry_tail_parse(
    s: Seq<u8>,
    p: nat,
    kind: ArchiveEntryHeaderType,
    path: Seq<char>,
) -> Result<(ArchiveEntryHeaderView, nat), ArchiveError> {
    if s.len() < p + 4 {
        Err(ArchiveError::TruncatedEntry)
    } else {
        let mode = spec_u32_from_le_bytes(s.subrange(p as int, (p + 4) as int));
        let p3 = p + 4;
        match entry_u32(s.skip(p3 as int)) {
            Err(e) => Err(e),
            Ok((uid, n3)) => {
                let p4 = p3 + n3;
                match entry_u32(s.skip(p4 as int)) {
                    Err(e) => Err(e),
                    Ok((gid, n4)) => {
                        let p5 = p4 + n4;
                        match entry_u64(s.skip(p5 as int)) {
                            Err(e) => Err(e),
                            Ok((mtime, n5)) => {
                                let p6 = p5 + n5;
                                match entry_u64(s.skip(p6 as int)) {
                                    Err(e) => Err(e),
                                    Ok((size, n6)) => Ok(
                                        (
                                            ArchiveEntryHeaderView {
                                                kind,
                                                path,
                                                mode,
                                                uid: uid as u32,
                                                gid: gid as u32,
                                                mtime: mtime as u64,
                                                size: size as u64,
                                            },
                                            p6 + n6,
                                        ),
                                    ),
                                }
                            },
                        }
                    },
                }
            },
        }
    }
}

/// Reads an entry header from the front of `s`, field by field.
pub open spec fn entry_header_parse(s: Seq<u8>) -> Result<(ArchiveEntryHeaderView, nat), ArchiveError> {
    match ArchiveEntryHeaderType::parse(s) {
        Err(e) => Err(e),
        Ok((kind, _)) => match entry_u64(s.skip(1)) {
            Err(e) => Err(e),
            Ok((plen, n1)) => {
                let p1 = 1 + n1;
                if s.len() < p1 + plen {
                    Err(ArchiveError::TruncatedEntry)
                } else if !valid_utf8(s.subrange(p1 as int, (p1 + plen) as int)) {
                    Err(ArchiveError::MalformedHeader)
                } else {
                    entry_tail_parse(
                        s,
                        p1 + plen,
                        kind,
                        decode_utf8(s.subrange(p1 as int, (p1 + plen) as int)),
                    )
                }
            },
        },
    }
}

/// Reads a 32-bit varint of an entry header at `pos`.
fn read_entry_u32(input: &[u8], pos: usize) -> (r: Result<(u32, usize), ArchiveError>)
    requires
        pos <= input@.len(),
    ensures
        match entry_u32(input@.skip(pos as int)) {
            Ok((v, n)) => match r {
                Ok((x, end)) => x as nat == v && end == pos + n && end <= input@.len(),
                Err(_) => false,
            },
            Err(e) => r == Err::<(u32, usize), ArchiveError>(e),
        },
{
    assert(input@.skip(pos as int) =~= input@.subrange(pos as int, input@.len() as int));
    match read_varint(input, pos, U32_VARINT_BYTES) {
        Ok((v, end)) => {
            if v <= u32::MAX as u64 {
                Ok((v as u32, end))
            } else {
                Err(ArchiveError::MalformedVarint)
            }
        },
        Err(e) => Err(e),
    }
}

/// Reads a 64-bit varint of an entry header at `pos`.
fn read_entry_u64(input: &[u8], pos: usize) -> (r: Result<(u64, usize), ArchiveError>)
    requires
        pos <= input@.len(),
    ensures
        match entry_u64(input@.skip(pos as int)) {
            Ok((v, n)) => match r {
                Ok((x, end)) => x as nat == v && end == pos + n && end <= input@.len(),
                Err(_) => false,
            },
            Err(e) => r == Err::<(u64, usize), ArchiveError>(e),
        },
{
    assert(input@.skip(pos as int) =~= input@.subrange(pos as int, input@.len() as int));
    read_varint(input, pos, U64_VARINT_BYTES)
}

impl Serialize for ArchiveEntryHeader {
    open spec fn writable(&self) -> bool {
        text_bytes(self.path@).len() <= u64::MAX
    }

    open spec fn wire(&self) -> Seq<u8> {
        entry_header_wire(self@)
    }

    fn serialize(&self, output: &mut Vec<u8>) {
        let path = self.path.as_str().as_bytes();
        self.kind.serialize(output);
        push_varint(path.len() as u64, output);
        push_bytes(output, path);
        let m = u32_to_le_bytes(self.mode);
        push_bytes(output, m.as_slice());
        self.uid.serialize(output);
        self.gid.serialize(output);
        self.mtime.serialize(output);
        self.size.serialize(output);
        assert(output@ =~= old(output)@ + self.wire());
    }
}

impl Deserialize for ArchiveEntryHeader {
    open spec fn parse(s: Seq<u8>) -> Result<(ArchiveEntryHeaderView, nat), ArchiveError> {
        entry_header_parse(s)
    }

    fn deserialize(input: &[u8], pos: usize) -> (r: Result<(Self, usize), ArchiveError>) {
        let ghost s = input@.subrange(pos as int, input@.len() as int);
        let len = input.len();
        let (kind, p0) = match ArchiveEntryHeaderType::deserialize(input, pos) {
            Ok(x) => x,
            Err(e) => {
                return Err(e);
            },
        };
        assert(s.skip(1) =~= input@.skip(p0 as int));
        let (plen, p1) = match read_entry_u64(input, p0) {
            Ok(x) => x,
            Err(e) => {
                return Err(e);
            },
        };
        if ((len - p1) as u64) < plen {
            return Err(ArchiveError::TruncatedEntry);
        }
        let p2 = p1 + plen as usize;
        let path_bytes = copy_range(input, p1, p2);
        assert(s.subrange(p1 - pos, p2 - pos) =~= path_bytes@);
        let path = match text_field(path_bytes) {
            Ok(t) => t,
            Err(e) => {
                return Err(e);
            },
        };
        if len - p2 < 4 {
            return Err(ArchiveError::TruncatedEntry);
        }
        let mode = read_u32_le(input, p2);
        assert(s.subrange(p2 - pos, p2 - pos + 4) =~= input@.subrange(p2 as int, p2 + 4));
        let p3 = p2 + 4;
        assert(s.skip(p3 - pos) =~= input@.skip(p3 as int));
        let (uid, p4) = match read_entry_u32(input, p3) {
            Ok(x) => x,
            Err(e) => {
                return Err(e);
            },
        };
        assert(s.skip(p4 - pos) =~= input@.skip(p4 as int));
        let (gid, p5) = match read_entry_u32(input, p4) {
            Ok(x) => x,
            Err(e) => {
                return Err(e);
            },
        };
        assert(s.skip(p5 - pos) =~= input@.skip(p5 as int));
        let (mtime, p6) = match read_entry_u64(input, p5) {
            Ok(x) => x,
            Err(e) => {
                return Err(e);
            },
        };
        assert(s.skip(p6 - pos) =~= input@.skip(p6 as int));
        let (size, p7) = match read_entry_u64(input, p6) {
            Ok(x) => x,
            Err(e) => {
                return Err(e);
            },
        };
        Ok(
            (
                ArchiveEntryHeader {
                    kind,
                    path,
                    mode,
                    uid: VariableSizedU32(uid),
                    gid: VariableSizedU32(gid),
                    mtime: VariableSizedU64(mtime),
                    size: VariableSizedU64(size),
                },
                p7,
            ),
        )
    }
}

} // verus!

verus! {

/// An archive header that a reader accepts reads back as itself from its
/// bytes, whatever follows them.
pub proof fn lemma_archive_header_round_trip(h: ArchiveHeaderView, rest: Seq<u8>)
    requires
        archive_header_valid(h),
        text_bytes(h.compression).len() <= u16::MAX,
    ensures
        archive_header_parse(archive_header_wire(h) + rest) == Ok::<(ArchiveHeaderView, nat), ArchiveError>(
            (h, archive_header_wire(h).len()),
        ),
{
    lemma_auto_spec_u32_to_from_le_bytes();
    lemma_auto_spec_u16_to_from_le_bytes();
    encode_utf8_valid_utf8(h.compression);
    encode_utf8_decode_utf8(h.compression);
    let name = text_bytes(h.compression);
    let n = name.len() as int;
    let w = archive_header_wire(h);
    let s = w + rest;
    assert(s.subrange(0, 4) =~= spec_u32_to_le_bytes(h.version));
    assert(s.subrange(4, 6) =~= spec_u16_to_le_bytes(n as u16));
    assert(s.subrange(6, 6 + n) =~= name);
    assert(s.subrange(6 + n, 6 + n + 4) =~= spec_u32_to_le_bytes(h.compression_chunk_size));
}

#[verifier::rlimit(50)]
proof fn lemma_entry_tail_round_trip(
    s: Seq<u8>,
    p: nat,
    h: ArchiveEntryHeaderView,
    rest: Seq<u8>,
)
    requires
        p <= s.len(),
        s.skip(p as int) == spec_u32_to_le_bytes(h.mode) + varint_wire(h.uid as nat) + varint_wire(
            h.gid as nat,
        ) + varint_wire(h.mtime as nat) + varint_wire(h.size as nat) + rest,
    ensures
        entry_tail_parse(s, p, h.kind, h.path) == Ok::<(ArchiveEntryHeaderView, nat), ArchiveError>(
            (h, (s.len() - rest.len()) as nat),
        ),
{
    lemma_auto_spec_u32_to_from_le_bytes();
    let m = spec_u32_to_le_bytes(h.mode);
    let vu = varint_wire(h.uid as nat);
    let vg = varint_wire(h.gid as nat);
    let vm = varint_wire(h.mtime as nat);
    let vs = varint_wire(h.size as nat);
    let p3 = p + 4;
    let p4 = p3 + vu.len();
    let p5 = p4 + vg.len();
    let p6 = p5 + vm.len();
    assert(s.subrange(p as int, p3 as int) =~= m) by {
        assert(s.subrange(p as int, p3 as int) =~= s.skip(p as int).take(4));
    }
    assert(s.skip(p3 as int) =~= vu + (vg + vm + vs + rest)) by {
        assert(s.skip(p3 as int) =~= s.skip(p as int).skip(4));
    }
    lemma_varint_round_trip(h.uid as nat, vg + vm + vs + rest);
    assert(s.skip(p4 as int) =~= vg + (vm + vs + rest)) by {
        assert(s.skip(p4 as int) =~= s.skip(p3 as int).skip(vu.len() as int));
    }
    lemma_varint_round_trip(h.gid as nat, vm + vs + rest);
    assert(s.skip(p5 as int) =~= vm + (vs + rest)) by {
        assert(s.skip(p5 as int) =~= s.skip(p4 as int).skip(vg.len() as int));
    }
    lemma_varint_round_trip(h.mtime as nat, vs + rest);
    assert(s.skip(p6 as int) =~= vs + rest) by {
        assert(s.skip(p6 as int) =~= s.skip(p5 as int).skip(vm.len() as int));
    }
    lemma_varint_round_trip(h.size as nat, rest);
}

/// An entry header whose path length fits its field reads back as itself from
/// its bytes, whatever follows them.
#[verifier::rlimit(50)]
pub proof fn lemma_entry_header_round_trip(h: ArchiveEntryHeaderView, rest: Seq<u8>)
    requires
        text_bytes(h.path).len() <= u64::MAX,
    ensures
        entry_header_parse(entry_header_wire(h) + rest) == Ok::<(ArchiveEntryHeaderView, nat), ArchiveError>(
            (h, entry_header_wire(h).len()),
        ),
{
    encode_utf8_valid_utf8(h.path);
    encode_utf8_decode_utf8(h.path);
    let path = text_bytes(h.path);
    let w = entry_header_wire(h);
    let s = w + rest;
    let v1 = varint_wire(path.len());
    let tail = spec_u32_to_le_bytes(h.mode) + varint_wire(h.uid as nat) + varint_wire(h.gid as nat)
        + varint_wire(h.mtime as nat) + varint_wire(h.size as nat);
    assert(w =~= seq![entry_tag(h.kind)] + v1 + path + tail);
    let p1 = 1 + v1.len();
    let p2 = p1 + path.len();
    assert(s[0] == entry_tag(h.kind));
    assert(tag_entry_type(entry_tag(h.kind)) == Some(h.kind));
    assert(s.skip(1) =~= v1 + (path + tail + rest));
    lemma_varint_round_trip(path.len(), path + tail + rest);
    assert(s.subrange(p1 as int, p2 as int) =~= path);
    assert(s.skip(p2 as int) =~= tail + rest);
    lemma_entry_tail_round_trip(s, p2, h, rest);
}

} // verus!

verus! {

/// The fields after the path, cut short: the read meets the end of the input.
#[verifier::rlimit(100)]
proof fn lemma_entry_tail_cut(s: Seq<u8>, p: nat, h: ArchiveEntryHeaderView)
    requires
        p <= s.len(),
        ({
            let t = spec_u32_to_le_bytes(h.mode) + varint_wire(h.uid as nat) + varint_wire(h.gid as nat)
                + varint_wire(h.mtime as nat) + varint_wire(h.size as nat);
            &&& s.len() - p < t.len()
            &&& s.skip(p as int) == t.take(s.len() - p)
        }),
    ensures
        entry_tail_parse(s, p, h.kind, h.path) == Err::<(ArchiveEntryHeaderView, nat), ArchiveError>(
            ArchiveError::TruncatedEntry,
        ),
{
    lemma_auto_spec_u32_to_from_le_bytes();
    let m = spec_u32_to_le_bytes(h.mode);
    let vu = varint_wire(h.uid as nat);
    let vg = varint_wire(h.gid as nat);
    let vm = varint_wire(h.mtime as nat);
    let vs = varint_wire(h.size as nat);
    let t = m + vu + vg + vm + vs;
    let j = (s.len() - p) as nat;
    lemma_varint_wire_widths(h.uid as nat);
    lemma_varint_wire_widths(h.gid as nat);
    lemma_varint_wire_widths(h.mtime as nat);
    lemma_varint_wire_widths(h.size as nat);
    if j >= 4 {
        let p3 = p + 4;
        let j3 = (j - 4) as nat;
        assert(m.len() == 4);
        assert(t =~= m + (vu + (vg + vm + vs)));
        assert(s.skip(p3 as int) =~= s.skip(p as int).skip(4));
        assert(t.take(j as int).skip(4) =~= (vu + (vg + vm + vs)).take(j3 as int));
        assert(s.skip(p3 as int) =~= (vu + (vg + vm + vs)).take(j3 as int));
        lemma_varint_cut(h.uid as nat, vg + vm + vs, j3, 5);
        if j3 >= vu.len() {
            let p4 = p3 + vu.len();
            let j4 = (j3 - vu.len()) as nat;
            assert(s.skip(p4 as int) =~= s.skip(p3 as int).skip(vu.len() as int));
            assert((vu + (vg + vm + vs)).take(j3 as int).skip(vu.len() as int) =~= (vg + (vm + vs)).take(j4 as int));
            assert(s.skip(p4 as int) =~= (vg + (vm + vs)).take(j4 as int));
            lemma_varint_cut(h.gid as nat, vm + vs, j4, 5);
            if j4 >= vg.len() {
                let p5 = p4 + vg.len();
                let j5 = (j4 - vg.len()) as nat;
                assert(s.skip(p5 as int) =~= s.skip(p4 as int).skip(vg.len() as int));
                assert((vg + (vm + vs)).take(j4 as int).skip(vg.len() as int) =~= (vm + vs).take(j5 as int));
                assert(s.skip(p5 as int) =~= (vm + vs).take(j5 as int));
                lemma_varint_cut(h.mtime as nat, vs, j5, 10);
                if j5 >= vm.len() {
                    let p6 = p5 + vm.len();
                    let j6 = (j5 - vm.len()) as nat;
                    assert(s.skip(p6 as int) =~= s.skip(p5 as int).skip(vm.len() as int));
                    assert((vm + vs).take(j5 as int).skip(vm.len() as int) =~= (vs + Seq::<u8>::empty()).take(
                        j6 as int,
                    ));
                    assert(s.skip(p6 as int) =~= (vs + Seq::<u8>::empty()).take(j6 as int));
                    lemma_varint_cut(h.size as nat, Seq::<u8>::empty(), j6, 10);
                }
            }
        }
    }
}

/// An entry header cut anywhere after its first byte and before its end
/// reads as a truncated entry.
#[verifier::rlimit(100)]
pub proof fn lemma_entry_header_cut(h: ArchiveEntryHeaderView, k: nat)
    requires
        text_bytes(h.path).len() <= u64::MAX,
        0 < k < entry_header_wire(h).len(),
    ensures
        entry_header_parse(entry_header_wire(h).take(k as int)) == Err::<(ArchiveEntryHeaderView, nat), ArchiveError>(
            ArchiveError::TruncatedEntry,
        ),
{
    encode_utf8_valid_utf8(h.path);
    encode_utf8_decode_utf8(h.path);
    let path = text_bytes(h.path);
    let w = entry_header_wire(h);
    let s = w.take(k as int);
    let v1 = varint_wire(path.len());
    let tail = spec_u32_to_le_bytes(h.mode) + varint_wire(h.uid as nat) + varint_wire(h.gid as nat)
        + varint_wire(h.mtime as nat) + varint_wire(h.size as nat);
    assert(w =~= seq![entry_tag(h.kind)] + v1 + path + tail);
    assert(s[0] == entry_tag(h.kind));
    assert(tag_entry_type(entry_tag(h.kind)) == Some(h.kind));
    lemma_varint_wire_widths(path.len());
    assert(s.skip(1) =~= (v1 + (path + tail)).take(k - 1));
    lemma_varint_cut(path.len(), path + tail, (k - 1) as nat, 10);
    if k - 1 >= v1.len() {
        let p1 = 1 + v1.len();
        let p2 = p1 + path.len();
        if k >= p2 {
            assert(s.subrange(p1 as int, p2 as int) =~= path);
            assert(s.skip(p2 as int) =~= tail.take(k - p2));
            lemma_entry_tail_cut(s, p2, h);
        }
    }
}

} // verus!

verus! {

/// The codec names are short ASCII: their bytes are their characters.
pub proof fn lemma_known_name_bytes(name: Seq<char>)
    requires
        known_compression(name),
    ensures
        text_bytes(name).len() == name.len() <= 6,
{
    reveal_strlit("none");
    reveal_strlit("flate2");
    reveal_strlit("brotli");
    reveal_strlit("lz4");
    assert(vstd::utf8::is_ascii_chars(name)) by {
        assert forall|i: int| 0 <= i < name.len() implies '\0' <= #[trigger] name[i] <= '\u{7f}' by {
            if name == "none"@ {
                assert(name[i] == 'n' || name[i] == 'o' || name[i] == 'e');
            } else if name == "flate2"@ {
                assert(name[i] == 'f' || name[i] == 'l' || name[i] == 'a' || name[i] == 't' || name[i] == 'e'
                    || name[i] == '2');
            } else if name == "brotli"@ {
                assert(name[i] == 'b' || name[i] == 'r' || name[i] == 'o' || name[i] == 't' || name[i] == 'l'
                    || name[i] == 'i');
            } else {
                assert(name[i] == 'l' || name[i] == 'z' || name[i] == '4');
            }
        }
    }
    vstd::utf8::is_ascii_chars_encode_utf8(name);
}

} // verus!
