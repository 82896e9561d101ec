use vstd::prelude::*;

verus! {

/// What can go wrong while writing or reading an archive.
#[derive(Clone, Copy, Debug, PartialEq, Eq, Structural)]
pub enum ArchiveError {
    /// A header field is invalid: bad UTF-8, an unknown entry tag, a short
    /// archive header, an unsupported version or a chunk size below the minimum.
    MalformedHeader,
    /// A varint needs more groups than its width allows, or does not fit it.
    MalformedVarint,
    /// The archive header names a codec this reader does not know.
    UnsupportedCompression,
    /// The input ended inside an entry.
    TruncatedEntry,
    /// A codec worker failed, a chunk did not decode to its logical size, or
    /// a compressed chunk does not fit the 24-bit frame length.
    CodecFailure,
}

} // verus!
