//! The two directions of the wire format, shared by every serialisable type.
use vstd::prelude::*;

use crate::error::ArchiveError;

verus! {

/// A value with a byte representation in the archive.
pub trait Serialize {
    /// Whether the value can be written at all (its lengths fit their fields).
    spec fn writable(&self) -> bool;

    /// The bytes that stand for the value.
    spec fn wire(&self) -> Seq<u8>;

    /// Appends the value's bytes to `output`.
    fn serialize(&self, output: &mut Vec<u8>)
        requires
            self.writable(),
        ensures
            final(output)@ == old(output)@ + self.wire(),
    ;
}

/// A value that can be read back from the front of a byte sequence.
pub trait Deserialize: Sized + View {
    /// The value (as its view) at the front of `s` and the number of bytes it
    /// takes, or the error that reading it meets.
    spec fn parse(s: Seq<u8>) -> Result<(Self::V, nat), ArchiveError>;

    /// Reads the value that starts at `pos`; on success also the position after it.
    fn deserialize(input: &[u8], pos: usize) -> (r: Result<(Self, usize), ArchiveError>)
        requires
            pos <= input@.len(),
        ensures
            parsed_at(r, Self::parse(input@.subrange(pos as int, input@.len() as int)), pos as nat),
            r matches Ok((_, end)) ==> pos <= end <= input@.len(),
    ;
}

/// `r` is what the spec-level result `p` of a read at `pos` becomes in an
/// executable one: a value with that view, and the length turned into the end
/// position.
pub open spec fn parsed_at<T: View>(
    r: Result<(T, usize), ArchiveError>,
    p: Result<(T::V, nat), ArchiveError>,
    pos: nat,
) -> bool {
    match p {
        Ok((v, n)) => match r {
            Ok((x, end)) => x@ == v && end == pos + n,
            Err(_) => false,
        },
        Err(e) => r == Err::<(T, usize), ArchiveError>(e),
    }
}

/// Appends `bytes` to `output`.
pub fn push_bytes(output: &mut Vec<u8>, bytes: &[u8])
    ensures
        final(output)@ == old(output)@ + bytes@,
{
    let mut i: usize = 0;
    while i < bytes.len()
        invariant
            i <= bytes@.len(),
            output@ == old(output)@ + bytes@.take(i as int),
        decreases bytes@.len() - i,
    {
        output.push(bytes[i]);
        assert(bytes@.take(i + 1) =~= bytes@.take(i as int).push(bytes@[i as int]));
        i = i + 1;
    }
    assert(bytes@.take(i as int) =~= bytes@);
}

/// The rest of `s` from `pos` on.
pub open spec fn rest_of(s: Seq<u8>, pos: nat) -> Seq<u8> {
    s.subrange(pos as int, s.len() as int)
}

} // verus!
