//! Base-128 little-endian unsigned integers.
use vstd::prelude::*;

use crate::error::ArchiveError;
use crate::wire::{Deserialize, Serialize};

verus! {

/// The bytes of `v`: seven bits per byte, lowest group first, the high bit set
/// on every byte but the last.
pub open spec fn varint_wire(v: nat) -> Seq<u8>
    decreases v,
{
    if v < 128 {
        seq![v as u8]
    } else {
        seq![((v % 128) + 128) as u8] + varint_wire(v / 128)
    }
}

/// Reads one varint from the front of `s`, taking at most `max_bytes` bytes.
/// `Ok((value, length))`; `TruncatedEntry` where `s` ends before the last byte;
/// `MalformedVarint` where the last byte would lie beyond `max_bytes`.
pub open spec fn varint_scan(s: Seq<u8>, max_bytes: nat) -> Result<(nat, nat), ArchiveError>
    decreases max_bytes,
{
    if s.len() == 0 {
        Err(ArchiveError::TruncatedEntry)
    } else if s[0] < 128 {
        Ok((s[0] as nat, 1))
    } else if max_bytes <= 1 {
        Err(ArchiveError::MalformedVarint)
    } else {
        match varint_scan(s.drop_first(), (max_bytes - 1) as nat) {
            Ok((v, n)) => Ok(((s[0] % 128) as nat + 128 * v, n + 1)),
            Err(e) => Err(e),
        }
    }
}

/// A varint of a given width: at most `max_bytes` bytes and a value below `bound`.
pub open spec fn varint_read(s: Seq<u8>, max_bytes: nat, bound: nat) -> Result<(nat, nat), ArchiveError> {
    match varint_scan(s, max_bytes) {
        Ok((v, n)) => if v < bound {
            Ok((v, n))
        } else {
            Err(ArchiveError::MalformedVarint)
        },
        Err(e) => Err(e),
    }
}

/// Groups of a 32-bit varint.
pub const U32_VARINT_BYTES: usize = 5;

/// Groups of a 64-bit varint.
pub const U64_VARINT_BYTES: usize = 10;

pub open spec fn pow128(k: nat) -> nat
    decreases k,
{
    if k == 0 {
        1
    } else {
        128 * pow128((k - 1) as nat)
    }
}

/// The horner value of the 7-bit groups of `s`.
pub open spec fn groups_value(s: Seq<u8>) -> nat
    decreases s.len(),
{
    if s.len() == 0 {
        0
    } else {
        (s[0] % 128) as nat + 128 * groups_value(s.drop_first())
    }
}

proof fn lemma_wire_len_bound(v: nat, k: nat)
    requires
        k >= 1,
        v < pow128(k),
    ensures
        varint_wire(v).len() <= k,
    decreases v,
{
    if v >= 128 {
        assert(k >= 2) by {
            if k <= 1 {
                reveal_with_fuel(pow128, 2);
            }
        }
        assert(v / 128 < pow128((k - 1) as nat));
        lemma_wire_len_bound(v / 128, (k - 1) as nat);
    }
}

/// Encoding ends in a byte with the high bit clear, and only there.
proof fn lemma_wire_shape(v: nat)
    ensures
        varint_wire(v).len() >= 1,
        varint_wire(v).last() < 128,
        v > 0 ==> varint_wire(v).last() != 0,
        forall|i: int| 0 <= i < varint_wire(v).len() - 1 ==> varint_wire(v)[i] >= 128,
    decreases v,
{
    if v >= 128 {
        lemma_wire_shape(v / 128);
        let w = varint_wire(v);
        let t = varint_wire(v / 128);
        assert(w == seq![((v % 128) + 128) as u8] + t);
        assert forall|i: int| 0 <= i < w.len() - 1 implies w[i] >= 128 by {
            if i > 0 {
                assert(w[i] == t[i - 1]);
            }
        }
    }
}

/// Decoding what `varint_wire` wrote gives the value and its length back,
/// whatever follows it.
pub proof fn lemma_varint_scan_wire(v: nat, rest: Seq<u8>, max_bytes: nat)
    requires
        varint_wire(v).len() <= max_bytes,
    ensures
        varint_scan(varint_wire(v) + rest, max_bytes) == Ok::<(nat, nat), ArchiveError>(
            (v, varint_wire(v).len()),
        ),
    decreases v,
{
    let s = varint_wire(v) + rest;
    if v < 128 {
        assert(s[0] == v as u8);
    } else {
        let t = varint_wire(v / 128);
        lemma_wire_shape(v / 128);
        assert(s.drop_first() =~= t + rest);
        lemma_varint_scan_wire(v / 128, rest, (max_bytes - 1) as nat);
        assert(s[0] == ((v % 128) + 128) as u8);
    }
}

/// A 32-bit value takes at most five bytes, a 64-bit value at most ten.
pub proof fn lemma_varint_wire_widths(v: nat)
    ensures
        v < 0x1_0000_0000 ==> varint_wire(v).len() <= 5,
        v < 0x1_0000_0000_0000_0000 ==> varint_wire(v).len() <= 10,
{
    reveal_with_fuel(pow128, 11);
    if v < 0x1_0000_0000 {
        lemma_wire_len_bound(v, 5);
    }
    if v < 0x1_0000_0000_0000_0000 {
        lemma_wire_len_bound(v, 10);
    }
}

} // verus!

verus! {

proof fn lemma_scan_terminal(s: Seq<u8>, m: nat, t: nat)
    requires
        t < s.len(),
        t < m,
        s[t as int] < 128,
        forall|j: int| 0 <= j < t ==> s[j] >= 128,
    ensures
        varint_scan(s, m) == Ok::<(nat, nat), ArchiveError>((groups_value(s.take((t + 1) as int)), t + 1)),
    decreases t,
{
    if t == 0 {
        assert(s.take(1).drop_first() =~= Seq::<u8>::empty());
        assert(s.take(1)[0] == s[0]);
        assert(groups_value(s.take(1).drop_first()) == 0);
        assert(groups_value(s.take(1)) == s[0] as nat);
    } else {
        lemma_scan_terminal(s.drop_first(), (m - 1) as nat, (t - 1) as nat);
        assert(s.take((t + 1) as int).drop_first() =~= s.drop_first().take(t as int));
        assert(s.take((t + 1) as int)[0] == s[0]);
        assert(groups_value(s.take((t + 1) as int)) == (s[0] % 128) as nat + 128 * groups_value(
            s.drop_first().take(t as int),
        ));
    }
}

proof fn lemma_scan_truncated(s: Seq<u8>, m: nat)
    requires
        s.len() < m,
        forall|j: int| 0 <= j < s.len() ==> s[j] >= 128,
    ensures
        varint_scan(s, m) == Err::<(nat, nat), ArchiveError>(ArchiveError::TruncatedEntry),
    decreases s.len(),
{
    if s.len() > 0 {
        lemma_scan_truncated(s.drop_first(), (m - 1) as nat);
    }
}

proof fn lemma_scan_too_long(s: Seq<u8>, m: nat)
    requires
        1 <= m <= s.len(),
        forall|j: int| 0 <= j < m ==> s[j] >= 128,
    ensures
        varint_scan(s, m) == Err::<(nat, nat), ArchiveError>(ArchiveError::MalformedVarint),
    decreases m,
{
    if m > 1 {
        lemma_scan_too_long(s.drop_first(), (m - 1) as nat);
    }
}

proof fn lemma_groups_value_suffix(s: Seq<u8>, a: int, b: int, e: int)
    requires
        0 <= a <= b <= e <= s.len(),
    ensures
        groups_value(s.subrange(a, e)) >= groups_value(s.subrange(b, e)),
    decreases b - a,
{
    if a < b {
        assert(s.subrange(a, e).drop_first() =~= s.subrange(a + 1, e));
        lemma_groups_value_suffix(s, a + 1, b, e);
    }
}

/// Appends the varint bytes of `value`.
pub fn push_varint(value: u64, output: &mut Vec<u8>)
    ensures
        final(output)@ == old(output)@ + varint_wire(value as nat),
{
    let mut v: u64 = value;
    while v >= 128
        invariant
            output@ + varint_wire(v as nat) == old(output)@ + varint_wire(value as nat),
        decreases v,
    {
        let ghost before = output@;
        output.push(((v % 128) + 128) as u8);
        assert(varint_wire(v as nat) == seq![((v % 128) + 128) as u8] + varint_wire((v / 128) as nat));
        assert(output@ + varint_wire((v / 128) as nat) =~= before + varint_wire(v as nat));
        v = v / 128;
    }
    let ghost before = output@;
    output.push(v as u8);
    assert(output@ =~= before + varint_wire(v as nat));
}

/// Reads a varint of at most `max_bytes` bytes that starts at `pos`.
pub fn read_varint(input: &[u8], pos: usize, max_bytes: usize) -> (r: Result<(u64, usize), ArchiveError>)
    requires
        pos <= input@.len(),
        1 <= max_bytes,
    ensures
        match varint_read(input@.subrange(pos as int, input@.len() as int), max_bytes as nat, 0x1_0000_0000_0000_0000) {
            Ok((v, n)) => match r {
                Ok((x, end)) => x as nat == v && end == pos + n && end <= input@.len(),
                Err(_) => false,
            },
            Err(e) => r == Err::<(u64, usize), ArchiveError>(e),
        },
{
    let ghost s = input@.subrange(pos as int, input@.len() as int);
    let mut i: usize = pos;
    while i < input.len() && input[i] >= 128 && i - pos + 1 < max_bytes
        invariant
            pos <= i <= input@.len(),
            i - pos < max_bytes,
            forall|j: int| pos <= j < i ==> input@[j] >= 128,
        decreases input@.len() - i,
    {
        i = i + 1;
    }
    if i == input.len() {
        proof {
            lemma_scan_truncated(s, max_bytes as nat);
        }
        return Err(ArchiveError::TruncatedEntry);
    }
    if input[i] >= 128 {
        proof {
            lemma_scan_too_long(s, max_bytes as nat);
        }
        return Err(ArchiveError::MalformedVarint);
    }
    let t: usize = i;
    proof {
        lemma_scan_terminal(s, max_bytes as nat, (t - pos) as nat);
        assert(s.take((t - pos) + 1) =~= input@.subrange(pos as int, t + 1));
    }
    let mut j: usize = t + 1;
    let mut value: u64 = 0;
    proof {
        assert(input@.subrange(j as int, t + 1) =~= Seq::<u8>::empty());
    }
    while j > pos
        invariant
            pos <= j <= t + 1,
            t < input@.len(),
            value as nat == groups_value(input@.subrange(j as int, t + 1)),
            s == input@.subrange(pos as int, input@.len() as int),
            varint_scan(s, max_bytes as nat) == Ok::<(nat, nat), ArchiveError>(
                (groups_value(input@.subrange(pos as int, t + 1)), (t + 1 - pos) as nat),
            ),
        decreases j,
    {
        j = j - 1;
        let low: u64 = (input[j] % 128) as u64;
        assert(input@.subrange(j as int, t + 1).drop_first() =~= input@.subrange(j + 1, t + 1));
        if value > (u64::MAX - low) / 128 {
            proof {
                assert(value * 128 + low > u64::MAX) by (nonlinear_arith)
                    requires
                        value > (u64::MAX - low) / 128,
                        low < 128,
                ;
                lemma_groups_value_suffix(input@, pos as int, j as int, t + 1);
                assert(groups_value(input@.subrange(j as int, t + 1)) == low + 128 * value);
            }
            return Err(ArchiveError::MalformedVarint);
        }
        assert(value * 128 + low <= u64::MAX) by (nonlinear_arith)
            requires
                value <= (u64::MAX - low) / 128,
                low < 128,
        ;
        value = value * 128 + low;
    }
    Ok((value, t + 1))
}

} // verus!

verus! {

/// An unsigned 32-bit integer stored as a varint of at most five bytes.
#[derive(Clone, Copy, Debug, PartialEq, Eq, Structural)]
pub struct VariableSizedU32(pub u32);

/// An unsigned 64-bit integer stored as a varint of at most ten bytes.
#[derive(Clone, Copy, Debug, PartialEq, Eq, Structural)]
pub struct VariableSizedU64(pub u64);

impl VariableSizedU32 {
    pub fn new(value: u32) -> (r: Self)
        ensures
            r.0 == value,
    {
        VariableSizedU32(value)
    }

    pub fn get(&self) -> (r: u32)
        ensures
            r == self.0,
    {
        self.0
    }
}

impl VariableSizedU64 {
    pub fn new(value: u64) -> (r: Self)
        ensures
            r.0 == value,
    {
        VariableSizedU64(value)
    }

    pub fn get(&self) -> (r: u64)
        ensures
            r == self.0,
    {
        self.0
    }
}

impl View for VariableSizedU32 {
    type V = u32;

    open spec fn view(&self) -> u32 {
        self.0
    }
}

impl View for VariableSizedU64 {
    type V = u64;

    open spec fn view(&self) -> u64 {
        self.0
    }
}

impl Serialize for VariableSizedU32 {
    open spec fn writable(&self) -> bool {
        true
    }

    open spec fn wire(&self) -> Seq<u8> {
        varint_wire(self.0 as nat)
    }

    fn serialize(&self, output: &mut Vec<u8>) {
        push_varint(self.0 as u64, output);
    }
}

impl Serialize for VariableSizedU64 {
    open spec fn writable(&self) -> bool {
        true
    }

    open spec fn wire(&self) -> Seq<u8> {
        varint_wire(self.0 as nat)
    }

    fn serialize(&self, output: &mut Vec<u8>) {
        push_varint(self.0, output);
    }
}

impl Deserialize for VariableSizedU32 {
    /// Any failure, a short input included, is a malformed varint.
    open spec fn parse(s: Seq<u8>) -> Result<(u32, nat), ArchiveError> {
        match varint_read(s, 5, 0x1_0000_0000) {
            Ok((v, n)) => Ok((v as u32, n)),
            Err(_) => Err(ArchiveError::MalformedVarint),
        }
    }

    fn deserialize(input: &[u8], pos: usize) -> (r: Result<(Self, usize), ArchiveError>) {
        match read_varint(input, pos, U32_VARINT_BYTES) {
            Ok((v, end)) => {
                if v <= u32::MAX as u64 {
                    Ok((VariableSizedU32(v as u32), end))
                } else {
                    Err(ArchiveError::MalformedVarint)
                }
            },
            Err(_) => Err(ArchiveError::MalformedVarint),
        }
    }
}

impl Deserialize for VariableSizedU64 {
    /// Any failure, a short input included, is a malformed varint.
    open spec fn parse(s: Seq<u8>) -> Result<(u64, nat), ArchiveError> {
        match varint_read(s, 10, 0x1_0000_0000_0000_0000) {
            Ok((v, n)) => Ok((v as u64, n)),
            Err(_) => Err(ArchiveError::MalformedVarint),
        }
    }

    fn deserialize(input: &[u8], pos: usize) -> (r: Result<(Self, usize), ArchiveError>) {
        match read_varint(input, pos, U64_VARINT_BYTES) {
            Ok((v, end)) => Ok((VariableSizedU64(v), end)),
            Err(_) => Err(ArchiveError::MalformedVarint),
        }
    }
}

/// Reading a varint back from what was written gives the value and its
/// length, whatever follows; a 32-bit value also fits the 64-bit reading.
pub proof fn lemma_varint_round_trip(v: nat, rest: Seq<u8>)
    requires
        v < 0x1_0000_0000_0000_0000,
    ensures
        varint_read(varint_wire(v) + rest, 10, 0x1_0000_0000_0000_0000) == Ok::<(nat, nat), ArchiveError>(
            (v, varint_wire(v).len()),
        ),
        v < 0x1_0000_0000 ==> varint_read(varint_wire(v) + rest, 5, 0x1_0000_0000) == Ok::<
            (nat, nat),
            ArchiveError,
        >((v, varint_wire(v).len())),
{
    lemma_varint_wire_widths(v);
    lemma_varint_scan_wire(v, rest, 10);
    if v < 0x1_0000_0000 {
        lemma_varint_scan_wire(v, rest, 5);
    }
}

/// Both varint types read back what they write.
pub proof fn lemma_variable_sized_round_trip(a: VariableSizedU32, b: VariableSizedU64, rest: Seq<u8>)
    ensures
        VariableSizedU32::parse(a.wire() + rest) == Ok::<(u32, nat), ArchiveError>(
            (a@, a.wire().len()),
        ),
        VariableSizedU64::parse(b.wire() + rest) == Ok::<(u64, nat), ArchiveError>(
            (b@, b.wire().len()),
        ),
{
    lemma_varint_round_trip(a.0 as nat, rest);
    lemma_varint_round_trip(b.0 as nat, rest);
}

/// The encoding is minimal: every byte but the last carries the continuation
/// bit, and the last group is zero only for the value zero.
pub proof fn lemma_varint_minimal(v: nat)
    ensures
        varint_wire(v).len() >= 1,
        varint_wire(v).last() < 128,
        v > 0 ==> varint_wire(v).last() != 0,
        forall|i: int| 0 <= i < varint_wire(v).len() - 1 ==> #[trigger] varint_wire(v)[i] >= 128,
{
    lemma_wire_shape(v);
}

/// Five bytes with the continuation bit set are rejected by the 32-bit
/// reading, whatever follows them.
pub proof fn lemma_varint_u32_rejects_long(s: Seq<u8>)
    requires
        s.len() >= 5,
        forall|i: int| 0 <= i < 5 ==> #[trigger] s[i] >= 128,
    ensures
        VariableSizedU32::parse(s) == Err::<(u32, nat), ArchiveError>(
            ArchiveError::MalformedVarint,
        ),
        varint_read(s, 5, 0x1_0000_0000) == Err::<(nat, nat), ArchiveError>(
            ArchiveError::MalformedVarint,
        ),
{
    lemma_scan_too_long(s, 5);
}

} // verus!

verus! {

/// Reading a varint from the bytes written for `v`, cut after `j` bytes:
/// where the cut falls inside the varint the input is short, else the value
/// reads back whole.
pub proof fn lemma_varint_cut(v: nat, rest: Seq<u8>, j: nat, m: nat)
    requires
        varint_wire(v).len() <= m,
        j <= varint_wire(v).len() + rest.len(),
    ensures
        j < varint_wire(v).len() ==> varint_scan((varint_wire(v) + rest).take(j as int), m) == Err::<
            (nat, nat),
            ArchiveError,
        >(ArchiveError::TruncatedEntry),
        j >= varint_wire(v).len() ==> varint_scan((varint_wire(v) + rest).take(j as int), m) == Ok::<
            (nat, nat),
            ArchiveError,
        >((v, varint_wire(v).len())),
{
    let w = varint_wire(v);
    let s = (w + rest).take(j as int);
    if j < w.len() {
        lemma_wire_shape(v);
        assert(s =~= w.take(j as int));
        lemma_scan_truncated(s, m);
    } else {
        assert(s =~= w + rest.take(j - w.len()));
        lemma_varint_scan_wire(v, rest.take(j - w.len()), m);
    }
}

} // verus!

verus! {

/// The encoding of `v` holds `v`: its 7-bit groups, lowest first, weigh to
/// `v`; and it is as short as it can be: `v` needs every one of its groups.
pub proof fn lemma_varint_wire_value(v: nat)
    ensures
        groups_value(varint_wire(v)) == v,
        v < pow128(varint_wire(v).len()),
        varint_wire(v).len() > 1 ==> pow128((varint_wire(v).len() - 1) as nat) <= v,
    decreases v,
{
    let w = varint_wire(v);
    if v < 128 {
        assert(w.drop_first() =~= Seq::<u8>::empty());
        assert(groups_value(w.drop_first()) == 0);
        assert(w[0] == v as u8);
        reveal_with_fuel(pow128, 2);
    } else {
        lemma_varint_wire_value(v / 128);
        assert(v % 128 + 128 * (v / 128) == v);
        assert((((v % 128) + 128) as u8) % 128 == v % 128);
        let t = varint_wire(v / 128);
        assert(w.drop_first() =~= t);
        assert(w[0] == ((v % 128) + 128) as u8);
        assert(pow128(w.len()) == 128 * pow128(t.len()));
        assert(pow128((w.len() - 1) as nat) == pow128(t.len()));
        if t.len() > 1 {
            assert(pow128((w.len() - 1) as nat) == 128 * pow128((t.len() - 1) as nat));
        } else {
            assert(pow128(0) == 1);
        }
    }
}

} // verus!
