//! Little-endian encoding of fixed-width integers into byte sequences.
use vstd::prelude::*;

verus! {

/// The eight little-endian bytes of `v`.
pub open spec fn u64_le_bytes(v: u64) -> Seq<u8> {
    seq![
        (v & 0xff) as u8,
        ((v >> 8u64) & 0xff) as u8,
        ((v >> 16u64) & 0xff) as u8,
        ((v >> 24u64) & 0xff) as u8,
        ((v >> 32u64) & 0xff) as u8,
        ((v >> 40u64) & 0xff) as u8,
        ((v >> 48u64) & 0xff) as u8,
        ((v >> 56u64) & 0xff) as u8,
    ]
}

/// The value of the eight little-endian bytes `b[0..8]`.
pub open spec fn u64_from_le(b: Seq<u8>) -> u64 {
    (b[0] as u64) | ((b[1] as u64) << 8u64) | ((b[2] as u64) << 16u64) | ((b[3] as u64) << 24u64)
        | ((b[4] as u64) << 32u64) | ((b[5] as u64) << 40u64) | ((b[6] as u64) << 48u64) | ((
    b[7] as u64) << 56u64)
}

/// The four little-endian bytes of `v`.
pub open spec fn u32_le_bytes(v: u32) -> Seq<u8> {
    seq![
        (v & 0xff) as u8,
        ((v >> 8u32) & 0xff) as u8,
        ((v >> 16u32) & 0xff) as u8,
        ((v >> 24u32) & 0xff) as u8,
    ]
}

/// The value of the four little-endian bytes `b[0..4]`.
pub open spec fn u32_from_le(b: Seq<u8>) -> u32 {
    (b[0] as u32) | ((b[1] as u32) << 8u32) | ((b[2] as u32) << 16u32) | ((b[3] as u32) << 24u32)
}

/// Reading back the bytes of a `u64` gives the `u64`.
pub proof fn lemma_u64_le_roundtrip(v: u64)
    ensures
        u64_from_le(u64_le_bytes(v)) == v,
        u64_le_bytes(v).len() == 8,
{
    let b0 = v & 0xff;
    let b1 = (v >> 8u64) & 0xff;
    let b2 = (v >> 16u64) & 0xff;
    let b3 = (v >> 24u64) & 0xff;
    let b4 = (v >> 32u64) & 0xff;
    let b5 = (v >> 40u64) & 0xff;
    let b6 = (v >> 48u64) & 0xff;
    let b7 = (v >> 56u64) & 0xff;
    assert(v & 0xff < 256 && (v >> 8u64) & 0xff < 256 && (v >> 16u64) & 0xff < 256 && (v >> 24u64)
        & 0xff < 256 && (v >> 32u64) & 0xff < 256 && (v >> 40u64) & 0xff < 256 && (v >> 48u64) & 0xff
        < 256 && (v >> 56u64) & 0xff < 256) by (bit_vector);
    assert(b0 | (b1 << 8u64) | (b2 << 16u64) | (b3 << 24u64) | (b4 << 32u64) | (b5 << 40u64) | (b6
        << 48u64) | (b7 << 56u64) == v) by (bit_vector)
        requires
            b0 == v & 0xff,
            b1 == (v >> 8u64) & 0xff,
            b2 == (v >> 16u64) & 0xff,
            b3 == (v >> 24u64) & 0xff,
            b4 == (v >> 32u64) & 0xff,
            b5 == (v >> 40u64) & 0xff,
            b6 == (v >> 48u64) & 0xff,
            b7 == (v >> 56u64) & 0xff,
    ;
}

/// Reading back the bytes of a `u32` gives the `u32`.
pub proof fn lemma_u32_le_roundtrip(v: u32)
    ensures
        u32_from_le(u32_le_bytes(v)) == v,
        u32_le_bytes(v).len() == 4,
{
    let b0 = v & 0xff;
    let b1 = (v >> 8u32) & 0xff;
    let b2 = (v >> 16u32) & 0xff;
    let b3 = (v >> 24u32) & 0xff;
    assert(v & 0xff < 256 && (v >> 8u32) & 0xff < 256 && (v >> 16u32) & 0xff < 256 && (v >> 24u32)
        & 0xff < 256) by (bit_vector);
    assert(b0 | (b1 << 8u32) | (b2 << 16u32) | (b3 << 24u32) == v) by (bit_vector)
        requires
            b0 == v & 0xff,
            b1 == (v >> 8u32) & 0xff,
            b2 == (v >> 16u32) & 0xff,
            b3 == (v >> 24u32) & 0xff,
    ;
}

/// The `i`-th byte of a `u64`'s little-endian bytes is the `i`-th base-256
/// digit of the value, least significant first.
pub proof fn lemma_u64_le_bytes_digits(v: u64)
    ensures
        u64_le_bytes(v).len() == 8,
        u64_le_bytes(v)[0] as int == v as int % 0x100,
        u64_le_bytes(v)[1] as int == v as int / 0x100 % 0x100,
        u64_le_bytes(v)[2] as int == v as int / 0x1_0000 % 0x100,
        u64_le_bytes(v)[3] as int == v as int / 0x100_0000 % 0x100,
        u64_le_bytes(v)[4] as int == v as int / 0x1_0000_0000 % 0x100,
        u64_le_bytes(v)[5] as int == v as int / 0x100_0000_0000 % 0x100,
        u64_le_bytes(v)[6] as int == v as int / 0x1_0000_0000_0000 % 0x100,
        u64_le_bytes(v)[7] as int == v as int / 0x100_0000_0000_0000 % 0x100,
{
    assert(v & 0xff == v % 0x100 && (v >> 8u64) & 0xff == v / 0x100 % 0x100 && (v >> 16u64) & 0xff
        == v / 0x1_0000 % 0x100 && (v >> 24u64) & 0xff == v / 0x100_0000 % 0x100 && (v >> 32u64)
        & 0xff == v / 0x1_0000_0000 % 0x100 && (v >> 40u64) & 0xff == v / 0x100_0000_0000 % 0x100
        && (v >> 48u64) & 0xff == v / 0x1_0000_0000_0000 % 0x100 && (v >> 56u64) & 0xff == v
        / 0x100_0000_0000_0000 % 0x100) by (bit_vector);
}

/// The value of eight little-endian bytes is the sum of each byte times
/// 256 to the power of its position.
pub proof fn lemma_u64_from_le_value(b: Seq<u8>)
    requires
        b.len() >= 8,
    ensures
        u64_from_le(b) as int == b[0] + 0x100 * b[1] + 0x1_0000 * b[2] + 0x100_0000 * b[3]
            + 0x1_0000_0000 * b[4] + 0x100_0000_0000 * b[5] + 0x1_0000_0000_0000 * b[6]
            + 0x100_0000_0000_0000 * b[7],
{
    let b0 = b[0] as u64;
    let b1 = b[1] as u64;
    let b2 = b[2] as u64;
    let b3 = b[3] as u64;
    let b4 = b[4] as u64;
    let b5 = b[5] as u64;
    let b6 = b[6] as u64;
    let b7 = b[7] as u64;
    assert(b0 | (b1 << 8u64) | (b2 << 16u64) | (b3 << 24u64) | (b4 << 32u64) | (b5 << 40u64) | (b6
        << 48u64) | (b7 << 56u64) == b0 + 0x100 * b1 + 0x1_0000 * b2 + 0x100_0000 * b3
        + 0x1_0000_0000 * b4 + 0x100_0000_0000 * b5 + 0x1_0000_0000_0000 * b6
        + 0x100_0000_0000_0000 * b7) by (bit_vector)
        requires
            b0 < 0x100,
            b1 < 0x100,
            b2 < 0x100,
            b3 < 0x100,
            b4 < 0x100,
            b5 < 0x100,
            b6 < 0x100,
            b7 < 0x100,
    ;
}

/// The `i`-th byte of a `u32`'s little-endian bytes is the `i`-th base-256
/// digit of the value, least significant first.
pub proof fn lemma_u32_le_bytes_digits(v: u32)
    ensures
        u32_le_bytes(v).len() == 4,
        u32_le_bytes(v)[0] as int == v as int % 0x100,
        u32_le_bytes(v)[1] as int == v as int / 0x100 % 0x100,
        u32_le_bytes(v)[2] as int == v as int / 0x1_0000 % 0x100,
        u32_le_bytes(v)[3] as int == v as int / 0x100_0000 % 0x100,
{
    assert(v & 0xff == v % 0x100 && (v >> 8u32) & 0xff == v / 0x100 % 0x100 && (v >> 16u32) & 0xff
        == v / 0x1_0000 % 0x100 && (v >> 24u32) & 0xff == v / 0x100_0000 % 0x100) by (bit_vector);
}

/// The value of four little-endian bytes is the sum of each byte times 256
/// to the power of its position.
pub proof fn lemma_u32_from_le_value(b: Seq<u8>)
    requires
        b.len() >= 4,
    ensures
        u32_from_le(b) as int == b[0] + 0x100 * b[1] + 0x1_0000 * b[2] + 0x100_0000 * b[3],
{
    let b0 = b[0] as u32;
    let b1 = b[1] as u32;
    let b2 = b[2] as u32;
    let b3 = b[3] as u32;
    assert(b0 | (b1 << 8u32) | (b2 << 16u32) | (b3 << 24u32) == b0 + 0x100 * b1 + 0x1_0000 * b2
        + 0x100_0000 * b3) by (bit_vector)
        requires
            b0 < 0x100,
            b1 < 0x100,
            b2 < 0x100,
            b3 < 0x100,
    ;
}

/// Reads the little-endian `u64` at `buf[at..at + 8]`.
pub fn read_u64_le(buf: &[u8], at: usize) -> (v: u64)
    requires
        at + 8 <= buf@.len(),
    ensures
        v == u64_from_le(buf@.subrange(at as int, at + 8)),
{
    (buf[at] as u64) | ((buf[at + 1] as u64) << 8u64) | ((buf[at + 2] as u64) << 16u64) | ((buf[at
        + 3] as u64) << 24u64) | ((buf[at + 4] as u64) << 32u64) | ((buf[at + 5] as u64) << 40u64)
        | ((buf[at + 6] as u64) << 48u64) | ((buf[at + 7] as u64) << 56u64)
}

/// Reads the little-endian `u32` at `buf[at..at + 4]`.
pub fn read_u32_le(buf: &[u8], at: usize) -> (v: u32)
    requires
        at + 4 <= buf@.len(),
    ensures
        v == u32_from_le(buf@.subrange(at as int, at + 4)),
{
    (buf[at] as u32) | ((buf[at + 1] as u32) << 8u32) | ((buf[at + 2] as u32) << 16u32) | ((buf[at
        + 3] as u32) << 24u32)
}

/// Writes the little-endian bytes of `v` to `buf[at..at + 8]`.
pub fn write_u64_le(buf: &mut [u8], at: usize, v: u64)
    requires
        at + 8 <= old(buf)@.len(),
    ensures
        final(buf)@ == old(buf)@.subrange(0, at as int) + u64_le_bytes(v) + old(buf)@.subrange(
            at + 8,
            old(buf)@.len() as int,
        ),
{
    buf[at] = (v & 0xff) as u8;
    buf[at + 1] = ((v >> 8u64) & 0xff) as u8;
    buf[at + 2] = ((v >> 16u64) & 0xff) as u8;
    buf[at + 3] = ((v >> 24u64) & 0xff) as u8;
    buf[at + 4] = ((v >> 32u64) & 0xff) as u8;
    buf[at + 5] = ((v >> 40u64) & 0xff) as u8;
    buf[at + 6] = ((v >> 48u64) & 0xff) as u8;
    buf[at + 7] = ((v >> 56u64) & 0xff) as u8;
    assert(buf@ =~= old(buf)@.subrange(0, at as int) + u64_le_bytes(v) + old(buf)@.subrange(
        at + 8,
        old(buf)@.len() as int,
    ));
}

/// Writes the little-endian bytes of `v` to `buf[at..at + 4]`.
pub fn write_u32_le(buf: &mut [u8], at: usize, v: u32)
    requires
        at + 4 <= old(buf)@.len(),
    ensures
        final(buf)@ == old(buf)@.subrange(0, at as int) + u32_le_bytes(v) + old(buf)@.subrange(
            at + 4,
            old(buf)@.len() as int,
        ),
{
    buf[at] = (v & 0xff) as u8;
    buf[at + 1] = ((v >> 8u32) & 0xff) as u8;
    buf[at + 2] = ((v >> 16u32) & 0xff) as u8;
    buf[at + 3] = ((v >> 24u32) & 0xff) as u8;
    assert(buf@ =~= old(buf)@.subrange(0, at as int) + u32_le_bytes(v) + old(buf)@.subrange(
        at + 4,
        old(buf)@.len() as int,
    ));
}

/// Whether two byte strings are equal.
pub fn bytes_equal(a: &[u8], b: &[u8]) -> (equal: bool)
    ensures
        equal == (a@ == b@),
{
    if a.len() != b.len() {
        return false;
    }
    let mut i: usize = 0;
    while i < a.len()
        invariant
            a@.len() == b@.len(),
            i <= a@.len(),
            forall|j: int| 0 <= j < i ==> a@[j] == b@[j],
        decreases a@.len() - i,
    {
        if a[i] != b[i] {
            return false;
        }
        i = i + 1;
    }
    assert(a@ =~= b@);
    true
}

} // verus!
