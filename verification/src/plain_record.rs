//! A plain record layout: a 16-byte header holding the previous address
//! (8 bytes) and the key and value lengths (4 bytes each), all little-endian,
//! then the key, the value and zero padding up to the record alignment.
use crate::address::{is_valid_raw, Address};
use crate::bytes::{
    lemma_u32_le_bytes_digits, lemma_u32_le_roundtrip, lemma_u64_le_bytes_digits,
    lemma_u64_le_roundtrip, read_u32_le, read_u64_le, u32_from_le,
    u32_le_bytes, u64_from_le, u64_le_bytes, write_u32_le, write_u64_le,
};
use crate::record::{round_up, round_up_to_alignment, ALIGNMENT, HEADER_SIZE};
use vstd::arithmetic::power::pow;
use vstd::prelude::*;

verus! {

/// The number of bytes of a plain record with the given key and value
/// lengths: header and payload, rounded up to the alignment.
pub open spec fn plain_record_len(key_len: nat, value_len: nat) -> nat {
    round_up_to_alignment(HEADER_SIZE as nat + key_len + value_len)
}

/// The bytes of a plain record.
pub open spec fn plain_encode_spec(previous: u64, key: Seq<u8>, value: Seq<u8>) -> Seq<u8> {
    let padding = plain_record_len(key.len(), value.len()) - (HEADER_SIZE + key.len()
        + value.len());
    u64_le_bytes(previous) + u32_le_bytes(key.len() as u32) + u32_le_bytes(value.len() as u32)
        + key + value + Seq::new(padding as nat, |i: int| 0u8)
}

/// The previous address stored at `buf[offset..offset + 8]`.
pub open spec fn plain_stored_previous(buf: Seq<u8>, offset: int) -> u64 {
    u64_from_le(buf.subrange(offset, offset + 8))
}

/// The key length stored at `buf[offset + 8..offset + 12]`.
pub open spec fn plain_stored_key_len(buf: Seq<u8>, offset: int) -> u32 {
    u32_from_le(buf.subrange(offset + 8, offset + 12))
}

/// The value length stored at `buf[offset + 12..offset + 16]`.
pub open spec fn plain_stored_value_len(buf: Seq<u8>, offset: int) -> u32 {
    u32_from_le(buf.subrange(offset + 12, offset + 16))
}

/// Whether a plain record can be read at `offset` of `buf`: the offset is
/// aligned, the header lies in the buffer, the previous address is a valid
/// address, and the whole record lies in the buffer.
pub open spec fn plain_decodable(buf: Seq<u8>, offset: int) -> bool {
    &&& 0 <= offset
    &&& offset % ALIGNMENT as int == 0
    &&& offset + HEADER_SIZE <= buf.len()
    &&& is_valid_raw(plain_stored_previous(buf, offset))
    &&& offset + plain_record_len(
        plain_stored_key_len(buf, offset) as nat,
        plain_stored_value_len(buf, offset) as nat,
    ) <= buf.len()
}

/// A plain record as read from a buffer.
#[derive(Clone, Copy, Debug, PartialEq, Eq)]
pub struct RecordRef<'a> {
    pub previous: Address,
    pub key: &'a [u8],
    pub value: &'a [u8],
}

/// The number of bytes of a plain record with a key of `key_len` bytes and a
/// value of `value_len` bytes; each length must fit in 32 bits.
pub fn encoded_len(key_len: usize, value_len: usize) -> (len: usize)
    requires
        key_len <= u32::MAX,
        value_len <= u32::MAX,
        HEADER_SIZE + key_len + value_len + ALIGNMENT <= usize::MAX,
    ensures
        len == plain_record_len(key_len as nat, value_len as nat),
        len % ALIGNMENT == 0,
        HEADER_SIZE + key_len + value_len <= len < HEADER_SIZE + key_len + value_len + ALIGNMENT,
{
    round_up(HEADER_SIZE + key_len + value_len)
}

/// Writes a plain record into `destination`, which must be exactly as long as
/// the record.
pub fn encode(destination: &mut [u8], previous: Address, key: &[u8], value: &[u8])
    requires
        key@.len() <= u32::MAX,
        value@.len() <= u32::MAX,
        old(destination)@.len() == plain_record_len(key@.len(), value@.len()),
    ensures
        final(destination)@ == plain_encode_spec(previous.raw(), key@, value@),
{
    let ghost target = plain_encode_spec(previous.raw(), key@, value@);
    let key_len = key.len();
    let value_len = value.len();
    let total = destination.len();
    write_u64_le(destination, 0, previous.as_raw());
    write_u32_le(destination, 8, key_len as u32);
    write_u32_le(destination, 12, value_len as u32);
    assert(forall|j: int| 0 <= j < HEADER_SIZE ==> destination@[j] == target[j]);
    let mut i: usize = 0;
    while i < key_len
        invariant
            key_len == key@.len(),
            value_len == value@.len(),
            total == target.len(),
            destination@.len() == total,
            total == plain_record_len(key_len as nat, value_len as nat),
            HEADER_SIZE + key_len + value_len <= total,
            i <= key_len,
            target == plain_encode_spec(previous.raw(), key@, value@),
            forall|j: int| 0 <= j < HEADER_SIZE + i ==> destination@[j] == target[j],
        decreases key_len - i,
    {
        destination[HEADER_SIZE + i] = key[i];
        i = i + 1;
    }
    let value_start = HEADER_SIZE + key_len;
    let mut i: usize = 0;
    while i < value_len
        invariant
            key_len == key@.len(),
            value_len == value@.len(),
            value_start == HEADER_SIZE + key_len,
            total == target.len(),
            destination@.len() == total,
            HEADER_SIZE + key_len + value_len <= total,
            i <= value_len,
            target == plain_encode_spec(previous.raw(), key@, value@),
            forall|j: int| 0 <= j < value_start + i ==> destination@[j] == target[j],
        decreases value_len - i,
    {
        destination[value_start + i] = value[i];
        i = i + 1;
    }
    let mut p: usize = value_start + value_len;
    while p < total
        invariant
            key_len == key@.len(),
            value_len == value@.len(),
            total == target.len(),
            destination@.len() == total,
            HEADER_SIZE + key_len + value_len <= p <= total,
            target == plain_encode_spec(previous.raw(), key@, value@),
            forall|j: int| 0 <= j < p ==> destination@[j] == target[j],
        decreases total - p,
    {
        destination[p] = 0;
        p = p + 1;
    }
    assert(destination@ =~= target);
}

/// Reads the plain record at `offset` of `buffer`.
pub fn decode(buffer: &[u8], offset: usize) -> (record: RecordRef<'_>)
    requires
        plain_decodable(buffer@, offset as int),
    ensures
        record.previous.raw() == plain_stored_previous(buffer@, offset as int),
        record.key@ == buffer@.subrange(
            offset + HEADER_SIZE,
            offset + HEADER_SIZE + plain_stored_key_len(buffer@, offset as int),
        ),
        record.value@ == buffer@.subrange(
            offset + HEADER_SIZE + plain_stored_key_len(buffer@, offset as int),
            offset + HEADER_SIZE + plain_stored_key_len(buffer@, offset as int)
                + plain_stored_value_len(buffer@, offset as int),
        ),
{
    let buffer_len = buffer.len();
    assert(offset + HEADER_SIZE <= buffer_len);
    let previous = Address::from_raw(read_u64_le(buffer, offset));
    let key_len = read_u32_le(buffer, offset + 8) as usize;
    let value_len = read_u32_le(buffer, offset + 12) as usize;
    let key_start = offset + HEADER_SIZE;
    let value_start = key_start + key_len;
    let value_end = value_start + value_len;
    let key = &buffer[key_start..value_start];
    let value = &buffer[value_start..value_end];
    RecordRef { previous, key, value }
}

/// Reading back an encoded plain record gives what was encoded.
pub proof fn lemma_plain_decode_encode(
    buf: Seq<u8>,
    offset: int,
    previous: u64,
    key: Seq<u8>,
    value: Seq<u8>,
)
    requires
        0 <= offset,
        offset % ALIGNMENT as int == 0,
        is_valid_raw(previous),
        key.len() <= u32::MAX,
        value.len() <= u32::MAX,
        offset + plain_record_len(key.len(), value.len()) <= buf.len(),
        buf.subrange(offset, offset + plain_record_len(key.len(), value.len()))
            == plain_encode_spec(previous, key, value),
    ensures
        plain_decodable(buf, offset),
        plain_stored_previous(buf, offset) == previous,
        plain_stored_key_len(buf, offset) == key.len(),
        plain_stored_value_len(buf, offset) == value.len(),
        buf.subrange(offset + HEADER_SIZE, offset + HEADER_SIZE + key.len()) == key,
        buf.subrange(
            offset + HEADER_SIZE + key.len(),
            offset + HEADER_SIZE + key.len() + value.len(),
        ) == value,
{
    let len = plain_record_len(key.len(), value.len());
    let enc = plain_encode_spec(previous, key, value);
    lemma_u64_le_roundtrip(previous);
    lemma_u32_le_roundtrip(key.len() as u32);
    lemma_u32_le_roundtrip(value.len() as u32);
    assert(buf.subrange(offset, offset + 8) =~= u64_le_bytes(previous)) by {
        assert forall|j: int| 0 <= j < 8 implies buf.subrange(offset, offset + 8)[j]
            == u64_le_bytes(previous)[j] by {
            assert(buf.subrange(offset, offset + len)[j] == enc[j]);
        }
    }
    assert(buf.subrange(offset + 8, offset + 12) =~= u32_le_bytes(key.len() as u32)) by {
        assert forall|j: int| #![trigger buf.subrange(offset + 8, offset + 12)[j]]
            0 <= j < 4 implies buf.subrange(offset + 8, offset + 12)[j]
            == u32_le_bytes(key.len() as u32)[j] by {
            assert(buf.subrange(offset, offset + len)[8 + j] == enc[8 + j]);
        }
    }
    assert(buf.subrange(offset + 12, offset + 16) =~= u32_le_bytes(value.len() as u32)) by {
        assert forall|j: int| #![trigger buf.subrange(offset + 12, offset + 16)[j]]
            0 <= j < 4 implies buf.subrange(offset + 12, offset + 16)[j]
            == u32_le_bytes(value.len() as u32)[j] by {
            assert(buf.subrange(offset, offset + len)[12 + j] == enc[12 + j]);
        }
    }
    let key_start = offset + HEADER_SIZE;
    let value_start = key_start + key.len();
    assert(buf.subrange(key_start, value_start) =~= key) by {
        assert forall|j: int| 0 <= j < key.len() implies buf.subrange(key_start, value_start)[j]
            == key[j] by {
            assert(buf.subrange(offset, offset + len)[16 + j] == enc[16 + j]);
        }
    }
    assert(buf.subrange(value_start, value_start + value.len()) =~= value) by {
        assert forall|j: int| 0 <= j < value.len() implies buf.subrange(
            value_start,
            value_start + value.len(),
        )[j] == value[j] by {
            assert(buf.subrange(offset, offset + len)[16 + key.len() + j] == enc[16 + key.len()
                + j]);
        }
    }
}

/// The layout of a plain record: the previous address in bytes 0..8 and the
/// key and value lengths in bytes 8..12 and 12..16, each least significant
/// byte first; then the key, the value, and zero bytes up to the next
/// multiple of the alignment.
pub proof fn lemma_plain_encode_layout(previous: u64, key: Seq<u8>, value: Seq<u8>)
    requires
        key.len() <= u32::MAX,
        value.len() <= u32::MAX,
    ensures
        ({
            let b = plain_encode_spec(previous, key, value);
            let payload = HEADER_SIZE + key.len() + value.len();
            &&& b.len() as int % ALIGNMENT as int == 0
            &&& payload <= b.len() < payload + ALIGNMENT
            &&& forall|i: int|
                0 <= i < 8 ==> #[trigger] b[i] as int == previous as int / pow(256, i as nat) % 0x100
            &&& forall|i: int|
                0 <= i < 4 ==> #[trigger] b[8 + i] as int == key.len() as int / pow(256, i as nat) % 0x100
            &&& forall|i: int|
                0 <= i < 4 ==> #[trigger] b[12 + i] as int == value.len() as int / pow(256, i as nat) % 0x100
            &&& forall|i: int| 0 <= i < key.len() ==> #[trigger] b[16 + i] == key[i]
            &&& forall|i: int|
                0 <= i < value.len() ==> #[trigger] b[16 + key.len() + i] == value[i]
            &&& forall|i: int| payload <= i < b.len() ==> #[trigger] b[i] == 0
        }),
{
    let b = plain_encode_spec(previous, key, value);
    let n = HEADER_SIZE + key.len() + value.len();
    let kb = u32_le_bytes(key.len() as u32);
    let vb = u32_le_bytes(value.len() as u32);
    lemma_u64_le_bytes_digits(previous);
    lemma_u32_le_bytes_digits(key.len() as u32);
    lemma_u32_le_bytes_digits(value.len() as u32);
    assert(n % 8 == 0 ==> round_up_to_alignment(n as nat) == n);
    assert(forall|i: int|
        0 <= i < 8 ==> #[trigger] b[i] == u64_le_bytes(previous)[i]);
    assert(forall|i: int| 0 <= i < 4 ==> #[trigger] b[8 + i] == kb[i]);
    assert(forall|i: int| 0 <= i < 4 ==> #[trigger] b[12 + i] == vb[i]);
    reveal_with_fuel(pow, 8);
    assert(pow(256, 0) == 1 && pow(256, 1) == 0x100 && pow(256, 2) == 0x1_0000 && pow(256, 3)
        == 0x100_0000 && pow(256, 4) == 0x1_0000_0000 && pow(256, 5) == 0x100_0000_0000 && pow(
        256,
        6,
    ) == 0x1_0000_0000_0000 && pow(256, 7) == 0x100_0000_0000_0000);
}

} // verus!
