//! Records of the log: a two-word header (`RecordInfo` and
//! `RecordDataHeader`), then the key, the value and zero padding up to the
//! record alignment.
use crate::address::{is_valid_raw, Address};
use crate::bytes::{
    lemma_u64_le_bytes_digits, lemma_u64_le_roundtrip, read_u64_le, u64_from_le, u64_le_bytes, write_u64_le,
};
use data_header::{
    header_allocated_len, header_key_is_inline, header_key_len, header_value_is_inline,
    header_value_len, inline_header_word, lemma_header_fields_bounded, lemma_header_layout, lemma_inline_header_word,
    RecordDataHeader, MAX_KEY_LENGTH, MAX_VALUE_LENGTH,
};
use info::{
    info_is_tombstone, info_is_valid, lemma_info_layout, info_previous, info_well_formed, lemma_valid_info_word,
    valid_info_word, RecordInfo,
};
use vstd::arithmetic::power::pow;
use vstd::prelude::*;

pub mod data_header;
pub mod info;

verus! {

/// Bytes in a record header.
pub const HEADER_SIZE: usize = 16;

/// Records start, and are padded, at multiples of this many bytes.
pub const ALIGNMENT: usize = 8;

/// The least multiple of `ALIGNMENT` that is at least `n`.
pub open spec fn round_up_to_alignment(n: nat) -> nat {
    if n % ALIGNMENT as nat == 0 {
        n
    } else {
        (n + (ALIGNMENT - n % ALIGNMENT as nat)) as nat
    }
}

/// Rounds `n` up to a multiple of `ALIGNMENT`.
pub fn round_up(n: usize) -> (r: usize)
    requires
        n + ALIGNMENT <= usize::MAX,
    ensures
        r == round_up_to_alignment(n as nat),
        r % ALIGNMENT == 0,
        n <= r < n + ALIGNMENT,
{
    let rem = n % ALIGNMENT;
    if rem == 0 {
        n
    } else {
        n + (ALIGNMENT - rem)
    }
}

/// What a record says: the previous address in its chain, whether it is a
/// tombstone, its key and its value.
pub struct RecordModel {
    pub previous: u64,
    pub tombstone: bool,
    pub key: Seq<u8>,
    pub value: Seq<u8>,
}

/// Whether a record is a value or a tombstone that deletes its key.
#[derive(Clone, Copy, Debug, PartialEq, Eq, Structural)]
pub enum RecordKind {
    Value,
    Tombstone,
}

/// The number of bytes of a record with the given key and value lengths:
/// header and payload, rounded up to the alignment.
pub open spec fn record_len(key_len: nat, value_len: nat) -> nat {
    round_up_to_alignment(HEADER_SIZE as nat + key_len + value_len)
}

/// The bytes of a valid record: the info word, the inline data header word,
/// the key, the value, and zero bytes up to `record_len`.
pub open spec fn encode_spec(previous: u64, tombstone: bool, key: Seq<u8>, value: Seq<u8>) -> Seq<
    u8,
> {
    let padding = record_len(key.len(), value.len()) - (HEADER_SIZE + key.len() + value.len());
    u64_le_bytes(valid_info_word(previous, tombstone)) + u64_le_bytes(
        inline_header_word(key.len() as u64, value.len() as u64),
    ) + key + value + Seq::new(padding as nat, |i: int| 0u8)
}

/// The info word stored at `buf[offset..offset + 8]`.
pub open spec fn stored_info(buf: Seq<u8>, offset: int) -> u64 {
    u64_from_le(buf.subrange(offset, offset + 8))
}

/// The data header word stored at `buf[offset + 8..offset + 16]`.
pub open spec fn stored_header(buf: Seq<u8>, offset: int) -> u64 {
    u64_from_le(buf.subrange(offset + 8, offset + 16))
}

/// Whether a record can be read at `offset` of `buf`: the offset is aligned,
/// the header lies in the buffer, the info word has no reserved bit and a
/// valid previous address and is marked valid, key and value are inline, and
/// the whole record lies in the buffer.
pub open spec fn decodable(buf: Seq<u8>, offset: int) -> bool {
    let info = stored_info(buf, offset);
    let header = stored_header(buf, offset);
    &&& 0 <= offset
    &&& offset % ALIGNMENT as int == 0
    &&& offset + HEADER_SIZE <= buf.len()
    &&& info_well_formed(info)
    &&& info_is_valid(info)
    &&& header_key_is_inline(header)
    &&& header_value_is_inline(header)
    &&& offset + header_allocated_len(header) <= buf.len()
}

/// The record that `buf` holds at `offset`.
pub open spec fn decode_spec(buf: Seq<u8>, offset: int) -> RecordModel {
    let info = stored_info(buf, offset);
    let header = stored_header(buf, offset);
    let key_start = offset + HEADER_SIZE;
    let value_start = key_start + header_key_len(header);
    RecordModel {
        previous: info_previous(info),
        tombstone: info_is_tombstone(info),
        key: buf.subrange(key_start, value_start),
        value: buf.subrange(value_start, value_start + header_value_len(header)),
    }
}

/// A record as read from a buffer: its two header words, and its key and
/// value as views into the buffer.
#[derive(Clone, Copy, Debug, PartialEq, Eq)]
pub struct RecordRef<'a> {
    info: RecordInfo,
    data_header: RecordDataHeader,
    pub key: &'a [u8],
    pub value: &'a [u8],
}

impl<'a> RecordRef<'a> {
    /// What the record says.
    pub closed spec fn model(self) -> RecordModel {
        RecordModel {
            previous: info_previous(self.info.raw()),
            tombstone: info_is_tombstone(self.info.raw()),
            key: self.key@,
            value: self.value@,
        }
    }

    /// The record's info word.
    pub closed spec fn info_raw(self) -> u64 {
        self.info.raw()
    }

    /// The record's data header word.
    pub closed spec fn header_raw(self) -> u64 {
        self.data_header.raw()
    }

    /// The previous address in the record's chain.
    pub fn previous(self) -> (previous: Address)
        ensures
            previous.raw() == self.model().previous,
    {
        self.info.previous()
    }

    /// Whether the record deletes its key.
    pub fn is_tombstone(self) -> (b: bool)
        ensures
            b == self.model().tombstone,
    {
        self.info.is_tombstone()
    }

    /// The record's key.
    pub fn key(self) -> (key: &'a [u8])
        ensures
            key@ == self.model().key,
    {
        self.key
    }

    /// The record's value.
    pub fn value(self) -> (value: &'a [u8])
        ensures
            value@ == self.model().value,
    {
        self.value
    }
}

/// The number of bytes of a record with a key of `key_len` bytes and a value
/// of `value_len` bytes.
pub fn encoded_len(key_len: usize, value_len: usize) -> (len: usize)
    requires
        key_len <= MAX_KEY_LENGTH,
        value_len <= MAX_VALUE_LENGTH,
    ensures
        len == record_len(key_len as nat, value_len as nat),
        len % ALIGNMENT == 0,
        HEADER_SIZE + key_len + value_len <= len < HEADER_SIZE + key_len + value_len + ALIGNMENT,
{
    RecordDataHeader::new_inline(key_len, value_len).allocated_len()
}

/// Writes a valid record into `destination`, which must be exactly as long
/// as the record. A tombstone carries no value.
pub fn encode(
    destination: &mut [u8],
    previous: Address,
    kind: RecordKind,
    key: &[u8],
    value: &[u8],
)
    requires
        kind == RecordKind::Tombstone ==> value@.len() == 0,
        key@.len() <= MAX_KEY_LENGTH,
        value@.len() <= MAX_VALUE_LENGTH,
        old(destination)@.len() == record_len(key@.len(), value@.len()),
    ensures
        final(destination)@ == encode_spec(
            previous.raw(),
            kind == RecordKind::Tombstone,
            key@,
            value@,
        ),
{
    let tombstone = match kind {
        RecordKind::Value => false,
        RecordKind::Tombstone => true,
    };
    let ghost target = encode_spec(previous.raw(), tombstone, key@, value@);
    let info = RecordInfo::new_valid(previous, tombstone);
    let data_header = RecordDataHeader::new_inline(key.len(), value.len());
    let total = encoded_len(key.len(), value.len());
    write_u64_le(destination, 0, info.as_raw());
    write_u64_le(destination, 8, data_header.as_raw());
    assert(forall|j: int| 0 <= j < HEADER_SIZE ==> destination@[j] == target[j]);
    let key_len = key.len();
    let value_len = value.len();
    let mut i: usize = 0;
    while i < key_len
        invariant
            key_len == key@.len(),
            value_len == value@.len(),
            total == target.len(),
            destination@.len() == total,
            total == record_len(key_len as nat, value_len as nat),
            HEADER_SIZE + key_len + value_len <= total,
            i <= key_len,
            target == encode_spec(previous.raw(), tombstone, key@, value@),
            forall|j: int| 0 <= j < HEADER_SIZE + i ==> destination@[j] == target[j],
        decreases key_len - i,
    {
        destination[HEADER_SIZE + i] = key[i];
        i = i + 1;
    }
    let value_start = HEADER_SIZE + key_len;
    let mut i: usize = 0;
    while i < value_len
        invariant
            key_len == key@.len(),
            value_len == value@.len(),
            value_start == HEADER_SIZE + key_len,
            total == target.len(),
            destination@.len() == total,
            HEADER_SIZE + key_len + value_len <= total,
            i <= value_len,
            target == encode_spec(previous.raw(), tombstone, key@, value@),
            forall|j: int| 0 <= j < value_start + i ==> destination@[j] == target[j],
        decreases value_len - i,
    {
        destination[value_start + i] = value[i];
        i = i + 1;
    }
    let mut p: usize = value_start + value_len;
    while p < total
        invariant
            key_len == key@.len(),
            value_len == value@.len(),
            total == target.len(),
            destination@.len() == total,
            HEADER_SIZE + key_len + value_len <= p <= total,
            target == encode_spec(previous.raw(), tombstone, key@, value@),
            forall|j: int| 0 <= j < p ==> destination@[j] == target[j],
        decreases total - p,
    {
        destination[p] = 0;
        p = p + 1;
    }
    assert(destination@ =~= target);
}

/// Reads the record at `offset` of `buffer`.
pub fn decode(buffer: &[u8], offset: usize) -> (record: RecordRef<'_>)
    requires
        decodable(buffer@, offset as int),
    ensures
        record.model() == decode_spec(buffer@, offset as int),
        record.info_raw() == stored_info(buffer@, offset as int),
        record.header_raw() == stored_header(buffer@, offset as int),
{
    let buffer_len = buffer.len();
    assert(offset + HEADER_SIZE <= buffer_len);
    let info = RecordInfo::from_raw(read_u64_le(buffer, offset));
    let data_header = RecordDataHeader::from_raw(read_u64_le(buffer, offset + 8));
    proof {
        lemma_header_fields_bounded(data_header.raw());
    }
    let key_start = offset + HEADER_SIZE;
    let value_start = key_start + data_header.key_len();
    let value_end = value_start + data_header.value_len();
    let key = &buffer[key_start..value_start];
    let value = &buffer[value_start..value_end];
    RecordRef { info, data_header, key, value }
}

/// Reading back an encoded record gives what was encoded: wherever the
/// bytes of `encode_spec` stand at an aligned offset of a buffer, a record
/// can be read there, it is the record that was encoded, and it occupies
/// `record_len` bytes.
pub proof fn lemma_decode_encode(
    buf: Seq<u8>,
    offset: int,
    previous: u64,
    tombstone: bool,
    key: Seq<u8>,
    value: Seq<u8>,
)
    requires
        0 <= offset,
        offset % ALIGNMENT as int == 0,
        is_valid_raw(previous),
        key.len() <= MAX_KEY_LENGTH,
        value.len() <= MAX_VALUE_LENGTH,
        offset + record_len(key.len(), value.len()) <= buf.len(),
        buf.subrange(offset, offset + record_len(key.len(), value.len())) == encode_spec(
            previous,
            tombstone,
            key,
            value,
        ),
    ensures
        decodable(buf, offset),
        decode_spec(buf, offset) == (RecordModel { previous, tombstone, key, value }),
        header_allocated_len(stored_header(buf, offset)) == record_len(key.len(), value.len()),
{
    let info = valid_info_word(previous, tombstone);
    let header = inline_header_word(key.len() as u64, value.len() as u64);
    let len = record_len(key.len(), value.len());
    let enc = encode_spec(previous, tombstone, key, value);
    lemma_u64_le_roundtrip(info);
    lemma_u64_le_roundtrip(header);
    lemma_valid_info_word(previous, tombstone);
    lemma_inline_header_word(key.len() as u64, value.len() as u64);
    assert(buf.subrange(offset, offset + 8) =~= u64_le_bytes(info)) by {
        assert forall|j: int| 0 <= j < 8 implies buf.subrange(offset, offset + 8)[j] == u64_le_bytes(
            info,
        )[j] by {
            assert(buf.subrange(offset, offset + len)[j] == enc[j]);
        }
    }
    assert(buf.subrange(offset + 8, offset + 16) =~= u64_le_bytes(header)) by {
        assert forall|j: int| 0 <= j < 8 implies buf.subrange(offset + 8, offset + 16)[j]
            == u64_le_bytes(header)[j] by {
            assert(buf.subrange(offset, offset + len)[8 + j] == enc[8 + j]);
        }
    }
    let key_start = offset + HEADER_SIZE;
    let value_start = key_start + key.len();
    assert(buf.subrange(key_start, value_start) =~= key) by {
        assert forall|j: int| 0 <= j < key.len() implies buf.subrange(key_start, value_start)[j]
            == key[j] by {
            assert(buf.subrange(offset, offset + len)[16 + j] == enc[16 + j]);
        }
    }
    assert(buf.subrange(value_start, value_start + value.len()) =~= value) by {
        assert forall|j: int| 0 <= j < value.len() implies buf.subrange(
            value_start,
            value_start + value.len(),
        )[j] == value[j] by {
            assert(buf.subrange(offset, offset + len)[16 + key.len() + j] == enc[16 + key.len()
                + j]);
        }
    }
}

/// Appending bytes after a record leaves it readable, and unchanged.
pub proof fn lemma_decode_prefix(buf: Seq<u8>, extra: Seq<u8>, offset: int)
    requires
        decodable(buf, offset),
    ensures
        decodable(buf + extra, offset),
        decode_spec(buf + extra, offset) == decode_spec(buf, offset),
        stored_header(buf + extra, offset) == stored_header(buf, offset),
{
    let whole = buf + extra;
    lemma_header_fields_bounded(stored_header(buf, offset));
    assert(whole.subrange(offset, offset + 8) =~= buf.subrange(offset, offset + 8));
    assert(whole.subrange(offset + 8, offset + 16) =~= buf.subrange(offset + 8, offset + 16));
    let d = decode_spec(buf, offset);
    let key_start = offset + HEADER_SIZE;
    let value_start = key_start + header_key_len(stored_header(buf, offset));
    let value_end = value_start + header_value_len(stored_header(buf, offset));
    assert(whole.subrange(key_start, value_start) =~= buf.subrange(key_start, value_start));
    assert(whole.subrange(value_start, value_end) =~= buf.subrange(value_start, value_end));
}

/// The layout of a record: bytes 0..8 hold the info word, which is the
/// previous address plus the valid bit (bit 49) and, for a tombstone, bit 48;
/// bytes 8..16 hold the data header word, which has both inline bits set, the
/// key length from bit 14 and the value length from bit 24; each word is
/// stored least significant byte first. Then come the key, the value, and
/// zero bytes up to the next multiple of the alignment.
pub proof fn lemma_encode_layout(previous: u64, tombstone: bool, key: Seq<u8>, value: Seq<u8>)
    requires
        is_valid_raw(previous),
        key.len() <= MAX_KEY_LENGTH,
        value.len() <= MAX_VALUE_LENGTH,
    ensures
        ({
            let b = encode_spec(previous, tombstone, key, value);
            let payload = HEADER_SIZE + key.len() + value.len();
            let info = previous as int + 0x2_0000_0000_0000 + if tombstone {
                0x1_0000_0000_0000int
            } else {
                0int
            };
            let header = 3 + key.len() as int * 0x4000 + value.len() as int * 0x100_0000;
            &&& b.len() as int % ALIGNMENT as int == 0
            &&& payload <= b.len() < payload + ALIGNMENT
            &&& forall|i: int| 0 <= i < 8 ==> #[trigger] b[i] as int == info / pow(256, i as nat) % 0x100
            &&& forall|i: int|
                0 <= i < 8 ==> #[trigger] b[8 + i] as int == header / pow(256, i as nat) % 0x100
            &&& forall|i: int| 0 <= i < key.len() ==> #[trigger] b[16 + i] == key[i]
            &&& forall|i: int|
                0 <= i < value.len() ==> #[trigger] b[16 + key.len() + i] == value[i]
            &&& forall|i: int| payload <= i < b.len() ==> #[trigger] b[i] == 0
        }),
{
    let b = encode_spec(previous, tombstone, key, value);
    let info_word = valid_info_word(previous, tombstone);
    let header_word = inline_header_word(key.len() as u64, value.len() as u64);
    let info = previous as int + 0x2_0000_0000_0000 + if tombstone {
        0x1_0000_0000_0000int
    } else {
        0int
    };
    let header = 3 + key.len() as int * 0x4000 + value.len() as int * 0x100_0000;
    assert(info_word as int == info) by {
        lemma_info_layout(info_word, previous, tombstone);
    }
    assert(header_word as int == header) by {
        lemma_header_layout(header_word, key.len() as u64, value.len() as u64);
    }
    assert(pow(256, 0) == 1 && pow(256, 1) == 0x100 && pow(256, 2) == 0x1_0000 && pow(256, 3)
        == 0x100_0000 && pow(256, 4) == 0x1_0000_0000 && pow(256, 5) == 0x100_0000_0000 && pow(
        256,
        6,
    ) == 0x1_0000_0000_0000 && pow(256, 7) == 0x100_0000_0000_0000) by {
        reveal_with_fuel(pow, 8);
    }
    assert forall|i: int| 0 <= i < 8 implies #[trigger] b[i] as int == info / pow(256, i as nat)
        % 0x100 by {
        lemma_u64_le_bytes_digits(info_word);
        assert(b[i] == u64_le_bytes(info_word)[i]);
    }
    assert forall|i: int| 0 <= i < 8 implies #[trigger] b[8 + i] as int == header / pow(
        256,
        i as nat,
    ) % 0x100 by {
        lemma_u64_le_bytes_digits(header_word);
        assert(b[8 + i] == u64_le_bytes(header_word)[i]);
    }
}

} // verus!
