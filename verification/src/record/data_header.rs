//! The second header word of a record: whether key and value are stored
//! inline, the key and value lengths, and a count of filler words that follow
//! the padded payload.
use super::{round_up_to_alignment, ALIGNMENT, HEADER_SIZE};
use vstd::prelude::*;

verus! {

/// Bit 0: the key is stored inline.
pub const KEY_INLINE_BIT: u64 = 0x1;

/// Bit 1: the value is stored inline.
pub const VALUE_INLINE_BIT: u64 = 0x2;

/// Bits 6..14: the number of filler words.
pub const FILLER_WORDS_MASK: u64 = 0x3fc0;

/// Bits 14..24: the key length.
pub const KEY_LENGTH_MASK: u64 = 0x00ff_c000;

/// Bits 24..48: the value length.
pub const VALUE_LENGTH_MASK: u64 = 0xffff_ff00_0000;

/// The longest key the header can describe.
pub const MAX_KEY_LENGTH: usize = 1022;

/// The longest value the header can describe.
pub const MAX_VALUE_LENGTH: usize = 16_777_214;

/// The key length held by the data header word `raw`.
pub open spec fn header_key_len(raw: u64) -> u64 {
    (raw & KEY_LENGTH_MASK) >> 14u64
}

/// The value length held by the data header word `raw`.
pub open spec fn header_value_len(raw: u64) -> u64 {
    (raw & VALUE_LENGTH_MASK) >> 24u64
}

/// The number of filler words held by the data header word `raw`.
pub open spec fn header_filler_words(raw: u64) -> u64 {
    (raw & FILLER_WORDS_MASK) >> 6u64
}

/// Whether the data header word `raw` marks the key as inline.
pub open spec fn header_key_is_inline(raw: u64) -> bool {
    raw & KEY_INLINE_BIT != 0
}

/// Whether the data header word `raw` marks the value as inline.
pub open spec fn header_value_is_inline(raw: u64) -> bool {
    raw & VALUE_INLINE_BIT != 0
}

/// The number of bytes that a record with data header word `raw` occupies:
/// the header and payload rounded up to the alignment, then the filler words.
pub open spec fn header_allocated_len(raw: u64) -> nat {
    round_up_to_alignment(
        HEADER_SIZE as nat + header_key_len(raw) as nat + header_value_len(raw) as nat,
    ) + header_filler_words(raw) as nat * ALIGNMENT as nat
}

/// The data header word of a record whose key and value are inline.
pub open spec fn inline_header_word(key_len: u64, value_len: u64) -> u64 {
    KEY_INLINE_BIT | VALUE_INLINE_BIT | (key_len << 14u64) | (value_len << 24u64)
}

/// Every field read from a data header word is within its width.
pub proof fn lemma_header_fields_bounded(raw: u64)
    ensures
        header_key_len(raw) <= 1023,
        header_value_len(raw) <= 16_777_215,
        header_filler_words(raw) <= 255,
{
    assert((raw & 0x00ff_c000u64) >> 14u64 <= 1023u64) by (bit_vector);
    assert((raw & 0xffff_ff00_0000u64) >> 24u64 <= 16_777_215u64) by (bit_vector);
    assert((raw & 0x3fc0u64) >> 6u64 <= 255u64) by (bit_vector);
}

/// An inline data header word holds what it was made of.
pub proof fn lemma_inline_header_word(key_len: u64, value_len: u64)
    requires
        key_len <= MAX_KEY_LENGTH,
        value_len <= MAX_VALUE_LENGTH,
    ensures
        header_key_len(inline_header_word(key_len, value_len)) == key_len,
        header_value_len(inline_header_word(key_len, value_len)) == value_len,
        header_filler_words(inline_header_word(key_len, value_len)) == 0,
        header_key_is_inline(inline_header_word(key_len, value_len)),
        header_value_is_inline(inline_header_word(key_len, value_len)),
{
    assert(((1u64 | 2u64 | (key_len << 14u64) | (value_len << 24u64)) & 0x00ff_c000u64) >> 14u64
        == key_len && ((1u64 | 2u64 | (key_len << 14u64) | (value_len << 24u64))
        & 0xffff_ff00_0000u64) >> 24u64 == value_len && ((1u64 | 2u64 | (key_len << 14u64) | (
    value_len << 24u64)) & 0x3fc0u64) >> 6u64 == 0 && (1u64 | 2u64 | (key_len << 14u64) | (value_len
        << 24u64)) & 1u64 != 0 && (1u64 | 2u64 | (key_len << 14u64) | (value_len << 24u64)) & 2u64
        != 0) by (bit_vector)
        requires
            key_len <= 1022u64,
            value_len <= 16_777_214u64,
    ;
}

/// The key length is bits 14..24 of a data header word, the value length
/// bits 24..48, the filler words bits 6..14, and the inline flags bits 0 and
/// 1; an inline header word is 3 plus the key length times 2^14 plus the
/// value length times 2^24.
pub proof fn lemma_header_layout(raw: u64, key_len: u64, value_len: u64)
    ensures
        header_key_len(raw) as int == raw as int / 0x4000 % 0x400,
        header_value_len(raw) as int == raw as int / 0x100_0000 % 0x100_0000,
        header_filler_words(raw) as int == raw as int / 0x40 % 0x100,
        header_key_is_inline(raw) == (raw as int % 2 == 1),
        header_value_is_inline(raw) == (raw as int / 2 % 2 == 1),
        key_len <= MAX_KEY_LENGTH && value_len <= MAX_VALUE_LENGTH ==> inline_header_word(
            key_len,
            value_len,
        ) as int == 3 + key_len as int * 0x4000 + value_len as int * 0x100_0000,
{
    assert((raw & 0x00ff_c000u64) >> 14u64 == raw / 0x4000u64 % 0x400u64 && (raw
        & 0xffff_ff00_0000u64) >> 24u64 == raw / 0x100_0000u64 % 0x100_0000u64 && (raw & 0x3fc0u64)
        >> 6u64 == raw / 0x40u64 % 0x100u64 && (raw & 1u64 != 0) == (raw % 2 == 1) && (raw & 2u64
        != 0) == (raw / 2 % 2 == 1)) by (bit_vector);
    if key_len <= MAX_KEY_LENGTH && value_len <= MAX_VALUE_LENGTH {
        assert(1u64 | 2u64 | (key_len << 14u64) | (value_len << 24u64) == 3 + key_len * 0x4000u64
            + value_len * 0x100_0000u64) by (bit_vector)
            requires
                key_len <= 1022u64,
                value_len <= 16_777_214u64,
        ;
    }
}

/// The second header word of a record.
#[derive(Clone, Copy, Debug, PartialEq, Eq, Structural)]
pub struct RecordDataHeader(u64);

impl RecordDataHeader {
    /// The raw word.
    pub closed spec fn raw(self) -> u64 {
        self.0
    }

    /// The longest key the header can describe.
    pub const MAX_KEY_LENGTH: usize = MAX_KEY_LENGTH;

    /// The longest value the header can describe.
    pub const MAX_VALUE_LENGTH: usize = MAX_VALUE_LENGTH;

    /// The header of a record with an inline key of `key_len` bytes and an
    /// inline value of `value_len` bytes, and no filler.
    pub fn new_inline(key_len: usize, value_len: usize) -> (header: RecordDataHeader)
        requires
            key_len <= MAX_KEY_LENGTH,
            value_len <= MAX_VALUE_LENGTH,
        ensures
            header.raw() == inline_header_word(key_len as u64, value_len as u64),
            header_key_len(header.raw()) == key_len,
            header_value_len(header.raw()) == value_len,
            header_filler_words(header.raw()) == 0,
            header_key_is_inline(header.raw()),
            header_value_is_inline(header.raw()),
    {
        proof {
            lemma_inline_header_word(key_len as u64, value_len as u64);
        }
        RecordDataHeader(
            KEY_INLINE_BIT | VALUE_INLINE_BIT | ((key_len as u64) << 14u64) | ((value_len as u64)
                << 24u64),
        )
    }

    /// Takes a raw word.
    pub fn from_raw(raw: u64) -> (header: RecordDataHeader)
        ensures
            header.raw() == raw,
    {
        RecordDataHeader(raw)
    }

    /// The raw word.
    pub fn as_raw(self) -> (raw: u64)
        ensures
            raw == self.raw(),
    {
        self.0
    }

    /// Whether the key is stored inline.
    pub fn key_is_inline(self) -> (b: bool)
        ensures
            b == header_key_is_inline(self.raw()),
    {
        self.0 & KEY_INLINE_BIT != 0
    }

    /// Whether the value is stored inline.
    pub fn value_is_inline(self) -> (b: bool)
        ensures
            b == header_value_is_inline(self.raw()),
    {
        self.0 & VALUE_INLINE_BIT != 0
    }

    /// The key length.
    pub fn key_len(self) -> (len: usize)
        ensures
            len == header_key_len(self.raw()),
    {
        proof {
            lemma_header_fields_bounded(self.0);
        }
        ((self.0 & KEY_LENGTH_MASK) >> 14u64) as usize
    }

    /// The value length.
    pub fn value_len(self) -> (len: usize)
        ensures
            len == header_value_len(self.raw()),
    {
        proof {
            lemma_header_fields_bounded(self.0);
        }
        ((self.0 & VALUE_LENGTH_MASK) >> 24u64) as usize
    }

    /// The number of filler words.
    pub fn filler_words(self) -> (words: usize)
        ensures
            words == header_filler_words(self.raw()),
    {
        proof {
            lemma_header_fields_bounded(self.0);
        }
        ((self.0 & FILLER_WORDS_MASK) >> 6u64) as usize
    }

    /// The number of bytes that the record occupies.
    pub fn allocated_len(self) -> (len: usize)
        ensures
            len == header_allocated_len(self.raw()),
    {
        proof {
            lemma_header_fields_bounded(self.0);
        }
        let unaligned = HEADER_SIZE + self.key_len() + self.value_len();
        let aligned = super::round_up(unaligned);
        aligned + self.filler_words() * ALIGNMENT
    }
}

impl Default for RecordDataHeader {
    /// The all-zero word.
    fn default() -> (header: RecordDataHeader)
        ensures
            header.raw() == 0,
    {
        RecordDataHeader(0)
    }
}

} // verus!
