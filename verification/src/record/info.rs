//! The first header word of a record: the previous address in the record's
//! chain (low 48 bits), a tombstone bit, a valid bit, and reserved high bits
//! that must be zero.
use crate::address::{is_valid_raw, Address};
use vstd::prelude::*;

verus! {

/// Low 48 bits: the previous address.
pub const PREVIOUS_ADDRESS_MASK: u64 = 0x0000_ffff_ffff_ffff;

/// Bit 48: the record deletes its key.
pub const TOMBSTONE_BIT: u64 = 0x0001_0000_0000_0000;

/// Bit 49: the record has been fully written.
pub const VALID_BIT: u64 = 0x0002_0000_0000_0000;

/// Bits 53 and up must be zero.
pub const RESERVED_MASK: u64 = 0xffe0_0000_0000_0000;

/// Whether `raw` can be a record info word: no reserved bit set, and the
/// previous address is a valid address.
pub open spec fn info_well_formed(raw: u64) -> bool {
    raw & RESERVED_MASK == 0 && is_valid_raw(raw & PREVIOUS_ADDRESS_MASK)
}

/// The previous address held by the info word `raw`.
pub open spec fn info_previous(raw: u64) -> u64 {
    raw & PREVIOUS_ADDRESS_MASK
}

/// Whether the info word `raw` has its tombstone bit set.
pub open spec fn info_is_tombstone(raw: u64) -> bool {
    raw & TOMBSTONE_BIT != 0
}

/// Whether the info word `raw` has its valid bit set.
pub open spec fn info_is_valid(raw: u64) -> bool {
    raw & VALID_BIT != 0
}

/// The info word of a valid record with the given previous address.
pub open spec fn valid_info_word(previous: u64, tombstone: bool) -> u64 {
    if tombstone {
        previous | VALID_BIT | TOMBSTONE_BIT
    } else {
        previous | VALID_BIT
    }
}

/// A valid info word holds what it was made of.
pub proof fn lemma_valid_info_word(previous: u64, tombstone: bool)
    requires
        is_valid_raw(previous),
    ensures
        info_well_formed(valid_info_word(previous, tombstone)),
        info_previous(valid_info_word(previous, tombstone)) == previous,
        info_is_valid(valid_info_word(previous, tombstone)),
        info_is_tombstone(valid_info_word(previous, tombstone)) == tombstone,
{
    assert(previous <= 0x7fff_ffff_ffffu64);
    if tombstone {
        assert(((previous | 0x0002_0000_0000_0000u64 | 0x0001_0000_0000_0000u64)
            & 0xffe0_0000_0000_0000u64 == 0) && ((previous | 0x0002_0000_0000_0000u64
            | 0x0001_0000_0000_0000u64) & 0x0000_ffff_ffff_ffffu64 == previous) && ((previous
            | 0x0002_0000_0000_0000u64 | 0x0001_0000_0000_0000u64) & 0x0002_0000_0000_0000u64 != 0)
            && ((previous | 0x0002_0000_0000_0000u64 | 0x0001_0000_0000_0000u64)
            & 0x0001_0000_0000_0000u64 != 0)) by (bit_vector)
            requires
                previous <= 0x7fff_ffff_ffffu64,
        ;
    } else {
        assert(((previous | 0x0002_0000_0000_0000u64) & 0xffe0_0000_0000_0000u64 == 0) && ((previous
            | 0x0002_0000_0000_0000u64) & 0x0000_ffff_ffff_ffffu64 == previous) && ((previous
            | 0x0002_0000_0000_0000u64) & 0x0002_0000_0000_0000u64 != 0) && ((previous
            | 0x0002_0000_0000_0000u64) & 0x0001_0000_0000_0000u64 == 0)) by (bit_vector)
            requires
                previous <= 0x7fff_ffff_ffffu64,
        ;
    }
}

/// The previous address is the info word's low 48 bits, the tombstone bit
/// is bit 48, the valid bit is bit 49, and the reserved bits are those from
/// 53 up; a valid info word is the previous address plus 2^49, plus 2^48 for
/// a tombstone.
pub proof fn lemma_info_layout(raw: u64, previous: u64, tombstone: bool)
    ensures
        info_previous(raw) as int == raw as int % 0x1_0000_0000_0000,
        info_is_tombstone(raw) == (raw as int / 0x1_0000_0000_0000 % 2 == 1),
        info_is_valid(raw) == (raw as int / 0x2_0000_0000_0000 % 2 == 1),
        info_well_formed(raw) == (raw < 0x20_0000_0000_0000 && is_valid_raw(
            (raw as int % 0x1_0000_0000_0000) as u64,
        )),
        is_valid_raw(previous) ==> valid_info_word(previous, tombstone) as int == previous as int
            + 0x2_0000_0000_0000 + if tombstone {
            0x1_0000_0000_0000int
        } else {
            0int
        },
{
    assert(raw & 0x0000_ffff_ffff_ffffu64 == raw % 0x1_0000_0000_0000u64 && (raw
        & 0x0001_0000_0000_0000u64 != 0) == (raw / 0x1_0000_0000_0000u64 % 2 == 1) && (raw
        & 0x0002_0000_0000_0000u64 != 0) == (raw / 0x2_0000_0000_0000u64 % 2 == 1) && (raw
        & 0xffe0_0000_0000_0000u64 == 0) == (raw < 0x20_0000_0000_0000u64)) by (bit_vector);
    if is_valid_raw(previous) {
        assert(previous <= 0x7fff_ffff_ffffu64);
        assert((previous | 0x0002_0000_0000_0000u64) == previous + 0x0002_0000_0000_0000u64 && (
        previous | 0x0002_0000_0000_0000u64 | 0x0001_0000_0000_0000u64) == previous
            + 0x0003_0000_0000_0000u64) by (bit_vector)
            requires
                previous <= 0x7fff_ffff_ffffu64,
        ;
    }
}

/// The first header word of a record.
#[derive(Clone, Copy, Debug, PartialEq, Eq, Structural)]
pub struct RecordInfo(u64);

impl RecordInfo {
    #[verifier::type_invariant]
    spec fn well_formed(self) -> bool {
        info_well_formed(self.0)
    }

    /// The raw word.
    pub closed spec fn raw(self) -> u64 {
        self.0
    }

    /// Low 48 bits: the previous address.
    pub const PREVIOUS_ADDRESS_MASK: u64 = PREVIOUS_ADDRESS_MASK;

    /// The tombstone bit.
    pub const TOMBSTONE_BIT: u64 = TOMBSTONE_BIT;

    /// The valid bit.
    pub const VALID_BIT: u64 = VALID_BIT;

    /// The bits that must be zero.
    pub const RESERVED_MASK: u64 = RESERVED_MASK;

    /// The info word of a valid record whose chain continues at `previous`.
    pub fn new_valid(previous: Address, tombstone: bool) -> (info: RecordInfo)
        ensures
            info.raw() == valid_info_word(previous.raw(), tombstone),
            info_previous(info.raw()) == previous.raw(),
            info_is_valid(info.raw()),
            info_is_tombstone(info.raw()) == tombstone,
    {
        let previous_raw = previous.as_raw();
        proof {
            lemma_valid_info_word(previous_raw, tombstone);
        }
        let mut value = previous_raw | VALID_BIT;
        if tombstone {
            value = value | TOMBSTONE_BIT;
        }
        RecordInfo(value)
    }

    /// Takes a raw word, which must have no reserved bit set and hold a
    /// valid previous address.
    pub fn from_raw(raw: u64) -> (info: RecordInfo)
        requires
            info_well_formed(raw),
        ensures
            info.raw() == raw,
    {
        RecordInfo(raw)
    }

    /// The raw word.
    pub fn as_raw(self) -> (raw: u64)
        ensures
            raw == self.raw(),
            info_well_formed(raw),
    {
        proof {
            use_type_invariant(&self);
        }
        self.0
    }

    /// The previous address in the record's chain.
    pub fn previous(self) -> (previous: Address)
        ensures
            previous.raw() == info_previous(self.raw()),
    {
        proof {
            use_type_invariant(&self);
        }
        Address::from_raw(self.0 & PREVIOUS_ADDRESS_MASK)
    }

    /// Whether the record deletes its key.
    pub fn is_tombstone(self) -> (b: bool)
        ensures
            b == info_is_tombstone(self.raw()),
    {
        self.0 & TOMBSTONE_BIT != 0
    }

    /// Whether the record is valid.
    pub fn is_valid(self) -> (b: bool)
        ensures
            b == info_is_valid(self.raw()),
    {
        self.0 & VALID_BIT != 0
    }
}

impl Default for RecordInfo {
    /// The all-zero word: not valid, no tombstone, no previous address.
    fn default() -> (info: RecordInfo)
        ensures
            info.raw() == 0,
    {
        proof {
            assert(0u64 & 0xffe0_0000_0000_0000u64 == 0 && 0u64 & 0x0000_ffff_ffff_ffffu64 == 0)
                by (bit_vector);
        }
        RecordInfo(0)
    }
}

} // verus!
