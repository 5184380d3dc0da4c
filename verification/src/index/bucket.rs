//! Hash buckets: seven one-word entries, each a 15-bit tag and a 47-bit
//! address (zero when the entry is empty), and a control word whose low 48
//! bits hold one more than the index of the bucket's overflow bucket, or
//! zero when it has none.
use crate::address::{is_valid_raw, Address, INVALID_RAW, MAX_LOG_ADDRESS};
use vstd::prelude::*;

verus! {

/// Entries in one bucket.
pub const ENTRIES_PER_BUCKET: usize = 7;

/// The address bits of an entry.
pub const ADDRESS_MASK: u64 = 0x7fff_ffff_ffff;

/// The tag bits of an entry, once shifted down.
pub const TAG_MASK: u64 = 0x7fff;

/// The overflow bits of a bucket's control word.
pub const OVERFLOW_MASK: u64 = 0xffff_ffff_ffff;

/// The tag held by the entry word `raw`.
pub open spec fn entry_tag(raw: u64) -> u16 {
    ((raw >> 48u64) & TAG_MASK) as u16
}

/// The address held by the entry word `raw`.
pub open spec fn entry_address(raw: u64) -> u64 {
    raw & ADDRESS_MASK
}

/// The entry word for `tag` and `address`.
pub open spec fn entry_word(tag: u16, address: u64) -> u64 {
    ((tag as u64) << 48u64) | address
}

/// Whether the entry word `raw` is in use and holds `tag`.
pub open spec fn entry_matches(raw: u64, tag: u16) -> bool {
    raw != 0 && entry_tag(raw) == tag
}

/// An entry word holds the tag and address it was made of, and is not empty.
pub proof fn lemma_entry_word(tag: u16, address: u64)
    requires
        tag <= TAG_MASK,
        is_valid_raw(address),
        address != INVALID_RAW,
    ensures
        entry_tag(entry_word(tag, address)) == tag,
        entry_address(entry_word(tag, address)) == address,
        entry_word(tag, address) != 0,
{
    let t = tag as u64;
    assert(address <= MAX_LOG_ADDRESS);
    assert((((t << 48u64) | address) >> 48u64) & 0x7fffu64 == t && ((t << 48u64) | address)
        & 0x7fff_ffff_ffffu64 == address && ((t << 48u64) | address) != 0) by (bit_vector)
        requires
            t <= 0x7fffu64,
            address <= 0x7fff_ffff_ffffu64,
            address != 0,
    ;
}

/// An entry word's tag is its bits 48..63 and its address its low 47 bits;
/// the word for a tag and an address is the tag times 2^48 plus the address.
pub proof fn lemma_entry_layout(raw: u64, tag: u16, address: u64)
    ensures
        entry_tag(raw) as int == raw as int / 0x1_0000_0000_0000 % 0x8000,
        entry_address(raw) as int == raw as int % 0x8000_0000_0000,
        tag <= TAG_MASK && address < 0x8000_0000_0000 ==> entry_word(tag, address) as int == tag
            as int * 0x1_0000_0000_0000 + address as int,
{
    let t = tag as u64;
    assert(((raw >> 48u64) & 0x7fffu64) as u16 as u64 == raw / 0x1_0000_0000_0000u64 % 0x8000u64
        && raw & 0x7fff_ffff_ffffu64 == raw % 0x8000_0000_0000u64) by (bit_vector);
    if tag <= TAG_MASK && address < 0x8000_0000_0000 {
        assert((t << 48u64) | address == t * 0x1_0000_0000_0000u64 + address) by (bit_vector)
            requires
                t <= 0x7fffu64,
                address < 0x8000_0000_0000u64,
        ;
    }
}

/// A control word links to no overflow bucket when its low 48 bits are
/// zero, and otherwise to the bucket whose index is one less than them.
pub proof fn lemma_control_layout(control: u64)
    ensures
        control_overflow(control) == if control as int % 0x1_0000_0000_0000 == 0 {
            None
        } else {
            Some((control as int % 0x1_0000_0000_0000 - 1) as usize)
        },
{
    assert(control & 0xffff_ffff_ffffu64 == control % 0x1_0000_0000_0000u64) by (bit_vector);
}

/// One entry of a bucket.
#[derive(Clone, Copy, Debug, PartialEq, Eq, Structural)]
pub struct HashEntry(u64);

impl HashEntry {
    #[verifier::type_invariant]
    spec fn well_formed(self) -> bool {
        &&& is_valid_raw(entry_address(self.0))
        &&& self.0 != 0 ==> entry_address(self.0) != INVALID_RAW
    }

    /// The raw word.
    pub closed spec fn raw(self) -> u64 {
        self.0
    }

    /// The address bits.
    pub const ADDRESS_MASK: u64 = ADDRESS_MASK;

    /// The position of the tag bits.
    pub const TAG_SHIFT: u64 = 48;

    /// The tag bits, once shifted down.
    pub const TAG_MASK: u64 = TAG_MASK;

    /// The empty entry.
    pub fn empty() -> (entry: HashEntry)
        ensures
            entry.raw() == 0,
    {
        proof {
            assert(0u64 & 0x7fff_ffff_ffffu64 == 0) by (bit_vector);
        }
        HashEntry(0)
    }

    /// The entry for `tag` and `address`, which must fit in the tag bits and
    /// must not be the invalid address.
    pub fn new(tag: u16, address: Address) -> (entry: HashEntry)
        requires
            tag <= TAG_MASK,
            address.raw() != INVALID_RAW,
        ensures
            entry.raw() == entry_word(tag, address.raw()),
            entry_tag(entry.raw()) == tag,
            entry_address(entry.raw()) == address.raw(),
            entry.raw() != 0,
    {
        let raw = address.as_raw();
        proof {
            lemma_entry_word(tag, raw);
        }
        HashEntry(((tag as u64) << 48u64) | raw)
    }

    /// Whether the entry is empty.
    pub fn is_empty(self) -> (b: bool)
        ensures
            b == (self.raw() == 0),
    {
        self.0 == 0
    }

    /// The entry's tag.
    pub fn tag(self) -> (tag: u16)
        ensures
            tag == entry_tag(self.raw()),
    {
        proof {
            let raw = self.0;
            assert((raw >> 48u64) & 0x7fffu64 <= 0x7fffu64) by (bit_vector);
        }
        ((self.0 >> 48u64) & TAG_MASK) as u16
    }

    /// The entry's address.
    pub fn address(self) -> (address: Address)
        ensures
            address.raw() == entry_address(self.raw()),
            self.raw() != 0 ==> address.raw() != INVALID_RAW,
    {
        proof {
            use_type_invariant(&self);
        }
        Address::from_raw(self.0 & ADDRESS_MASK)
    }
}

/// The overflow bucket index held by the control word `control`.
pub open spec fn control_overflow(control: u64) -> Option<usize> {
    if control & OVERFLOW_MASK == 0 {
        None
    } else {
        Some(((control & OVERFLOW_MASK) - 1) as usize)
    }
}

/// Whether slot `k` of `entries` is the first that holds `tag`.
pub open spec fn is_first_match(entries: Seq<u64>, tag: u16, k: int) -> bool {
    &&& 0 <= k < entries.len()
    &&& entry_matches(entries[k], tag)
    &&& forall|j: int| 0 <= j < k ==> !entry_matches(#[trigger] entries[j], tag)
}

/// Whether slot `k` of `entries` is the first empty one.
pub open spec fn is_first_empty(entries: Seq<u64>, k: int) -> bool {
    &&& 0 <= k < entries.len()
    &&& entries[k] == 0
    &&& forall|j: int| 0 <= j < k ==> #[trigger] entries[j] != 0
}

/// The address that `entries` hold for `tag`: that of the first entry in
/// use with that tag.
pub open spec fn entries_lookup(entries: Seq<u64>, tag: u16) -> Option<u64> {
    if exists|k: int| is_first_match(entries, tag, k) {
        Some(entry_address(entries[choose|k: int| is_first_match(entries, tag, k)]))
    } else {
        None
    }
}

/// Whether `entries` can take an entry for `tag`: one of them holds the tag
/// already, or one is empty.
pub open spec fn entries_have_room(entries: Seq<u64>, tag: u16) -> bool {
    (exists|k: int| is_first_match(entries, tag, k)) || (exists|k: int| is_first_empty(entries, k))
}

/// The entries after storing `word` for `tag`: in the first entry in use with
/// that tag, else in the first empty entry; `None` when neither exists.
pub open spec fn entries_update(entries: Seq<u64>, tag: u16, word: u64) -> Option<Seq<u64>> {
    if exists|k: int| is_first_match(entries, tag, k) {
        Some(entries.update(choose|k: int| is_first_match(entries, tag, k), word))
    } else if exists|k: int| is_first_empty(entries, k) {
        Some(entries.update(choose|k: int| is_first_empty(entries, k), word))
    } else {
        None
    }
}

/// Storing an entry for `tag` makes a lookup of `tag` find it, and changes no
/// lookup of another tag.
pub proof fn lemma_entries_update(entries: Seq<u64>, tag: u16, address: u64)
    requires
        tag <= TAG_MASK,
        is_valid_raw(address),
        address != INVALID_RAW,
        entries_update(entries, tag, entry_word(tag, address)) is Some,
    ensures
        ({
            let updated = entries_update(entries, tag, entry_word(tag, address))->0;
            &&& updated.len() == entries.len()
            &&& entries_lookup(updated, tag) == Some(address)
            &&& forall|t: u16| t != tag ==> entries_lookup(updated, t) == entries_lookup(entries, t)
        }),
{
    let word = entry_word(tag, address);
    lemma_entry_word(tag, address);
    let k = if exists|k: int| is_first_match(entries, tag, k) {
        choose|k: int| is_first_match(entries, tag, k)
    } else {
        choose|k: int| is_first_empty(entries, k)
    };
    let updated = entries.update(k, word);
    assert(updated == entries_update(entries, tag, word)->0);
    if !exists|k: int| is_first_match(entries, tag, k) {
        lemma_no_first_match_no_match(entries, tag);
    }
    assert(is_first_match(updated, tag, k));
    lemma_first_match_unique(updated, tag);
    assert forall|t: u16| t != tag implies entries_lookup(updated, t) == entries_lookup(entries, t) by {
        assert forall|j: int| is_first_match(updated, t, j) <==> is_first_match(entries, t, j) by {
            if 0 <= j < entries.len() {
                assert(forall|i: int| 0 <= i < entries.len() && i != k ==> updated[i] == entries[i]);
                assert(!entry_matches(updated[k], t));
                assert(!entry_matches(entries[k], t));
            }
        }
    }
}

/// When no slot is the first to hold `tag`, no slot holds it.
pub proof fn lemma_no_first_match_no_match(entries: Seq<u64>, tag: u16)
    requires
        !exists|k: int| is_first_match(entries, tag, k),
    ensures
        forall|j: int| 0 <= j < entries.len() ==> !entry_matches(#[trigger] entries[j], tag),
{
    assert forall|j: int| 0 <= j < entries.len() implies !entry_matches(#[trigger] entries[j], tag) by {
        if entry_matches(entries[j], tag) {
            lemma_first_match_exists(entries, tag, j);
        }
    }
}

/// When some slot holds `tag`, some slot is the first to hold it.
pub proof fn lemma_first_match_exists(entries: Seq<u64>, tag: u16, j: int)
    requires
        0 <= j < entries.len(),
        entry_matches(entries[j], tag),
    ensures
        exists|k: int| is_first_match(entries, tag, k),
    decreases j,
{
    if exists|i: int| 0 <= i < j && entry_matches(entries[i], tag) {
        let i = choose|i: int| 0 <= i < j && entry_matches(entries[i], tag);
        lemma_first_match_exists(entries, tag, i);
    } else {
        assert(is_first_match(entries, tag, j));
    }
}

/// At most one slot is the first to hold a tag.
pub proof fn lemma_first_match_unique(entries: Seq<u64>, tag: u16)
    ensures
        forall|i: int, j: int|
            is_first_match(entries, tag, i) && is_first_match(entries, tag, j) ==> i == j,
{
    assert forall|i: int, j: int|
        is_first_match(entries, tag, i) && is_first_match(entries, tag, j) implies i == j by {
        if i < j {
            assert(!entry_matches(entries[i], tag));
        } else if j < i {
            assert(!entry_matches(entries[j], tag));
        }
    }
}

/// What a bucket lookup found.
#[derive(Debug, PartialEq, Eq, Structural)]
pub enum BucketLookup {
    Found(Address),
    FollowOverflow(usize),
    Missing,
}

/// What a bucket update did.
#[derive(Debug, PartialEq, Eq, Structural)]
pub enum BucketUpdate {
    Complete,
    FollowOverflow(usize),
    NeedsOverflow,
}

/// A bucket of the hash index.
#[derive(Clone, Copy)]
pub struct Bucket {
    entries: [HashEntry; 7],
    control: u64,
}

impl Bucket {
    /// The raw words of the entries.
    pub closed spec fn entries(self) -> Seq<u64> {
        self.entries@.map_values(|e: HashEntry| e.raw())
    }

    /// The index of the bucket's overflow bucket, if it has one.
    pub closed spec fn overflow_spec(self) -> Option<usize> {
        control_overflow(self.control)
    }

    /// The address that the bucket holds for `tag`, if any.
    pub open spec fn lookup_spec(self, tag: u16) -> Option<u64> {
        entries_lookup(self.entries(), tag)
    }

    /// An empty bucket: all entries empty, no overflow bucket.
    pub fn new() -> (bucket: Bucket)
        ensures
            bucket.entries() == Seq::new(ENTRIES_PER_BUCKET as nat, |i: int| 0u64),
            bucket.overflow_spec() is None,
            forall|tag: u16| #[trigger] bucket.lookup_spec(tag) is None,
    {
        let e = HashEntry::empty();
        let bucket = Bucket { entries: [e, e, e, e, e, e, e], control: 0 };
        proof {
            assert(bucket.entries() =~= Seq::new(ENTRIES_PER_BUCKET as nat, |i: int| 0u64));
            assert(0u64 & 0xffff_ffff_ffffu64 == 0) by (bit_vector);
        }
        bucket
    }

    /// A bucket whose first entry holds `tag` and `address` and which has no
    /// overflow bucket.
    pub fn with_entry(tag: u16, address: Address) -> (bucket: Bucket)
        requires
            tag <= TAG_MASK,
            address.raw() != INVALID_RAW,
        ensures
            bucket.entries() == Seq::new(ENTRIES_PER_BUCKET as nat, |i: int| 0u64).update(
                0,
                entry_word(tag, address.raw()),
            ),
            bucket.overflow_spec() is None,
            bucket.lookup_spec(tag) == Some(address.raw()),
            forall|t: u16| t != tag ==> #[trigger] bucket.lookup_spec(t) is None,
    {
        let mut bucket = Self::new();
        bucket.entries[0] = HashEntry::new(tag, address);
        proof {
            assert(bucket.entries() =~= Seq::new(ENTRIES_PER_BUCKET as nat, |i: int| 0u64).update(
                0,
                entry_word(tag, address.raw()),
            ));
            assert(is_first_match(bucket.entries(), tag, 0));
            lemma_first_match_unique(bucket.entries(), tag);
            assert forall|t: u16| t != tag implies #[trigger] bucket.lookup_spec(t) is None by {
                if exists|k: int| is_first_match(bucket.entries(), t, k) {
                    let k = choose|k: int| is_first_match(bucket.entries(), t, k);
                    assert(k == 0);
                }
            }
        }
        bucket
    }

    /// The index of the bucket's overflow bucket, if it has one.
    pub fn overflow(&self) -> (index: Option<usize>)
        ensures
            index == self.overflow_spec(),
    {
        let encoded = self.control & OVERFLOW_MASK;
        match encoded.checked_sub(1) {
            Some(index) => Some(index as usize),
            None => None,
        }
    }

    /// Links the bucket to the overflow bucket at `index`.
    pub fn set_overflow(&mut self, index: usize)
        requires
            index + 1 <= OVERFLOW_MASK,
        ensures
            final(self).entries() == old(self).entries(),
            final(self).overflow_spec() == Some(index),
    {
        let encoded = index as u64 + 1;
        let control = self.control;
        proof {
            assert(((control & !0xffff_ffff_ffffu64) | encoded) & 0xffff_ffff_ffffu64 == encoded)
                by (bit_vector)
                requires
                    encoded <= 0xffff_ffff_ffffu64,
            ;
        }
        self.control = (self.control & !OVERFLOW_MASK) | encoded;
    }

    /// Stores `address` for `tag`: in the first entry with that tag, else in
    /// the first empty entry (`Complete`); when every entry is in use by
    /// other tags, leaves the bucket unchanged and reports its overflow
    /// bucket, or that it needs one.
    pub fn update(&mut self, tag: u16, address: Address) -> (result: BucketUpdate)
        requires
            entries_have_room(old(self).entries(), tag) ==> tag <= TAG_MASK && address.raw()
                != INVALID_RAW,
        ensures
            final(self).overflow_spec() == old(self).overflow_spec(),
            ({
                let updated = entries_update(old(self).entries(), tag, entry_word(tag, address.raw()));
                match result {
                    BucketUpdate::Complete => updated is Some && final(self).entries()
                        == updated->0,
                    BucketUpdate::FollowOverflow(index) => updated is None && *final(self)
                        == *old(self) && old(self).overflow_spec() == Some(index),
                    BucketUpdate::NeedsOverflow => updated is None && *final(self) == *old(self)
                        && old(self).overflow_spec() is None,
                }
            }),
    {
        let ghost entries = self.entries();
        let ghost word = entry_word(tag, address.raw());
        let mut i: usize = 0;
        while i < ENTRIES_PER_BUCKET
            invariant
                *self == *old(self),
                entries == self.entries(),
                entries.len() == ENTRIES_PER_BUCKET,
                word == entry_word(tag, address.raw()),
                entries_have_room(entries, tag) ==> tag <= TAG_MASK && address.raw() != INVALID_RAW,
                i <= ENTRIES_PER_BUCKET,
                forall|j: int| 0 <= j < i ==> !entry_matches(#[trigger] entries[j], tag),
            decreases ENTRIES_PER_BUCKET - i,
        {
            let entry = self.entries[i];
            if !entry.is_empty() && entry.tag() == tag {
                assert(is_first_match(entries, tag, i as int));
                self.entries[i] = HashEntry::new(tag, address);
                proof {
                    lemma_first_match_unique(entries, tag);
                    assert(self.entries() =~= entries.update(i as int, word));
                }
                return BucketUpdate::Complete;
            }
            i = i + 1;
        }
        assert(!exists|k: int| is_first_match(entries, tag, k));
        let mut i: usize = 0;
        while i < ENTRIES_PER_BUCKET
            invariant
                *self == *old(self),
                entries == self.entries(),
                entries.len() == ENTRIES_PER_BUCKET,
                word == entry_word(tag, address.raw()),
                entries_have_room(entries, tag) ==> tag <= TAG_MASK && address.raw() != INVALID_RAW,
                i <= ENTRIES_PER_BUCKET,
                forall|j: int| 0 <= j < i ==> #[trigger] entries[j] != 0,
                forall|j: int| 0 <= j < ENTRIES_PER_BUCKET ==> !entry_matches(#[trigger] entries[j], tag),
                !exists|k: int| is_first_match(entries, tag, k),
            decreases ENTRIES_PER_BUCKET - i,
        {
            if self.entries[i].is_empty() {
                assert(is_first_empty(entries, i as int));
                self.entries[i] = HashEntry::new(tag, address);
                proof {
                    assert forall|a: int, b: int|
                        is_first_empty(entries, a) && is_first_empty(entries, b) implies a == b by {
                        if a < b {
                            assert(entries[a] != 0);
                        } else if b < a {
                            assert(entries[b] != 0);
                        }
                    }
                    assert(self.entries() =~= entries.update(i as int, word));
                }
                return BucketUpdate::Complete;
            }
            i = i + 1;
        }
        assert(!exists|k: int| is_first_empty(entries, k));
        match self.overflow() {
            Some(index) => BucketUpdate::FollowOverflow(index),
            None => BucketUpdate::NeedsOverflow,
        }
    }

    /// Finds the address for `tag`: that of the first entry in use with that
    /// tag; else the bucket's overflow bucket, or that there is none.
    pub fn lookup(&self, tag: u16) -> (result: BucketLookup)
        ensures
            match result {
                BucketLookup::Found(address) => self.lookup_spec(tag) == Some(address.raw())
                    && address.raw() != INVALID_RAW,
                BucketLookup::FollowOverflow(index) => self.lookup_spec(tag) is None
                    && self.overflow_spec() == Some(index),
                BucketLookup::Missing => self.lookup_spec(tag) is None
                    && self.overflow_spec() is None,
            },
    {
        let ghost entries = self.entries();
        let mut i: usize = 0;
        while i < ENTRIES_PER_BUCKET
            invariant
                entries == self.entries(),
                entries.len() == ENTRIES_PER_BUCKET,
                i <= ENTRIES_PER_BUCKET,
                forall|j: int| 0 <= j < i ==> !entry_matches(#[trigger] entries[j], tag),
            decreases ENTRIES_PER_BUCKET - i,
        {
            let entry = self.entries[i];
            if !entry.is_empty() && entry.tag() == tag {
                proof {
                    assert(is_first_match(entries, tag, i as int));
                    lemma_first_match_unique(entries, tag);
                    use_type_invariant(&entry);
                }
                return BucketLookup::Found(entry.address());
            }
            i = i + 1;
        }
        assert(!exists|k: int| is_first_match(entries, tag, k));
        match self.overflow() {
            Some(index) => BucketLookup::FollowOverflow(index),
            None => BucketLookup::Missing,
        }
    }
}

impl Default for Bucket {
    /// An empty bucket.
    fn default() -> (bucket: Bucket)
        ensures
            bucket.entries() == Seq::new(ENTRIES_PER_BUCKET as nat, |i: int| 0u64),
            bucket.overflow_spec() is None,
    {
        Bucket::new()
    }
}

} // verus!
