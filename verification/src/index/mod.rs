//! The hash index: a power-of-two number of primary buckets, selected by the
//! low bits of a hash, each the head of a chain of overflow buckets. Within
//! a chain, the 15-bit tag (bits 49 and up of the hash) selects an entry,
//! which holds the address of the newest record whose hash has that bucket
//! and tag.
use crate::address::{is_valid_raw, Address, INVALID_RAW};
use bucket::{
    entries_have_room, entries_update, entry_word, lemma_entries_update, Bucket,
    BucketLookup, BucketUpdate, ENTRIES_PER_BUCKET, OVERFLOW_MASK, TAG_MASK,
};
use vstd::arithmetic::power2::{
    lemma2_to64, lemma2_to64_rest, lemma_pow2_strictly_increases, lemma_pow2_unfold, pow2,
};
use vstd::bits::{lemma_u64_low_bits_mask_is_mod, low_bits_mask};
use vstd::prelude::*;

pub mod bucket;

verus! {

/// The tag of `hash`: its bits 49 and up.
pub open spec fn tag_of(hash: u64) -> u16 {
    (hash >> 49u64) as u16
}

/// Every tag fits in the entries' tag bits.
pub proof fn lemma_tag_bounded(hash: u64)
    ensures
        hash >> 49u64 <= TAG_MASK,
{
    assert(hash >> 49u64 <= 0x7fffu64) by (bit_vector);
}

/// Whether `n` is a power of two.
pub open spec fn is_power_of_two(n: nat) -> bool
    decreases n,
{
    if n == 0 {
        false
    } else if n == 1 {
        true
    } else {
        n % 2 == 0 && is_power_of_two(n / 2)
    }
}

/// The entries of an empty bucket.
pub open spec fn empty_entries() -> Seq<u64> {
    Seq::new(ENTRIES_PER_BUCKET as nat, |i: int| 0u64)
}

/// Whether some bucket of `chain` (each given by its entries) holds `tag` or
/// an empty entry.
pub open spec fn chain_has_room(chain: Seq<Seq<u64>>, tag: u16) -> bool {
    exists|i: int| 0 <= i < chain.len() && entries_have_room(#[trigger] chain[i], tag)
}

/// Whether bucket `i` of `chain` is the first that holds `tag` or an empty
/// entry.
pub open spec fn is_first_room(chain: Seq<Seq<u64>>, tag: u16, i: int) -> bool {
    &&& 0 <= i < chain.len()
    &&& entries_have_room(chain[i], tag)
    &&& forall|j: int| 0 <= j < i ==> !entries_have_room(#[trigger] chain[j], tag)
}

/// The chain after storing the entry word `word` for `tag`: in the first
/// bucket that holds the tag or an empty entry (see `entries_update`), else
/// in a new bucket added at the end, whose first entry it is.
pub open spec fn chain_store(chain: Seq<Seq<u64>>, tag: u16, word: u64) -> Seq<Seq<u64>> {
    if exists|i: int| is_first_room(chain, tag, i) {
        let i = choose|i: int| is_first_room(chain, tag, i);
        chain.update(i, entries_update(chain[i], tag, word)->0)
    } else {
        chain.push(empty_entries().update(0, word))
    }
}

/// The `j`-th location of a walk from primary bucket `bucket` through the
/// overflow buckets `path`.
spec fn path_location(bucket: usize, path: Seq<usize>, j: int) -> BucketLocation {
    if j == 0 {
        BucketLocation::Primary(bucket)
    } else {
        BucketLocation::Overflow(path[j - 1])
    }
}

/// The tag of a hash is the hash divided by 2^49: all of its bits from 49
/// up, none dropped.
pub proof fn lemma_tag_is_high_bits(hash: u64)
    ensures
        tag_of(hash) as int == hash as int / 0x2_0000_0000_0000,
{
    assert(((hash >> 49u64) as u16) as u64 == hash / 0x2_0000_0000_0000u64) by (bit_vector);
}

/// A power of two is `pow2` of some exponent.
pub proof fn lemma_power_of_two_exponent(n: nat) -> (k: nat)
    requires
        is_power_of_two(n),
    ensures
        pow2(k) == n,
    decreases n,
{
    if n == 1 {
        lemma2_to64();
        0
    } else {
        let k = lemma_power_of_two_exponent(n / 2);
        lemma_pow2_unfold(k + 1);
        k + 1
    }
}

/// For a power of two `n`, masking the low bits of `x` with `n - 1` gives
/// `x` modulo `n`.
pub proof fn lemma_mask_is_mod(x: u64, n: usize)
    requires
        is_power_of_two(n as nat),
    ensures
        ((x as usize) & ((n - 1) as usize)) as int == x as int % n as int,
{
    let k = lemma_power_of_two_exponent(n as nat);
    lemma2_to64_rest();
    if k >= 64 {
        if k > 64 {
            lemma_pow2_strictly_increases(64, k);
        }
        assert(false);
    }
    let m: usize = (n - 1) as usize;
    assert((x as usize) & m == ((x & (m as u64)) as usize)) by (bit_vector);
    lemma_u64_low_bits_mask_is_mod(x, k);
    assert(low_bits_mask(k) == m);
    assert(x & (m as u64) == x % (n as u64));
}

/// Where a bucket is stored.
#[derive(Clone, Copy)]
enum BucketLocation {
    Primary(usize),
    Overflow(usize),
}

/// The hash index.
pub struct Index {
    primary: Vec<Bucket>,
    overflow: Vec<Bucket>,
    mask: usize,
    /// For each overflow bucket, the primary bucket whose chain holds it.
    owners: Ghost<Seq<int>>,
}

impl Index {
    /// The number of primary buckets.
    pub closed spec fn bucket_count(self) -> nat {
        self.primary@.len()
    }

    /// The mask that selects a primary bucket from a hash.
    pub closed spec fn bucket_mask(self) -> usize {
        self.mask
    }

    /// The number of overflow buckets.
    pub closed spec fn overflow_count(self) -> nat {
        self.overflow@.len()
    }

    /// The primary bucket of `hash`: its low bits.
    pub open spec fn bucket_of(self, hash: u64) -> usize {
        (hash as usize) & self.bucket_mask()
    }

    /// Whether two hashes select the same entry: the same primary bucket and
    /// the same tag.
    pub open spec fn same_slot(self, a: u64, b: u64) -> bool {
        self.bucket_of(a) == self.bucket_of(b) && tag_of(a) == tag_of(b)
    }

    spec fn bucket_spec(self, location: BucketLocation) -> Bucket {
        match location {
            BucketLocation::Primary(i) => self.primary@[i as int],
            BucketLocation::Overflow(i) => self.overflow@[i as int],
        }
    }

    spec fn location_valid(self, location: BucketLocation) -> bool {
        match location {
            BucketLocation::Primary(i) => i < self.primary@.len(),
            BucketLocation::Overflow(i) => i < self.overflow@.len(),
        }
    }

    spec fn owner_of(self, location: BucketLocation) -> int {
        match location {
            BucketLocation::Primary(i) => i as int,
            BucketLocation::Overflow(i) => self.owners@[i as int],
        }
    }

    spec fn measure(self, location: BucketLocation) -> int {
        match location {
            BucketLocation::Primary(_) => self.overflow@.len() + 1int,
            BucketLocation::Overflow(i) => self.overflow@.len() - i,
        }
    }

    /// Whether a bucket at `location` may link to overflow bucket `next`:
    /// links lead to existing overflow buckets, and from an overflow bucket
    /// only to a later one.
    spec fn link_ok(self, location: BucketLocation, next: usize) -> bool {
        &&& next < self.overflow@.len()
        &&& match location {
            BucketLocation::Primary(_) => true,
            BucketLocation::Overflow(i) => i < next,
        }
    }

    /// The address found for `tag` by walking the chain from `location`.
    spec fn lookup_from(self, location: BucketLocation, tag: u16) -> u64
        decreases self.measure(location),
    {
        let bucket = self.bucket_spec(location);
        match bucket.lookup_spec(tag) {
            Some(address) => address,
            None => match bucket.overflow_spec() {
                Some(next) => if self.link_ok(location, next) {
                    self.lookup_from(BucketLocation::Overflow(next), tag)
                } else {
                    INVALID_RAW
                },
                None => INVALID_RAW,
            },
        }
    }

    /// The entries of the buckets of the chain from `location`, in order.
    spec fn chain_from(self, location: BucketLocation) -> Seq<Seq<u64>>
        decreases self.measure(location),
    {
        let bucket = self.bucket_spec(location);
        let rest = match bucket.overflow_spec() {
            Some(next) => if self.link_ok(location, next) {
                self.chain_from(BucketLocation::Overflow(next))
            } else {
                Seq::empty()
            },
            None => Seq::empty(),
        };
        seq![bucket.entries()] + rest
    }

    /// The entries of the buckets of the chain of primary bucket `bucket`:
    /// the primary bucket first, then its overflow buckets in link order.
    pub closed spec fn chain(self, bucket: usize) -> Seq<Seq<u64>> {
        self.chain_from(BucketLocation::Primary(bucket))
    }

    /// The head address that the index holds for `hash`: the newest record
    /// whose hash has the same bucket and tag, or the invalid address.
    pub closed spec fn head_spec(self, hash: u64) -> u64 {
        self.lookup_from(BucketLocation::Primary(self.bucket_of(hash)), tag_of(hash))
    }

    /// Every link of the chains is well formed, and the overflow buckets of a
    /// chain belong to its primary bucket.
    pub closed spec fn chains_ok(self) -> bool {
        &&& self.owners@.len() == self.overflow@.len()
        &&& forall|i: usize| #[trigger]
            self.location_valid(BucketLocation::Primary(i)) ==> match self.bucket_spec(
                BucketLocation::Primary(i),
            ).overflow_spec() {
                Some(next) => self.link_ok(BucketLocation::Primary(i), next) && self.owners@[next as int]
                    == i,
                None => true,
            }
        &&& forall|i: usize| #[trigger]
            self.location_valid(BucketLocation::Overflow(i)) ==> match self.bucket_spec(
                BucketLocation::Overflow(i),
            ).overflow_spec() {
                Some(next) => self.link_ok(BucketLocation::Overflow(i), next) && self.owners@[next as int]
                    == self.owners@[i as int],
                None => true,
            }
    }

    /// Whether the walk from primary bucket `bucket` through `path` passes
    /// buckets that hold no entry for `tag`, each linking to the next.
    spec fn path_ok(self, bucket: usize, path: Seq<usize>, tag: u16) -> bool {
        forall|j: int| #![trigger path_location(bucket, path, j)]
            0 <= j < path.len() ==> {
                let location = path_location(bucket, path, j);
                &&& self.bucket_spec(location).lookup_spec(tag) is None
                &&& self.bucket_spec(location).overflow_spec() == Some(path[j])
                &&& self.link_ok(location, path[j])
            }
    }

    /// Whether `location` is where a walk for `hash` along `path` stands:
    /// every bucket passed holds no entry for the tag, the overflow buckets
    /// passed are increasing, and the walk stays in the chain of the hash's
    /// primary bucket.
    spec fn walk_ok(self, hash: u64, path: Seq<usize>, location: BucketLocation) -> bool {
        let bucket = self.bucket_of(hash);
        &&& location == path_location(bucket, path, path.len() as int)
        &&& self.location_valid(location)
        &&& self.owner_of(location) == bucket
        &&& self.path_ok(bucket, path, tag_of(hash))
        &&& forall|i: int, j: int| 0 <= i < j < path.len() ==> path[i] < path[j]
    }

    /// Whether `new` differs from `old` at most in the bucket at `location`
    /// and in overflow buckets added after the existing ones.
    spec fn changed_only_at(old: Index, new: Index, location: BucketLocation) -> bool {
        &&& new.mask == old.mask
        &&& new.primary@.len() == old.primary@.len()
        &&& new.overflow@.len() >= old.overflow@.len()
        &&& new.owners@.len() == new.overflow@.len()
        &&& forall|k: int| 0 <= k < old.overflow@.len() ==> new.owners@[k] == old.owners@[k]
        &&& forall|other: BucketLocation| #[trigger]
            old.location_valid(other) && other != location ==> new.bucket_spec(other)
                == old.bucket_spec(other)
    }

    /// Whether the bucket at `location` answers a lookup of `tag` in `new` as
    /// it does in `old`: the same entry, and the same link, or a link from
    /// a bucket that had none to an added bucket with neither.
    spec fn same_answer(old: Index, new: Index, location: BucketLocation, tag: u16) -> bool {
        let before = old.bucket_spec(location);
        let after = new.bucket_spec(location);
        &&& after.lookup_spec(tag) == before.lookup_spec(tag)
        &&& {
            ||| after.overflow_spec() == before.overflow_spec()
            ||| {
                &&& before.overflow_spec() is None
                &&& after.overflow_spec() matches Some(next)
                &&& old.overflow@.len() <= next < new.overflow@.len()
                &&& new.bucket_spec(BucketLocation::Overflow(next)).lookup_spec(tag) is None
                &&& new.bucket_spec(BucketLocation::Overflow(next)).overflow_spec() is None
            }
        }
    }

    spec fn in_scope(self, scope: Option<int>, location: BucketLocation) -> bool {
        scope matches Some(owner) ==> self.owner_of(location) == owner
    }

    /// A walk for `tag` from `location` finds the same address in `new` as in
    /// `old` when every bucket that it can reach (all buckets, or those of one
    /// chain) answers the same.
    proof fn lemma_frame(old: Index, new: Index, scope: Option<int>, tag: u16, location: BucketLocation)
        requires
            old.wf(),
            new.primary@.len() == old.primary@.len(),
            new.overflow@.len() >= old.overflow@.len(),
            old.location_valid(location),
            old.in_scope(scope, location),
            forall|other: BucketLocation|
                old.location_valid(other) && old.in_scope(scope, other) ==> #[trigger] Index::same_answer(
                    old,
                    new,
                    other,
                    tag,
                ),
        ensures
            new.lookup_from(location, tag) == old.lookup_from(location, tag),
        decreases old.measure(location),
    {
        assert(Index::same_answer(old, new, location, tag));
        old.lemma_link(location);
        let before = old.bucket_spec(location);
        let after = new.bucket_spec(location);
        if before.lookup_spec(tag) is None {
            match before.overflow_spec() {
                Some(next) => {
                    let target = BucketLocation::Overflow(next);
                    assert(old.in_scope(scope, target));
                    Index::lemma_frame(old, new, scope, tag, target);
                    assert(new.link_ok(location, next));
                },
                None => {
                    match after.overflow_spec() {
                        Some(next) => {
                            let target = BucketLocation::Overflow(next);
                            assert(new.link_ok(location, next));
                            assert(new.lookup_from(target, tag) == INVALID_RAW);
                        },
                        None => {},
                    }
                },
            }
        }
    }

    /// A walk along a path of buckets that hold nothing for `tag` finds what
    /// the walk from the path's end finds.
    proof fn lemma_path(self, bucket: usize, path: Seq<usize>, tag: u16, n: int)
        requires
            self.path_ok(bucket, path, tag),
            0 <= n <= path.len(),
        ensures
            self.lookup_from(BucketLocation::Primary(bucket), tag) == self.lookup_from(
                path_location(bucket, path, n),
                tag,
            ),
        decreases n,
    {
        if n > 0 {
            self.lemma_path(bucket, path, tag, n - 1);
            assert(self.link_ok(path_location(bucket, path, n - 1), path[n - 1]));
        }
    }

    /// The entries of the first `n` buckets that a walk from primary bucket
    /// `bucket` along `path` passes.
    spec fn path_entries(self, bucket: usize, path: Seq<usize>, n: int) -> Seq<Seq<u64>> {
        Seq::new(n as nat, |j: int| self.bucket_spec(path_location(bucket, path, j)).entries())
    }

    /// The chain of a primary bucket is the buckets that a walk along `path`
    /// passes, followed by the chain from where the walk stands.
    proof fn lemma_chain_path(self, bucket: usize, path: Seq<usize>, tag: u16, n: int)
        requires
            self.path_ok(bucket, path, tag),
            0 <= n <= path.len(),
        ensures
            self.chain_from(BucketLocation::Primary(bucket)) == self.path_entries(bucket, path, n)
                + self.chain_from(path_location(bucket, path, n)),
        decreases n,
    {
        if n == 0 {
            assert(self.path_entries(bucket, path, 0) + self.chain_from(
                path_location(bucket, path, 0),
            ) =~= self.chain_from(BucketLocation::Primary(bucket)));
        } else {
            self.lemma_chain_path(bucket, path, tag, n - 1);
            let l = path_location(bucket, path, n - 1);
            assert(self.link_ok(l, path[n - 1]));
            assert(self.chain_from(l) == seq![self.bucket_spec(l).entries()] + self.chain_from(
                path_location(bucket, path, n),
            ));
            assert(self.path_entries(bucket, path, n - 1) + self.chain_from(l) =~= self.path_entries(
                bucket,
                path,
                n,
            ) + self.chain_from(path_location(bucket, path, n)));
        }
    }

    /// The chain from `location` is the same in `new` as in `old` when every
    /// bucket of a set closed under links, to which `location` belongs, is
    /// unchanged.
    proof fn lemma_chain_frame(
        old: Index,
        new: Index,
        scope: spec_fn(BucketLocation) -> bool,
        location: BucketLocation,
    )
        requires
            old.wf(),
            new.overflow@.len() >= old.overflow@.len(),
            old.location_valid(location),
            scope(location),
            forall|other: BucketLocation|
                old.location_valid(other) && #[trigger] scope(other) ==> new.bucket_spec(other)
                    == old.bucket_spec(other) && match old.bucket_spec(other).overflow_spec() {
                    Some(next) => scope(BucketLocation::Overflow(next)),
                    None => true,
                },
        ensures
            new.chain_from(location) == old.chain_from(location),
        decreases old.measure(location),
    {
        old.lemma_link(location);
        assert(scope(location));
        match old.bucket_spec(location).overflow_spec() {
            Some(next) => {
                Index::lemma_chain_frame(old, new, scope, BucketLocation::Overflow(next));
                assert(new.link_ok(location, next));
            },
            None => {},
        }
    }

    /// After storing, the chain of the hash's primary bucket is
    /// `chain_store` of the old chain, and an overflow bucket was added
    /// exactly when no bucket of the old chain had room.
    proof fn lemma_stored_chain(
        old: Index,
        new: Index,
        hash: u64,
        address: u64,
        path: Seq<usize>,
        location: BucketLocation,
        extended: bool,
    )
        requires
            Index::stored(old, new, hash, address, path, location, extended),
            forall|j: int| #![trigger path_location(old.bucket_of(hash), path, j)]
                0 <= j < path.len() ==> !entries_have_room(
                    old.bucket_spec(path_location(old.bucket_of(hash), path, j)).entries(),
                    tag_of(hash),
                ),
        ensures
            new.chain(old.bucket_of(hash)) == chain_store(
                old.chain(old.bucket_of(hash)),
                tag_of(hash),
                entry_word(tag_of(hash), address),
            ),
            new.overflow_count() == old.overflow_count() + if chain_has_room(
                old.chain(old.bucket_of(hash)),
                tag_of(hash),
            ) {
                0int
            } else {
                1int
            },
    {
        let b = old.bucket_of(hash);
        let tag = tag_of(hash);
        let word = entry_word(tag, address);
        let n = path.len() as int;
        let before = old.bucket_spec(location);
        let after = new.bucket_spec(location);
        old.lemma_walk_locations(hash, path, location);
        Index::lemma_stored_path(old, new, hash, address, path, location, extended);
        old.lemma_chain_path(b, path, tag, n);
        new.lemma_chain_path(b, path, tag, n);
        let prefix = old.path_entries(b, path, n);
        assert(new.path_entries(b, path, n) =~= prefix) by {
            assert forall|j: int| 0 <= j < n implies new.bucket_spec(path_location(b, path, j))
                == old.bucket_spec(path_location(b, path, j)) by {
                assert(old.location_valid(path_location(b, path, j)));
            }
        }
        let old_chain = old.chain(b);
        let new_chain = new.chain(b);
        assert(old_chain == prefix + old.chain_from(location));
        assert(new_chain == prefix + new.chain_from(location));
        old.lemma_link(location);
        assert forall|j: int| 0 <= j < n implies !entries_have_room(#[trigger] old_chain[j], tag) by {
            assert(old_chain[j] == old.bucket_spec(path_location(b, path, j)).entries());
        }
        if !extended {
            let updated = entries_update(before.entries(), tag, word)->0;
            let index_of = |l: BucketLocation| match l {
                BucketLocation::Primary(_) => -1int,
                BucketLocation::Overflow(k) => k as int,
            };
            let scope = |y: BucketLocation| match y {
                BucketLocation::Primary(_) => false,
                BucketLocation::Overflow(i) => i > index_of(location),
            };
            assert forall|other: BucketLocation|
                old.location_valid(other) && #[trigger] scope(other) implies new.bucket_spec(other)
                == old.bucket_spec(other) && match old.bucket_spec(other).overflow_spec() {
                Some(next) => scope(BucketLocation::Overflow(next)),
                None => true,
            } by {
                old.lemma_link(other);
                assert(other != location);
            }
            match before.overflow_spec() {
                Some(next) => {
                    Index::lemma_chain_frame(old, new, scope, BucketLocation::Overflow(next));
                    assert(new.link_ok(location, next));
                    assert(new.chain_from(location) =~= old.chain_from(location).update(0, updated));
                },
                None => {
                    assert(new.chain_from(location) =~= old.chain_from(location).update(0, updated));
                },
            }
            assert(new_chain =~= old_chain.update(n, updated));
            assert(old_chain[n] == before.entries());
            assert(is_first_room(old_chain, tag, n));
            assert forall|i: int| is_first_room(old_chain, tag, i) implies i == n by {
                if i < n {
                    assert(!entries_have_room(old_chain[i], tag));
                } else if i > n {
                    assert(!entries_have_room(old_chain[n], tag));
                }
            }
            assert(chain_has_room(old_chain, tag));
        } else {
            let old_len = old.overflow@.len();
            let added = BucketLocation::Overflow(old_len as usize);
            assert(new.link_ok(location, old_len as usize));
            assert(new.chain_from(added) =~= seq![empty_entries().update(0, word)]);
            assert(old.chain_from(location) =~= seq![before.entries()]);
            assert(new.chain_from(location) =~= seq![before.entries(), empty_entries().update(
                0,
                word,
            )]);
            assert(new_chain =~= old_chain.push(empty_entries().update(0, word)));
            assert(old_chain.len() == n + 1);
            assert(old_chain[n] == before.entries());
            assert forall|i: int| 0 <= i < old_chain.len() implies !entries_have_room(
                #[trigger] old_chain[i],
                tag,
            ) by {}
            assert(!exists|i: int| is_first_room(old_chain, tag, i));
        }
    }

    /// After storing, the chains of other primary buckets are unchanged.
    proof fn lemma_stored_other_chain(
        old: Index,
        new: Index,
        hash: u64,
        address: u64,
        path: Seq<usize>,
        location: BucketLocation,
        extended: bool,
        c: usize,
    )
        requires
            Index::stored(old, new, hash, address, path, location, extended),
            c < old.bucket_count(),
            c != old.bucket_of(hash),
        ensures
            new.chain(c) == old.chain(c),
    {
        let scope = |y: BucketLocation| old.owner_of(y) == c as int;
        assert forall|other: BucketLocation|
            old.location_valid(other) && #[trigger] scope(other) implies new.bucket_spec(other)
            == old.bucket_spec(other) && match old.bucket_spec(other).overflow_spec() {
            Some(next) => scope(BucketLocation::Overflow(next)),
            None => true,
        } by {
            old.lemma_link(other);
            assert(other != location);
        }
        Index::lemma_chain_frame(old, new, scope, BucketLocation::Primary(c));
    }

    /// Whether `new` is `old` after the bucket at the end of a walk for
    /// `hash` stored `address`: in one of its entries, or (`extended`) in a
    /// new overflow bucket linked from it.
    spec fn stored(
        old: Index,
        new: Index,
        hash: u64,
        address: u64,
        path: Seq<usize>,
        location: BucketLocation,
        extended: bool,
    ) -> bool {
        let tag = tag_of(hash);
        let word = entry_word(tag, address);
        let before = old.bucket_spec(location);
        let after = new.bucket_spec(location);
        let added = BucketLocation::Overflow(old.overflow@.len() as usize);
        &&& old.wf()
        &&& address != INVALID_RAW
        &&& is_valid_raw(address)
        &&& tag <= TAG_MASK
        &&& old.walk_ok(hash, path, location)
        &&& Index::changed_only_at(old, new, location)
        &&& !extended ==> {
            &&& new.overflow@.len() == old.overflow@.len()
            &&& entries_update(before.entries(), tag, word) is Some
            &&& after.entries() == entries_update(before.entries(), tag, word)->0
            &&& after.overflow_spec() == before.overflow_spec()
        }
        &&& extended ==> {
            &&& new.overflow@.len() == old.overflow@.len() + 1
            &&& old.overflow@.len() <= usize::MAX
            &&& entries_update(before.entries(), tag, word) is None
            &&& before.overflow_spec() is None
            &&& after.entries() == before.entries()
            &&& after.overflow_spec() == Some(old.overflow@.len() as usize)
            &&& new.bucket_spec(added).lookup_spec(tag) == Some(address)
            &&& forall|t: u16| t != tag ==> #[trigger] new.bucket_spec(added).lookup_spec(t) is None
            &&& new.bucket_spec(added).overflow_spec() is None
            &&& new.bucket_spec(added).entries() == empty_entries().update(0, word)
            &&& new.owners@[old.overflow@.len() as int] == old.bucket_of(hash)
        }
    }

    /// The locations that a walk passes are valid and differ from where it
    /// stands.
    proof fn lemma_walk_locations(self, hash: u64, path: Seq<usize>, location: BucketLocation)
        requires
            self.wf(),
            self.walk_ok(hash, path, location),
        ensures
            forall|j: int| #![trigger path_location(self.bucket_of(hash), path, j)]
                0 <= j < path.len() ==> path_location(self.bucket_of(hash), path, j) != location
                    && self.location_valid(path_location(self.bucket_of(hash), path, j)),
    {
        let b = self.bucket_of(hash);
        self.lemma_bucket_in_range(hash);
        assert forall|j: int| #![trigger path_location(b, path, j)]
            0 <= j < path.len() implies path_location(b, path, j) != location
            && self.location_valid(path_location(b, path, j)) by {
            if j > 0 {
                assert(path[j - 1] < path[path.len() - 1]);
                assert(self.link_ok(path_location(b, path, j - 1), path[j - 1]));
            }
        }
    }

    /// Storing keeps the chains well formed.
    proof fn lemma_stored_chains(
        old: Index,
        new: Index,
        hash: u64,
        address: u64,
        path: Seq<usize>,
        location: BucketLocation,
        extended: bool,
    )
        requires
            Index::stored(old, new, hash, address, path, location, extended),
        ensures
            new.wf(),
    {
        let old_len = old.overflow@.len();
        assert forall|i: usize| #[trigger] new.location_valid(BucketLocation::Primary(i)) implies match new.bucket_spec(
            BucketLocation::Primary(i),
        ).overflow_spec() {
            Some(next) => new.link_ok(BucketLocation::Primary(i), next) && new.owners@[next as int]
                == i,
            None => true,
        } by {
            let y = BucketLocation::Primary(i);
            assert(old.location_valid(y));
            if y != location {
                assert(new.bucket_spec(y) == old.bucket_spec(y));
            }
        }
        assert forall|i: usize| #[trigger] new.location_valid(BucketLocation::Overflow(i)) implies match new.bucket_spec(
            BucketLocation::Overflow(i),
        ).overflow_spec() {
            Some(next) => new.link_ok(BucketLocation::Overflow(i), next) && new.owners@[next as int]
                == new.owners@[i as int],
            None => true,
        } by {
            let y = BucketLocation::Overflow(i);
            if i < old_len {
                assert(old.location_valid(y));
                if y != location {
                    assert(new.bucket_spec(y) == old.bucket_spec(y));
                }
            }
        }
    }

    /// Storing leaves the buckets that the walk passed unchanged.
    proof fn lemma_stored_path(
        old: Index,
        new: Index,
        hash: u64,
        address: u64,
        path: Seq<usize>,
        location: BucketLocation,
        extended: bool,
    )
        requires
            Index::stored(old, new, hash, address, path, location, extended),
        ensures
            new.path_ok(old.bucket_of(hash), path, tag_of(hash)),
    {
        old.lemma_walk_locations(hash, path, location);
        Index::lemma_path_unchanged(old, new, old.bucket_of(hash), path, tag_of(hash), location);
    }

    /// A walk's path is unchanged by a change elsewhere.
    proof fn lemma_path_unchanged(
        old: Index,
        new: Index,
        bucket: usize,
        path: Seq<usize>,
        tag: u16,
        location: BucketLocation,
    )
        requires
            old.path_ok(bucket, path, tag),
            forall|j: int| #![trigger path_location(bucket, path, j)]
                0 <= j < path.len() ==> path_location(bucket, path, j) != location
                    && old.location_valid(path_location(bucket, path, j)),
            Index::changed_only_at(old, new, location),
        ensures
            new.path_ok(bucket, path, tag),
    {
        assert forall|j: int| #![trigger path_location(bucket, path, j)] 0 <= j < path.len() implies {
            let l = path_location(bucket, path, j);
            &&& new.bucket_spec(l).lookup_spec(tag) is None
            &&& new.bucket_spec(l).overflow_spec() == Some(path[j])
            &&& new.link_ok(l, path[j])
        } by {
            let l = path_location(bucket, path, j);
            assert(new.bucket_spec(l) == old.bucket_spec(l));
        }
    }

    /// After storing, the walk from where the store happened finds `address`.
    proof fn lemma_stored_end(
        old: Index,
        new: Index,
        hash: u64,
        address: u64,
        path: Seq<usize>,
        location: BucketLocation,
        extended: bool,
    )
        requires
            Index::stored(old, new, hash, address, path, location, extended),
        ensures
            new.lookup_from(location, tag_of(hash)) == address,
    {
        let tag = tag_of(hash);
        let old_len = old.overflow@.len();
        let before = old.bucket_spec(location);
        if !extended {
            lemma_entries_update(before.entries(), tag, address);
        } else {
            let added = BucketLocation::Overflow(old_len as usize);
            assert(new.link_ok(location, old_len as usize));
            assert(new.lookup_from(added, tag) == address);
        }
    }

    /// After storing, the head for `hash` is `address`.
    proof fn lemma_stored_head(
        old: Index,
        new: Index,
        hash: u64,
        address: u64,
        path: Seq<usize>,
        location: BucketLocation,
        extended: bool,
    )
        requires
            Index::stored(old, new, hash, address, path, location, extended),
        ensures
            new.head_spec(hash) == address,
    {
        Index::lemma_stored_path(old, new, hash, address, path, location, extended);
        Index::lemma_stored_end(old, new, hash, address, path, location, extended);
        new.lemma_path(old.bucket_of(hash), path, tag_of(hash), path.len() as int);
    }

    /// After storing, the head for a hash of another bucket or tag is
    /// unchanged.
    proof fn lemma_stored_other(
        old: Index,
        new: Index,
        hash: u64,
        address: u64,
        path: Seq<usize>,
        location: BucketLocation,
        extended: bool,
        h: u64,
    )
        requires
            Index::stored(old, new, hash, address, path, location, extended),
            !old.same_slot(h, hash),
        ensures
            new.head_spec(h) == old.head_spec(h),
    {
        let tag = tag_of(hash);
        let before = old.bucket_spec(location);
        if !extended {
            lemma_entries_update(before.entries(), tag, address);
        }
        old.lemma_bucket_in_range(h);
        let bh = old.bucket_of(h);
        let th = tag_of(h);
        if th != tag {
            assert forall|other: BucketLocation|
                old.location_valid(other) && old.in_scope(None, other) implies #[trigger] Index::same_answer(
                old,
                new,
                other,
                th,
            ) by {
                if other != location {
                    assert(new.bucket_spec(other) == old.bucket_spec(other));
                }
            }
            Index::lemma_frame(old, new, None, th, BucketLocation::Primary(bh));
        } else {
            assert forall|other: BucketLocation|
                old.location_valid(other) && old.in_scope(Some(bh as int), other) implies #[trigger] Index::same_answer(
                old,
                new,
                other,
                th,
            ) by {
                assert(other != location);
                assert(new.bucket_spec(other) == old.bucket_spec(other));
            }
            Index::lemma_frame(old, new, Some(bh as int), th, BucketLocation::Primary(bh));
        }
    }

    /// Storing at the end of a walk: the index stays well formed, the head
    /// for `hash` becomes `address`, and every other head is unchanged.
    proof fn lemma_stored(
        old: Index,
        new: Index,
        hash: u64,
        address: u64,
        path: Seq<usize>,
        location: BucketLocation,
        extended: bool,
    )
        requires
            Index::stored(old, new, hash, address, path, location, extended),
        ensures
            new.wf(),
            new.bucket_count() == old.bucket_count(),
            new.bucket_mask() == old.bucket_mask(),
            new.overflow_count() <= old.overflow_count() + 1,
            forall|h: u64| #[trigger]
                new.head_spec(h) == if old.same_slot(h, hash) {
                    address
                } else {
                    old.head_spec(h)
                },
    {
        Index::lemma_stored_chains(old, new, hash, address, path, location, extended);
        Index::lemma_stored_head(old, new, hash, address, path, location, extended);
        assert forall|h: u64| #[trigger]
            new.head_spec(h) == if old.same_slot(h, hash) {
                address
            } else {
                old.head_spec(h)
            } by {
            if !old.same_slot(h, hash) {
                Index::lemma_stored_other(old, new, hash, address, path, location, extended, h);
            }
        }
    }

    /// The index's invariant.
    pub open spec fn wf(self) -> bool {
        &&& is_power_of_two(self.bucket_count())
        &&& 0 < self.bucket_count() <= usize::MAX
        &&& self.bucket_mask() == self.bucket_count() - 1
        &&& self.chains_ok()
    }

    /// Hashes with the same bucket and tag have the same head.
    pub proof fn lemma_same_slot_same_head(self, a: u64, b: u64)
        requires
            self.same_slot(a, b),
        ensures
            self.head_spec(a) == self.head_spec(b),
    {
    }

    /// The primary bucket of a hash is the hash modulo the number of primary
    /// buckets.
    pub proof fn lemma_bucket_is_mod(self, hash: u64)
        requires
            self.wf(),
        ensures
            self.bucket_of(hash) as int == hash as int % self.bucket_count() as int,
    {
        lemma_mask_is_mod(hash, self.bucket_count() as usize);
    }

    /// Two hashes share an entry exactly when they agree modulo the number of
    /// primary buckets and in their bits from 49 up.
    pub proof fn lemma_same_slot_iff(self, a: u64, b: u64)
        requires
            self.wf(),
        ensures
            self.same_slot(a, b) <==> (a as int % self.bucket_count() as int == b as int
                % self.bucket_count() as int && a as int / 0x2_0000_0000_0000 == b as int
                / 0x2_0000_0000_0000),
    {
        self.lemma_bucket_is_mod(a);
        self.lemma_bucket_is_mod(b);
        lemma_tag_is_high_bits(a);
        lemma_tag_is_high_bits(b);
    }

    /// Every hash selects an existing primary bucket.
    pub proof fn lemma_bucket_in_range(self, hash: u64)
        requires
            self.wf(),
        ensures
            self.bucket_of(hash) < self.bucket_count(),
    {
        let x = hash as usize;
        let m = self.mask;
        assert(x & m <= m) by (bit_vector);
    }

    /// An index with `bucket_count` empty primary buckets, which must be a
    /// power of two.
    pub fn new(bucket_count: usize) -> (index: Index)
        requires
            is_power_of_two(bucket_count as nat),
        ensures
            index.wf(),
            index.bucket_count() == bucket_count,
            index.overflow_count() == 0,
            forall|hash: u64| #[trigger] index.head_spec(hash) == INVALID_RAW,
            forall|c: usize| c < bucket_count ==> #[trigger] index.chain(c) == seq![empty_entries()],
    {
        let mut primary: Vec<Bucket> = Vec::new();
        let mut i: usize = 0;
        while i < bucket_count
            invariant
                i <= bucket_count,
                primary@.len() == i,
                forall|j: int| #![trigger primary@[j]]
                    0 <= j < i ==> primary@[j].overflow_spec() is None && primary@[j].entries()
                        == Seq::new(ENTRIES_PER_BUCKET as nat, |k: int| 0u64) && forall|tag: u16|
                        #[trigger] primary@[j].lookup_spec(tag) is None,
            decreases bucket_count - i,
        {
            primary.push(Bucket::new());
            i = i + 1;
        }
        let index = Index {
            primary,
            overflow: Vec::new(),
            mask: bucket_count - 1,
            owners: Ghost(Seq::empty()),
        };
        assert forall|hash: u64| #[trigger] index.head_spec(hash) == INVALID_RAW by {
            index.lemma_bucket_in_range(hash);
            let b = index.bucket_of(hash);
            assert(index.primary@[b as int].lookup_spec(tag_of(hash)) is None);
        }
        assert forall|c: usize| c < bucket_count implies #[trigger] index.chain(c) == seq![
            empty_entries(),
        ] by {
            assert(index.chain(c) =~= seq![empty_entries()]);
        }
        index
    }

    /// The primary bucket of `hash`.
    fn bucket_index(&self, hash: u64) -> (bucket: usize)
        requires
            self.wf(),
        ensures
            bucket == self.bucket_of(hash),
            bucket < self.bucket_count(),
    {
        proof {
            self.lemma_bucket_in_range(hash);
        }
        hash as usize & self.mask
    }

    /// The tag of `hash`.
    fn tag(hash: u64) -> (tag: u16)
        ensures
            tag == tag_of(hash),
            tag <= TAG_MASK,
    {
        proof {
            lemma_tag_bounded(hash);
        }
        (hash >> 49u64) as u16
    }

    fn bucket_at(&self, location: BucketLocation) -> (bucket: &Bucket)
        requires
            self.location_valid(location),
        ensures
            *bucket == self.bucket_spec(location),
    {
        match location {
            BucketLocation::Primary(index) => &self.primary[index],
            BucketLocation::Overflow(index) => &self.overflow[index],
        }
    }

    fn bucket_at_mut(&mut self, location: BucketLocation) -> (bucket: &mut Bucket)
        requires
            old(self).location_valid(location),
        ensures
            *bucket == old(self).bucket_spec(location),
            final(self).mask == old(self).mask,
            final(self).owners == old(self).owners,
            match location {
                BucketLocation::Primary(i) => {
                    &&& final(self).primary@ == old(self).primary@.update(i as int, *final(bucket))
                    &&& final(self).overflow@ == old(self).overflow@
                },
                BucketLocation::Overflow(i) => {
                    &&& final(self).overflow@ == old(self).overflow@.update(i as int, *final(bucket))
                    &&& final(self).primary@ == old(self).primary@
                },
            },
    {
        match location {
            BucketLocation::Primary(index) => &mut self.primary[index],
            BucketLocation::Overflow(index) => &mut self.overflow[index],
        }
    }

    /// The head address for `hash`: the newest record whose hash has the same
    /// bucket and tag, or the invalid address.
    pub fn head(&self, hash: u64) -> (head: Address)
        requires
            self.wf(),
        ensures
            head.raw() == self.head_spec(hash),
    {
        let tag = Self::tag(hash);
        let mut location = BucketLocation::Primary(self.bucket_index(hash));
        loop
            invariant
                self.wf(),
                tag == tag_of(hash),
                self.location_valid(location),
                self.lookup_from(location, tag) == self.head_spec(hash),
            decreases self.measure(location),
        {
            match self.bucket_at(location).lookup(tag) {
                BucketLookup::Found(address) => return address,
                BucketLookup::FollowOverflow(index) => {
                    proof {
                        self.lemma_link(location);
                    }
                    location = BucketLocation::Overflow(index);
                },
                BucketLookup::Missing => return Address::invalid(),
            }
        }
    }

    /// Makes `address`, which must not be the invalid address, the head for
    /// every hash with the same bucket and tag as `hash`; the heads of other
    /// hashes are unchanged. The entry goes into the first bucket of the
    /// chain that holds the tag or an empty entry (over the tag's entry,
    /// else into the first empty one); when no bucket has room, into a new
    /// overflow bucket linked from the chain's last bucket.
    pub fn set_head(&mut self, hash: u64, address: Address)
        requires
            old(self).wf(),
            address.raw() != INVALID_RAW,
            old(self).overflow_count() + 1 <= OVERFLOW_MASK,
        ensures
            final(self).wf(),
            final(self).bucket_count() == old(self).bucket_count(),
            final(self).bucket_mask() == old(self).bucket_mask(),
            final(self).chain(old(self).bucket_of(hash)) == chain_store(
                old(self).chain(old(self).bucket_of(hash)),
                tag_of(hash),
                entry_word(tag_of(hash), address.raw()),
            ),
            forall|c: usize|
                c < old(self).bucket_count() && c != old(self).bucket_of(hash)
                    ==> #[trigger] final(self).chain(c) == old(self).chain(c),
            final(self).overflow_count() == old(self).overflow_count() + if chain_has_room(
                old(self).chain(old(self).bucket_of(hash)),
                tag_of(hash),
            ) {
                0int
            } else {
                1int
            },
            forall|h: u64| #[trigger]
                final(self).head_spec(h) == if old(self).same_slot(h, hash) {
                    address.raw()
                } else {
                    old(self).head_spec(h)
                },
    {
        let address_raw = address.as_raw();
        let tag = Self::tag(hash);
        let bucket_index = self.bucket_index(hash);
        let mut location = BucketLocation::Primary(bucket_index);
        let ghost mut path: Seq<usize> = Seq::empty();
        loop
            invariant
                old(self).wf(),
                self.primary@ == old(self).primary@,
                self.overflow@ == old(self).overflow@,
                self.mask == old(self).mask,
                self.owners == old(self).owners,
                tag == tag_of(hash),
                tag <= TAG_MASK,
                bucket_index == old(self).bucket_of(hash),
                address.raw() == address_raw,
                address_raw != INVALID_RAW,
                is_valid_raw(address_raw),
                old(self).overflow_count() + 1 <= OVERFLOW_MASK,
                old(self).walk_ok(hash, path, location),
                forall|j: int| #![trigger path_location(bucket_index, path, j)]
                    0 <= j < path.len() ==> !entries_have_room(
                        old(self).bucket_spec(path_location(bucket_index, path, j)).entries(),
                        tag,
                    ),
            decreases old(self).measure(location),
        {
            match self.bucket_at_mut(location).update(tag, address) {
                BucketUpdate::Complete => {
                    proof {
                        Index::lemma_stored(*old(self), *self, hash, address_raw, path, location, false);
                        Index::lemma_stored_chain(*old(self), *self, hash, address_raw, path, location, false);
                        assert forall|c: usize|
                            c < old(self).bucket_count() && c != old(self).bucket_of(hash) implies #[trigger] self.chain(c)
                            == old(self).chain(c) by {
                            Index::lemma_stored_other_chain(*old(self), *self, hash, address_raw, path, location, false, c);
                        }
                    }
                    return;
                },
                BucketUpdate::FollowOverflow(index) => {
                    proof {
                        assert(self.primary@ =~= old(self).primary@);
                        assert(self.overflow@ =~= old(self).overflow@);
                        old(self).lemma_link(location);
                        let next_path = path.push(index);
                        assert forall|j: int| #![trigger path_location(bucket_index, next_path, j)]
                            0 <= j < next_path.len() implies {
                            let l = path_location(bucket_index, next_path, j);
                            &&& old(self).bucket_spec(l).lookup_spec(tag) is None
                            &&& old(self).bucket_spec(l).overflow_spec() == Some(next_path[j])
                            &&& old(self).link_ok(l, next_path[j])
                        } by {
                            if j < path.len() {
                                assert(path_location(bucket_index, next_path, j) == path_location(
                                    bucket_index,
                                    path,
                                    j,
                                ));
                            }
                        }
                        assert forall|j: int| #![trigger path_location(bucket_index, next_path, j)]
                            0 <= j < next_path.len() implies !entries_have_room(
                            old(self).bucket_spec(path_location(bucket_index, next_path, j)).entries(),
                            tag,
                        ) by {
                            if j < path.len() {
                                assert(path_location(bucket_index, next_path, j) == path_location(
                                    bucket_index,
                                    path,
                                    j,
                                ));
                            }
                        }
                        assert forall|i: int, j: int|
                            0 <= i < j < next_path.len() implies next_path[i] < next_path[j] by {
                            if j == path.len() && i < path.len() {
                                assert(path[i] <= path[path.len() - 1]);
                            }
                        }
                        path = next_path;
                    }
                    location = BucketLocation::Overflow(index);
                },
                BucketUpdate::NeedsOverflow => {
                    proof {
                        assert(self.primary@ =~= old(self).primary@);
                        assert(self.overflow@ =~= old(self).overflow@);
                    }
                    let index = self.overflow.len();
                    self.overflow.push(Bucket::with_entry(tag, address));
                    proof {
                        self.owners@ = self.owners@.push(bucket_index as int);
                    }
                    self.bucket_at_mut(location).set_overflow(index);
                    proof {
                        Index::lemma_stored(*old(self), *self, hash, address_raw, path, location, true);
                        Index::lemma_stored_chain(*old(self), *self, hash, address_raw, path, location, true);
                        assert forall|c: usize|
                            c < old(self).bucket_count() && c != old(self).bucket_of(hash) implies #[trigger] self.chain(c)
                            == old(self).chain(c) by {
                            Index::lemma_stored_other_chain(*old(self), *self, hash, address_raw, path, location, true, c);
                        }
                    }
                    return;
                },
            }
        }
    }

    /// The number of overflow buckets.
    pub fn overflow_len(&self) -> (len: usize)
        ensures
            len == self.overflow_count(),
    {
        self.overflow.len()
    }

    /// A link out of a valid location is well formed and leads to a bucket
    /// with the same owner.
    proof fn lemma_link(self, location: BucketLocation)
        requires
            self.wf(),
            self.location_valid(location),
        ensures
            match self.bucket_spec(location).overflow_spec() {
                Some(next) => {
                    &&& self.link_ok(location, next)
                    &&& self.owners@[next as int] == self.owner_of(location)
                    &&& self.location_valid(BucketLocation::Overflow(next))
                    &&& self.measure(BucketLocation::Overflow(next)) < self.measure(location)
                },
                None => true,
            },
    {
        match location {
            BucketLocation::Primary(i) => {
                assert(self.location_valid(BucketLocation::Primary(i)));
            },
            BucketLocation::Overflow(i) => {
                assert(self.location_valid(BucketLocation::Overflow(i)));
            },
        }
    }
}

} // verus!
