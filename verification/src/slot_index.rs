//! A direct-mapped head index: one head address per bucket, the bucket
//! selected by the low bits of a hash. Hashes that share a bucket share a
//! head.
use crate::address::{Address, INVALID_RAW};
use crate::index::{is_power_of_two, lemma_mask_is_mod};
use vstd::prelude::*;

verus! {

/// The direct-mapped head index.
pub struct Index {
    slots: Vec<Address>,
    mask: usize,
}

impl Index {
    /// The number of buckets.
    pub closed spec fn bucket_count(self) -> nat {
        self.slots@.len()
    }

    /// The mask that selects a bucket from a hash.
    pub closed spec fn bucket_mask(self) -> usize {
        self.mask
    }

    /// The bucket of `hash`: its low bits.
    pub open spec fn bucket_of(self, hash: u64) -> usize {
        (hash as usize) & self.bucket_mask()
    }

    /// The head address that the index holds for `hash`.
    pub closed spec fn head_spec(self, hash: u64) -> u64 {
        self.slots@[self.bucket_of(hash) as int].raw()
    }

    /// The index's invariant: the mask selects one of the buckets.
    pub open spec fn wf(self) -> bool {
        &&& is_power_of_two(self.bucket_count())
        &&& 0 < self.bucket_count() <= usize::MAX
        &&& self.bucket_mask() == self.bucket_count() - 1
    }

    /// The bucket of a hash is the hash modulo the number of buckets.
    pub proof fn lemma_bucket_is_mod(self, hash: u64)
        requires
            self.wf(),
        ensures
            self.bucket_of(hash) as int == hash as int % self.bucket_count() as int,
    {
        lemma_mask_is_mod(hash, self.bucket_count() as usize);
    }

    /// Two hashes share a head exactly when they agree modulo the number of
    /// buckets.
    pub proof fn lemma_same_bucket_iff(self, a: u64, b: u64)
        requires
            self.wf(),
        ensures
            self.bucket_of(a) == self.bucket_of(b) <==> a as int % self.bucket_count() as int
                == b as int % self.bucket_count() as int,
    {
        self.lemma_bucket_is_mod(a);
        self.lemma_bucket_is_mod(b);
    }

    proof fn lemma_bucket_in_range(self, hash: u64)
        requires
            self.wf(),
        ensures
            self.bucket_of(hash) < self.bucket_count(),
    {
        let x = hash as usize;
        let m = self.mask;
        assert(x & m <= m) by (bit_vector);
    }

    /// An index of `bucket_count` buckets, a power of two, whose heads are
    /// all the invalid address.
    pub fn new(bucket_count: usize) -> (index: Index)
        requires
            is_power_of_two(bucket_count as nat),
        ensures
            index.wf(),
            index.bucket_count() == bucket_count,
            forall|hash: u64| #[trigger] index.head_spec(hash) == INVALID_RAW,
    {
        let mut slots: Vec<Address> = Vec::new();
        let mut i: usize = 0;
        while i < bucket_count
            invariant
                i <= bucket_count,
                slots@.len() == i,
                forall|j: int| 0 <= j < i ==> #[trigger] slots@[j].raw() == INVALID_RAW,
            decreases bucket_count - i,
        {
            slots.push(Address::invalid());
            i = i + 1;
        }
        let index = Index { slots, mask: bucket_count - 1 };
        assert forall|hash: u64| #[trigger] index.head_spec(hash) == INVALID_RAW by {
            index.lemma_bucket_in_range(hash);
        }
        index
    }

    fn bucket(&self, hash: u64) -> (bucket: usize)
        requires
            self.wf(),
        ensures
            bucket == self.bucket_of(hash),
            bucket < self.bucket_count(),
    {
        proof {
            self.lemma_bucket_in_range(hash);
        }
        hash as usize & self.mask
    }

    /// The head address for `hash`.
    pub fn head(&self, hash: u64) -> (head: Address)
        requires
            self.wf(),
        ensures
            head.raw() == self.head_spec(hash),
    {
        self.slots[self.bucket(hash)]
    }

    /// Makes `address` the head for every hash in the bucket of `hash`; the
    /// heads of other buckets are unchanged.
    pub fn set_head(&mut self, hash: u64, address: Address)
        requires
            old(self).wf(),
        ensures
            final(self).wf(),
            final(self).bucket_count() == old(self).bucket_count(),
            forall|h: u64| #[trigger]
                final(self).head_spec(h) == if old(self).bucket_of(h) == old(self).bucket_of(hash) {
                    address.raw()
                } else {
                    old(self).head_spec(h)
                },
    {
        let bucket = self.bucket(hash);
        self.slots.set(bucket, address);
        proof {
            assert forall|h: u64| #[trigger]
                self.head_spec(h) == if old(self).bucket_of(h) == old(self).bucket_of(hash) {
                    address.raw()
                } else {
                    old(self).head_spec(h)
                } by {
                old(self).lemma_bucket_in_range(h);
            }
        }
    }
}

} // verus!
