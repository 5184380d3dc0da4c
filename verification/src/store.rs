//! The key-value store: a hash index whose entries point at the newest record
//! of a chain in the log. Each record links to the previous head of its
//! chain, so a chain holds the older versions of its keys and the records of
//! other keys whose hashes share the bucket and tag. A lookup walks the chain
//! from the head and stops at the first record of its key.
use crate::address::{Address, INVALID_RAW, MAX_LOG_ADDRESS};
use crate::bytes::bytes_equal;
use crate::hash::{hash, hash_spec};
use crate::index::{is_power_of_two, Index};
use crate::log::Log;
use crate::record::data_header::{MAX_KEY_LENGTH, MAX_VALUE_LENGTH};
use crate::record::{record_len, RecordModel, HEADER_SIZE};
use vstd::prelude::*;

verus! {

/// The address of the first record of `key` in the chain of `log` that
/// starts at `address`, if any.
pub open spec fn chain_find(log: Log, address: u64, key: Seq<u8>) -> Option<u64>
    decreases address,
{
    if address == INVALID_RAW {
        None
    } else if log.record_at(address).key == key {
        Some(address)
    } else if log.record_at(address).previous < address {
        chain_find(log, log.record_at(address).previous, key)
    } else {
        None
    }
}

/// The value held by the record at `found` of `log`, if there is one and it
/// is not a tombstone.
pub open spec fn value_of(log: Log, found: Option<u64>) -> Option<Seq<u8>> {
    match found {
        Some(address) => if log.record_at(address).tombstone {
            None
        } else {
            Some(log.record_at(address).value)
        },
        None => None,
    }
}

/// The key-value store.
pub struct Store {
    index: Index,
    log: Log,
}

impl Store {
    /// The number of bytes in the store's log.
    pub closed spec fn log_len(self) -> nat {
        self.log.len()
    }

    /// The address of the newest record of `key`: the first record of the
    /// key in the chain that starts at the head for the key's hash.
    pub closed spec fn record_of(self, key: Seq<u8>) -> Option<u64> {
        chain_find(self.log, self.index.head_spec(hash_spec(key)), key)
    }

    /// The record that the log holds at `address`.
    pub closed spec fn record_at(self, address: u64) -> RecordModel {
        self.log.record_at(address)
    }

    /// The value that the store holds for `key`: that of the newest record of
    /// the key in its chain, unless that record is a tombstone.
    pub closed spec fn get_spec(self, key: Seq<u8>) -> Option<Seq<u8>> {
        value_of(self.log, self.record_of(key))
    }

    /// The store's invariant: index and log are well formed, every head and
    /// every record's link leads to no record or to a record of the log, no
    /// record is a tombstone, and
    /// the log has grown by at least a record's header for each overflow
    /// bucket of the index.
    pub closed spec fn wf(self) -> bool {
        &&& self.index.wf()
        &&& self.log.wf()
        &&& forall|h: u64| #[trigger]
            self.index.head_spec(h) == INVALID_RAW || self.log.addresses().contains(
                self.index.head_spec(h),
            )
        &&& forall|a: u64| #[trigger]
            self.log.addresses().contains(a) ==> self.log.record_at(a).previous == INVALID_RAW
                || self.log.addresses().contains(self.log.record_at(a).previous)
        &&& forall|a: u64| #[trigger]
            self.log.addresses().contains(a) ==> !self.log.record_at(a).tombstone
        &&& self.index.overflow_count() * HEADER_SIZE + 64 <= self.log.len()
    }

    /// A store whose index has `bucket_count` buckets, which must be a power of
    /// two, and which holds no key.
    pub fn new(bucket_count: usize) -> (store: Store)
        requires
            is_power_of_two(bucket_count as nat),
        ensures
            store.wf(),
            store@ == Map::<Seq<u8>, Seq<u8>>::empty(),
            store.log_len() == 64,
    {
        let store = Store { index: Index::new(bucket_count), log: Log::new() };
        assert(store@ =~= Map::<Seq<u8>, Seq<u8>>::empty());
        store
    }
}

/// A chain walk finds the same record in a log that keeps every record of
/// the old one, and it finds a record of the old log.
pub proof fn lemma_chain_frame(old: Log, new: Log, address: u64, key: Seq<u8>)
    requires
        address == INVALID_RAW || old.addresses().contains(address),
        forall|a: u64| #[trigger]
            old.addresses().contains(a) ==> old.record_at(a).previous == INVALID_RAW
                || old.addresses().contains(old.record_at(a).previous),
        forall|a: u64| #[trigger] old.addresses().contains(a) ==> new.record_at(a) == old.record_at(a),
    ensures
        chain_find(new, address, key) == chain_find(old, address, key),
        chain_find(old, address, key) matches Some(found) ==> old.addresses().contains(found),
        value_of(new, chain_find(new, address, key)) == value_of(old, chain_find(old, address, key)),
    decreases address,
{
    if address != INVALID_RAW {
        assert(old.addresses().contains(address));
        let previous = old.record_at(address).previous;
        if old.record_at(address).key != key && previous < address {
            lemma_chain_frame(old, new, previous, key);
        }
    }
}

impl Store {
    /// The address of the newest record of `key` in the chain of `hash`.
    fn find_address(&self, hash: u64, key: &[u8]) -> (found: Option<Address>)
        requires
            self.wf(),
        ensures
            match found {
                Some(address) => chain_find(self.log, self.index.head_spec(hash), key@) == Some(
                    address.raw(),
                ) && self.log.addresses().contains(address.raw()) && self.log.record_at(
                    address.raw(),
                ).key == key@,
                None => chain_find(self.log, self.index.head_spec(hash), key@) is None,
            },
            hash == hash_spec(key@) ==> match found {
                Some(address) => self.record_of(key@) == Some(address.raw()),
                None => self.record_of(key@) is None,
            },
    {
        let mut address = self.index.head(hash);
        while !address.is_invalid()
            invariant
                self.wf(),
                address.raw() == INVALID_RAW || self.log.addresses().contains(address.raw()),
                chain_find(self.log, address.raw(), key@) == chain_find(
                    self.log,
                    self.index.head_spec(hash),
                    key@,
                ),
            decreases address.raw(),
        {
            assert(self.log.addresses().contains(address.raw()));
            let record = self.log.read(address);
            if bytes_equal(record.key(), key) {
                return Some(address);
            }
            address = record.previous();
        }
        None
    }

    /// The number of bytes in the store's log; an upsert needs the log to
    /// stay within the address range.
    pub fn log_size(&self) -> (len: usize)
        ensures
            len == self.log_len(),
    {
        self.log.byte_len()
    }

    /// The value of `key`, if the store holds it.
    pub fn get(&self, key: &[u8]) -> (value: Option<&[u8]>)
        requires
            self.wf(),
        ensures
            value is Some <==> self@.contains_key(key@),
            value matches Some(v) ==> v@ == self@[key@],
    {
        let hash = hash(key);
        let address = self.find_address(hash, key)?;
        let record = self.log.read(address);
        if record.is_tombstone() {
            None
        } else {
            Some(record.value())
        }
    }

    /// Sets the value of `key` to `value`, by appending a record to the log
    /// and making it the head of its chain. The key must fit in the record
    /// header's key length, the value in its value length, and the log must
    /// have room for the record within the address range.
    pub fn upsert(&mut self, key: &[u8], value: &[u8])
        requires
            old(self).wf(),
            key@.len() <= MAX_KEY_LENGTH,
            value@.len() <= MAX_VALUE_LENGTH,
            old(self).log_len() + record_len(key@.len(), value@.len()) <= MAX_LOG_ADDRESS,
        ensures
            final(self).wf(),
            final(self)@ == old(self)@.insert(key@, value@),
            final(self).log_len() == old(self).log_len() + record_len(key@.len(), value@.len()),
            final(self).record_of(key@) == Some(old(self).log_len() as u64),
            final(self).record_at(old(self).log_len() as u64).key == key@,
            final(self).record_at(old(self).log_len() as u64).value == value@,
            !final(self).record_at(old(self).log_len() as u64).tombstone,
            forall|k: Seq<u8>| #[trigger]
                final(self).record_of(k) == if k == key@ {
                    Some(old(self).log_len() as u64)
                } else {
                    old(self).record_of(k)
                },
            forall|k: Seq<u8>| #[trigger]
                old(self).record_of(k) matches Some(a) ==> final(self).record_at(a) == old(
                    self,
                ).record_at(a),
    {
        let hash = hash(key);
        let previous = self.index.head(hash);
        let address = self.log.append(previous, key, value);
        self.index.set_head(hash, address);
        proof {
            Store::lemma_upsert(*old(self), *self, key@, value@, address.raw());
        }
    }

    /// Whether `new` is `old` after a record for `key` with `value` was
    /// appended at `address` and made the head of its chain.
    spec fn upserted(old: Store, new: Store, key: Seq<u8>, value: Seq<u8>, address: u64) -> bool {
        &&& old.wf()
        &&& new.log.wf()
        &&& new.index.wf()
        &&& address == old.log.len()
        &&& new.log.addresses() == old.log.addresses().insert(address)
        &&& new.log.len() == old.log.len() + record_len(key.len(), value.len())
        &&& new.log.record_at(address).previous == old.index.head_spec(hash_spec(key))
        &&& new.log.record_at(address).key == key
        &&& new.log.record_at(address).value == value
        &&& !new.log.record_at(address).tombstone
        &&& forall|a: u64| #[trigger]
            old.log.addresses().contains(a) ==> new.log.record_at(a) == old.log.record_at(a)
        &&& new.index.overflow_count() <= old.index.overflow_count() + 1
        &&& forall|h: u64| #[trigger]
            new.index.head_spec(h) == if old.index.same_slot(h, hash_spec(key)) {
                address
            } else {
                old.index.head_spec(h)
            }
    }

    /// Upserting keeps the store well formed.
    proof fn lemma_upsert_wf(old: Store, new: Store, key: Seq<u8>, value: Seq<u8>, address: u64)
        requires
            Store::upserted(old, new, key, value, address),
        ensures
            new.wf(),
    {
        assert(!old.log.addresses().contains(address));
        assert forall|h: u64| #[trigger]
            new.index.head_spec(h) == INVALID_RAW || new.log.addresses().contains(
                new.index.head_spec(h),
            ) by {
            if !old.index.same_slot(h, hash_spec(key)) {
                assert(old.index.head_spec(h) == INVALID_RAW || old.log.addresses().contains(
                    old.index.head_spec(h),
                ));
            }
        }
        let old_head = old.index.head_spec(hash_spec(key));
        assert(old_head == INVALID_RAW || old.log.addresses().contains(old_head));
        assert forall|a: u64| #[trigger]
            new.log.addresses().contains(a) implies new.log.record_at(a).previous == INVALID_RAW
                || new.log.addresses().contains(new.log.record_at(a).previous) by {
            if a != address {
                assert(old.log.addresses().contains(a));
            }
        }
        assert forall|a: u64| #[trigger]
            new.log.addresses().contains(a) implies !new.log.record_at(a).tombstone by {
            if a != address {
                assert(old.log.addresses().contains(a));
            }
        }
    }

    /// After upserting `key`, the store holds `value` for `key` and the old
    /// value for every other key.
    proof fn lemma_upsert_get(
        old: Store,
        new: Store,
        key: Seq<u8>,
        value: Seq<u8>,
        address: u64,
        k: Seq<u8>,
    )
        requires
            Store::upserted(old, new, key, value, address),
        ensures
            new.get_spec(k) == if k == key {
                Some(value)
            } else {
                old.get_spec(k)
            },
            new.record_of(k) == if k == key {
                Some(address)
            } else {
                old.record_of(k)
            },
            old.record_of(k) matches Some(a) ==> old.log.addresses().contains(a),
    {
        let h = hash_spec(k);
        let head = old.index.head_spec(h);
        assert(head == INVALID_RAW || old.log.addresses().contains(head));
        if old.index.same_slot(h, hash_spec(key)) {
            Store::lemma_upsert_same_slot(old, new, key, value, address, k);
        } else {
            assert(new.index.head_spec(h) == head);
            lemma_chain_frame(old.log, new.log, head, k);
        }
    }

    /// A key whose hash has the upserted key's bucket and tag finds the new
    /// record first: its value if it is the upserted key, else what it found
    /// before.
    proof fn lemma_upsert_same_slot(
        old: Store,
        new: Store,
        key: Seq<u8>,
        value: Seq<u8>,
        address: u64,
        k: Seq<u8>,
    )
        requires
            Store::upserted(old, new, key, value, address),
            old.index.same_slot(hash_spec(k), hash_spec(key)),
        ensures
            new.get_spec(k) == if k == key {
                Some(value)
            } else {
                old.get_spec(k)
            },
            new.record_of(k) == if k == key {
                Some(address)
            } else {
                old.record_of(k)
            },
            old.record_of(k) matches Some(a) ==> old.log.addresses().contains(a),
    {
        let old_head = old.index.head_spec(hash_spec(key));
        old.index.lemma_same_slot_same_head(hash_spec(k), hash_spec(key));
        assert(new.index.head_spec(hash_spec(k)) == address);
        assert(old_head == INVALID_RAW || old.log.addresses().contains(old_head));
        assert(address != INVALID_RAW);
        lemma_chain_frame(old.log, new.log, old_head, k);
        if k != key {
            assert(chain_find(new.log, address, k) == chain_find(new.log, old_head, k));
        }
    }

    /// Upserting `key` with `value` keeps the store well formed and sets the
    /// value of `key`, leaving the other keys as they were.
    proof fn lemma_upsert(old: Store, new: Store, key: Seq<u8>, value: Seq<u8>, address: u64)
        requires
            Store::upserted(old, new, key, value, address),
        ensures
            new.wf(),
            new@ == old@.insert(key, value),
            forall|k: Seq<u8>| #[trigger]
                new.record_of(k) == if k == key {
                    Some(address)
                } else {
                    old.record_of(k)
                },
            forall|k: Seq<u8>| #[trigger]
                old.record_of(k) matches Some(a) ==> new.record_at(a) == old.record_at(a),
    {
        Store::lemma_upsert_wf(old, new, key, value, address);
        assert forall|k: Seq<u8>| #[trigger]
            new.get_spec(k) == if k == key {
                Some(value)
            } else {
                old.get_spec(k)
            } by {
            Store::lemma_upsert_get(old, new, key, value, address, k);
        }
        assert forall|k: Seq<u8>| #[trigger]
            new.record_of(k) == if k == key {
                Some(address)
            } else {
                old.record_of(k)
            } by {
            Store::lemma_upsert_get(old, new, key, value, address, k);
        }
        assert forall|k: Seq<u8>| #[trigger]
            old.record_of(k) is Some implies new.record_at(old.record_of(k)->0) == old.record_at(
                old.record_of(k)->0,
            ) by {
            Store::lemma_upsert_get(old, new, key, value, address, k);
        }
        assert(new@ =~= old@.insert(key, value));
    }
}

/// After `upsert(key, value)`, `get(key)` gives `value`, and every other key
/// reads as it did before.
pub proof fn lemma_get_after_upsert(
    before: Store,
    after: Store,
    key: Seq<u8>,
    value: Seq<u8>,
    other: Seq<u8>,
)
    requires
        after@ == before@.insert(key, value),
    ensures
        after@.contains_key(key),
        after@[key] == value,
        other != key ==> (after@.contains_key(other) <==> before@.contains_key(other)),
        other != key && before@.contains_key(other) ==> after@[other] == before@[other],
{
}

/// Upserts of two different keys commute: from stores that hold the same
/// keys and values, upserting `k1` then `k2`, or `k2` then `k1`, ends with the
/// same keys and values.
pub proof fn lemma_upserts_commute(
    s1: Store,
    s1a: Store,
    s1b: Store,
    s2: Store,
    s2a: Store,
    s2b: Store,
    k1: Seq<u8>,
    v1: Seq<u8>,
    k2: Seq<u8>,
    v2: Seq<u8>,
)
    requires
        k1 != k2,
        s1@ == s2@,
        s1a@ == s1@.insert(k1, v1),
        s1b@ == s1a@.insert(k2, v2),
        s2a@ == s2@.insert(k2, v2),
        s2b@ == s2a@.insert(k1, v1),
    ensures
        s1b@ == s2b@,
{
    assert(s1b@ =~= s2b@);
}

/// The keys and values after inserting each pair of `writes` in turn into
/// an empty map.
pub open spec fn map_after(writes: Seq<(Seq<u8>, Seq<u8>)>) -> Map<Seq<u8>, Seq<u8>>
    decreases writes.len(),
{
    if writes.len() == 0 {
        Map::empty()
    } else {
        map_after(writes.drop_last()).insert(writes.last().0, writes.last().1)
    }
}

/// After a sequence of writes, a key is held exactly when some write wrote
/// it.
pub proof fn lemma_map_after_contains(writes: Seq<(Seq<u8>, Seq<u8>)>, key: Seq<u8>)
    ensures
        map_after(writes).contains_key(key) <==> exists|i: int|
            0 <= i < writes.len() && #[trigger] writes[i].0 == key,
    decreases writes.len(),
{
    if writes.len() > 0 {
        let n = writes.len() - 1;
        let earlier = writes.drop_last();
        lemma_map_after_contains(earlier, key);
        if map_after(writes).contains_key(key) {
            if writes[n].0 != key {
                let i = choose|i: int| 0 <= i < earlier.len() && #[trigger] earlier[i].0 == key;
                assert(writes[i].0 == key);
            }
        }
        if exists|i: int| 0 <= i < writes.len() && #[trigger] writes[i].0 == key {
            let i = choose|i: int| 0 <= i < writes.len() && #[trigger] writes[i].0 == key;
            if i < n {
                assert(earlier[i].0 == key);
            }
        }
    }
}

/// After a sequence of writes, the value of a key is that of the last write
/// of the key.
pub proof fn lemma_map_after_last(writes: Seq<(Seq<u8>, Seq<u8>)>, key: Seq<u8>, j: int)
    requires
        0 <= j < writes.len(),
        writes[j].0 == key,
        forall|i: int| j < i < writes.len() ==> #[trigger] writes[i].0 != key,
    ensures
        map_after(writes).contains_key(key),
        map_after(writes)[key] == writes[j].1,
    decreases writes.len(),
{
    let n = writes.len() - 1;
    let earlier = writes.drop_last();
    if j < n {
        assert(writes[n].0 != key);
        assert forall|i: int| j < i < earlier.len() implies #[trigger] earlier[i].0 != key by {
            assert(writes[i].0 != key);
        }
        lemma_map_after_last(earlier, key, j);
    }
}

/// After a sequence of writes, a key is held exactly when some write wrote
/// it, and its value is that of the last such write.
pub proof fn lemma_map_after(writes: Seq<(Seq<u8>, Seq<u8>)>, key: Seq<u8>)
    ensures
        map_after(writes).contains_key(key) <==> exists|i: int|
            0 <= i < writes.len() && #[trigger] writes[i].0 == key,
        forall|j: int|
            0 <= j < writes.len() && #[trigger] writes[j].0 == key && (forall|i: int|
                j < i < writes.len() ==> writes[i].0 != key) ==> map_after(writes)[key]
                == writes[j].1,
{
    lemma_map_after_contains(writes, key);
    assert forall|j: int|
        0 <= j < writes.len() && #[trigger] writes[j].0 == key && (forall|i: int|
            j < i < writes.len() ==> writes[i].0 != key) implies map_after(writes)[key]
        == writes[j].1 by {
        lemma_map_after_last(writes, key, j);
    }
}

/// A store that starts empty and takes the upserts `writes` in turn holds,
/// for every key, the value of the last upsert of that key, and no key that
/// was never upserted.
pub proof fn lemma_upsert_trace(stores: Seq<Store>, writes: Seq<(Seq<u8>, Seq<u8>)>)
    requires
        stores.len() == writes.len() + 1,
        stores[0]@ == Map::<Seq<u8>, Seq<u8>>::empty(),
        forall|i: int|
            0 <= i < writes.len() ==> #[trigger] stores[i + 1]@ == stores[i]@.insert(
                writes[i].0,
                writes[i].1,
            ),
    ensures
        stores.last()@ == map_after(writes),
    decreases writes.len(),
{
    if writes.len() > 0 {
        let n = writes.len() - 1;
        let earlier_stores = stores.drop_last();
        let earlier_writes = writes.drop_last();
        assert forall|i: int| 0 <= i < earlier_writes.len() implies #[trigger] earlier_stores[i + 1]@
            == earlier_stores[i]@.insert(earlier_writes[i].0, earlier_writes[i].1) by {
            assert(stores[i + 1]@ == stores[i]@.insert(writes[i].0, writes[i].1));
        }
        lemma_upsert_trace(earlier_stores, earlier_writes);
        assert(stores[n + 1]@ == stores[n]@.insert(writes[n].0, writes[n].1));
    }
}

impl View for Store {
    type V = Map<Seq<u8>, Seq<u8>>;

    /// The keys that the store holds, and their values.
    open spec fn view(&self) -> Map<Seq<u8>, Seq<u8>> {
        Map::new(|key: Seq<u8>| self.get_spec(key) is Some, |key: Seq<u8>| self.get_spec(key)->0)
    }
}

} // verus!
