//! The append-only log: a byte buffer whose first `FIRST_VALID_RAW` bytes are
//! reserved, followed by records, each at an aligned address and linked to
//! an older record (or to no record) by its previous address.
use crate::address::{Address, FIRST_VALID_RAW, INVALID_RAW, MAX_LOG_ADDRESS};
use crate::record::data_header::{MAX_KEY_LENGTH, MAX_VALUE_LENGTH};
use crate::record::{
    decodable, decode, decode_spec, encode, encode_spec, encoded_len, lemma_decode_encode,
    lemma_decode_prefix, record_len, stored_header, stored_info, RecordKind, RecordModel, RecordRef, ALIGNMENT,
};
use vstd::prelude::*;

verus! {

/// The append-only log of records.
pub struct Log {
    buffer: Vec<u8>,
    starts: Ghost<Set<u64>>,
}

impl Log {
    /// The bytes of the log.
    pub closed spec fn bytes(self) -> Seq<u8> {
        self.buffer@
    }

    /// The addresses at which records were appended.
    pub closed spec fn addresses(self) -> Set<u64> {
        self.starts@
    }

    /// The number of bytes in the log, which is also the address that the
    /// next record will get.
    pub open spec fn len(self) -> nat {
        self.bytes().len()
    }

    /// The record that was appended at `address`.
    pub open spec fn record_at(self, address: u64) -> RecordModel {
        decode_spec(self.bytes(), address as int)
    }

    /// Whether this log grew from `earlier` by appending: it begins with the
    /// bytes of `earlier` and holds every record address of `earlier`.
    pub open spec fn extends(self, earlier: Log) -> bool {
        &&& earlier.len() <= self.len()
        &&& self.bytes().subrange(0, earlier.len() as int) == earlier.bytes()
        &&& earlier.addresses().subset_of(self.addresses())
    }

    /// A record of a log is still there, unchanged, in every log that grew
    /// from it by appending.
    pub proof fn lemma_extension_keeps_record(earlier: Log, later: Log, address: u64)
        requires
            earlier.wf(),
            later.extends(earlier),
            earlier.addresses().contains(address),
        ensures
            later.addresses().contains(address),
            later.record_at(address) == earlier.record_at(address),
    {
        let rest = later.bytes().subrange(earlier.len() as int, later.len() as int);
        assert(later.bytes() =~= earlier.bytes() + rest);
        lemma_decode_prefix(earlier.bytes(), rest, address as int);
    }

    /// A log whose bytes are those of `earlier` followed by more, and which
    /// keeps the record addresses of `earlier`, grew from it.
    proof fn lemma_grown_extends(earlier: Log, later: Log, extra: Seq<u8>)
        requires
            later.bytes() == earlier.bytes() + extra,
            earlier.addresses().subset_of(later.addresses()),
        ensures
            later.extends(earlier),
    {
        assert(later.bytes().subrange(0, earlier.len() as int) =~= earlier.bytes());
    }

    /// Growing by appending is transitive.
    pub proof fn lemma_extends_transitive(first: Log, second: Log, third: Log)
        requires
            second.extends(first),
            third.extends(second),
        ensures
            third.extends(first),
    {
        assert(third.bytes().subrange(0, first.len() as int) =~= third.bytes().subrange(
            0,
            second.len() as int,
        ).subrange(0, first.len() as int));
    }

    /// The log's invariant: its length lies in the address range and is
    /// aligned, and every appended record can be read back, lies below the
    /// tail, and links to no record or to a lower address.
    pub open spec fn wf(self) -> bool {
        &&& FIRST_VALID_RAW <= self.len() <= MAX_LOG_ADDRESS
        &&& self.len() % ALIGNMENT as nat == 0
        &&& forall|a: u64| #[trigger]
            self.addresses().contains(a) ==> {
                &&& FIRST_VALID_RAW <= a < self.len()
                &&& decodable(self.bytes(), a as int)
                &&& (self.record_at(a).previous == INVALID_RAW || self.record_at(a).previous < a)
            }
    }

    /// An empty log: the reserved bytes, all zero, and no record.
    pub fn new() -> (log: Log)
        ensures
            log.wf(),
            log.bytes() == Seq::new(FIRST_VALID_RAW as nat, |i: int| 0u8),
            log.addresses() == Set::<u64>::empty(),
    {
        let buffer = vec![0u8; 64];
        let log = Log { buffer, starts: Ghost(Set::empty()) };
        assert(log.bytes() =~= Seq::new(FIRST_VALID_RAW as nat, |i: int| 0u8));
        log
    }

    /// The number of bytes in the log.
    pub fn byte_len(&self) -> (len: usize)
        ensures
            len == self.len(),
    {
        self.buffer.len()
    }

    /// The address that the next record will get.
    pub fn tail(&self) -> (tail: Address)
        requires
            self.wf(),
        ensures
            tail.raw() == self.len(),
    {
        Address::from_offset(self.buffer.len())
    }

    /// Appends a value record for `key` whose chain continues at `previous`,
    /// which must be no record or an address below the tail, and returns the
    /// record's address, the old tail. The log must have room for the record
    /// within the address range.
    pub fn append(&mut self, previous: Address, key: &[u8], value: &[u8]) -> (address: Address)
        requires
            old(self).wf(),
            previous.raw() == INVALID_RAW || previous.raw() < old(self).len(),
            key@.len() <= MAX_KEY_LENGTH,
            value@.len() <= MAX_VALUE_LENGTH,
            old(self).len() + record_len(key@.len(), value@.len()) <= MAX_LOG_ADDRESS,
        ensures
            final(self).wf(),
            address.raw() == old(self).len(),
            final(self).bytes() == old(self).bytes() + encode_spec(
                previous.raw(),
                false,
                key@,
                value@,
            ),
            final(self).addresses() == old(self).addresses().insert(address.raw()),
            final(self).extends(*old(self)),
            final(self).len() == old(self).len() + record_len(key@.len(), value@.len()),
            final(self).record_at(address.raw()) == (RecordModel {
                previous: previous.raw(),
                tombstone: false,
                key: key@,
                value: value@,
            }),
            forall|a: u64| #[trigger]
                old(self).addresses().contains(a) ==> final(self).record_at(a) == old(self).record_at(
                    a,
                ),
    {
        let address = self.tail();
        let previous_raw = previous.as_raw();
        let length = encoded_len(key.len(), value.len());
        let start = self.buffer.len();
        // the new tail is itself an address
        let _ = Address::from_raw(start as u64 + length as u64);
        let mut record = vec![0u8; length];
        encode(record.as_mut_slice(), previous, RecordKind::Value, key, value);
        let ghost old_bytes = self.buffer@;
        let ghost record_bytes = record@;
        self.buffer.append(&mut record);
        proof {
            self.starts@ = self.starts@.insert(address.raw());
            let new_bytes = self.buffer@;
            assert(new_bytes.subrange(start as int, start + length) =~= record_bytes);
            lemma_decode_encode(new_bytes, start as int, previous_raw, false, key@, value@);
            assert forall|a: u64| #[trigger] old(self).addresses().contains(a) implies {
                &&& decodable(new_bytes, a as int)
                &&& decode_spec(new_bytes, a as int) == decode_spec(old_bytes, a as int)
            } by {
                lemma_decode_prefix(old_bytes, record_bytes, a as int);
            }
            assert forall|a: u64| #[trigger] self.addresses().contains(a) implies {
                &&& FIRST_VALID_RAW <= a < self.len()
                &&& decodable(self.bytes(), a as int)
                &&& (self.record_at(a).previous == INVALID_RAW || self.record_at(a).previous < a)
            } by {
                if a != address.raw() {
                    assert(old(self).addresses().contains(a));
                }
            }
        }
        proof {
            Log::lemma_grown_extends(*old(self), *self, record_bytes);
        }
        address
    }

    /// Reads the record at `address`, which must not be the invalid address
    /// and must hold a readable record.
    pub fn read(&self, address: Address) -> (record: RecordRef<'_>)
        requires
            address.raw() != INVALID_RAW,
            decodable(self.bytes(), address.raw() as int),
        ensures
            record.model() == self.record_at(address.raw()),
            record.info_raw() == stored_info(self.bytes(), address.raw() as int),
            record.header_raw() == stored_header(self.bytes(), address.raw() as int),
    {
        let len = self.buffer.len();
        assert(address.raw() < len);
        let offset = address.as_offset();
        decode(self.buffer.as_slice(), offset)
    }
}

impl Default for Log {
    /// An empty log.
    fn default() -> (log: Log)
        ensures
            log.wf(),
            log.addresses() == Set::<u64>::empty(),
    {
        Log::new()
    }
}

} // verus!
