use grossular::address::Address;
use grossular::log::Log;
use grossular::record;

#[test]
fn new_log_starts_at_first_valid_address() {
    let log = Log::new();

    assert_eq!(log.tail(), Address::first_valid());
}

#[test]
fn appends_and_reads_first_record() {
    let mut log = Log::new();

    let address = log.append(Address::invalid(), b"foo", b"one");
    let record = log.read(address);

    assert_eq!(address, Address::first_valid());
    assert_eq!(record.previous(), Address::invalid());
    assert_eq!(record.key, b"foo");
    assert_eq!(record.value, b"one");
}

#[test]
fn appended_records_have_increasing_aligned_addresses() {
    let mut log = Log::new();

    let first = log.append(Address::invalid(), b"a", b"one");
    let second = log.append(Address::invalid(), b"bb", b"two");
    let third = log.append(Address::invalid(), b"ccc", b"three");

    assert!(first.as_offset() < second.as_offset());
    assert!(second.as_offset() < third.as_offset());
    assert_eq!(first.as_offset() % record::ALIGNMENT, 0);
    assert_eq!(second.as_offset() % record::ALIGNMENT, 0);
    assert_eq!(third.as_offset() % record::ALIGNMENT, 0);
    assert_eq!(log.tail().as_offset() % record::ALIGNMENT, 0);
}

#[test]
fn records_form_a_backward_chain() {
    let mut log = Log::new();

    let first = log.append(Address::invalid(), b"foo", b"one");
    let second = log.append(first, b"foo", b"two");
    let third = log.append(second, b"foo", b"three");

    assert_eq!(log.read(third).previous(), second);
    assert_eq!(log.read(second).previous(), first);
    assert_eq!(log.read(first).previous(), Address::invalid());
}

#[test]
fn append_advances_the_tail_by_the_record_length() {
    let mut log = Log::default();

    let address = log.append(Address::invalid(), b"key", b"value");

    assert_eq!(address.as_offset(), 64);
    assert_eq!(log.tail().as_offset(), 64 + record::encoded_len(3, 5));
    assert!(!log.read(address).is_tombstone());
}

#[test]
fn log_byte_len_is_the_tail() {
    let mut log = Log::new();

    log.append(Address::invalid(), b"k", b"v");
    assert_eq!(log.byte_len(), log.tail().as_offset());
    assert_eq!(log.byte_len(), 64 + record::encoded_len(1, 1));
}
