use grossular::address::Address;
use grossular::slot_index::Index;

#[test]
fn index_starts_with_invalid_heads() {
    let index = Index::new(8);

    for hash in 0..8 {
        assert_eq!(index.head(hash), Address::invalid());
    }
}

#[test]
fn index_sets_and_reads_head() {
    let mut index = Index::new(8);
    let address = Address::from_offset(64);

    index.set_head(3, address);

    assert_eq!(index.head(3), address);
}

#[test]
fn hashes_with_same_low_bits_share_a_slot() {
    let mut index = Index::new(8);
    let first = Address::from_offset(64);
    let second = Address::from_offset(128);

    index.set_head(3, first);
    index.set_head(11, second); // 3 & 7 == 11 & 7

    assert_eq!(index.head(3), second);
    assert_eq!(index.head(11), second);
}

#[test]
fn slot_index_other_buckets_are_unchanged() {
    let mut index = Index::new(4);
    index.set_head(1, Address::from_offset(64));
    index.set_head(2, Address::from_offset(128));

    assert_eq!(index.head(1), Address::from_offset(64));
    assert_eq!(index.head(2), Address::from_offset(128));
    assert_eq!(index.head(0), Address::invalid());
    assert_eq!(index.head(3), Address::invalid());
}
