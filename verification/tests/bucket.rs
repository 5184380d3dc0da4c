use grossular::address::Address;
use grossular::index::bucket::{Bucket, BucketLookup, BucketUpdate, HashEntry, ENTRIES_PER_BUCKET};
use std::mem::size_of;

fn address(index: usize) -> Address {
    Address::from_offset(64 + index * 64)
}

#[test]
fn hash_entry_is_one_word() {
    assert_eq!(size_of::<HashEntry>(), size_of::<u64>());
}

#[test]
fn empty_hash_entry_has_no_address() {
    assert!(HashEntry::empty().is_empty());
    assert_eq!(HashEntry::empty().address(), Address::invalid());
}

#[test]
fn hash_entry_round_trips_tag_and_address() {
    let entry = HashEntry::new(0x1234, address(0));

    assert!(!entry.is_empty());
    assert_eq!(entry.tag(), 0x1234);
    assert_eq!(entry.address(), address(0));
}

#[test]
fn hash_entry_accepts_the_largest_tag() {
    let entry = HashEntry::new(HashEntry::TAG_MASK as u16, address(0));

    assert_eq!(entry.tag(), HashEntry::TAG_MASK as u16);
    assert_eq!(entry.address(), address(0));
}

#[test]
fn bucket_stores_seven_distinct_tags() {
    let mut bucket = Bucket::default();

    for tag in 0..ENTRIES_PER_BUCKET as u16 {
        assert_eq!(
            bucket.update(tag, address(tag as usize)),
            BucketUpdate::Complete
        );
    }

    for tag in 0..ENTRIES_PER_BUCKET as u16 {
        assert_eq!(
            bucket.lookup(tag),
            BucketLookup::Found(address(tag as usize))
        );
    }

    assert_eq!(
        bucket.update(ENTRIES_PER_BUCKET as u16, address(ENTRIES_PER_BUCKET)),
        BucketUpdate::NeedsOverflow
    );
}

#[test]
fn bucket_encodes_one_based_overflow_indexes() {
    let mut bucket = Bucket::default();

    for tag in 0..ENTRIES_PER_BUCKET as u16 {
        assert_eq!(
            bucket.update(tag, address(tag as usize)),
            BucketUpdate::Complete
        );
    }

    bucket.set_overflow(0);

    assert_eq!(bucket.lookup(99), BucketLookup::FollowOverflow(0));
    assert_eq!(
        bucket.update(99, address(ENTRIES_PER_BUCKET)),
        BucketUpdate::FollowOverflow(0)
    );
}

#[test]
fn bucket_update_replaces_an_existing_tag() {
    let mut bucket = Bucket::default();

    assert_eq!(bucket.update(5, address(1)), BucketUpdate::Complete);
    assert_eq!(bucket.update(6, address(2)), BucketUpdate::Complete);
    assert_eq!(bucket.update(5, address(3)), BucketUpdate::Complete);

    assert_eq!(bucket.lookup(5), BucketLookup::Found(address(3)));
    assert_eq!(bucket.lookup(6), BucketLookup::Found(address(2)));
    assert_eq!(bucket.lookup(7), BucketLookup::Missing);
    assert_eq!(bucket.overflow(), None);
}

#[test]
fn bucket_with_entry_holds_one_tag() {
    let bucket = Bucket::with_entry(9, address(4));

    assert_eq!(bucket.lookup(9), BucketLookup::Found(address(4)));
    assert_eq!(bucket.lookup(8), BucketLookup::Missing);
}

#[test]
fn bucket_overflow_index_round_trips() {
    let mut bucket = Bucket::default();

    bucket.set_overflow(41);
    assert_eq!(bucket.overflow(), Some(41));

    bucket.set_overflow(7);
    assert_eq!(bucket.overflow(), Some(7));
}

#[test]
fn bucket_is_one_cache_line() {
    assert_eq!(size_of::<Bucket>(), 64);
}

#[test]
fn full_bucket_reports_overflow_without_storing() {
    let mut bucket = Bucket::default();

    for tag in 0..ENTRIES_PER_BUCKET as u16 {
        bucket.update(tag, address(tag as usize));
    }

    // nothing is stored, so an invalid address is not written anywhere
    assert_eq!(
        bucket.update(100, Address::invalid()),
        BucketUpdate::NeedsOverflow
    );
    assert_eq!(bucket.lookup(100), BucketLookup::Missing);
}
