use grossular::address::Address;
use grossular::index::Index;

fn test_hash(bucket: u64, tag: u16) -> u64 {
    (u64::from(tag) << 49) | bucket
}

fn address(index: usize) -> Address {
    Address::from_offset(64 + index * 64)
}

#[test]
fn mod_starts_with_invalid_heads() {
    let index = Index::new(8);

    for bucket in 0..8 {
        assert_eq!(index.head(test_hash(bucket, 1)), Address::invalid());
    }
}

#[test]
fn mod_sets_and_reads_head() {
    let mut index = Index::new(8);
    let address = address(0);

    index.set_head(test_hash(3, 1), address);

    assert_eq!(index.head(test_hash(3, 1)), address);
}

#[test]
fn different_tags_in_one_bucket_have_independent_heads() {
    let mut index = Index::new(8);
    let first_hash = test_hash(3, 1);
    let second_hash = test_hash(3, 2);

    index.set_head(first_hash, address(0));
    index.set_head(second_hash, address(1));

    assert_eq!(index.head(first_hash), address(0));
    assert_eq!(index.head(second_hash), address(1));
}

#[test]
fn hashes_with_the_same_bucket_and_tag_share_a_head() {
    let mut index = Index::new(8);
    let first_hash = test_hash(3, 7);
    let second_hash = first_hash | (1 << 20);

    index.set_head(first_hash, address(0));
    index.set_head(second_hash, address(1));

    assert_eq!(index.head(first_hash), address(1));
    assert_eq!(index.head(second_hash), address(1));
}

#[test]
fn seven_tags_fit_without_overflow() {
    let mut index = Index::new(1);

    for tag in 0..7 {
        index.set_head(test_hash(0, tag), address(tag as usize));
    }

    assert_eq!(index.overflow_len(), 0);

    for tag in 0..7 {
        assert_eq!(index.head(test_hash(0, tag)), address(tag as usize));
    }
}

#[test]
fn eighth_tag_allocates_an_overflow_bucket() {
    let mut index = Index::new(1);

    for tag in 0..8 {
        index.set_head(test_hash(0, tag), address(tag as usize));
    }

    assert_eq!(index.overflow_len(), 1);

    for tag in 0..8 {
        assert_eq!(index.head(test_hash(0, tag)), address(tag as usize));
    }
}

#[test]
fn fifteenth_tag_allocates_a_second_overflow_bucket() {
    let mut index = Index::new(1);

    for tag in 0..15 {
        index.set_head(test_hash(0, tag), address(tag as usize));
    }

    assert_eq!(index.overflow_len(), 2);

    for tag in 0..15 {
        assert_eq!(index.head(test_hash(0, tag)), address(tag as usize));
    }
}

#[test]
fn overflow_chains_of_different_buckets_stay_apart() {
    let mut index = Index::new(2);

    for tag in 0..10 {
        index.set_head(test_hash(0, tag), address(tag as usize));
        index.set_head(test_hash(1, tag), address(100 + tag as usize));
    }

    assert_eq!(index.overflow_len(), 2);

    for tag in 0..10 {
        assert_eq!(index.head(test_hash(0, tag)), address(tag as usize));
        assert_eq!(index.head(test_hash(1, tag)), address(100 + tag as usize));
    }

    // a tag that lives in an overflow bucket is updated in place
    index.set_head(test_hash(1, 9), address(500));
    assert_eq!(index.head(test_hash(1, 9)), address(500));
    assert_eq!(index.head(test_hash(0, 9)), address(9));
    assert_eq!(index.overflow_len(), 2);
}
