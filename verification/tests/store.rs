use grossular::store::Store;

#[test]
fn missing_key_returns_none() {
    let store = Store::new(8);

    assert_eq!(store.get(b"missing"), None);
}

#[test]
fn upserts_and_reads_value() {
    let mut store = Store::new(8);

    store.upsert(b"foo", b"one");

    assert_eq!(store.get(b"foo"), Some(b"one".as_slice()));
}

#[test]
fn newest_value_shadows_older_value() {
    let mut store = Store::new(8);

    store.upsert(b"foo", b"one");
    store.upsert(b"foo", b"two");
    store.upsert(b"foo", b"three");

    assert_eq!(store.get(b"foo"), Some(b"three".as_slice()));
}

#[test]
fn colliding_keys_share_a_chain() {
    // One bucket forces every key into the same chain.
    let mut store = Store::new(1);

    store.upsert(b"foo", b"one");
    store.upsert(b"bar", b"two");
    store.upsert(b"baz", b"three");

    assert_eq!(store.get(b"foo"), Some(b"one".as_slice()));
    assert_eq!(store.get(b"bar"), Some(b"two".as_slice()));
    assert_eq!(store.get(b"baz"), Some(b"three".as_slice()));
}

#[test]
fn collision_does_not_produce_false_match() {
    let mut store = Store::new(1);

    store.upsert(b"foo", b"value");

    assert_eq!(store.get(b"bar"), None);
}

#[test]
fn overwrite_preserves_other_colliding_keys() {
    let mut store = Store::new(1);

    store.upsert(b"foo", b"foo-one");
    store.upsert(b"bar", b"bar-one");
    store.upsert(b"foo", b"foo-two");

    assert_eq!(store.get(b"foo"), Some(b"foo-two".as_slice()));
    assert_eq!(store.get(b"bar"), Some(b"bar-one".as_slice()));
}

#[test]
fn supports_empty_keys_and_values() {
    let mut store = Store::new(1);

    store.upsert(b"", b"");
    store.upsert(b"key", b"");

    assert_eq!(store.get(b""), Some(b"".as_slice()));
    assert_eq!(store.get(b"key"), Some(b"".as_slice()));
}

#[test]
fn many_keys_in_one_bucket_overflow_the_index() {
    let mut store = Store::new(1);

    for i in 0..100u32 {
        store.upsert(&i.to_le_bytes(), &(i * 3).to_le_bytes());
    }

    for i in 0..100u32 {
        assert_eq!(store.get(&i.to_le_bytes()), Some((i * 3).to_le_bytes().as_slice()));
    }
    assert_eq!(store.get(&1000u32.to_le_bytes()), None);
}

#[test]
fn longest_key_is_accepted() {
    let mut store = Store::new(4);
    let key = vec![7u8; 1022];

    store.upsert(&key, b"v");

    assert_eq!(store.get(&key), Some(b"v".as_slice()));
}

#[test]
fn log_size_grows_by_the_record_length() {
    let mut store = Store::new(2);

    assert_eq!(store.log_size(), 64);
    store.upsert(b"abc", b"de");
    assert_eq!(store.log_size(), 64 + grossular::record::encoded_len(3, 2));
}
