use grossular::hash::hash;

#[test]
fn matches_tsavorite_hash_vectors() {
    let vectors: &[(&[u8], u64)] = &[
        (b"", 0x0000_0000_0000_0000),
        (b"a", 0x8000_0000_0613_e454),
        (b"ab", 0x9000_0000_0fe9_4a25),
        (b"abc", 0xb000_0d86_f1bb_918e),
        (b"hello", 0x2cf7_6a0c_27fc_b1d2),
        (b"tsavorite", 0xbee9_9b55_46d6_2a1b),
    ];

    for &(key, expected) in vectors {
        assert_eq!(hash(key), expected, "key: {key:?}");
    }
}

#[test]
fn wraps_for_large_keys() {
    assert_eq!(hash(&vec![0xff; 100_000]), 0x063c_eec2_a12f_3042);
}

#[test]
fn hash_depends_on_length_and_order() {
    assert_ne!(hash(b"ab"), hash(b"ba"));
    assert_ne!(hash(b"a"), hash(b"a\0"));
}
