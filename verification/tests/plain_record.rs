use grossular::address::Address;
use grossular::plain_record::{decode, encode, encoded_len};
use grossular::record::{ALIGNMENT, HEADER_SIZE};

#[test]
fn record_encoded_lengths_are_aligned() {
    for key_len in 0..32 {
        for value_len in 0..32 {
            let len = encoded_len(key_len, value_len);

            assert!(len >= HEADER_SIZE + key_len + value_len);
            assert_eq!(len % ALIGNMENT, 0);
        }
    }
}

#[test]
fn record_empty_record_uses_only_the_header() {
    assert_eq!(encoded_len(0, 0), HEADER_SIZE);
}

#[test]
fn record_record_length_includes_padding() {
    assert_eq!(encoded_len(1, 0), 24);
    assert_eq!(encoded_len(3, 5), 24);
    assert_eq!(encoded_len(4, 5), 32);
}

#[test]
fn record_encode_and_decode_round_trip() {
    let previous = Address::from_offset(128);
    let key = b"hello";
    let value = b"world";

    let mut buffer = vec![0; Address::first_valid().as_offset()];
    let offset = buffer.len();
    let length = encoded_len(key.len(), value.len());

    buffer.resize(offset + length, 0);

    encode(&mut buffer[offset..offset + length], previous, key, value);

    let record = decode(&buffer, offset);

    assert_eq!(record.previous, previous);
    assert_eq!(record.key, key);
    assert_eq!(record.value, value);
}

#[test]
fn record_padding_is_zeroed() {
    let key = b"a";
    let value = b"bc";
    let length = encoded_len(key.len(), value.len());

    // fill with a nonzero value so the test proves encode clears padding
    let mut destination = vec![0xff; length];

    encode(&mut destination, Address::invalid(), key, value);

    let data_end = HEADER_SIZE + key.len() + value.len();

    assert!(destination[data_end..].iter().all(|byte| *byte == 0));
}

#[test]
fn record_every_alignment_remainder_round_trips() {
    for key_len in 0..16 {
        for value_len in 0..16 {
            let key = vec![b'k'; key_len];
            let value = vec![b'v'; value_len];
            let length = encoded_len(key_len, value_len);

            let offset = Address::first_valid().as_offset();
            let mut buffer = vec![0; offset + length];

            encode(
                &mut buffer[offset..offset + length],
                Address::invalid(),
                &key,
                &value,
            );

            let record = decode(&buffer, offset);

            assert_eq!(record.previous, Address::invalid());
            assert_eq!(record.key, key);
            assert_eq!(record.value, value);
        }
    }
}

#[test]
fn plain_header_is_little_endian() {
    let mut destination = vec![0xaa; encoded_len(2, 3)];

    encode(&mut destination, Address::from_raw(0x0102), b"kk", b"vvv");

    assert_eq!(&destination[0..8], &[0x02, 0x01, 0, 0, 0, 0, 0, 0]);
    assert_eq!(&destination[8..12], &[2, 0, 0, 0]);
    assert_eq!(&destination[12..16], &[3, 0, 0, 0]);
    assert_eq!(&destination[16..21], b"kkvvv");
    assert_eq!(&destination[21..24], &[0, 0, 0]);
}
