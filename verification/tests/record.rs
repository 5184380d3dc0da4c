use grossular::address::Address;
use grossular::record::data_header::RecordDataHeader;
use grossular::record::{decode, encode, encoded_len, RecordKind, ALIGNMENT, HEADER_SIZE};

#[test]
fn mod_encoded_lengths_are_aligned() {
    for key_len in 0..32 {
        for value_len in 0..32 {
            let len = encoded_len(key_len, value_len);

            assert!(len >= HEADER_SIZE + key_len + value_len);
            assert_eq!(len % ALIGNMENT, 0);
        }
    }
}

#[test]
fn mod_empty_record_uses_only_the_header() {
    assert_eq!(encoded_len(0, 0), HEADER_SIZE);
}

#[test]
fn mod_record_length_includes_padding() {
    assert_eq!(encoded_len(1, 0), 24);
    assert_eq!(encoded_len(3, 5), 24);
    assert_eq!(encoded_len(4, 5), 32);
}

#[test]
fn mod_encode_and_decode_round_trip() {
    let previous = Address::from_offset(128);
    let key = b"hello";
    let value = b"world";

    let mut buffer = vec![0; Address::first_valid().as_offset()];
    let offset = buffer.len();
    let length = encoded_len(key.len(), value.len());

    buffer.resize(offset + length, 0);

    encode(
        &mut buffer[offset..offset + length],
        previous,
        RecordKind::Value,
        key,
        value,
    );

    let record = decode(&buffer, offset);

    assert_eq!(record.previous(), previous);
    assert!(!record.is_tombstone());
    assert_eq!(record.key, key);
    assert_eq!(record.value, value);
}

#[test]
fn tombstone_round_trips() {
    let previous = Address::from_offset(128);
    let key = b"hello";
    let length = encoded_len(key.len(), 0);
    let offset = Address::first_valid().as_offset();
    let mut buffer = vec![0; offset + length];

    encode(
        &mut buffer[offset..offset + length],
        previous,
        RecordKind::Tombstone,
        key,
        &[],
    );

    let record = decode(&buffer, offset);

    assert_eq!(record.previous(), previous);
    assert!(record.is_tombstone());
    assert_eq!(record.key, key);
    assert!(record.value.is_empty());
}

#[test]
fn empty_value_is_not_a_tombstone() {
    let key = b"hello";
    let length = encoded_len(key.len(), 0);
    let offset = Address::first_valid().as_offset();
    let mut buffer = vec![0; offset + length];

    encode(
        &mut buffer[offset..offset + length],
        Address::invalid(),
        RecordKind::Value,
        key,
        &[],
    );

    let record = decode(&buffer, offset);

    assert!(!record.is_tombstone());
    assert!(record.value.is_empty());
}

#[test]
fn mod_padding_is_zeroed() {
    let key = b"a";
    let value = b"bc";
    let length = encoded_len(key.len(), value.len());

    // fill with a nonzero value so the test proves encode clears padding
    let mut destination = vec![0xff; length];

    encode(
        &mut destination,
        Address::invalid(),
        RecordKind::Value,
        key,
        value,
    );

    let data_end = HEADER_SIZE + key.len() + value.len();

    assert!(destination[data_end..].iter().all(|byte| *byte == 0));
}

#[test]
fn mod_every_alignment_remainder_round_trips() {
    for key_len in 0..16 {
        for value_len in 0..16 {
            let key = vec![b'k'; key_len];
            let value = vec![b'v'; value_len];
            let length = encoded_len(key_len, value_len);

            let offset = Address::first_valid().as_offset();
            let mut buffer = vec![0; offset + length];

            encode(
                &mut buffer[offset..offset + length],
                Address::invalid(),
                RecordKind::Value,
                &key,
                &value,
            );

            let record = decode(&buffer, offset);

            assert_eq!(record.previous(), Address::invalid());
            assert!(!record.is_tombstone());
            assert_eq!(record.key, key);
            assert_eq!(record.value, value);
        }
    }
}

#[test]
fn data_header_round_trips_lengths() {
    let header = RecordDataHeader::new_inline(1022, 16_777_214);

    assert!(header.key_is_inline());
    assert!(header.value_is_inline());
    assert_eq!(header.key_len(), 1022);
    assert_eq!(header.value_len(), 16_777_214);
    assert_eq!(header.filler_words(), 0);
    assert_eq!(header.as_raw(), 3 | (1022 << 14) | (16_777_214 << 24));
}

#[test]
fn data_header_counts_filler_words() {
    // three filler words after a header-only record
    let header = RecordDataHeader::from_raw(3 | (3 << 6));

    assert_eq!(header.filler_words(), 3);
    assert_eq!(header.allocated_len(), HEADER_SIZE + 3 * ALIGNMENT);
    assert_eq!(RecordDataHeader::default().as_raw(), 0);
    assert!(!RecordDataHeader::default().key_is_inline());
}

#[test]
fn record_header_words_are_little_endian() {
    let previous = Address::from_offset(0x0100);
    let length = encoded_len(1, 2);
    let mut destination = vec![0; length];

    encode(&mut destination, previous, RecordKind::Value, b"k", b"vv");

    // previous address 0x100 with the valid bit (bit 49)
    assert_eq!(&destination[0..8], &[0x00, 0x01, 0, 0, 0, 0, 0x02, 0]);
    // inline bits, key length 1 at bit 14, value length 2 at bit 24
    assert_eq!(&destination[8..16], &[0x03, 0x40, 0, 0x02, 0, 0, 0, 0]);
    assert_eq!(&destination[16..19], b"kvv");
}

#[test]
fn decode_reads_a_record_with_filler_words() {
    let previous = Address::from_offset(64);
    let length = encoded_len(2, 2);
    let mut buffer = vec![0; length + 2 * ALIGNMENT];

    encode(&mut buffer[..length], previous, RecordKind::Value, b"ab", b"cd");
    // mark two filler words in the data header
    buffer[8] |= 2 << 6;

    let record = decode(&buffer, 0);

    assert_eq!(record.previous(), previous);
    assert_eq!(record.key, b"ab");
    assert_eq!(record.value, b"cd");
}
