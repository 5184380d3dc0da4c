use grossular::address::Address;
use grossular::record::info::RecordInfo;
use std::mem::{align_of, size_of};

#[test]
fn record_info_is_one_word() {
    assert_eq!(size_of::<RecordInfo>(), size_of::<u64>());
    assert_eq!(align_of::<RecordInfo>(), align_of::<u64>());
}

#[test]
fn default_record_is_invalid_with_no_previous_address() {
    let info = RecordInfo::default();

    assert!(!info.is_valid());
    assert!(!info.is_tombstone());
    assert_eq!(info.previous(), Address::invalid());
}

#[test]
fn valid_record_round_trips_previous_address() {
    let previous = Address::from_offset(128);
    let info = RecordInfo::new_valid(previous, false);

    assert!(info.is_valid());
    assert!(!info.is_tombstone());
    assert_eq!(info.previous(), previous);
    assert_eq!(info.as_raw(), previous.as_raw() | RecordInfo::VALID_BIT);
}

#[test]
fn tombstone_round_trips_without_changing_previous_address() {
    let previous = Address::from_offset(128);
    let info = RecordInfo::new_valid(previous, true);

    assert!(info.is_valid());
    assert!(info.is_tombstone());
    assert_eq!(info.previous(), previous);
    assert_eq!(
        info.as_raw(),
        previous.as_raw() | RecordInfo::VALID_BIT | RecordInfo::TOMBSTONE_BIT
    );
}

#[test]
fn state_bits_do_not_overlap_previous_address() {
    let previous = Address::from_offset(256);
    let raw =
        previous.as_raw() | RecordInfo::VALID_BIT | RecordInfo::TOMBSTONE_BIT | (0b111 << 50);

    let info = RecordInfo::from_raw(raw);

    assert_eq!(info.previous(), previous);
    assert_eq!(info.as_raw(), raw);
}

#[test]
fn record_info_masks_are_disjoint() {
    assert_eq!(RecordInfo::PREVIOUS_ADDRESS_MASK & RecordInfo::TOMBSTONE_BIT, 0);
    assert_eq!(RecordInfo::PREVIOUS_ADDRESS_MASK & RecordInfo::VALID_BIT, 0);
    assert_eq!(RecordInfo::RESERVED_MASK & (RecordInfo::VALID_BIT | (0b111 << 50)), 0);
    assert_eq!(RecordInfo::RESERVED_MASK, u64::MAX << 53);
}
