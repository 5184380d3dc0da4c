use grossular::address::Address;

#[test]
fn default_address_is_invalid() {
    assert_eq!(Address::default(), Address::invalid());
}

#[test]
fn offset_round_trips() {
    let address = Address::from_offset(128);

    assert_eq!(address.as_offset(), 128);
    assert_eq!(address.as_raw(), 128);
}

#[test]
fn displays_invalid_and_log_addresses() {
    assert_eq!(Address::invalid().to_string(), "invalid");
    assert_eq!(Address::first_valid().to_string(), "log:64");
}

#[test]
fn displays_large_addresses_in_decimal() {
    assert_eq!(Address::from_raw(0x7fff_ffff_ffff).to_string(), "log:140737488355327");
    assert_eq!(Address::from_raw(1000).to_string(), "log:1000");
}

#[test]
fn raw_round_trips_and_sentinels() {
    assert_eq!(Address::from_raw(4096).as_raw(), 4096);
    assert!(Address::invalid().is_invalid());
    assert!(!Address::first_valid().is_invalid());
    assert_eq!(Address::first_valid().as_raw(), 64);
}
