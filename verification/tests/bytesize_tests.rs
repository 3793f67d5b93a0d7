use defradb::{ByteSize, ConfigError};

#[test]
fn parses_mb_as_power_of_1024() {
    let b = ByteSize::from_str("64MB").unwrap();
    assert_eq!(b.0, 64 * 1024 * 1024);
}

#[test]
fn parses_bare_number_as_raw_bytes() {
    let b = ByteSize::from_str("100").unwrap();
    assert_eq!(b.0, 100);
}

#[test]
fn parses_each_unit_suffix() {
    assert_eq!(ByteSize::from_str("1B").unwrap().0, 1);
    assert_eq!(ByteSize::from_str("2KB").unwrap().0, 2 * 1024);
    assert_eq!(ByteSize::from_str("2KiB").unwrap().0, 2 * 1024);
    assert_eq!(ByteSize::from_str("3MiB").unwrap().0, 3 * 1024 * 1024);
    assert_eq!(ByteSize::from_str("4GB").unwrap().0, 4 * 1024 * 1024 * 1024);
    assert_eq!(ByteSize::from_str("5TB").unwrap().0, 5 * 1024u64.pow(4));
    assert_eq!(ByteSize::from_str("6PiB").unwrap().0, 6 * 1024u64.pow(5));
}

#[test]
fn unit_matching_ignores_case_and_spaces() {
    assert_eq!(ByteSize::from_str("10kb").unwrap().0, 10 * 1024);
    assert_eq!(ByteSize::from_str("7 GiB").unwrap().0, 7 * 1024 * 1024 * 1024);
}

#[test]
fn unrecognized_suffix_means_raw_bytes() {
    assert_eq!(ByteSize::from_str("100XYZ").unwrap().0, 100);
}

#[test]
fn empty_and_digitless_strings_are_rejected() {
    assert_eq!(ByteSize::from_str("").unwrap_err(), ConfigError::Custom("".to_string()));
    assert_eq!(ByteSize::from_str("MB").unwrap_err(), ConfigError::Custom("MB".to_string()));
}

#[test]
fn oversized_digits_are_rejected_as_the_input() {
    let s = "99999999999999999999999";
    assert_eq!(ByteSize::from_str(s).unwrap_err(), ConfigError::Custom(s.to_string()));
}

#[test]
fn oversized_product_is_unparseable() {
    assert_eq!(
        ByteSize::from_str("99999999999PiB").unwrap_err(),
        ConfigError::UnableToParseByteSize
    );
}

#[test]
fn set_overwrites_previous_value() {
    let mut b = ByteSize::default();
    assert_eq!(b.0, 0);
    b.set("2KB").unwrap();
    assert_eq!(b.0, 2048);
    b.set("5").unwrap();
    assert_eq!(b.0, 5);
}

#[test]
fn renders_scaled_to_binary_units() {
    assert_eq!(ByteSize(64 * 1024 * 1024).to_string(), "64 MiB");
    assert_eq!(ByteSize(2048).to_string(), "2 KiB");
    assert_eq!(ByteSize(3 * 1024 * 1024 * 1024).to_string(), "3 GiB");
}

#[test]
fn renders_small_values_as_zero_kib() {
    assert_eq!(ByteSize(0).to_string(), "0 KiB");
    assert_eq!(ByteSize(100).to_string(), "0 KiB");
    assert_eq!(ByteSize(1023).to_string(), "0 KiB");
}

#[test]
fn digits_count_wherever_they_stand() {
    assert_eq!(ByteSize::from_str("6M4B").unwrap().0, 64 * 1024 * 1024);
}
