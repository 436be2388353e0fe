use hexcount::config::parse_max_sequence_length;
use hexcount::config::ConfigError;
use hexcount::counter::sequence_length_is_supported;
use hexcount::payload::extract_payload;
use hexcount::LARGEST_SEQUENCE_LENGTH;

#[test]
fn accepts_lengths_up_to_the_largest() {
    assert_eq!(parse_max_sequence_length(&b"1".to_vec()), Ok(1));
    assert_eq!(parse_max_sequence_length(&b"7".to_vec()), Ok(7));
    assert_eq!(parse_max_sequence_length(&b"16".to_vec()), Ok(LARGEST_SEQUENCE_LENGTH));
}

#[test]
fn accepts_a_leading_plus_sign() {
    assert_eq!(parse_max_sequence_length(&b"+5".to_vec()), Ok(5));
}

#[test]
fn rejects_lengths_above_the_largest() {
    assert_eq!(parse_max_sequence_length(&b"17".to_vec()), Err(ConfigError::OutOfRange));
    assert_eq!(parse_max_sequence_length(&b"100".to_vec()), Err(ConfigError::OutOfRange));
    assert_eq!(
        parse_max_sequence_length(&b"99999999999999999999999999".to_vec()),
        Err(ConfigError::OutOfRange)
    );
}

#[test]
fn rejects_zero() {
    assert_eq!(parse_max_sequence_length(&b"0".to_vec()), Err(ConfigError::OutOfRange));
    assert_eq!(parse_max_sequence_length(&b"00".to_vec()), Err(ConfigError::OutOfRange));
}

#[test]
fn rejects_non_numbers() {
    assert_eq!(parse_max_sequence_length(&b"".to_vec()), Err(ConfigError::NotANumber));
    assert_eq!(parse_max_sequence_length(&b"+".to_vec()), Err(ConfigError::NotANumber));
    assert_eq!(parse_max_sequence_length(&b"abc".to_vec()), Err(ConfigError::NotANumber));
    assert_eq!(parse_max_sequence_length(&b"12x".to_vec()), Err(ConfigError::NotANumber));
    assert_eq!(parse_max_sequence_length(&b"-3".to_vec()), Err(ConfigError::NotANumber));
    assert_eq!(parse_max_sequence_length(&b"1 6".to_vec()), Err(ConfigError::NotANumber));
}

#[test]
fn word_sized_tables_are_the_platform_limit() {
    // On this platform a table of 16^15 entries is still representable in a
    // usize; 16^16 entries no longer are, so the largest configurable window
    // length cannot actually be constructed here.
    assert!(sequence_length_is_supported(1));
    assert!(sequence_length_is_supported(15));
    assert!(!sequence_length_is_supported(16));
    assert!(!sequence_length_is_supported(1000));
}

#[test]
fn payload_starts_after_the_first_separator() {
    assert_eq!(extract_payload(&b"a.b.c".to_vec()), b"b.c".to_vec());
    assert_eq!(extract_payload(&b".xyz".to_vec()), b"xyz".to_vec());
    assert_eq!(extract_payload(&b"no separator".to_vec()), Vec::<u8>::new());
    assert_eq!(extract_payload(&b"".to_vec()), Vec::<u8>::new());
    assert_eq!(extract_payload(&b"tail.".to_vec()), Vec::<u8>::new());
}
