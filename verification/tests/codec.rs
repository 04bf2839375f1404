use rowstore::storage::{CodecError, Row, RowError, ROW_SIZE};

#[test]
fn sql_serialization_and_deserialization_are_reverses_of_eachother() {
    let mut test_memory: Vec<u8> = vec![0u8; 512];

    let row = Row::new(3, "Test User", "test@tester.com").unwrap();

    row.write_to_buffer(&mut test_memory).unwrap();

    let deserialized_row = Row::from_buffer(test_memory.as_slice()).unwrap();

    assert_eq!(row.id, deserialized_row.id);
    assert_eq!(row.username, deserialized_row.username);
    assert_eq!(row.email, deserialized_row.email);
}

#[test]
fn storage_serialization_and_deserialization_are_reverses_of_eachother() {
    let mut test_memory: Vec<u8> = vec![0u8; 512];

    let row = Row::new(3, "Test User", "test@tester.com").unwrap();

    row.write_to_buffer(&mut test_memory).unwrap();

    let deserialized_row = Row::read_from_buffer(test_memory.as_slice()).unwrap();

    assert_eq!(row.id, deserialized_row.id);
    assert_eq!(row.username, deserialized_row.username);
    assert_eq!(row.email, deserialized_row.email);
}

#[test]
fn encoded_layout_is_id_then_username_then_email() {
    let row = Row::new(16909060, "ab", "c").unwrap();
    let bytes = row.to_bytes();
    assert_eq!(bytes.len(), ROW_SIZE);
    assert_eq!(&bytes[0..4], &[4u8, 3u8, 2u8, 1u8]);
    assert_eq!(bytes[4], b'a');
    assert_eq!(bytes[5], b'b');
    assert_eq!(bytes[6], 0u8);
    assert_eq!(bytes[35], 0u8);
    assert_eq!(bytes[36], b'c');
    assert_eq!(bytes[37], 0u8);
    assert_eq!(bytes[291], 0u8);
}

#[test]
fn read_from_short_buffer_is_a_short_read() {
    let short = [0u8; 100];
    let result = Row::read_from_buffer(&short);
    assert!(matches!(result, Err(CodecError::ShortRead)));
}

#[test]
fn write_to_short_buffer_is_a_short_write_and_leaves_it_unchanged() {
    let row = Row::new(7, "u", "e").unwrap();
    let mut short: Vec<u8> = vec![9u8; 100];
    let result = row.write_to_buffer(&mut short);
    assert!(matches!(result, Err(CodecError::ShortWrite)));
    assert_eq!(short, vec![9u8; 100]);
}

#[test]
fn username_longer_than_its_width_is_rejected() {
    let long_username = "a".repeat(33);
    let result = Row::new(1, &long_username, "e@example.com");
    assert!(matches!(result, Err(RowError::ArgumentTooLong)));

    let just_fits = "a".repeat(32);
    assert!(Row::new(1, &just_fits, "e@example.com").is_ok());
}

#[test]
fn email_longer_than_its_width_is_rejected() {
    let long_email = "e".repeat(257);
    let result = Row::new(1, "user", &long_email);
    assert!(matches!(result, Err(RowError::ArgumentTooLong)));

    let just_fits = "e".repeat(256);
    assert!(Row::new(1, "user", &just_fits).is_ok());
}

#[test]
fn display_strips_padding_and_separates_fields_with_spaces() {
    let row = Row::new(3, "Test User", "test@tester.com").unwrap();
    assert_eq!(row.to_display_string(), "3 Test User test@tester.com");
}

#[test]
fn display_renders_a_large_id_in_decimal() {
    let row = Row::new(4294967295, "u", "e").unwrap();
    assert_eq!(row.to_display_string(), "4294967295 u e");
}

#[test]
fn display_replaces_invalid_utf8_instead_of_panicking() {
    let mut bytes = vec![0u8; ROW_SIZE];
    bytes[0] = 1;
    bytes[4] = 0xFF;
    bytes[5] = b'a';
    bytes[36] = b'e';
    let row = Row::read_from_buffer(bytes.as_slice()).unwrap();
    assert_eq!(row.to_display_string(), "1 \u{FFFD}a e");
}
