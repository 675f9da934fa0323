use xdr::streams::extend_to_multiple_of_4;
use xdr::streams::is_valid_string;
use xdr::streams::ReadStream;
use xdr::streams::ReadStreamError;
use xdr::streams::WriteStream;

#[test]
fn write_fixed_width_integers_big_endian() {
    let mut ws = WriteStream::new();
    ws.write_next_u32(0x0102_0304);
    ws.write_next_i32(-1);
    ws.write_next_u64(0x0102_0304_0506_0708);
    ws.write_next_i64(-2);
    let bytes = ws.get_result();
    assert_eq!(
        bytes,
        vec![
            0x01, 0x02, 0x03, 0x04, // u32
            0xff, 0xff, 0xff, 0xff, // i32 -1
            0x01, 0x02, 0x03, 0x04, 0x05, 0x06, 0x07, 0x08, // u64
            0xff, 0xff, 0xff, 0xff, 0xff, 0xff, 0xff, 0xfe, // i64 -2
        ]
    );
}

#[test]
fn read_fixed_width_integers_big_endian() {
    let buffer = vec![
        0x00, 0x00, 0x01, 0x2c, // u32 300
        0xff, 0xff, 0xff, 0x85, // i32 -123
        0x00, 0x00, 0x00, 0x00, 0x00, 0x00, 0x00, 0x2a, // u64 42
        0xff, 0xff, 0xff, 0xff, 0xff, 0xff, 0xff, 0xd6, // i64 -42
    ];
    let mut rs = ReadStream::new(&buffer);
    assert_eq!(rs.read_next_u32().unwrap(), 300);
    assert_eq!(rs.read_next_i32().unwrap(), -123);
    assert_eq!(rs.read_next_u64().unwrap(), 42);
    assert_eq!(rs.read_next_i64().unwrap(), -42);
    assert_eq!(rs.get_position(), 24);
    assert_eq!(rs.no_of_bytes_left_to_read(), 0);
}

#[test]
fn read_u32_from_short_buffer_reports_sudden_end() {
    let buffer = vec![0x00, 0x00, 0x01];
    let mut rs = ReadStream::new(&buffer);
    assert_eq!(
        rs.read_next_u32(),
        Err(ReadStreamError::SuddenEnd { at_position: 3, expected_length: 4 })
    );
    // The cursor did not move.
    assert_eq!(rs.get_position(), 0);
}

#[test]
fn sudden_end_reports_offset_past_consumed_bytes() {
    let buffer = vec![0, 0, 0, 1, 0, 0];
    let mut rs = ReadStream::new(&buffer);
    assert_eq!(rs.read_next_u32().unwrap(), 1);
    assert_eq!(
        rs.read_next_u64(),
        Err(ReadStreamError::SuddenEnd { at_position: 6, expected_length: 12 })
    );
}

#[test]
fn write_binary_data_appends_zero_padding() {
    // One payload byte takes three padding bytes: (4 - 1 % 4) % 4 == 3.
    let mut ws = WriteStream::new();
    ws.write_next_binary_data(&[0xab]);
    assert_eq!(ws.get_result(), vec![0xab, 0x00, 0x00, 0x00]);

    // A multiple of four takes no padding: (4 - 4 % 4) % 4 == 0.
    let mut ws = WriteStream::new();
    ws.write_next_binary_data(&[1, 2, 3, 4]);
    assert_eq!(ws.get_result(), vec![1, 2, 3, 4]);

    // Five payload bytes take three padding bytes.
    let mut ws = WriteStream::new();
    ws.write_next_binary_data(&[1, 2, 3, 4, 5]);
    assert_eq!(ws.get_result(), vec![1, 2, 3, 4, 5, 0, 0, 0]);

    // An empty payload takes no padding at all.
    let mut ws = WriteStream::new();
    ws.write_next_binary_data(&[]);
    assert_eq!(ws.get_result(), Vec::<u8>::new());
}

#[test]
fn read_binary_data_consumes_payload_and_padding() {
    // Three payload bytes consume four bytes in total: 3 + (4 - 3 % 4) % 4.
    let buffer = vec![9, 8, 7, 0, 0, 0, 0, 5];
    let mut rs = ReadStream::new(&buffer);
    assert_eq!(rs.read_next_binary_data(3).unwrap(), vec![9, 8, 7]);
    assert_eq!(rs.get_position(), 4);
    assert_eq!(rs.read_next_u32().unwrap(), 5);
}

#[test]
fn read_binary_data_checks_padded_size_before_reading() {
    // Three payload bytes are present, but the padded total of four is not.
    let buffer = vec![9, 8, 7];
    let mut rs = ReadStream::new(&buffer);
    assert_eq!(
        rs.read_next_binary_data(3),
        Err(ReadStreamError::SuddenEnd { at_position: 3, expected_length: 4 })
    );
    assert_eq!(rs.get_position(), 0);
}

#[test]
fn read_binary_data_rejects_length_past_the_buffer() {
    let buffer = vec![1, 2, 3, 4];
    let mut rs = ReadStream::new(&buffer);
    assert_eq!(
        rs.read_next_binary_data(8),
        Err(ReadStreamError::SuddenEnd { at_position: 4, expected_length: 8 })
    );
}

#[test]
fn bytes_left_to_read_tracks_the_cursor() {
    let buffer = vec![0, 0, 0, 1, 2, 3];
    let mut rs = ReadStream::new(&buffer);
    assert_eq!(rs.no_of_bytes_left_to_read(), 6);
    rs.read_next_u32().unwrap();
    assert_eq!(rs.no_of_bytes_left_to_read(), 2);
}

#[test]
fn extend_to_multiple_of_4_rounds_up() {
    assert_eq!(extend_to_multiple_of_4(0), 0);
    assert_eq!(extend_to_multiple_of_4(1), 4);
    assert_eq!(extend_to_multiple_of_4(2), 4);
    assert_eq!(extend_to_multiple_of_4(3), 4);
    assert_eq!(extend_to_multiple_of_4(4), 4);
    assert_eq!(extend_to_multiple_of_4(5), 8);
    assert_eq!(extend_to_multiple_of_4(1023), 1024);
}

#[test]
fn is_valid_string_checks_byte_length_against_bound() {
    assert!(is_valid_string("hello", 5));
    assert!(is_valid_string("hello", 6));
    assert!(!is_valid_string("hello", 4));
    assert!(is_valid_string("", 0));
    // Byte length counts UTF-8 bytes, not characters.
    assert!(!is_valid_string("\u{e9}\u{e9}", 3));
    assert!(is_valid_string("\u{e9}\u{e9}", 4));
}
