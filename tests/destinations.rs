use yaml_lib::destinations::{Buffer, IDestination};

#[test]
fn new_creates_empty_buffer() {
    let buffer = Buffer::new();
    assert!(buffer.buffer.is_empty());
}

#[test]
fn add_byte_to_destination_buffer_works() {
    let mut destination = Buffer::new();
    destination.add_byte(b'i');
    destination.add_byte(b'3');
    destination.add_byte(b'2');
    destination.add_byte(b'e');
    assert_eq!(destination.to_string(), "i32e");
}

#[test]
fn add_bytes_to_destination_buffer_works() {
    let mut destination = Buffer::new();
    destination.add_bytes("i3");
    assert_eq!(destination.to_string(), "i3");
    destination.add_bytes("2e");
    assert_eq!(destination.to_string(), "i32e");
}

#[test]
fn clear_destination_buffer_works() {
    let mut destination = Buffer::new();
    destination.add_bytes("i32e");
    assert_eq!(destination.to_string(), "i32e");
    destination.clear();
    assert_eq!(destination.to_string(), "");
}

#[test]
fn buffer_last_works() {
    let mut buffer = Buffer::new();
    assert_eq!(buffer.last(), None);
    buffer.add_byte(b'1');
    assert_eq!(buffer.last(), Some(b'1'));
    buffer.add_byte(b'2');
    assert_eq!(buffer.last(), Some(b'2'));
    buffer.clear();
    assert_eq!(buffer.last(), None);
}

#[test]
fn to_string_handles_non_utf8() {
    let mut buffer = Buffer::new();
    buffer.add_byte(0xFF);
    assert_eq!(buffer.to_string(), "\u{FFFD}");
}

#[test]
fn add_bytes_appends_utf8_encoding() {
    let mut buffer = Buffer::new();
    buffer.add_bytes("é");
    assert_eq!(buffer.buffer, vec![0xC3, 0xA9]);
    assert_eq!(buffer.last(), Some(0xA9));
    assert_eq!(buffer.to_string(), "é");
}

#[test]
fn to_string_decodes_valid_bytes_unchanged() {
    let mut buffer = Buffer::new();
    buffer.add_bytes("a-b");
    buffer.add_byte(b'c');
    assert_eq!(buffer.to_string(), "a-bc");
}
