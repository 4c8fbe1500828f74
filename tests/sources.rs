use yaml_lib::sources::{Buffer, ISource};

#[test]
fn create_source_buffer_works() {
    let source = Buffer::new(String::from("i32e").as_bytes());
    assert_eq!(source.to_string(), "i32e");
}

#[test]
fn read_character_from_source_buffer_works() {
    let mut source = Buffer::new(String::from("i32e").as_bytes());
    match source.current() {
        Some('i') => assert!(true),
        _ => assert!(false),
    }
}

#[test]
fn move_to_next_character_in_source_buffer_works() {
    let mut source = Buffer::new(String::from("i32e").as_bytes());
    source.next();
    match source.current() {
        Some('3') => assert!(true),
        _ => assert!(false),
    }
}

#[test]
fn move_to_last_character_in_source_buffer_works() {
    let mut source = Buffer::new(String::from("i32e").as_bytes());
    while source.more() {
        source.next()
    }
    match source.current() {
        None => assert!(true),
        _ => assert!(false),
    }
}

#[test]
fn reset_in_source_buffer_works() {
    let mut source = Buffer::new(String::from("i32e").as_bytes());
    while source.more() {
        source.next()
    }
    source.reset();
    match source.current() {
        Some('i') => assert!(true),
        _ => assert!(false),
    }
}

#[test]
fn create_empty_buffer_works() {
    let source = Buffer::new(&[]);
    assert_eq!(source.to_string(), "");
}

#[test]
fn handle_non_utf8_content() {
    let source = Buffer::new(&[0xFF]);
    assert_eq!(source.to_string(), String::from_utf8_lossy(&[0xFF]));
}

#[test]
fn more_returns_correct_at_boundaries() {
    let mut source = Buffer::new(String::from("a").as_bytes());
    assert!(source.more());
    source.next();
    assert!(!source.more());
}

#[test]
fn multiple_next_calls_work() {
    let mut source = Buffer::new(String::from("abc").as_bytes());
    source.next();
    source.next();
    match source.current() {
        Some('c') => assert!(true),
        _ => assert!(false),
    }
}

#[test]
fn next_stays_at_end() {
    let mut source = Buffer::new(b"a");
    source.next();
    source.next();
    source.next();
    assert_eq!(source.current(), None);
    source.backup();
    assert_eq!(source.current(), Some('a'));
}

#[test]
fn backup_moves_back_and_stops_at_start() {
    let mut source = Buffer::new(b"xy");
    source.next();
    assert_eq!(source.current(), Some('y'));
    source.backup();
    assert_eq!(source.current(), Some('x'));
    source.backup();
    assert_eq!(source.current(), Some('x'));
}

#[test]
fn bytes_read_as_characters_of_same_code() {
    let mut source = Buffer::new(&[0xE9, b'\t']);
    assert_eq!(source.current(), Some('\u{E9}'));
    source.next();
    assert_eq!(source.current(), Some('\t'));
}

#[test]
fn whitespace_set_of_sources() {
    let source = Buffer::new(b"");
    assert!(source.is_whitespace(' '));
    assert!(source.is_whitespace('\t'));
    assert!(source.is_whitespace('\n'));
    assert!(source.is_whitespace('\r'));
    assert!(!source.is_whitespace('\u{0B}'));
    assert!(!source.is_whitespace('a'));
}

#[test]
fn to_string_does_not_depend_on_cursor() {
    let mut source = Buffer::new(b"i32e");
    source.next();
    source.next();
    assert_eq!(source.to_string(), "i32e");
    source.reset();
    source.backup();
    assert_eq!(source.to_string(), "i32e");
    let mut other = Buffer::new(&[0xFF]);
    other.next();
    assert_eq!(other.to_string(), "\u{FFFD}");
}
