use yaml_lib::nodes::{Dict, Node, Numeric};
use yaml_lib::parser::{parse, parse_scalar, ParseError};
use yaml_lib::sources::{Buffer, ISource};

fn float_text(node: &Node) -> String {
    match node {
        Node::Number(Numeric::Float(text)) => text.clone(),
        other => panic!("Expected Float node, got {:?}", other),
    }
}

#[test]
fn test_parse_scalar() {
    assert_eq!(parse_scalar("null"), Node::Null);
    assert_eq!(parse_scalar("~"), Node::Null);
    assert_eq!(parse_scalar("true"), Node::Boolean(true));
    assert_eq!(parse_scalar("false"), Node::Boolean(false));
    assert_eq!(parse_scalar("42"), Node::Number(Numeric::Integer(42)));
    assert_eq!(float_text(&parse_scalar("3.14")).parse::<f64>().unwrap(), 3.14);
    assert_eq!(parse_scalar("hello"), Node::Str("hello".to_string()));
    // No comment rule among the scalar rules: the text stays a string.
    assert_eq!(parse_scalar("#comment"), Node::Str("#comment".to_string()));
}

#[test]
fn test_parse_sequence() {
    let mut source = Buffer::new(b"- 1\n- 2\n- 3");
    let result = parse(&mut source).unwrap();
    assert_eq!(
        result,
        Node::Array(vec![
            Node::Number(Numeric::Integer(1)),
            Node::Number(Numeric::Integer(2)),
            Node::Number(Numeric::Integer(3))
        ])
    );
}

#[test]
fn test_parse_sequence_with_comments() {
    // The sequence ends at the first line that does not start with `-`.
    let mut source = Buffer::new(b"- 1\n# Comment 1\n- 2\n# Comment 2");
    let result = parse(&mut source).unwrap();
    assert_eq!(result, Node::Array(vec![Node::Number(Numeric::Integer(1))]));
}

#[test]
fn test_parse_mapping() {
    let mut source = Buffer::new(b"key1: value1\nkey2: 42");
    let result = parse(&mut source).unwrap();
    let mut expected = Dict::new();
    expected.insert("key1".to_string(), Node::Str("value1".to_string()));
    expected.insert("key2".to_string(), Node::Number(Numeric::Integer(42)));
    assert_eq!(result, Node::Dictionary(expected));
}

#[test]
fn test_parse_empty() {
    let mut source = Buffer::new(b"");
    let result = parse(&mut source).unwrap();
    assert_eq!(result, Node::Null);
}

#[test]
fn test_parse_invalid_char() {
    let mut source = Buffer::new(b"@invalid");
    let result = parse(&mut source);
    assert!(result.is_err());
    assert_eq!(result.unwrap_err().to_string(), "Unexpected character: @");
}

#[test]
fn test_parse_comment_only() {
    // `#` can start neither a sequence nor a mapping.
    let mut source = Buffer::new(b"# Just a comment");
    let result = parse(&mut source);
    assert_eq!(result, Err(ParseError::UnexpectedCharacter('#')));
}

#[test]
fn parse_whitespace_only_is_null() {
    let mut source = Buffer::new(b" \t\r\n  ");
    assert_eq!(parse(&mut source), Ok(Node::Null));
}

#[test]
fn parse_invalid_char_after_whitespace() {
    let mut source = Buffer::new(b"\n  [1, 2]");
    assert_eq!(parse(&mut source), Err(ParseError::UnexpectedCharacter('[')));
}

#[test]
fn parse_twice_gives_equal_trees() {
    let text: &[u8] = b"- a\n- 7\n- ~\n- false";
    let mut first = Buffer::new(text);
    let mut second = Buffer::new(text);
    first.next();
    first.reset();
    let one = parse(&mut first).unwrap();
    let two = parse(&mut second).unwrap();
    assert_eq!(one, two);
    first.reset();
    assert_eq!(parse(&mut first).unwrap(), one);
}

#[test]
fn sequence_items_are_trimmed_and_classified() {
    let mut source = Buffer::new(b"-   hello world  \n- -5\n- true\n- null\n- 1e3\n-\tx\r\n");
    let result = parse(&mut source).unwrap();
    assert_eq!(*result.index(0), Node::Str("hello world".to_string()));
    assert_eq!(*result.index(1), Node::Number(Numeric::Integer(-5)));
    assert_eq!(*result.index(2), Node::Boolean(true));
    assert_eq!(*result.index(3), Node::Null);
    assert_eq!(float_text(result.index(4)), "1e3");
    assert_eq!(*result.index(5), Node::Str("x".to_string()));
    match result {
        Node::Array(items) => assert_eq!(items.len(), 6),
        _ => panic!("Expected Array node"),
    }
}

#[test]
fn sequence_stops_at_first_other_line() {
    let mut source = Buffer::new(b"- 1\nkey: 2\n- 3");
    assert_eq!(
        parse(&mut source),
        Ok(Node::Array(vec![Node::Number(Numeric::Integer(1))]))
    );
}

#[test]
fn mapping_last_key_wins_and_other_lines_are_skipped() {
    let mut source = Buffer::new(b"a: 1\n-- --\n  b:   two  \na: 3\n");
    let result = parse(&mut source).unwrap();
    let mut expected = Dict::new();
    expected.insert("a".to_string(), Node::Number(Numeric::Integer(3)));
    expected.insert("b".to_string(), Node::Str("two".to_string()));
    assert_eq!(result, Node::Dictionary(expected));
}

#[test]
fn mapping_key_runs_up_to_the_colon() {
    let mut source = Buffer::new(b"x: 1\n# note\nb: 5");
    let mut with_note = Dict::new();
    with_note.insert("x".to_string(), Node::Number(Numeric::Integer(1)));
    with_note.insert("note\nb".to_string(), Node::Number(Numeric::Integer(5)));
    assert_eq!(parse(&mut source), Ok(Node::Dictionary(with_note)));
}

#[test]
fn mapping_key_without_colon_gets_empty_string() {
    let mut source = Buffer::new(b"lonely");
    let mut expected = Dict::new();
    expected.insert("lonely".to_string(), Node::Str(String::new()));
    assert_eq!(parse(&mut source), Ok(Node::Dictionary(expected)));
}

#[test]
fn mapping_index_by_key() {
    let mut source = Buffer::new(b"name: box\nsize: 12\nopen: false");
    let result = parse(&mut source).unwrap();
    assert_eq!(*result.index_key("name"), Node::Str("box".to_string()));
    assert_eq!(*result.index_key("size"), Node::Number(Numeric::Integer(12)));
    assert_eq!(*result.index_key("open"), Node::Boolean(false));
}

#[test]
fn integer_bounds() {
    assert_eq!(
        parse_scalar("9223372036854775807"),
        Node::Number(Numeric::Integer(i64::MAX))
    );
    assert_eq!(
        parse_scalar("-9223372036854775808"),
        Node::Number(Numeric::Integer(i64::MIN))
    );
    assert_eq!(parse_scalar("+17"), Node::Number(Numeric::Integer(17)));
    assert_eq!(float_text(&parse_scalar("9223372036854775808")), "9223372036854775808");
    assert_eq!(parse_scalar("-"), Node::Str("-".to_string()));
    assert_eq!(parse_scalar("12a"), Node::Str("12a".to_string()));
}

#[test]
fn float_forms() {
    for text in ["3.", ".5", "-2.5E-10", "+1e5", "inf", "-Infinity", "NaN", "007.0e+1"] {
        assert_eq!(float_text(&parse_scalar(text)), text);
        assert!(text.parse::<f64>().is_ok());
    }
    for text in [".", "e5", "1e", "1.2.3", "infinit", "1e+", " 1.0"] {
        assert_eq!(parse_scalar(text), Node::Str(text.to_string()));
        assert!(text.parse::<f64>().is_err());
    }
}

#[test]
fn scalar_text_is_not_trimmed_by_the_classifier() {
    assert_eq!(parse_scalar(" 42"), Node::Str(" 42".to_string()));
    assert_eq!(parse_scalar("True"), Node::Str("True".to_string()));
    assert_eq!(parse_scalar(""), Node::Str(String::new()));
}

#[test]
fn parse_from_cursor_position() {
    let mut source = Buffer::new(b"@- 4");
    source.next();
    assert_eq!(
        parse(&mut source),
        Ok(Node::Array(vec![Node::Number(Numeric::Integer(4))]))
    );
}

#[test]
fn parse_leaves_cursor_where_the_document_ends() {
    let mut source = Buffer::new(b"  \n\t ");
    assert_eq!(parse(&mut source), Ok(Node::Null));
    assert_eq!(source.current(), None);

    let mut source = Buffer::new(b"- 1\n- 2\n");
    parse(&mut source).unwrap();
    assert!(!source.more());

    let mut source = Buffer::new(b"- 1\nrest");
    parse(&mut source).unwrap();
    assert_eq!(source.current(), Some('r'));

    let mut source = Buffer::new(b"k: v\n!!");
    parse(&mut source).unwrap();
    assert_eq!(source.current(), None);

    let mut source = Buffer::new(b"  @x");
    assert!(parse(&mut source).is_err());
    assert_eq!(source.current(), Some('@'));
}

#[test]
fn mapping_keys_and_len_after_parse() {
    let mut source = Buffer::new(b"b: 1\na: 2\nb: 3");
    let result = parse(&mut source).unwrap();
    match result {
        Node::Dictionary(map) => {
            assert_eq!(map.len(), 2);
            let mut keys = map.keys();
            keys.sort();
            assert_eq!(keys, vec!["a".to_string(), "b".to_string()]);
        }
        _ => panic!("Expected Dictionary node"),
    }
}
