use rinha_rust_api::json::Parser;

#[test]
fn keys_are_read_up_to_the_closing_brace() {
    let mut p = Parser::new(b" , \"a\" : 1 , \"b\":2 }x");
    assert_eq!(p.next_key(), Some(&b"a"[..]));
    assert!(p.expect_colon());
    assert_eq!(p.parse_number(), Some(&b"1"[..]));
    assert_eq!(p.next_key(), Some(&b"b"[..]));
    assert!(p.expect_colon());
    p.skip_value();
    assert_eq!(p.next_key(), None);
    assert_eq!(p.peek(), Some(b'x'));
}

#[test]
fn a_missing_colon_is_told() {
    let mut p = Parser::new(b"\"a\" 1");
    assert_eq!(p.next_key(), Some(&b"a"[..]));
    assert!(!p.expect_colon());
}

#[test]
fn strings_keep_their_escapes() {
    let mut p = Parser::new(b"  \"a\\\"b\\\\\" rest");
    assert_eq!(p.parse_string_slice(), Some(&b"a\\\"b\\\\"[..]));
    let mut p = Parser::new(b"\"open");
    assert_eq!(p.parse_string_slice(), None);
    let mut p = Parser::new(b"12");
    assert_eq!(p.parse_string_slice(), None);
    assert_eq!(p.pos, 0);
}

#[test]
fn numbers_are_those_that_a_double_can_be_read_from() {
    for text in [
        "0", "1", "-1", "+1", "12.5", "12.", ".5", "-.5e3", "1e5", "1E-5", "1e+5", "00012", "1.e2",
        "99999999999999999999999999",
    ] {
        let mut p = Parser::new(text.as_bytes());
        assert_eq!(p.parse_number(), Some(text.as_bytes()), "{text}");
        assert!(text.parse::<f64>().is_ok(), "{text}");
    }
    for text in ["", "-", "+", ".", "e5", "1e", "1e+", "-.", "abc", "\"\"", "null", "-e1", ".e1"] {
        let mut p = Parser::new(text.as_bytes());
        assert_eq!(p.parse_number(), None, "{text}");
    }
}

#[test]
fn a_number_may_stand_in_quotes() {
    let mut p = Parser::new(b" \"12.5\",");
    assert_eq!(p.parse_number(), Some(&b"12.5"[..]));
    assert_eq!(p.peek(), Some(b','));
    let mut p = Parser::new(b"\"7x\"");
    assert_eq!(p.parse_number(), Some(&b"7"[..]));
    assert_eq!(p.peek(), Some(b'x'));
}

#[test]
fn truth_values_may_stand_in_quotes() {
    let mut p = Parser::new(b" true,");
    assert_eq!(p.parse_bool(), Some(true));
    assert_eq!(p.peek(), Some(b','));
    let mut p = Parser::new(b"false");
    assert_eq!(p.parse_bool(), Some(false));
    let mut p = Parser::new(b"\"true\"");
    assert_eq!(p.parse_bool(), Some(true));
    let mut p = Parser::new(b"maybe");
    assert_eq!(p.parse_bool(), None);
}

#[test]
fn null_is_recognised() {
    let mut p = Parser::new(b" null}");
    assert!(p.parse_null());
    assert_eq!(p.peek(), Some(b'}'));
    let mut p = Parser::new(b"nul");
    assert!(!p.parse_null());
}

#[test]
fn values_are_passed_whole() {
    for text in [
        "{\"a\":[1,{\"b\":\"}\"}],\"c\":\"]\"}",
        "[[],[\"]\"],{}]",
        "\"a,b\"",
        "true",
        "null",
    ] {
        let whole = format!("{text},x");
        let mut p = Parser::new(whole.as_bytes());
        p.skip_value();
        assert_eq!(p.pos, text.len(), "{text}");
    }
    let mut p = Parser::new(b"{{}");
    p.skip_object();
    assert_eq!(p.pos, 3);
    let mut p = Parser::new(b"[1,2]3");
    p.skip_array();
    assert_eq!(p.pos, 5);
    let mut p = Parser::new(b"5");
    p.skip_array();
    assert_eq!(p.pos, 0);
}
