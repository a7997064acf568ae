use rinha_fraud::scan::{past_colon, read_bool, read_number, read_string, seek_key, skip_ws};

#[test]
fn blanks_are_skipped() {
    let mut p = 1;
    skip_ws(b"a \t\r\n\x00b", &mut p);
    assert_eq!(p, 6);
    let mut p = 1;
    skip_ws(b"a   ", &mut p);
    assert_eq!(p, 4);
}

#[test]
fn value_begins_behind_the_colon() {
    let mut p = 0;
    assert!(past_colon(b"\"a\" :  7", &mut p));
    assert_eq!(p, 7);
}

#[test]
fn value_is_missing_behind_the_colon() {
    let mut p = 0;
    assert!(!past_colon(b"\"a\" ", &mut p));
    assert_eq!(p, 4);
    let mut p = 0;
    assert!(!past_colon(b"\"a\":  ", &mut p));
    assert_eq!(p, 6);
}

#[test]
fn string_stands_between_quotes() {
    let mut p = 0;
    assert_eq!(read_string(b": \"MERC-001\", 5", &mut p), b"MERC-001");
    assert_eq!(p, 12);
    let mut p = 0;
    assert_eq!(read_string(b"\"\"x", &mut p), b"");
    assert_eq!(p, 2);
}

#[test]
fn unclosed_string_is_empty() {
    let mut p = 1;
    assert_eq!(read_string(b" \"abc", &mut p), b"");
    assert_eq!(p, 1);
    assert_eq!(read_string(b" abc", &mut p), b"");
    assert_eq!(p, 1);
}

#[test]
fn number_has_two_parts() {
    let mut p = 0;
    let n = read_number(b" -384.88,", &mut p).unwrap();
    assert!(n.negative);
    assert_eq!(n.whole, b"384");
    assert_eq!(n.fraction, b"88");
    assert_eq!(p, 8);
}

#[test]
fn either_part_of_a_number_may_be_missing() {
    let mut p = 0;
    let n = read_number(b"12", &mut p).unwrap();
    assert!(!n.negative);
    assert_eq!(n.whole, b"12");
    assert_eq!(n.fraction, b"");
    assert_eq!(p, 2);
    let mut p = 0;
    let n = read_number(b".5e3", &mut p).unwrap();
    assert_eq!(n.whole, b"");
    assert_eq!(n.fraction, b"5");
    assert_eq!(p, 2);
    let mut p = 0;
    let n = read_number(b"7.", &mut p).unwrap();
    assert_eq!(n.whole, b"7");
    assert_eq!(n.fraction, b"");
    assert_eq!(p, 2);
}

#[test]
fn number_without_digits_is_none() {
    for (text, end) in [("", 0), ("  ", 2), ("-", 1), (".", 1), ("-.", 2), ("x1", 0), ("-x", 1)] {
        let mut p = 0;
        assert!(read_number(text.as_bytes(), &mut p).is_none());
        assert_eq!(p, end);
    }
}

#[test]
fn booleans_are_read() {
    let mut p = 0;
    assert_eq!(read_bool(b"  true,", &mut p), Some(true));
    assert_eq!(p, 6);
    let mut p = 0;
    assert_eq!(read_bool(b"false", &mut p), Some(false));
    assert_eq!(p, 5);
    let mut p = 0;
    assert_eq!(read_bool(b" fals", &mut p), None);
    assert_eq!(p, 1);
    let mut p = 0;
    assert_eq!(read_bool(b"", &mut p), None);
}

#[test]
fn key_is_found_in_quotes() {
    let mut p = 0;
    assert!(seek_key(b"{\"idx\":1,\"id\":2}", &mut p, b"id"));
    assert_eq!(p, 13);
}

#[test]
fn key_without_quotes_is_not_found() {
    let mut p = 0;
    assert!(!seek_key(b"{id:2,\"xid\":3,\"id", &mut p, b"id"));
    assert_eq!(p, 15);
}

#[test]
fn key_may_begin_at_a_closing_quote() {
    let mut p = 0;
    assert!(seek_key(b"\"a\"id\"", &mut p, b"id"));
    assert_eq!(p, 6);
}
