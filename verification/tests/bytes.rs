use rinha_fraud::bytes::{find_byte, find_match, is_match, read_i16, read_u32, read_u64};

#[test]
fn integers_are_little_endian() {
    let s = [0xff, 0x01, 0x02, 0x03, 0x04, 0x05, 0x06, 0x07, 0x88];
    assert_eq!(read_u32(&s, 1), 0x04030201);
    assert_eq!(read_u64(&s, 1), 0x8807060504030201);
    assert_eq!(read_i16(&s, 1), 0x0201);
    assert_eq!(read_i16(&s, 0), 0x01ff);
}

#[test]
fn negative_coordinates_are_read_back() {
    for n in [i16::MIN, -10000, -1, 0, 1, 10000, i16::MAX] {
        assert_eq!(read_i16(&n.to_le_bytes(), 0), n);
    }
}

#[test]
fn first_byte_counts_from_the_start_given() {
    assert_eq!(find_byte(b"abcabc", 0, b'b'), Some(1));
    assert_eq!(find_byte(b"abcabc", 2, b'b'), Some(4));
    assert_eq!(find_byte(b"abcabc", 5, b'b'), None);
    assert_eq!(find_byte(b"abcabc", 6, b'a'), None);
}

#[test]
fn matches_stay_inside_the_text() {
    assert!(is_match(b"null", 0, b"null"));
    assert!(!is_match(b"null", 1, b"null"));
    assert!(!is_match(b"nul", 0, b"null"));
    assert!(is_match(b"abc", 3, b""));
    assert_eq!(find_match(b"a known known", 0, b"known"), Some(2));
    assert_eq!(find_match(b"a known known", 3, b"known"), Some(8));
    assert_eq!(find_match(b"a known kno", 3, b"known"), None);
}
