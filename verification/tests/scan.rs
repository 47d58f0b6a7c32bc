use dexscreen_paid_notifier::scan::{
    contains_bytes, find_bytes_from, find_either_from, parse_u64, parse_u64_in, push_decimal,
    str_between,
};

#[test]
fn parses_unsigned_numbers_as_std_does() {
    for text in [
        "0", "7", "+7", "007", "18446744073709551615", "18446744073709551616", "", "+", "-",
        "-0", "-1", " 1", "1 ", "1.0", "1e3", "0x10", "++1", "12a",
    ] {
        assert_eq!(parse_u64(text), text.parse::<u64>().ok(), "text {:?}", text);
    }
}

#[test]
fn parses_a_range_of_bytes() {
    assert_eq!(parse_u64_in(b"ab123cd", 2, 5), Some(123));
    assert_eq!(parse_u64_in(b"ab123cd", 2, 2), None);
    assert_eq!(parse_u64_in(b"ab123cd", 1, 5), None);
}

#[test]
fn written_numbers_read_back() {
    for n in [0u64, 1, 9, 10, 99, 100, 12345, 1_712_345_678_901, u64::MAX] {
        let mut text = String::from("x");
        push_decimal(&mut text, n);
        assert_eq!(text[1..], n.to_string());
        assert_eq!(parse_u64(&text[1..]), Some(n));
    }
}

#[test]
fn finds_bytes() {
    assert_eq!(find_bytes_from(b"abcabc", b"bc", 0), Some(1));
    assert_eq!(find_bytes_from(b"abcabc", b"bc", 2), Some(4));
    assert_eq!(find_bytes_from(b"abcabc", b"bc", 5), None);
    assert_eq!(find_bytes_from(b"ab", b"abc", 0), None);
    assert_eq!(find_bytes_from(b"abc", b"", 1), Some(1));
    assert_eq!(find_either_from(b"a}b,c", b",", b"}", 0), Some(3));
    assert_eq!(find_either_from(b"a}bc", b",", b"}", 0), Some(1));
    assert_eq!(find_either_from(b"abc", b",", b"}", 0), None);
    assert!(contains_bytes(b"the order is processing", b"processing"));
    assert!(!contains_bytes(b"process", b"processing"));
}

#[test]
fn cuts_text_between_boundaries() {
    assert_eq!(str_between("hello world", 6, 11), "world");
    assert_eq!(str_between("caf\u{e9}!", 3, 5), "\u{e9}");
    assert_eq!(str_between("abc", 1, 1), "");
}
