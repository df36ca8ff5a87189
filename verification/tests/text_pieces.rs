use pico_th_collector::text::{parse_unsigned, split_pieces, str_equals};

#[test]
fn split_like_str_split() {
    for (text, sep) in [("a-b-c", '-'), ("", '-'), ("a-", '-'), ("-", '-'), ("x\ny\n", '\n'), ("one", ',')] {
        let expected: Vec<String> = text.split(sep).map(|s| s.to_string()).collect();
        assert_eq!(split_pieces(text, sep), expected);
    }
}

#[test]
fn text_equality() {
    assert!(str_equals("abc", "abc"));
    assert!(!str_equals("abc", "abd"));
    assert!(!str_equals("abc", "ab"));
}

#[test]
fn parse_u8_range() {
    assert_eq!(parse_unsigned("255", 255), Some(255));
    assert_eq!(parse_unsigned("256", 255), None);
}
