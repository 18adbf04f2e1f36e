use wm2026::text::{parse_u32, push_char, push_decimal, push_hex, str_equal, str_less};

#[test]
fn parse_u32_accepts_what_std_accepts() {
    assert_eq!(parse_u32("73"), Some(73));
    assert_eq!(parse_u32("+104"), Some(104));
    assert_eq!(parse_u32("007"), Some(7));
    assert_eq!(parse_u32("4294967295"), Some(u32::MAX));
}

#[test]
fn parse_u32_rejects_what_std_rejects() {
    assert_eq!(parse_u32(""), None);
    assert_eq!(parse_u32("+"), None);
    assert_eq!(parse_u32("-1"), None);
    assert_eq!(parse_u32("4294967296"), None);
    assert_eq!(parse_u32("12a"), None);
    assert_eq!(parse_u32(" 1"), None);
    for s in ["", "+", "-1", "4294967296", "12a", "99999999999", "0", "+0"] {
        assert_eq!(parse_u32(s), s.parse::<u32>().ok());
    }
}

#[test]
fn decimal_and_hex_notation() {
    let mut s = String::from("x");
    push_decimal(&mut s, 0);
    push_char(&mut s, ' ');
    push_decimal(&mut s, 1234567890);
    push_char(&mut s, ' ');
    push_hex(&mut s, 0);
    push_char(&mut s, ' ');
    push_hex(&mut s, 0xdeadbeef);
    push_char(&mut s, ' ');
    push_hex(&mut s, u64::MAX);
    assert_eq!(s, "x0 1234567890 0 deadbeef ffffffffffffffff");
}

#[test]
fn push_char_appends() {
    let mut s = String::new();
    push_char(&mut s, 'a');
    push_char(&mut s, '·');
    assert_eq!(s, "a·");
}

#[test]
fn string_comparisons() {
    assert!(str_equal("M73", "M73"));
    assert!(!str_equal("M73", "M7"));
    assert!(str_less("A:1v2", "A:1v3"));
    assert!(str_less("M7", "M73"));
    assert!(!str_less("M73", "M73"));
    assert!(!str_less("b", "a"));
    for (a, b) in [("", "a"), ("ab", "b"), ("Zz", "a"), ("é", "z"), ("a", "")] {
        assert_eq!(str_less(a, b), a < b);
    }
}
