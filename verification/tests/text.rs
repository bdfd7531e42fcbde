//! Text handling.
use adb_portscan::text::{
    decimal, digits, eq_ignore_case, le, parse_unsigned, rsplit_once, split_once, trim,
};

#[test]
fn trimming() {
    assert_eq!(trim("  a b\t\n"), "a b");
    assert_eq!(trim("\u{3000}\u{a0}x\u{2028}"), "x");
    assert_eq!(trim(" \t "), "");
    assert_eq!(trim("\u{200b}x"), "\u{200b}x");
    for c in (0u32..0x3100).filter_map(char::from_u32) {
        let s = c.to_string();
        assert_eq!(trim(&s), s.trim(), "{:x}", c as u32);
    }
}

#[test]
fn cutting() {
    assert_eq!(split_once("a%b%c", '%'), Some(("a".to_string(), "b%c".to_string())));
    assert_eq!(rsplit_once("a/b/c", '/'), Some(("a/b".to_string(), "c".to_string())));
    assert_eq!(split_once("abc", '%'), None);
    assert_eq!(rsplit_once("/", '/'), Some((String::new(), String::new())));
}

#[test]
fn numbers() {
    for s in ["0", "007", "+5", "255", "256", "", "+", "-1", "1 ", "٣", "99999999999999999999"] {
        assert_eq!(parse_unsigned(s, 255), s.parse::<u8>().ok().map(u64::from), "{s}");
        assert_eq!(parse_unsigned(s, u64::MAX), s.parse::<u64>().ok(), "{s}");
    }
    assert_eq!(parse_unsigned("18446744073709551615", u64::MAX), Some(u64::MAX));
    assert_eq!(decimal(0), "0");
    assert_eq!(decimal(u64::MAX), "18446744073709551615");
    assert_eq!(digits(0xbeef, 16), "beef");
}

#[test]
fn order_of_texts() {
    let words = ["", "10", "9", "A", "a", "ab", "b", "é", "手", "\u{ffff}", "😀"];
    for a in words {
        for b in words {
            assert_eq!(le(a, b), a <= b, "{a} {b}");
        }
    }
}

#[test]
fn case_of_ascii_letters() {
    assert!(eq_ignore_case("_ADB._tcp", "_adb._TCP"));
    assert!(!eq_ignore_case("é", "É"));
    assert!(!eq_ignore_case("a", "ab"));
}
