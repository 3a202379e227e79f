use nix_cache_mirror::text::{
    chars_of, find_char, find_separator, parse_u64_in, push_decimal, push_signed_decimal,
    range_is, string_of,
};

fn chars(s: &str) -> Vec<char> {
    s.chars().collect()
}

fn parse(s: &str) -> Option<u64> {
    let v = chars(s);
    parse_u64_in(&v, 0, v.len())
}

fn decimal(n: u64) -> String {
    let mut out = "n=".to_owned();
    push_decimal(&mut out, n);
    out
}

fn signed(n: i32) -> String {
    let mut out = String::new();
    push_signed_decimal(&mut out, n);
    out
}

#[test]
fn characters_and_strings() {
    assert_eq!(chars_of("aé\u{10348}z"), vec!['a', 'é', '\u{10348}', 'z']);
    assert!(chars_of("").is_empty());
    let v = chars("héllo");
    assert_eq!(string_of(&v, 1, 4), "éll");
    assert_eq!(string_of(&v, 2, 2), "");
    assert_eq!(string_of(&v, 0, 5), "héllo");
}

#[test]
fn searching() {
    let v = chars("key: a: b-c");
    assert_eq!(find_char(&v, 0, v.len(), '-'), 9);
    assert_eq!(find_char(&v, 0, v.len(), ':'), 3);
    assert_eq!(find_char(&v, 4, v.len(), ':'), 6);
    assert_eq!(find_char(&v, 0, 9, '-'), 9);
    assert_eq!(find_char(&v, 0, v.len(), 'x'), v.len());
    assert_eq!(find_char(&v, 5, 5, 'a'), 5);
    assert_eq!(find_separator(&v, 0, v.len()), 3);
    assert_eq!(find_separator(&v, 4, v.len()), 6);
    assert_eq!(find_separator(&v, 7, v.len()), v.len());
    // The colon at the end of the range has no space after it in the range.
    assert_eq!(find_separator(&v, 0, 4), 4);
    let w = chars("a:b :c:");
    assert_eq!(find_separator(&w, 0, w.len()), w.len());
}

#[test]
fn comparing() {
    let v = chars("URL: x");
    assert!(range_is(&v, 0, 3, "URL"));
    assert!(!range_is(&v, 0, 3, "URl"));
    assert!(!range_is(&v, 0, 3, "UR"));
    assert!(!range_is(&v, 0, 3, "URL:"));
    assert!(!range_is(&v, 0, 2, "URL"));
    assert!(range_is(&v, 3, 3, ""));
    assert!(!range_is(&v, 3, 4, ""));
}

#[test]
fn reading_numbers() {
    assert_eq!(parse("0"), Some(0));
    assert_eq!(parse("456"), Some(456));
    assert_eq!(parse("+456"), Some(456));
    assert_eq!(parse("000123"), Some(123));
    assert_eq!(parse("18446744073709551615"), Some(u64::MAX));
    assert_eq!(parse("18446744073709551616"), None);
    assert_eq!(parse("99999999999999999999999"), None);
    assert_eq!(parse(""), None);
    assert_eq!(parse("+"), None);
    assert_eq!(parse("++1"), None);
    assert_eq!(parse("-1"), None);
    assert_eq!(parse("1 "), None);
    assert_eq!(parse(" 1"), None);
    assert_eq!(parse("1_000"), None);
    assert_eq!(parse("１２"), None);
    assert_eq!(parse("0x10"), None);
    let v = chars("ab12cd");
    assert_eq!(parse_u64_in(&v, 2, 4), Some(12));
    assert_eq!(parse_u64_in(&v, 2, 5), None);
    assert_eq!(parse_u64_in(&v, 3, 3), None);
}

#[test]
fn writing_numbers() {
    assert_eq!(decimal(0), "n=0");
    assert_eq!(decimal(9), "n=9");
    assert_eq!(decimal(10), "n=10");
    assert_eq!(decimal(1_000_000), "n=1000000");
    assert_eq!(decimal(u64::MAX), "n=18446744073709551615");
    assert_eq!(signed(0), "0");
    assert_eq!(signed(40), "40");
    assert_eq!(signed(-1), "-1");
    assert_eq!(signed(i32::MAX), "2147483647");
    assert_eq!(signed(i32::MIN), "-2147483648");
    for n in [0u64, 7, 42, 1234567890123, u64::MAX] {
        assert_eq!(parse(&decimal(n)[2..]), Some(n));
    }
}
