use stash_snitch::text::{
    chars_of, eq_ignoring_case, parse_u32, push_decimal, push_signed_decimal, split_chars,
};

fn chars(s: &str) -> Vec<char> {
    s.chars().collect()
}

fn fields(s: &str, sep: char) -> Vec<String> {
    split_chars(&chars(s), sep).into_iter().map(|f| f.into_iter().collect()).collect()
}

#[test]
fn chars_of_keeps_every_character() {
    assert_eq!(chars_of("a:ß,1"), vec!['a', ':', 'ß', ',', '1']);
    assert_eq!(chars_of(""), Vec::<char>::new());
}

#[test]
fn split_yields_the_text_between_separators() {
    assert_eq!(fields("a,b,c", ','), vec!["a", "b", "c"]);
    assert_eq!(fields("10:20:30", ':'), vec!["10", "20", "30"]);
    assert_eq!(fields("no separator", ','), vec!["no separator"]);
}

#[test]
fn split_keeps_empty_fields() {
    assert_eq!(fields("", ','), vec![""]);
    assert_eq!(fields(",", ','), vec!["", ""]);
    assert_eq!(fields("a,,b,", ','), vec!["a", "", "b", ""]);
    assert_eq!(fields(",a", ','), vec!["", "a"]);
}

#[test]
fn split_agrees_with_the_standard_library() {
    for text in ["", "a", ":", "::", "1:2:3", ":1:", "a:b:c:d:e", "x::y"] {
        let expected: Vec<String> = text.split(':').map(|f| f.to_string()).collect();
        assert_eq!(fields(text, ':'), expected, "splitting {:?}", text);
    }
}

#[test]
fn parse_u32_reads_decimal_numbers() {
    assert_eq!(parse_u32(&chars("0")), Some(0));
    assert_eq!(parse_u32(&chars("7")), Some(7));
    assert_eq!(parse_u32(&chars("0042")), Some(42));
    assert_eq!(parse_u32(&chars("+15")), Some(15));
    assert_eq!(parse_u32(&chars("4294967295")), Some(u32::MAX));
    assert_eq!(parse_u32(&chars("00000000004294967295")), Some(u32::MAX));
}

#[test]
fn parse_u32_refuses_everything_else() {
    for text in [
        "", "+", "-", "-1", "++1", "+-1", " 1", "1 ", "1_000", "12a", "a12", "1.5", "0x10",
        "4294967296", "99999999999999999999999999", "١٢",
    ] {
        assert_eq!(parse_u32(&chars(text)), None, "parsing {:?}", text);
    }
}

#[test]
fn parse_u32_agrees_with_the_standard_library() {
    for text in [
        "", "0", "+0", "-0", "+", "1", "+1", "-1", "10", "010", "4294967295", "4294967296",
        "42949672950", "+4294967295", "18446744073709551616", "1a", " 1", "1 ", "٣",
    ] {
        assert_eq!(parse_u32(&chars(text)), text.parse::<u32>().ok(), "parsing {:?}", text);
    }
}

#[test]
fn names_are_compared_without_regard_to_ascii_case() {
    assert!(eq_ignoring_case(&chars("X-Rate-Limit-Rules"), &chars("x-rate-limit-rules")));
    assert!(eq_ignoring_case(&chars("ABCxyz019-_"), &chars("abcXYZ019-_")));
    assert!(eq_ignoring_case(&chars(""), &chars("")));
    assert!(!eq_ignoring_case(&chars("abc"), &chars("abd")));
    assert!(!eq_ignoring_case(&chars("abc"), &chars("abcd")));
    assert!(!eq_ignoring_case(&chars("@"), &chars("`")));
    assert!(!eq_ignoring_case(&chars("["), &chars("{")));
    assert!(!eq_ignoring_case(&chars("Ä"), &chars("ä")));
}

#[test]
fn push_decimal_writes_without_leading_zeros() {
    for n in [0u64, 1, 9, 10, 11, 99, 100, 1_600_000_000, u64::MAX] {
        let mut out = String::from("t=");
        push_decimal(&mut out, n);
        assert_eq!(out, format!("t={}", n));
    }
}

#[test]
fn push_signed_decimal_writes_the_sign_of_negative_numbers() {
    for n in [0i64, 1, -1, 10, -10, 12345, -12345, i64::MAX, i64::MIN, i64::MIN + 1] {
        let mut out = String::new();
        push_signed_decimal(&mut out, n);
        assert_eq!(out, format!("{}", n));
    }
}

#[test]
fn what_push_decimal_writes_is_read_back_by_parse_u32() {
    for n in [0u32, 1, 9, 10, 4711, u32::MAX] {
        let mut out = String::new();
        push_decimal(&mut out, n as u64);
        assert_eq!(parse_u32(&chars(&out)), Some(n));
    }
}
