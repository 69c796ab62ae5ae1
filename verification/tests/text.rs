use slmsttaa::text::{
    chars_of, decimal_chars, parse_i32, parse_u32, parse_u64, split_any, split_words,
    string_from_chars, trim_range,
};

fn v(s: &str) -> Vec<char> {
    chars_of(s)
}

#[test]
fn numbers_parse_like_str_parse() {
    let s = v("+42");
    assert_eq!(parse_u64(&s, 0, s.len()), Some(42));
    let s = v("18446744073709551616");
    assert_eq!(parse_u64(&s, 0, s.len()), None);
    let s = v("18446744073709551615");
    assert_eq!(parse_u64(&s, 0, s.len()), Some(u64::MAX));
    let s = v("4294967296");
    assert_eq!(parse_u32(&s, 0, s.len()), None);
    for (text, want) in [("-2147483648", Some(i32::MIN)), ("2147483647", Some(i32::MAX)), ("2147483648", None), ("-", None), ("+", None), ("", None), ("-0", Some(0)), ("1 ", None), ("-+1", None)] {
        let s = v(text);
        assert_eq!(parse_i32(&s, 0, s.len()), want, "{text:?}");
    }
    let s = v("-1");
    assert_eq!(parse_u64(&s, 0, s.len()), None);
}

#[test]
fn trimming_and_splitting() {
    let s = v("  a b \t");
    assert_eq!(trim_range(&s, 0, s.len()), (2, 5));
    let s = v("a,,b");
    assert_eq!(split_any(&s, 0, s.len(), ',', ','), vec![(0, 1), (2, 2), (3, 4)]);
    let s = v("");
    assert_eq!(split_any(&s, 0, 0, ',', ','), vec![(0, 0)]);
    let s = v("  GET  /  ");
    assert_eq!(split_words(&s, 0, s.len()), vec![(2, 5), (7, 8)]);
}

#[test]
fn decimals_round_trip() {
    assert_eq!(string_from_chars(&decimal_chars(0)), "0");
    assert_eq!(string_from_chars(&decimal_chars(1_234_567)), "1234567");
    assert_eq!(string_from_chars(&decimal_chars(u64::MAX)), u64::MAX.to_string());
}
