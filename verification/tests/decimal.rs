use nano_downloader::decimal::{decimal_string, parse_u64, sum_text};

fn chars(s: &str) -> Vec<char> {
    s.chars().collect()
}

#[test]
fn parses_plain_digits() {
    assert_eq!(parse_u64(&chars("0")), Some(0));
    assert_eq!(parse_u64(&chars("12345")), Some(12345));
    assert_eq!(parse_u64(&chars("007")), Some(7));
}

#[test]
fn parses_leading_plus() {
    assert_eq!(parse_u64(&chars("+42")), Some(42));
    assert_eq!(parse_u64(&chars("+")), None);
    assert_eq!(parse_u64(&chars("-1")), None);
}

#[test]
fn refuses_empty_and_garbage() {
    assert_eq!(parse_u64(&chars("")), None);
    assert_eq!(parse_u64(&chars("12a")), None);
    assert_eq!(parse_u64(&chars(" 12")), None);
    assert_eq!(parse_u64(&chars("1 2")), None);
}

#[test]
fn parse_limits_match_std() {
    assert_eq!(parse_u64(&chars("18446744073709551615")), Some(u64::MAX));
    assert_eq!(parse_u64(&chars("18446744073709551616")), None);
    assert_eq!(parse_u64(&chars("99999999999999999999")), None);
    for s in ["", "+", "0", "+0", "-0", "1x", "٣", "00000000000000000000000000001", "18446744073709551615"] {
        assert_eq!(parse_u64(&chars(s)), s.parse::<u64>().ok(), "{:?}", s);
    }
}

#[test]
fn renders_decimal() {
    assert_eq!(decimal_string(0), "0");
    assert_eq!(decimal_string(9), "9");
    assert_eq!(decimal_string(10), "10");
    assert_eq!(decimal_string(1048575), "1048575");
    assert_eq!(decimal_string(u64::MAX), u64::MAX.to_string());
}

#[test]
fn decimal_roundtrip_on_samples() {
    for n in [0u64, 1, 9, 10, 99, 100, 12345678901234, u64::MAX - 1, u64::MAX] {
        assert_eq!(parse_u64(&chars(&decimal_string(n))), Some(n));
    }
}

#[test]
fn formats_sum() {
    assert_eq!(sum_text(2, 3), "5");
    assert_eq!(sum_text(0, 0), "0");
    assert_eq!(sum_text(999, 1), "1000");
}
