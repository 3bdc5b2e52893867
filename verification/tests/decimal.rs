use vocabulary::decimal::{parse_decimal, push_decimal};

fn text_of(n: i32) -> String {
    let mut out: Vec<char> = Vec::new();
    push_decimal(&mut out, n);
    out.into_iter().collect()
}

fn value_of(s: &str) -> Option<i32> {
    let chars: Vec<char> = s.chars().collect();
    parse_decimal(&chars, 0, chars.len())
}

#[test]
fn decimal_text_of_small_numbers() {
    assert_eq!(text_of(0), "0");
    assert_eq!(text_of(7), "7");
    assert_eq!(text_of(10), "10");
    assert_eq!(text_of(1203), "1203");
    assert_eq!(text_of(-1), "-1");
    assert_eq!(text_of(-450), "-450");
}

#[test]
fn decimal_text_of_the_extremes() {
    assert_eq!(text_of(i32::MAX), "2147483647");
    assert_eq!(text_of(i32::MIN), "-2147483648");
}

#[test]
fn decimal_text_matches_the_standard_form() {
    for n in [0, 1, -1, 9, 10, 99, 100, 101, -100, 65535, -65536, 1_000_000_000, i32::MAX, i32::MIN] {
        assert_eq!(text_of(n), n.to_string());
    }
}

#[test]
fn push_decimal_appends_behind_what_is_there() {
    let mut out = vec!['x', '='];
    push_decimal(&mut out, -12);
    assert_eq!(out, vec!['x', '=', '-', '1', '2']);
}

#[test]
fn parse_decimal_reads_plain_numbers() {
    assert_eq!(value_of("0"), Some(0));
    assert_eq!(value_of("42"), Some(42));
    assert_eq!(value_of("-42"), Some(-42));
    assert_eq!(value_of("+42"), Some(42));
    assert_eq!(value_of("007"), Some(7));
    assert_eq!(value_of("-0"), Some(0));
}

#[test]
fn parse_decimal_reads_the_extremes() {
    assert_eq!(value_of("2147483647"), Some(i32::MAX));
    assert_eq!(value_of("-2147483648"), Some(i32::MIN));
    assert_eq!(value_of("2147483648"), None);
    assert_eq!(value_of("-2147483649"), None);
    assert_eq!(value_of("99999999999999999999999999"), None);
    assert_eq!(value_of("000000000000000000000000001"), Some(1));
}

#[test]
fn parse_decimal_rejects_what_is_no_number() {
    for s in ["", "-", "+", " 1", "1 ", "1.0", "0x10", "--1", "+-1", "1-", "abc", "1a", "\u{661}"] {
        assert_eq!(value_of(s), None, "{:?}", s);
    }
}

#[test]
fn parse_decimal_agrees_with_the_standard_parser() {
    for s in [
        "", "0", "-0", "+0", "1", "-1", "+1", "00", "12345", "-12345", "2147483647", "2147483648",
        "-2147483648", "-2147483649", "4294967296", " 5", "5 ", "5\r", "-", "+", "++1", "1e3", "١",
    ] {
        assert_eq!(value_of(s), s.parse::<i32>().ok(), "{:?}", s);
    }
}

#[test]
fn parse_decimal_reads_a_part() {
    let chars: Vec<char> = "id=-15;".chars().collect();
    assert_eq!(parse_decimal(&chars, 3, 6), Some(-15));
    assert_eq!(parse_decimal(&chars, 3, 7), None);
    assert_eq!(parse_decimal(&chars, 4, 4), None);
}

#[test]
fn reading_what_was_written_gives_the_number_back() {
    for n in [0, 5, -5, 120, i32::MAX, i32::MIN, 1 << 20] {
        assert_eq!(value_of(&text_of(n)), Some(n));
    }
}
