use klog_lsp::decimal::{
    add_num, capped_value, is_whole_exec, less_num, less_than_24, mul_digit, parse_decimal,
    round_capped, shift_left, sub_num,
};
use klog_lsp::number::{is_ascii_digit, nat_chars, parse_i32_chars, zero_pad_chars};
use klog_lsp::text::{
    chars_of, contains_char, is_whitespace, lines_of, starts_with_chars, string_of, tokens_of,
    trim_chars,
};

fn digits(s: &str) -> Vec<char> {
    s.chars().collect()
}

fn value(v: &[char]) -> u128 {
    v.iter().fold(0, |acc, c| acc * 10 + (*c as u128 - '0' as u128))
}

fn strings(v: &[Vec<char>]) -> Vec<String> {
    v.iter().map(|t| t.iter().collect()).collect()
}

#[test]
fn digit_string_arithmetic() {
    assert_eq!(value(&shift_left(&digits("77"), 2)), 7700);
    assert_eq!(value(&mul_digit(&digits("77"), 6)), 462);
    assert_eq!(value(&add_num(&digits("999"), &digits("1"))), 1000);
    assert_eq!(value(&sub_num(&digits("1000"), &digits("538"))), 462);
    assert!(less_num(&digits("0099"), &digits("100")));
    assert!(!less_num(&digits("100"), &digits("100")));
    assert_eq!(capped_value(&digits("462")), 462);
    assert_eq!(capped_value(&digits("99999999999")), (1u64 << 31) + 1);
}

#[test]
fn rounding_halves_away_from_zero() {
    // 4620 / 10 = 462; 4625 / 10 = 462.5 -> 463; 4624 / 10 -> 462.
    assert_eq!(round_capped(&digits("4620"), 1), 462);
    assert_eq!(round_capped(&digits("4625"), 1), 463);
    assert_eq!(round_capped(&digits("4624"), 1), 462);
    assert_eq!(round_capped(&digits("5"), 0), 5);
}

#[test]
fn decimals_as_written() {
    let d = parse_decimal(&digits("-7.50")).unwrap();
    assert!(d.neg);
    assert_eq!(d.digits, digits("750"));
    assert_eq!(d.scale, 2);
    assert_eq!(d.whole_part, digits("7"));
    assert!(!is_whole_exec(&d));
    assert!(less_than_24(&d));
    let w = parse_decimal(&digits("450.0")).unwrap();
    assert!(is_whole_exec(&w));
    assert!(!less_than_24(&w));
    let dot = parse_decimal(&digits(".5")).unwrap();
    assert_eq!((dot.digits.clone(), dot.scale), (digits("5"), 1));
    assert!(parse_decimal(&digits("")).is_none());
    assert!(parse_decimal(&digits(".")).is_none());
    let e = parse_decimal(&digits("1.5e3")).unwrap();
    assert_eq!((e.digits.clone(), e.scale, e.whole_part.clone()), (digits("1500"), 0, digits("1500")));
    let small = parse_decimal(&digits("1.5E-7")).unwrap();
    assert_eq!((small.digits.clone(), small.scale), (digits("00000015"), 8));
    assert!(!is_whole_exec(&small));
    let mid = parse_decimal(&digits("12.5e-1")).unwrap();
    assert_eq!((mid.digits.clone(), mid.scale, mid.whole_part.clone()), (digits("125"), 2, digits("1")));
    assert!(parse_decimal(&digits("1e")).is_none());
    assert!(parse_decimal(&digits("e3")).is_none());
    assert!(parse_decimal(&digits("1e+")).is_none());
    assert!(parse_decimal(&digits("1.2.3")).is_none());
}

#[test]
fn integers_read_and_written() {
    assert_eq!(parse_i32_chars(&digits("+42")), Some(42));
    assert_eq!(parse_i32_chars(&digits("-2147483648")), Some(i32::MIN));
    assert_eq!(parse_i32_chars(&digits("2147483648")), None);
    assert_eq!(parse_i32_chars(&digits("")), None);
    assert_eq!(parse_i32_chars(&digits("-")), None);
    assert_eq!(parse_i32_chars(&digits("1 ")), None);
    assert_eq!(nat_chars(0), digits("0"));
    assert_eq!(nat_chars(9702), digits("9702"));
    assert_eq!(zero_pad_chars(5, 2), digits("05"));
    assert_eq!(zero_pad_chars(2026, 4), digits("2026"));
    assert!(is_ascii_digit('7'));
    assert!(!is_ascii_digit('٣'));
}

#[test]
fn text_helpers() {
    let v = chars_of("  a b\u{3000}c  ");
    assert_eq!(string_of(&trim_chars(&v)), "a b\u{3000}c");
    assert_eq!(strings(&tokens_of(&v)), vec!["a", "b", "c"]);
    assert_eq!(strings(&lines_of(&chars_of("x\r\ny\n\nz\n"))), vec!["x", "y", "", "z"]);
    assert_eq!(strings(&lines_of(&chars_of(""))), Vec::<String>::new());
    assert!(is_whitespace('\u{a0}'));
    assert!(!is_whitespace('x'));
    assert!(starts_with_chars(&chars_of("Total: 1h"), &chars_of("Total:")));
    assert!(!starts_with_chars(&chars_of("Tot"), &chars_of("Total:")));
    assert!(contains_char(&chars_of("1h30m"), 'm'));
}
