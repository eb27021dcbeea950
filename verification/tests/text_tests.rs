use itgla::text::{decimal_string, join_comma_space, parse_u16_str, split_on, trim_str};

#[test]
fn trimming_removes_unicode_whitespace() {
    assert_eq!(trim_str("\u{3000} a b \n"), "a b");
    assert_eq!(trim_str("   "), "");
}

#[test]
fn splitting_and_joining() {
    assert_eq!(split_on("a,b，c", ',', '\u{ff0c}'), vec!["a", "b", "c"]);
    assert_eq!(split_on(",", ',', ','), vec!["", ""]);
    assert_eq!(join_comma_space(&vec!["a".to_string(), "b".to_string()]), "a, b");
    assert_eq!(join_comma_space(&Vec::new()), "");
}

#[test]
fn numbers_are_parsed_and_written_in_decimal() {
    assert_eq!(parse_u16_str("00042"), Some(42));
    assert_eq!(parse_u16_str("+65535"), Some(65535));
    assert_eq!(parse_u16_str("99999999999999999999"), None);
    assert_eq!(parse_u16_str(""), None);
    assert_eq!(decimal_string(0), "0");
    assert_eq!(decimal_string(18446744073709551615), "18446744073709551615");
}
