use aegisec_agent::text::{chars_of, decimal_string, parse_radix, split_whitespace, trim_str};

#[test]
fn decimal_numbers() {
    assert_eq!(decimal_string(0), "0");
    assert_eq!(decimal_string(1000), "1000");
    assert_eq!(decimal_string(u64::MAX), "18446744073709551615");
}

#[test]
fn trimming_unicode_white_space() {
    assert_eq!(trim_str("  a b \n"), "a b");
    assert_eq!(trim_str("\u{3000}x\u{a0}"), "x");
    assert_eq!(trim_str("   "), "");
}

#[test]
fn parsing_in_radix() {
    assert_eq!(parse_radix(&chars_of("ff"), 16, 0xffff), Some(255));
    assert_eq!(parse_radix(&chars_of("FFFF"), 16, 0xffff), Some(0xffff));
    assert_eq!(parse_radix(&chars_of("10000"), 16, 0xffff), None);
    assert_eq!(parse_radix(&chars_of("+12"), 10, 100), Some(12));
    assert_eq!(parse_radix(&chars_of("+"), 10, 100), None);
    assert_eq!(parse_radix(&chars_of("-1"), 10, 100), None);
    assert_eq!(parse_radix(&chars_of(""), 10, 100), None);
    assert_eq!(parse_radix(&chars_of("12a"), 10, 100), None);
}

#[test]
fn whitespace_fields() {
    let f = split_whitespace(&chars_of("  a  bc\td "));
    assert_eq!(f.len(), 3);
    assert_eq!(f[1], chars_of("bc"));
}
