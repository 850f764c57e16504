//! Count parsing: the member-count text read as a non-negative integer.

use gym_count::count::parse_count_u32;

#[test]
fn parses_plain_count() {
    assert_eq!(parse_count_u32("57"), Some(57));
}

#[test]
fn parses_zero() {
    assert_eq!(parse_count_u32("0"), Some(0));
}

#[test]
fn parses_leading_zeros() {
    assert_eq!(parse_count_u32("00057"), Some(57));
}

#[test]
fn parses_leading_plus() {
    assert_eq!(parse_count_u32("+57"), Some(57));
}

#[test]
fn parses_largest_count() {
    assert_eq!(parse_count_u32("4294967295"), Some(u32::MAX));
}

#[test]
fn rejects_overflowing_count() {
    assert_eq!(parse_count_u32("4294967296"), None);
    assert_eq!(parse_count_u32("99999999999999999999"), None);
}

#[test]
fn rejects_empty_text() {
    assert_eq!(parse_count_u32(""), None);
    assert_eq!(parse_count_u32("+"), None);
}

#[test]
fn rejects_non_numeric_text() {
    assert_eq!(parse_count_u32("fifty-seven"), None);
    assert_eq!(parse_count_u32("5a"), None);
    assert_eq!(parse_count_u32("-1"), None);
}

#[test]
fn rejects_surrounding_whitespace() {
    assert_eq!(parse_count_u32(" 57"), None);
    assert_eq!(parse_count_u32("57 "), None);
    assert_eq!(parse_count_u32("5 7"), None);
}

#[test]
fn matches_std_u32_parsing() {
    for text in ["57", "+57", "0", "", "+", "007", "4294967295", "4294967296", "1e3", " 9"] {
        assert_eq!(parse_count_u32(text), text.parse::<u32>().ok(), "on {text:?}");
    }
}
