//! The front end's number reading: decimal tokens with the whitespace that
//! line splitting leaves on them.

use graph_service::parse::parse_int;

#[test]
fn plain_digits() {
    assert_eq!(parse_int("42"), 42);
    assert_eq!(parse_int("0"), 0);
    assert_eq!(parse_int("007"), 7);
}

#[test]
fn surrounding_whitespace_is_ignored() {
    assert_eq!(parse_int("  17\n"), 17);
    assert_eq!(parse_int("\t3 "), 3);
    assert_eq!(parse_int("9\r\n"), 9);
}

#[test]
fn largest_value_fits() {
    assert_eq!(parse_int("4294967295"), u32::MAX);
}
