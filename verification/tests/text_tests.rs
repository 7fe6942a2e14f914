use hub_util::text::{
    find_sub, parse_i32, parse_u64, split_lines, split_str, starts_with, str_eq, u64_to_string,
};

#[test]
fn split_keeps_empty_chunks() {
    assert_eq!(split_str("a b", " "), vec!["a", "b"]);
    assert_eq!(split_str("a  b", " "), vec!["a", "", "b"]);
    assert_eq!(split_str("", " "), vec![""]);
    assert_eq!(split_str("one\n\ntwo\n\n", "\n\n"), vec!["one", "two", ""]);
}

#[test]
fn lines_drop_the_final_newline() {
    assert_eq!(split_lines("a\nb\n"), vec!["a", "b"]);
    assert_eq!(split_lines("a\nb"), vec!["a", "b"]);
    assert_eq!(split_lines(""), Vec::<String>::new());
    assert_eq!(split_lines("a\r\nb\r\n"), vec!["a", "b"]);
    assert_eq!(split_lines("a\n\nb"), vec!["a", "", "b"]);
}

#[test]
fn find_returns_first_occurrence() {
    assert_eq!(find_sub("0 test 1", " "), Some(1));
    assert_eq!(find_sub("nospace", " "), None);
    assert_eq!(find_sub("a: b: c", ": "), Some(1));
}

#[test]
fn integer_parsing_matches_the_grammar() {
    assert_eq!(parse_i32("0"), Some(0));
    assert_eq!(parse_i32("-1"), Some(-1));
    assert_eq!(parse_i32("+5"), Some(5));
    assert_eq!(parse_i32("2147483647"), Some(2147483647));
    assert_eq!(parse_i32("-2147483648"), Some(-2147483648));
    assert_eq!(parse_i32("2147483648"), None);
    assert_eq!(parse_i32("99999999999999999999999"), None);
    assert_eq!(parse_i32(""), None);
    assert_eq!(parse_i32("12a"), None);
    assert_eq!(parse_i32(" 1"), None);
    assert_eq!(parse_u64("37"), Some(37));
    assert_eq!(parse_u64("-1"), None);
    assert_eq!(parse_u64("0012"), Some(12));
}

#[test]
fn decimal_writing_matches_reading() {
    assert_eq!(u64_to_string(0), "0");
    assert_eq!(u64_to_string(9), "9");
    assert_eq!(u64_to_string(1234), "1234");
    assert_eq!(u64_to_string(18446744073709551615), "18446744073709551615");
}

#[test]
fn prefix_and_equality_checks() {
    assert!(starts_with("Version: 2.8", "Version: "));
    assert!(!starts_with("Ver", "Version: "));
    assert!(str_eq("ACK", "ACK"));
    assert!(!str_eq("ACK", "NACK"));
}
