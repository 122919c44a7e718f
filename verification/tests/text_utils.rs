use dy::text::{parse_i32_str, split_into_lines, split_on_spaces, str_eq, trim_str};

#[test]
fn test_parse_i32_accepts_plain_numbers() {
    assert_eq!(parse_i32_str("0"), Some(0));
    assert_eq!(parse_i32_str("42"), Some(42));
    assert_eq!(parse_i32_str("+42"), Some(42));
    assert_eq!(parse_i32_str("-42"), Some(-42));
    assert_eq!(parse_i32_str("007"), Some(7));
    assert_eq!(parse_i32_str("2147483647"), Some(2147483647));
    assert_eq!(parse_i32_str("-2147483648"), Some(-2147483648));
}

#[test]
fn test_parse_i32_rejects_other_texts() {
    assert_eq!(parse_i32_str(""), None);
    assert_eq!(parse_i32_str("-"), None);
    assert_eq!(parse_i32_str("+"), None);
    assert_eq!(parse_i32_str("blabla"), None);
    assert_eq!(parse_i32_str("12a"), None);
    assert_eq!(parse_i32_str(" 12"), None);
    assert_eq!(parse_i32_str("2147483648"), None);
    assert_eq!(parse_i32_str("-2147483649"), None);
    assert_eq!(parse_i32_str("99999999999999999999"), None);
}

#[test]
fn test_trim_removes_surrounding_whitespace() {
    assert_eq!(trim_str("  hey there \t "), "hey there".to_string());
    assert_eq!(trim_str("\n\nhey\n"), "hey".to_string());
    assert_eq!(trim_str("   "), "".to_string());
    assert_eq!(trim_str(""), "".to_string());
    assert_eq!(trim_str("plain"), "plain".to_string());
}

#[test]
fn test_split_into_lines_matches_line_conventions() {
    assert_eq!(split_into_lines(""), Vec::<String>::new());
    assert_eq!(split_into_lines("a"), vec!["a".to_string()]);
    assert_eq!(split_into_lines("a\n"), vec!["a".to_string()]);
    assert_eq!(split_into_lines("a\nb"), vec!["a".to_string(), "b".to_string()]);
    assert_eq!(
        split_into_lines("a\r\nb\r\n"),
        vec!["a".to_string(), "b".to_string()]
    );
    assert_eq!(split_into_lines("\n\n"), vec!["".to_string(), "".to_string()]);
}

#[test]
fn test_split_on_spaces_keeps_empty_pieces() {
    assert_eq!(
        split_on_spaces("a b"),
        vec!["a".to_string(), "b".to_string()]
    );
    assert_eq!(
        split_on_spaces("a  b"),
        vec!["a".to_string(), "".to_string(), "b".to_string()]
    );
    assert_eq!(split_on_spaces(""), vec!["".to_string()]);
}

#[test]
fn test_str_eq_compares_characters() {
    assert!(str_eq("héllo", "héllo"));
    assert!(!str_eq("hello", "hellos"));
    assert!(!str_eq("hello", "hellA"));
}
