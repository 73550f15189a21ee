use galaxy_systrkr::text::{parse_trimmed_i32, parse_trimmed_u64, str_starts_with, trimmed};

#[test]
fn trimmed_removes_unicode_whitespace() {
    assert_eq!(trimmed("\u{a0} x y \t\n"), "x y");
    assert_eq!(trimmed("   "), "");
}

#[test]
fn counters_parse_after_trimming() {
    assert_eq!(parse_trimmed_u64(" 42\n"), Some(42));
    assert_eq!(parse_trimmed_u64("18446744073709551616"), None);
    assert_eq!(parse_trimmed_u64("4 2"), None);
}

#[test]
fn signed_values_parse_within_range() {
    assert_eq!(parse_trimmed_i32("55000\n"), Some(55000));
    assert_eq!(parse_trimmed_i32("-2147483648"), Some(i32::MIN));
    assert_eq!(parse_trimmed_i32("2147483648"), None);
    assert_eq!(parse_trimmed_i32("-"), None);
    assert_eq!(parse_trimmed_i32("-+1"), None);
}

#[test]
fn prefix_check() {
    assert!(str_starts_with("card0", "card"));
    assert!(!str_starts_with("car", "card"));
}
