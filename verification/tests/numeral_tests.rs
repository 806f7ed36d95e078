use sorted_json::numeral::int_to_string;
use sorted_json::numeral::parse_int;

#[test]
fn parse_simple_values() {
    assert_eq!(parse_int("0"), Some(0));
    assert_eq!(parse_int("7"), Some(7));
    assert_eq!(parse_int("42"), Some(42));
    assert_eq!(parse_int("-12"), Some(-12));
    assert_eq!(parse_int("-0"), Some(0));
}

#[test]
fn parse_accepts_leading_zeros() {
    assert_eq!(parse_int("007"), Some(7));
    assert_eq!(parse_int("-007"), Some(-7));
}

#[test]
fn parse_rejects_non_numeric_text() {
    assert_eq!(parse_int(""), None);
    assert_eq!(parse_int("-"), None);
    assert_eq!(parse_int("abc"), None);
    assert_eq!(parse_int("1a"), None);
    assert_eq!(parse_int("a1"), None);
    assert_eq!(parse_int("+5"), None);
    assert_eq!(parse_int("1 "), None);
    assert_eq!(parse_int(" 1"), None);
    assert_eq!(parse_int("1.5"), None);
    assert_eq!(parse_int("--1"), None);
}

#[test]
fn parse_boundary_values() {
    assert_eq!(parse_int("2147483647"), Some(i32::MAX));
    assert_eq!(parse_int("-2147483648"), Some(i32::MIN));
    assert_eq!(parse_int("2147483648"), None);
    assert_eq!(parse_int("-2147483649"), None);
    assert_eq!(parse_int("99999999999999999999"), None);
}

#[test]
fn render_simple_values() {
    assert_eq!(int_to_string(0), "0");
    assert_eq!(int_to_string(7), "7");
    assert_eq!(int_to_string(-5), "-5");
    assert_eq!(int_to_string(120), "120");
    assert_eq!(int_to_string(-10), "-10");
}

#[test]
fn render_boundary_values() {
    assert_eq!(int_to_string(i32::MAX), "2147483647");
    assert_eq!(int_to_string(i32::MIN), "-2147483648");
}

#[test]
fn parse_then_render_is_canonical() {
    for text in ["0", "-1", "37", "-2147483648", "2147483647"] {
        let v = parse_int(text).unwrap();
        assert_eq!(int_to_string(v), text);
    }
}
