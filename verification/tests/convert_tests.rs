use sorted_json::convert;
use sorted_json::ConversionError;

fn lines(xs: &[&str]) -> Vec<String> {
    xs.iter().map(|s| s.to_string()).collect()
}

#[test]
fn empty_input_yields_empty_array() {
    let out = convert(&lines(&[])).unwrap();
    assert_eq!(out, "[]");
}

#[test]
fn blank_lines_only_yield_empty_array() {
    let out = convert(&lines(&["", "", ""])).unwrap();
    assert_eq!(out, "[]");
}

#[test]
fn negative_values_sorted() {
    let out = convert(&lines(&["-5", "3", "-1"])).unwrap();
    assert_eq!(out, "[-5,-1,3]");
}

#[test]
fn duplicates_preserved() {
    let out = convert(&lines(&["2", "2", "1"])).unwrap();
    assert_eq!(out, "[1,2,2]");
}

#[test]
fn already_sorted_input_kept() {
    let out = convert(&lines(&["1", "2", "3"])).unwrap();
    assert_eq!(out, "[1,2,3]");
}

#[test]
fn single_value() {
    let out = convert(&lines(&["42"])).unwrap();
    assert_eq!(out, "[42]");
}

#[test]
fn empty_lines_skipped_between_values() {
    let out = convert(&lines(&["3", "", "1", ""])).unwrap();
    assert_eq!(out, "[1,3]");
}

#[test]
fn cardinality_matches_nonempty_lines() {
    let out = convert(&lines(&["9", "", "8", "7", ""])).unwrap();
    assert_eq!(out, "[7,8,9]");
    let commas = out.matches(',').count();
    assert_eq!(commas + 1, 3);
}

#[test]
fn malformed_line_fails_with_parse_failure() {
    let r = convert(&lines(&["1", "abc", "3"]));
    match r {
        Err(ConversionError::ParseFailure { line_number, raw_text }) => {
            assert_eq!(line_number, 2);
            assert_eq!(raw_text, "abc");
        }
        _ => panic!("expected a parse failure"),
    }
}

#[test]
fn first_bad_line_is_reported() {
    let r = convert(&lines(&["x", "y"]));
    match r {
        Err(ConversionError::ParseFailure { line_number, raw_text }) => {
            assert_eq!(line_number, 1);
            assert_eq!(raw_text, "x");
        }
        _ => panic!("expected a parse failure"),
    }
}

#[test]
fn boundary_values_survive() {
    let out = convert(&lines(&["2147483647", "-2147483648", "0"])).unwrap();
    assert_eq!(out, "[-2147483648,0,2147483647]");
}

#[test]
fn value_beyond_range_fails() {
    let r = convert(&lines(&["2147483648"]));
    assert!(matches!(r, Err(ConversionError::ParseFailure { line_number: 1, .. })));
    let r = convert(&lines(&["-2147483649"]));
    assert!(matches!(r, Err(ConversionError::ParseFailure { line_number: 1, .. })));
}

#[test]
fn sortedness_of_output() {
    let out = convert(&lines(&["10", "-3", "7", "0", "-3"])).unwrap();
    assert_eq!(out, "[-3,-3,0,7,10]");
}
