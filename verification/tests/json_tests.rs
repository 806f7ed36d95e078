use sorted_json::json::parse_json_array;
use sorted_json::json::render_json;
use sorted_json::sorting::sort_values;

#[test]
fn render_empty_array() {
    assert_eq!(render_json(&vec![]), "[]");
}

#[test]
fn render_values() {
    assert_eq!(render_json(&vec![1, 2, 3]), "[1,2,3]");
    assert_eq!(render_json(&vec![-5, -1, 3]), "[-5,-1,3]");
    assert_eq!(render_json(&vec![0]), "[0]");
}

#[test]
fn parse_empty_array() {
    assert_eq!(parse_json_array("[]"), Some(vec![]));
}

#[test]
fn parse_values() {
    assert_eq!(parse_json_array("[1,2]"), Some(vec![1, 2]));
    assert_eq!(parse_json_array("[-5]"), Some(vec![-5]));
    assert_eq!(parse_json_array("[-2147483648,2147483647]"), Some(vec![i32::MIN, i32::MAX]));
}

#[test]
fn parse_rejects_malformed_text() {
    assert_eq!(parse_json_array(""), None);
    assert_eq!(parse_json_array("1,2"), None);
    assert_eq!(parse_json_array("[1,2"), None);
    assert_eq!(parse_json_array("1,2]"), None);
    assert_eq!(parse_json_array("[1,,2]"), None);
    assert_eq!(parse_json_array("[1,2,]"), None);
    assert_eq!(parse_json_array("[,1]"), None);
    assert_eq!(parse_json_array("[ 1]"), None);
    assert_eq!(parse_json_array("[a]"), None);
    assert_eq!(parse_json_array("[2147483648]"), None);
}

#[test]
fn parse_rejects_non_canonical_numerals() {
    assert_eq!(parse_json_array("[01]"), None);
    assert_eq!(parse_json_array("[-0]"), None);
    assert_eq!(parse_json_array("[+1]"), None);
}

#[test]
fn serialization_round_trip() {
    for vals in [vec![], vec![0], vec![-5, -1, 3], vec![1, 2, 2], vec![i32::MIN, 7, i32::MAX]] {
        let text = render_json(&vals);
        let back = parse_json_array(&text).unwrap();
        assert_eq!(back, vals);
        assert_eq!(render_json(&back), text);
    }
}

#[test]
fn parse_then_render_restores_text() {
    for text in ["[]", "[0]", "[-3,7]", "[5,5,5]"] {
        let vals = parse_json_array(text).unwrap();
        assert_eq!(render_json(&vals), text);
    }
}

#[test]
fn sort_orders_ascending() {
    let mut v = vec![3, 1, 2];
    sort_values(&mut v);
    assert_eq!(v, vec![1, 2, 3]);
}

#[test]
fn sort_keeps_duplicates() {
    let mut v = vec![2, 2, 1, -7, 2];
    sort_values(&mut v);
    assert_eq!(v, vec![-7, 1, 2, 2, 2]);
}

#[test]
fn sort_of_empty_is_empty() {
    let mut v: Vec<i32> = vec![];
    sort_values(&mut v);
    assert!(v.is_empty());
}
