use lis::parse_sequence;
use lis::ParseError;

#[test]
fn parses_a_json_array_of_integers() {
    assert_eq!(parse_sequence("[3, 1, 4, 1, 5]"), Ok(vec![3, 1, 4, 1, 5]));
}

#[test]
fn parses_the_empty_array() {
    assert_eq!(parse_sequence("[]"), Ok(Vec::new()));
}

#[test]
fn parses_negative_and_extreme_values() {
    assert_eq!(
        parse_sequence("[-2147483648, 0, 2147483647]"),
        Ok(vec![i32::MIN, 0, i32::MAX])
    );
}

#[test]
fn rejects_text_that_is_not_json() {
    assert_eq!(parse_sequence("not json"), Err(ParseError::Malformed));
}

#[test]
fn rejects_a_json_object() {
    assert_eq!(parse_sequence("{\"a\": 1}"), Err(ParseError::Malformed));
}

#[test]
fn rejects_non_integer_elements() {
    assert_eq!(parse_sequence("[1.5, 2]"), Err(ParseError::Malformed));
}

#[test]
fn rejects_values_out_of_i32_range() {
    assert_eq!(parse_sequence("[2147483648]"), Err(ParseError::Malformed));
}
