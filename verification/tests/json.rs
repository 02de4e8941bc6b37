use bonolith::json::strip_trailing_commas;

#[test]
fn strip_trailing_commas_basic_array_and_object() {
    let input = r#"[{"a":1,"b":2,},]"#;
    assert_eq!(strip_trailing_commas(input), r#"[{"a":1,"b":2}]"#);
}

#[test]
fn strip_trailing_commas_with_whitespace() {
    let input = "[\n  1,\n  2,\n]\n";
    assert_eq!(strip_trailing_commas(input), "[\n  1,\n  2\n]\n");
}

#[test]
fn strip_trailing_commas_preserves_string_content() {
    let input = r#"{"a":"b,]","c":1,}"#;
    assert_eq!(strip_trailing_commas(input), r#"{"a":"b,]","c":1}"#);
}

#[test]
fn strip_trailing_commas_handles_escaped_quote_in_string() {
    let input = r#"{"a":"x\",y","b":2,}"#;
    assert_eq!(strip_trailing_commas(input), r#"{"a":"x\",y","b":2}"#);
}

#[test]
fn clean_text_is_left_alone() {
    let input = r#"{"a":[1,2],"b":",}"}"#;
    assert_eq!(strip_trailing_commas(input), input);
    assert_eq!(strip_trailing_commas(""), "");
}
