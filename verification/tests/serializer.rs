use json_parser::parse;
use json_parser::types::Value;

#[test]
fn renders_scalars() {
    assert_eq!(Value::Null.to_text(), "null");
    assert_eq!(Value::Boolean(true).to_text(), "true");
    assert_eq!(Value::Boolean(false).to_text(), "false");
    assert_eq!(Value::Number("123.456".to_owned()).to_text(), "123.456");
    assert_eq!(Value::String("hello".to_owned()).to_text(), "\"hello\"");
}

#[test]
fn renders_empty_containers_without_inner_whitespace() {
    assert_eq!(Value::Array(vec![]).to_text(), "[]");
    assert_eq!(Value::Object(vec![]).to_text(), "{}");
}

#[test]
fn renders_array_with_indented_lines() {
    let v = Value::Array(vec![
        Value::Number("1".to_owned()),
        Value::Array(vec![Value::Null]),
    ]);
    assert_eq!(v.to_text(), "[\n    1,\n    [\n        null\n    ]\n]");
}

#[test]
fn renders_object_with_indented_member_lines() {
    let v = Value::Object(vec![
        ("a".to_owned(), Value::Number("1".to_owned())),
        ("b".to_owned(), Value::String("x".to_owned())),
    ]);
    assert_eq!(v.to_text(), "{\n    \"a\" : 1,\n    \"b\" : \"x\"\n}");
}

#[test]
fn renders_strings_verbatim() {
    let v = Value::String("a\\nb".to_owned());
    assert_eq!(v.to_text(), "\"a\\nb\"");
}

#[test]
fn round_trips_scalars() {
    for text in ["null", "true", "false", "0", "-123", "123.456", "\"hello\""] {
        let v = parse(text).unwrap();
        let again = parse(&v.to_text()).unwrap();
        assert_eq!(v, again);
    }
}

#[test]
fn round_trips_nested_document() {
    let text = r#"{
        "title": "example",
        "count": 3,
        "tags": ["a", "b"],
        "nested": {"flag": true, "nothing": null},
        "empty_list": [],
        "empty_map": {}
    }"#;
    let v = parse(text).unwrap();
    let rendered = v.to_text();
    let again = parse(&rendered).unwrap();
    assert_eq!(v, again);
    let third = parse(&again.to_text()).unwrap();
    assert_eq!(again, third);
}

#[test]
fn round_trips_numbers_with_exponents() {
    let v = parse("[123e+3, 0.5, -2E-2]").unwrap();
    let again = parse(&v.to_text()).unwrap();
    assert_eq!(v, again);
}
