use json_parser::parser::parse;
use json_parser::types::Token;

#[test]
fn parser_rejects_empty_input() {
    let tokens = vec![];
    assert!(parse(tokens).is_err());
}

#[test]
fn rejects_overrun_input() {
    let tokens = vec![Token::Punct('{'), Token::Punct('}'), Token::String("".to_owned())];
    assert!(parse(tokens).is_err());
}

#[test]
fn parser_accepts_string() {
    let tokens = vec![Token::String("".to_owned())];
    assert!(parse(tokens).is_ok());
}

#[test]
fn parser_accepts_number() {
    let tokens = vec![Token::Number("0".to_owned())];
    assert!(parse(tokens).is_ok());
}

#[test]
fn parser_accepts_true() {
    let tokens = vec![Token::True];
    assert!(parse(tokens).is_ok());
}

#[test]
fn parser_accepts_false() {
    let tokens = vec![Token::False];
    assert!(parse(tokens).is_ok());
}

#[test]
fn parser_accepts_null() {
    let tokens = vec![Token::Null];
    assert!(parse(tokens).is_ok());
}

#[test]
fn parser_accepts_empty_array() {
    let tokens = vec![Token::Punct('['), Token::Punct(']')];
    assert!(parse(tokens).is_ok());
}

#[test]
fn parser_accepts_array_with_single_element() {
    let tokens = vec![Token::Punct('['), Token::String("".to_owned()), Token::Punct(']')];
    assert!(parse(tokens).is_ok());
}

#[test]
fn parser_accepts_array_with_multiple_elements() {
    let tokens = vec![
        Token::Punct('['),
        Token::String("".to_owned()),
        Token::Punct(','),
        Token::String("".to_owned()),
        Token::Punct(']'),
    ];
    assert!(parse(tokens).is_ok());
}

#[test]
fn parser_accepts_array_with_nested_array() {
    let tokens = vec![Token::Punct('['), Token::Punct('['), Token::Punct(']'), Token::Punct(']')];
    assert!(parse(tokens).is_ok());
}

#[test]
fn parser_accepts_array_with_elements_of_different_types() {
    let tokens = vec![
        Token::Punct('['),
        Token::String("".to_owned()),
        Token::Punct(','),
        Token::Number("0".to_owned()),
        Token::Punct(','),
        Token::Null,
        Token::Punct(']'),
    ];
    assert!(parse(tokens).is_ok());
}

#[test]
fn rejects_incomplete_array() {
    let tokens = vec![Token::Punct('[')];
    assert!(parse(tokens).is_err());
}

#[test]
fn parser_accepts_empty_object() {
    let tokens = vec![Token::Punct('{'), Token::Punct('}')];
    assert!(parse(tokens).is_ok());
}

#[test]
fn parser_accepts_object_with_single_element() {
    let tokens = vec![
        Token::Punct('{'),
        Token::String("".to_owned()),
        Token::Punct(':'),
        Token::String("".to_owned()),
        Token::Punct('}'),
    ];
    assert!(parse(tokens).is_ok());
}

#[test]
fn parser_accepts_object_with_multiple_elements() {
    let tokens = vec![
        Token::Punct('{'),
        Token::String("hello".to_owned()),
        Token::Punct(':'),
        Token::String("".to_owned()),
        Token::Punct(','),
        Token::String("goodbye".to_owned()),
        Token::Punct(':'),
        Token::String("".to_owned()),
        Token::Punct('}'),
    ];
    assert!(parse(tokens).is_ok());
}

#[test]
fn parser_accepts_object_with_nested_object() {
    let tokens = vec![
        Token::Punct('{'),
        Token::String("".to_owned()),
        Token::Punct(':'),
        Token::Punct('{'),
        Token::Punct('}'),
        Token::Punct('}'),
    ];
    assert!(parse(tokens).is_ok());
}

#[test]
fn parser_accepts_object_with_elements_of_different_types() {
    let tokens = vec![
        Token::Punct('{'),
        Token::String("hello".to_owned()),
        Token::Punct(':'),
        Token::String("".to_owned()),
        Token::Punct(','),
        Token::String("goodbye".to_owned()),
        Token::Punct(':'),
        Token::Number("0".to_owned()),
        Token::Punct(','),
        Token::String("morning".to_owned()),
        Token::Punct(':'),
        Token::Null,
        Token::Punct('}'),
    ];
    assert!(parse(tokens).is_ok());
}

#[test]
fn rejects_incomplete_object() {
    let tokens = vec![Token::Punct('{')];
    assert!(parse(tokens).is_err());
}

#[test]
fn rejects_object_with_missing_key() {
    let tokens = vec![
        Token::Punct('{'),
        Token::Punct(':'),
        Token::String("".to_owned()),
        Token::Punct('}'),
    ];
    assert!(parse(tokens).is_err());
}

#[test]
fn rejects_object_with_missing_colon() {
    let tokens = vec![
        Token::Punct('{'),
        Token::String("".to_owned()),
        Token::String("".to_owned()),
        Token::Punct('}'),
    ];
    assert!(parse(tokens).is_err());
}

#[test]
fn rejects_object_with_missing_value() {
    let tokens = vec![
        Token::Punct('{'),
        Token::String("".to_owned()),
        Token::Punct(':'),
        Token::Punct('}'),
    ];
    assert!(parse(tokens).is_err());
}
