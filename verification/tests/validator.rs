use json_parser::validator::{validate_json, Token};

#[test]
fn validator_rejects_empty_input() {
    let tokens = vec![];
    assert!(!validate_json(tokens));
}

#[test]
fn validator_accepts_string() {
    let tokens = vec![Token::String("".to_owned())];
    assert!(validate_json(tokens));
}

#[test]
fn validator_accepts_number() {
    let tokens = vec![Token::Number];
    assert!(validate_json(tokens));
}

#[test]
fn validator_accepts_true() {
    let tokens = vec![Token::True];
    assert!(validate_json(tokens));
}

#[test]
fn validator_accepts_false() {
    let tokens = vec![Token::False];
    assert!(validate_json(tokens));
}

#[test]
fn validator_accepts_null() {
    let tokens = vec![Token::Null];
    assert!(validate_json(tokens));
}

#[test]
fn validator_accepts_empty_array() {
    let tokens = vec![Token::Punct('['), Token::Punct(']')];
    assert!(validate_json(tokens));
}

#[test]
fn validator_accepts_array_with_single_element() {
    let tokens = vec![Token::Punct('['), Token::String("".to_owned()), Token::Punct(']')];
    assert!(validate_json(tokens));
}

#[test]
fn validator_accepts_array_with_multiple_elements() {
    let tokens = vec![
        Token::Punct('['),
        Token::String("".to_owned()),
        Token::Punct(','),
        Token::String("".to_owned()),
        Token::Punct(']'),
    ];
    assert!(validate_json(tokens));
}

#[test]
fn validator_accepts_array_with_nested_array() {
    let tokens = vec![Token::Punct('['), Token::Punct('['), Token::Punct(']'), Token::Punct(']')];
    assert!(validate_json(tokens));
}

#[test]
fn validator_accepts_array_with_elements_of_different_types() {
    let tokens = vec![
        Token::Punct('['),
        Token::String("".to_owned()),
        Token::Punct(','),
        Token::Number,
        Token::Punct(','),
        Token::Null,
        Token::Punct(']'),
    ];
    assert!(validate_json(tokens));
}

#[test]
fn validator_accepts_empty_object() {
    let tokens = vec![Token::Punct('{'), Token::Punct('}')];
    assert!(validate_json(tokens));
}

#[test]
fn validator_accepts_object_with_single_element() {
    let tokens = vec![
        Token::Punct('{'),
        Token::String("".to_owned()),
        Token::Punct(':'),
        Token::String("".to_owned()),
        Token::Punct('}'),
    ];
    assert!(validate_json(tokens));
}

#[test]
fn validator_accepts_object_with_multiple_elements() {
    let tokens = vec![
        Token::Punct('{'),
        Token::String("".to_owned()),
        Token::Punct(':'),
        Token::String("".to_owned()),
        Token::Punct(','),
        Token::String("".to_owned()),
        Token::Punct(':'),
        Token::String("".to_owned()),
        Token::Punct('}'),
    ];
    assert!(validate_json(tokens));
}

#[test]
fn validator_accepts_object_with_nested_object() {
    let tokens = vec![
        Token::Punct('{'),
        Token::String("".to_owned()),
        Token::Punct(':'),
        Token::Punct('{'),
        Token::Punct('}'),
        Token::Punct('}'),
    ];
    assert!(validate_json(tokens));
}

#[test]
fn validator_accepts_object_with_elements_of_different_types() {
    let tokens = vec![
        Token::Punct('{'),
        Token::String("".to_owned()),
        Token::Punct(':'),
        Token::String("".to_owned()),
        Token::Punct(','),
        Token::String("".to_owned()),
        Token::Punct(':'),
        Token::Number,
        Token::Punct(','),
        Token::String("".to_owned()),
        Token::Punct(':'),
        Token::Null,
        Token::Punct('}'),
    ];
    assert!(validate_json(tokens));
}
