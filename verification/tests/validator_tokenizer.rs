use json_parser::validator::{tokenize_text, Token};

#[test]
fn tokenizer_recognizes_open_brace() {
    let text = "{";
    let tokens = tokenize_text(text).unwrap();
    assert_eq!(tokens[0], Token::Punct('{'));
}

#[test]
fn tokenizer_recognizes_close_brace() {
    let text = "}";
    let tokens = tokenize_text(text).unwrap();
    assert_eq!(tokens[0], Token::Punct('}'));
}

#[test]
fn tokenizer_recognizes_open_bracket() {
    let text = "[";
    let tokens = tokenize_text(text).unwrap();
    assert_eq!(tokens[0], Token::Punct('['));
}

#[test]
fn tokenizer_recognizes_close_bracket() {
    let text = "]";
    let tokens = tokenize_text(text).unwrap();
    assert_eq!(tokens[0], Token::Punct(']'));
}

#[test]
fn tokenizer_recognizes_comma() {
    let text = ",";
    let tokens = tokenize_text(text).unwrap();
    assert_eq!(tokens[0], Token::Punct(','));
}

#[test]
fn tokenizer_recognizes_colon() {
    let text = ":";
    let tokens = tokenize_text(text).unwrap();
    assert_eq!(tokens[0], Token::Punct(':'));
}

#[test]
fn tokenizer_recognizes_true() {
    let text = "true";
    let tokens = tokenize_text(text).unwrap();
    assert_eq!(tokens[0], Token::True);
}

#[test]
fn tokenizer_rejects_partial_true() {
    let text = "tru";
    let tokens = tokenize_text(text);
    assert!(tokens.is_err());
}

#[test]
fn tokenizer_recognizes_false() {
    let text = "false";
    let tokens = tokenize_text(text).unwrap();
    assert_eq!(tokens[0], Token::False);
}

#[test]
fn tokenizer_rejects_partial_false() {
    let text = "fals";
    let tokens = tokenize_text(text);
    assert!(tokens.is_err());
}

#[test]
fn tokenizer_recognizes_null() {
    let text = "null";
    let tokens = tokenize_text(text).unwrap();
    assert_eq!(tokens[0], Token::Null);
}

#[test]
fn tokenizer_rejects_partial_null() {
    let text = "nul";
    let tokens = tokenize_text(text);
    assert!(tokens.is_err());
}

#[test]
fn tokenizer_recognizes_empty_string() {
    let text = r#""""#;
    let tokens = tokenize_text(text).unwrap();
    assert_eq!(tokens[0], Token::String(String::from("")));
}

#[test]
fn tokenizer_recognizes_ascii_string() {
    let text = r#""hello""#;
    let tokens = tokenize_text(text).unwrap();
    assert_eq!(tokens[0], Token::String(String::from("hello")));
}

#[test]
fn tokenizer_recognizes_unicode_string() {
    let text = "\"\u{1F600}\"";
    let tokens = tokenize_text(text).unwrap();
    assert_eq!(tokens[0], Token::String(String::from("\u{1F600}")));
}

#[test]
fn tokenizer_recognizes_string_with_escapes() {
    let text = r#""hello\\\/\b\f\n\r\tworld""#;
    let tokens = tokenize_text(text).unwrap();
    assert_eq!(
        tokens[0],
        Token::String(String::from("hello\\\\\\/\\b\\f\\n\\r\\tworld"))
    );
}

#[test]
fn tokenizer_rejects_string_with_unmatched_quote() {
    let text = r#"""#;
    let tokens = tokenize_text(text);
    assert!(tokens.is_err());
}

#[test]
fn tokenizer_recognizes_zero() {
    let text = "0";
    let tokens = tokenize_text(text).unwrap();
    assert_eq!(tokens[0], Token::Number);
}

#[test]
fn tokenizer_recognizes_positive_number() {
    let text = "123";
    let tokens = tokenize_text(text).unwrap();
    assert_eq!(tokens[0], Token::Number);
}

#[test]
fn tokenizer_recognizes_negative_number() {
    let text = "-123";
    let tokens = tokenize_text(text).unwrap();
    assert_eq!(tokens[0], Token::Number);
}

#[test]
fn tokenizer_recognizes_number_with_fraction() {
    let text = "123.456";
    let tokens = tokenize_text(text).unwrap();
    assert_eq!(tokens[0], Token::Number);
}

#[test]
fn tokenizer_recognizes_number_with_exponent() {
    let text = "123e+3";
    let tokens = tokenize_text(text).unwrap();
    assert_eq!(tokens[0], Token::Number);
}

#[test]
fn tokenizer_rejects_number_with_leading_zero() {
    let text = "0123";
    let tokens = tokenize_text(text);
    assert!(tokens.is_err());
}

#[test]
fn tokenizer_rejects_number_with_incomplete_decimal() {
    let text = "123.";
    let tokens = tokenize_text(text);
    assert!(tokens.is_err());
}

#[test]
fn tokenizer_ignores_whitespace() {
    let text = " {} ";
    let tokens = tokenize_text(text).unwrap();
    assert!(matches!(tokens[0], Token::Punct('{')));
    assert!(matches!(tokens[1], Token::Punct('}')));
}

#[test]
fn tokenizer_recognizes_multiple_tokens() {
    let text = "{}";
    let tokens = tokenize_text(text).unwrap();
    assert!(matches!(tokens[0], Token::Punct('{')));
    assert!(matches!(tokens[1], Token::Punct('}')));
}
