use json_parser::types::Token;
use json_parser::tokenizer::tokenize;

fn number_value(t: &Token) -> f64 {
    match t {
        Token::Number(lit) => lit.parse::<f64>().unwrap(),
        _ => panic!("expected a number token"),
    }
}

#[test]
fn recognizes_open_brace() {
    let text = "{";
    let tokens = tokenize(text).unwrap();
    assert_eq!(tokens[0], Token::Punct('{'));
}

#[test]
fn recognizes_close_brace() {
    let text = "}";
    let tokens = tokenize(text).unwrap();
    assert_eq!(tokens[0], Token::Punct('}'));
}

#[test]
fn recognizes_open_bracket() {
    let text = "[";
    let tokens = tokenize(text).unwrap();
    assert_eq!(tokens[0], Token::Punct('['));
}

#[test]
fn recognizes_close_bracket() {
    let text = "]";
    let tokens = tokenize(text).unwrap();
    assert_eq!(tokens[0], Token::Punct(']'));
}

#[test]
fn recognizes_comma() {
    let text = ",";
    let tokens = tokenize(text).unwrap();
    assert_eq!(tokens[0], Token::Punct(','));
}

#[test]
fn recognizes_colon() {
    let text = ":";
    let tokens = tokenize(text).unwrap();
    assert_eq!(tokens[0], Token::Punct(':'));
}

#[test]
fn recognizes_true() {
    let text = "true";
    let tokens = tokenize(text).unwrap();
    assert_eq!(tokens[0], Token::True);
}

#[test]
fn rejects_partial_true() {
    let text = "tru";
    let tokens = tokenize(text);
    assert!(tokens.is_err());
}

#[test]
fn recognizes_false() {
    let text = "false";
    let tokens = tokenize(text).unwrap();
    assert_eq!(tokens[0], Token::False);
}

#[test]
fn rejects_partial_false() {
    let text = "fals";
    let tokens = tokenize(text);
    assert!(tokens.is_err());
}

#[test]
fn recognizes_null() {
    let text = "null";
    let tokens = tokenize(text).unwrap();
    assert_eq!(tokens[0], Token::Null);
}

#[test]
fn rejects_partial_null() {
    let text = "nul";
    let tokens = tokenize(text);
    assert!(tokens.is_err());
}

#[test]
fn recognizes_empty_string() {
    let text = r#""""#;
    let tokens = tokenize(text).unwrap();
    assert_eq!(tokens[0], Token::String(String::from("")));
}

#[test]
fn recognizes_ascii_string() {
    let text = r#""hello""#;
    let tokens = tokenize(text).unwrap();
    assert_eq!(tokens[0], Token::String(String::from("hello")));
}

#[test]
fn recognizes_unicode_string() {
    let text = "\"\u{1F600}\"";
    let tokens = tokenize(text).unwrap();
    assert_eq!(tokens[0], Token::String(String::from("\u{1F600}")));
}

#[test]
fn recognizes_string_with_escapes() {
    let text = r#""hello\\\/\b\f\n\r\tworld""#;
    let tokens = tokenize(text).unwrap();
    assert_eq!(
        tokens[0],
        Token::String(String::from("hello\\\\\\/\\b\\f\\n\\r\\tworld"))
    );
}

#[test]
fn rejects_string_with_unmatched_quote() {
    let text = r#"""#;
    let tokens = tokenize(text);
    assert!(tokens.is_err());
}

#[test]
fn recognizes_zero() {
    let text = "0";
    let tokens = tokenize(text).unwrap();
    assert_eq!(number_value(&tokens[0]), 0.0);
}

#[test]
fn recognizes_positive_number() {
    let text = "123";
    let tokens = tokenize(text).unwrap();
    assert_eq!(number_value(&tokens[0]), 123.0);
}

#[test]
fn recognizes_negative_number() {
    let text = "-123";
    let tokens = tokenize(text).unwrap();
    assert_eq!(number_value(&tokens[0]), -123.0);
}

#[test]
fn recognizes_number_with_fraction() {
    let text = "123.456";
    let tokens = tokenize(text).unwrap();
    assert_eq!(number_value(&tokens[0]), 123.456);
}

#[test]
fn recognizes_number_with_exponent() {
    let text = "123e+3";
    let tokens = tokenize(text).unwrap();
    assert_eq!(number_value(&tokens[0]), 123e+3);
}

#[test]
fn rejects_number_with_leading_zero() {
    let text = "0123";
    let tokens = tokenize(text);
    assert!(tokens.is_err());
}

#[test]
fn rejects_number_with_incomplete_decimal() {
    let text = "123.";
    let tokens = tokenize(text);
    assert!(tokens.is_err());
}

#[test]
fn ignores_whitespace() {
    let text = " {} ";
    let tokens = tokenize(text).unwrap();
    assert!(matches!(tokens[0], Token::Punct('{')));
    assert!(matches!(tokens[1], Token::Punct('}')));
}

#[test]
fn recognizes_multiple_tokens() {
    let text = "{}";
    let tokens = tokenize(text).unwrap();
    assert!(matches!(tokens[0], Token::Punct('{')));
    assert!(matches!(tokens[1], Token::Punct('}')));
}

#[test]
fn rejects_unrecognized_character() {
    let text = "-";
    let tokens = tokenize(text);
    assert!(tokens.is_err());
}

#[test]
fn recognizes_complex_text() {
    let text = r#"{
        "glossary": {
            "title": "example glossary",
            "GlossDiv": {
                "title": "S",
                "GlossList": {
                    "GlossEntry": {
                        "ID": "SGML",
                        "SortAs": "SGML",
                        "GlossTerm": "Standard Generalized Markup Language",
                        "Acronym": "SGML",
                        "Abbrev": "ISO 8879:1986",
                        "GlossDef": {
                            "para": "A meta-markup language, used to create markup languages such as DocBook.",
                            "GlossSeeAlso": ["GML", "XML"]
                        },
                        "GlossSee": "markup"
                    }
                }
            }
        }
    }"#;
    let tokens = tokenize(text).unwrap();
    let expected = vec![
        Token::Punct('{'),
        Token::String("glossary".to_owned()),
        Token::Punct(':'),
        Token::Punct('{'),
        Token::String("title".to_owned()),
        Token::Punct(':'),
        Token::String("example glossary".to_owned()),
        Token::Punct(','),
        Token::String("GlossDiv".to_owned()),
        Token::Punct(':'),
        Token::Punct('{'),
        Token::String("title".to_owned()),
        Token::Punct(':'),
        Token::String("S".to_owned()),
        Token::Punct(','),
        Token::String("GlossList".to_owned()),
        Token::Punct(':'),
        Token::Punct('{'),
        Token::String("GlossEntry".to_owned()),
        Token::Punct(':'),
        Token::Punct('{'),
        Token::String("ID".to_owned()),
        Token::Punct(':'),
        Token::String("SGML".to_owned()),
        Token::Punct(','),
        Token::String("SortAs".to_owned()),
        Token::Punct(':'),
        Token::String("SGML".to_owned()),
        Token::Punct(','),
        Token::String("GlossTerm".to_owned()),
        Token::Punct(':'),
        Token::String("Standard Generalized Markup Language".to_owned()),
        Token::Punct(','),
        Token::String("Acronym".to_owned()),
        Token::Punct(':'),
        Token::String("SGML".to_owned()),
        Token::Punct(','),
        Token::String("Abbrev".to_owned()),
        Token::Punct(':'),
        Token::String("ISO 8879:1986".to_owned()),
        Token::Punct(','),
        Token::String("GlossDef".to_owned()),
        Token::Punct(':'),
        Token::Punct('{'),
        Token::String("para".to_owned()),
        Token::Punct(':'),
        Token::String(
            "A meta-markup language, used to create markup languages such as DocBook."
                .to_owned(),
        ),
        Token::Punct(','),
        Token::String("GlossSeeAlso".to_owned()),
        Token::Punct(':'),
        Token::Punct('['),
        Token::String("GML".to_owned()),
        Token::Punct(','),
        Token::String("XML".to_owned()),
        Token::Punct(']'),
        Token::Punct('}'),
        Token::Punct(','),
        Token::String("GlossSee".to_owned()),
        Token::Punct(':'),
        Token::String("markup".to_owned()),
        Token::Punct('}'),
        Token::Punct('}'),
        Token::Punct('}'),
        Token::Punct('}'),
        Token::Punct('}'),
    ];
    assert_eq!(tokens, expected);
}
