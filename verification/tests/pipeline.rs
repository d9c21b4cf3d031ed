use json_parser::parse;
use json_parser::types::Value;

fn number_of(v: &Value) -> f64 {
    match v {
        Value::Number(lit) => lit.parse::<f64>().unwrap(),
        _ => panic!("expected a number value"),
    }
}

#[test]
fn parses_true_keyword() {
    assert_eq!(parse("true").unwrap(), Value::Boolean(true));
}

#[test]
fn parses_false_keyword() {
    assert_eq!(parse("false").unwrap(), Value::Boolean(false));
}

#[test]
fn parses_null_keyword() {
    assert_eq!(parse("null").unwrap(), Value::Null);
}

#[test]
fn rejects_keyword_prefixes() {
    assert!(parse("tru").is_err());
    assert!(parse("fals").is_err());
    assert!(parse("nul").is_err());
}

#[test]
fn parses_zero() {
    assert_eq!(number_of(&parse("0").unwrap()), 0.0);
}

#[test]
fn parses_negative_number() {
    assert_eq!(number_of(&parse("-123").unwrap()), -123.0);
}

#[test]
fn parses_number_with_fraction() {
    assert_eq!(number_of(&parse("123.456").unwrap()), 123.456);
}

#[test]
fn parses_number_with_exponent() {
    assert_eq!(number_of(&parse("123e+3").unwrap()), 123000.0);
}

#[test]
fn rejects_leading_zero_number() {
    assert!(parse("0123").is_err());
}

#[test]
fn rejects_incomplete_decimal_number() {
    assert!(parse("123.").is_err());
}

#[test]
fn parses_empty_string_value() {
    assert_eq!(parse("\"\"").unwrap(), Value::String(String::new()));
}

#[test]
fn parses_plain_string_value() {
    assert_eq!(parse("\"hello\"").unwrap(), Value::String("hello".to_owned()));
}

#[test]
fn rejects_unterminated_string() {
    assert!(parse("\"").is_err());
}

#[test]
fn parses_empty_array() {
    assert_eq!(parse("[]").unwrap(), Value::Array(vec![]));
}

#[test]
fn parses_empty_object() {
    assert_eq!(parse("{}").unwrap(), Value::Object(vec![]));
}

#[test]
fn parses_heterogeneous_array() {
    let v = parse("[1,\"two\",true,null]").unwrap();
    match v {
        Value::Array(items) => {
            assert_eq!(items.len(), 4);
            assert_eq!(number_of(&items[0]), 1.0);
            assert_eq!(items[1], Value::String("two".to_owned()));
            assert_eq!(items[2], Value::Boolean(true));
            assert_eq!(items[3], Value::Null);
        }
        _ => panic!("expected an array"),
    }
}

#[test]
fn duplicate_key_keeps_last_value() {
    let v = parse("{\"a\":1,\"a\":2}").unwrap();
    match v {
        Value::Object(members) => {
            assert_eq!(members.len(), 1);
            assert_eq!(members[0].0, "a");
            assert_eq!(number_of(&members[0].1), 2.0);
        }
        _ => panic!("expected an object"),
    }
}

#[test]
fn rejects_lone_open_brace() {
    assert!(parse("{").is_err());
}

#[test]
fn rejects_lone_open_bracket() {
    assert!(parse("[").is_err());
}

#[test]
fn rejects_trailing_tokens() {
    assert!(parse("{} extra").is_err());
}

#[test]
fn rejects_object_missing_key() {
    assert!(parse("{:\"\"}").is_err());
}

#[test]
fn rejects_object_missing_colon() {
    assert!(parse("{\"a\" 1}").is_err());
}

#[test]
fn rejects_object_missing_value() {
    assert!(parse("{\"a\":}").is_err());
}

#[test]
fn rejects_unrecognized_leading_character() {
    assert!(parse("@").is_err());
}

#[test]
fn rejects_empty_text() {
    assert!(parse("").is_err());
}

#[test]
fn whitespace_between_tokens_is_ignored() {
    let compact = parse("[1,{\"a\":true}]").unwrap();
    let spaced = parse(" [ 1 ,\n\t{ \"a\"\r:  true } ]  ").unwrap();
    assert_eq!(compact, spaced);
}

#[test]
fn keeps_escape_sequences_undecoded() {
    let v = parse("\"a\\nb\"").unwrap();
    assert_eq!(v, Value::String("a\\nb".to_owned()));
}

#[test]
fn rejects_invalid_escape() {
    assert!(parse("\"a\\qb\"").is_err());
}

#[test]
fn rejects_raw_control_character_in_string() {
    assert!(parse("\"a\u{0001}b\"").is_err());
}

#[test]
fn accepts_unicode_escape() {
    let v = parse("\"a\\u00e9b\"").unwrap();
    assert_eq!(v, Value::String("a\\u00e9b".to_owned()));
}

#[test]
fn rejects_short_unicode_escape() {
    assert!(parse("\"a\\u00\"").is_err());
}

#[test]
fn rejects_zero_run_literal() {
    // The integer part is a single zero or starts with a nonzero digit, so
    // a leading zero followed by any further digit is rejected.
    assert!(parse("00").is_err());
    assert!(parse("-00").is_err());
    assert!(parse("00.5").is_err());
}

#[test]
fn adjacent_numbers_do_not_merge() {
    // Two number tokens separated by a space lex fine but leave a trailing
    // token, while removing that space merges them into one number.
    assert!(parse("1 2").is_err());
    assert_eq!(number_of(&parse("12").unwrap()), 12.0);
}
