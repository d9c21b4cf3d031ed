//! A JSON library: a tokenizer from text to a token sequence, a
//! recursive-descent parser from tokens to a value tree, and a canonical
//! pretty-printer from the tree back to text.
//!
//! Numbers are kept as their validated literal text: the grammar is checked
//! by the tokenizer, and the literal is carried through the tree unchanged.

use vstd::prelude::*;

pub mod laws;
pub mod parser;
pub mod serializer;
pub mod tokenizer;
pub mod types;
pub mod validator;

use crate::parser::spec_parse;
use crate::tokenizer::spec_tokenize;
use crate::types::{Error, Value, ValueModel};

verus! {

/// The whole pipeline over the mathematical models: tokenize the text, then
/// parse the token sequence, demanding that the outermost value consumes it
/// entirely.
pub open spec fn spec_parse_text(s: Seq<char>) -> Option<ValueModel> {
    match spec_tokenize(s) {
        None => None,
        Some(ts) => spec_parse(ts),
    }
}

/// Parse a JSON string: the value tree of the text, or an opaque failure
/// when the text does not tokenize or does not form exactly one value.
pub fn parse(text: &str) -> (r: Result<Value, Error>)
    ensures
        match r {
            Ok(v) => spec_parse_text(text@) == Some(v.deep_view()),
            Err(_) => spec_parse_text(text@) is None,
        },
{
    match tokenizer::tokenize(text) {
        Err(_) => Err(Error),
        Ok(tokens) => parser::parse(tokens),
    }
}

} // verus!
