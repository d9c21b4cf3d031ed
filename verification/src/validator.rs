//! The validator: a recognizer that answers whether a token sequence forms
//! exactly one JSON value, without building the value tree.
//!
//! Its token type carries no number payload: recognition never reads one.
//! `tokenize_text` scans text into these tokens, and `validate_json` accepts
//! a token sequence exactly when the parser's grammar accepts it.

use vstd::prelude::*;

use crate::parser::{spec_array, spec_element, spec_elements, spec_member, spec_members,
    spec_object, spec_parse, spec_value};
use crate::tokenizer::spec_tokenize;
use crate::types::TokenModel;

verus! {

/// The failure signal of `tokenize_text`.
#[derive(Debug, Clone)]
pub struct Error;

/// An atomic lexical unit as the validator sees it: a number token records
/// only that a number stood there.
#[derive(PartialEq, Debug)]
pub enum Token {
    Punct(char),
    String(String),
    Number,
    True,
    False,
    Null,
}

impl DeepView for Token {
    type V = TokenModel;

    open spec fn deep_view(&self) -> TokenModel {
        match self {
            Token::Punct(c) => TokenModel::Punct(*c),
            Token::String(s) => TokenModel::Str(s@),
            Token::Number => TokenModel::Num(Seq::empty()),
            Token::True => TokenModel::True,
            Token::False => TokenModel::False,
            Token::Null => TokenModel::Null,
        }
    }
}

/// Blanks the literal out of one token.
pub open spec fn mask_one(t: TokenModel) -> TokenModel {
    match t {
        TokenModel::Num(_) => TokenModel::Num(Seq::empty()),
        other => other,
    }
}

/// Blanks the literal out of each number token: what the validator keeps of
/// a token sequence.
pub open spec fn mask_numbers(ts: Seq<TokenModel>) -> Seq<TokenModel> {
    Seq::new(ts.len(), |i: int| mask_one(ts[i]))
}

/// Converts an input text into validator tokens: the same lexical grammar
/// as `tokenize`, with each number literal blanked out.
pub fn tokenize_text(text: &str) -> (r: Result<Vec<Token>, Error>)
    ensures
        match r {
            Ok(tokens) => spec_tokenize(text@) matches Some(ts) && tokens.deep_view()
                == mask_numbers(ts),
            Err(_) => spec_tokenize(text@) is None,
        },
{
    match crate::tokenizer::tokenize(text) {
        Err(_) => Err(Error),
        Ok(tokens) => {
            let ghost all = tokens.deep_view();
            let mut rest = tokens;
            let mut out: Vec<Token> = Vec::new();
            let ghost mut done: int = 0;
            proof {
                assert(out.deep_view() =~= mask_numbers(all).take(0));
            }
            while rest.len() > 0
                invariant
                    0 <= done,
                    done + rest@.len() == all.len(),
                    rest.deep_view() =~= all.skip(done),
                    out.deep_view() =~= mask_numbers(all).take(done),
                decreases rest@.len(),
            {
                let ghost old_rest = rest.deep_view();
                let ghost old_raw = rest@;
                let ghost prev_out = out.deep_view();
                let t = rest.remove(0);
                proof {
                    assert(old_rest[0] == old_raw[0].deep_view());
                    assert(t.deep_view() == old_rest[0]);
                    assert(forall|i: int| 0 <= i < rest@.len() ==> rest.deep_view()[i] == #[trigger] rest@[i].deep_view());
                    assert(rest.deep_view() =~= old_rest.drop_first());
                    assert(rest.deep_view() =~= all.skip(done + 1));
                    assert(t.deep_view() == all[done]);
                }
                let masked = match t {
                    crate::types::Token::Punct(c) => Token::Punct(c),
                    crate::types::Token::String(s) => Token::String(s),
                    crate::types::Token::Number(_) => Token::Number,
                    crate::types::Token::True => Token::True,
                    crate::types::Token::False => Token::False,
                    crate::types::Token::Null => Token::Null,
                };
                out.push(masked);
                proof {
                    assert(out.deep_view() =~= prev_out + seq![masked.deep_view()]);
                    assert(masked.deep_view() == mask_numbers(all)[done]);
                    assert(out.deep_view() =~= mask_numbers(all).take(done + 1));
                    done = done + 1;
                }
            }
            proof {
                assert(mask_numbers(all).take(done) =~= mask_numbers(all));
            }
            Ok(out)
        },
    }
}

/// Answers whether the token sequence forms exactly one JSON value: true
/// exactly when the parser's grammar accepts the whole sequence.
pub fn validate_json(tokens: Vec<Token>) -> (r: bool)
    ensures
        r == (spec_parse(tokens.deep_view()) is Some),
{
    let ghost all = tokens.deep_view();
    let mut rest = tokens;
    let mut full: Vec<crate::types::Token> = Vec::new();
    let ghost mut done: int = 0;
    proof {
        assert(full.deep_view() =~= all.take(0));
    }
    while rest.len() > 0
        invariant
            0 <= done,
            done + rest@.len() == all.len(),
            rest.deep_view() =~= all.skip(done),
            full.deep_view() =~= all.take(done),
        decreases rest@.len(),
    {
        let ghost old_rest = rest.deep_view();
        let ghost old_raw = rest@;
        let ghost prev_full = full.deep_view();
        let t = rest.remove(0);
        proof {
            assert(old_rest[0] == old_raw[0].deep_view());
            assert(t.deep_view() == old_rest[0]);
            assert(forall|i: int| 0 <= i < rest@.len() ==> rest.deep_view()[i] == #[trigger] rest@[i].deep_view());
            assert(rest.deep_view() =~= old_rest.drop_first());
            assert(rest.deep_view() =~= all.skip(done + 1));
            assert(t.deep_view() == all[done]);
        }
        let u = match t {
            Token::Punct(c) => crate::types::Token::Punct(c),
            Token::String(s) => crate::types::Token::String(s),
            Token::Number => crate::types::Token::Number(String::new()),
            Token::True => crate::types::Token::True,
            Token::False => crate::types::Token::False,
            Token::Null => crate::types::Token::Null,
        };
        full.push(u);
        proof {
            assert(full.deep_view() =~= prev_full + seq![u.deep_view()]);
            assert(u.deep_view() == all[done]);
            assert(full.deep_view() =~= all.take(done + 1));
            done = done + 1;
        }
    }
    proof {
        assert(all.take(done) =~= all);
    }
    crate::parser::parse(full).is_ok()
}

/// Blanking number literals touches no token kind, no punctuation and no
/// key, so each production consumes the same tokens and accepts or rejects
/// alike; only the values built differ.
pub proof fn lemma_mask_value(ts: Seq<TokenModel>)
    ensures
        spec_value(mask_numbers(ts)) is Some <==> spec_value(ts) is Some,
        spec_value(mask_numbers(ts)) matches Some(p) ==> spec_value(ts) matches Some(q) && p.1
            == q.1,
    decreases ts.len(), 2int,
{
    let w = mask_numbers(ts);
    if ts.len() > 0 {
        match ts[0] {
            TokenModel::Punct(p) => {
                assert(w[0] == TokenModel::Punct(p));
                if p == '[' {
                    lemma_mask_array(ts);
                } else if p == '{' {
                    lemma_mask_object(ts);
                }
            },
            _ => {
                assert(w[0] is Str <==> ts[0] is Str);
            },
        }
    }
}

/// The array production accepts masked tokens exactly as it accepts the
/// originals, consuming the same count.
pub proof fn lemma_mask_array(ts: Seq<TokenModel>)
    ensures
        spec_array(mask_numbers(ts)) is Some <==> spec_array(ts) is Some,
        spec_array(mask_numbers(ts)) matches Some(p) ==> spec_array(ts) matches Some(q) && p.1
            == q.1,
    decreases ts.len(), 1int,
{
    let w = mask_numbers(ts);
    if ts.len() > 0 && ts[0] == TokenModel::Punct('[') {
        assert(w[0] == TokenModel::Punct('['));
        if ts.len() >= 2 {
            assert(w[1] == mask_one(ts[1]));
        }
        if !(ts.len() >= 2 && ts[1] == TokenModel::Punct(']')) {
            assert(w.skip(1) =~= mask_numbers(ts.skip(1)));
            lemma_mask_elements(ts.skip(1));
            match spec_elements(ts.skip(1)) {
                Some((es, n)) => {
                    if 1 + n < ts.len() {
                        assert(w[1 + n as int] == mask_one(ts[1 + n as int]));
                    }
                },
                None => {},
            }
        }
    } else {
        if ts.len() > 0 {
            assert(w[0] == mask_one(ts[0]));
        }
    }
}

/// The object production accepts masked tokens exactly as it accepts the
/// originals, consuming the same count.
pub proof fn lemma_mask_object(ts: Seq<TokenModel>)
    ensures
        spec_object(mask_numbers(ts)) is Some <==> spec_object(ts) is Some,
        spec_object(mask_numbers(ts)) matches Some(p) ==> spec_object(ts) matches Some(q) && p.1
            == q.1,
    decreases ts.len(), 1int,
{
    let w = mask_numbers(ts);
    if ts.len() > 0 && ts[0] == TokenModel::Punct('{') {
        assert(w[0] == TokenModel::Punct('{'));
        if ts.len() >= 2 {
            assert(w[1] == mask_one(ts[1]));
        }
        if !(ts.len() >= 2 && ts[1] == TokenModel::Punct('}')) {
            assert(w.skip(1) =~= mask_numbers(ts.skip(1)));
            lemma_mask_members(ts.skip(1));
            match spec_members(ts.skip(1)) {
                Some((ms, n)) => {
                    if 1 + n < ts.len() {
                        assert(w[1 + n as int] == mask_one(ts[1 + n as int]));
                    }
                },
                None => {},
            }
        }
    } else {
        if ts.len() > 0 {
            assert(w[0] == mask_one(ts[0]));
        }
    }
}

/// The element list accepts masked tokens exactly as it accepts the
/// originals, consuming the same count.
pub proof fn lemma_mask_elements(ts: Seq<TokenModel>)
    ensures
        spec_elements(mask_numbers(ts)) is Some <==> spec_elements(ts) is Some,
        spec_elements(mask_numbers(ts)) matches Some(p) ==> spec_elements(ts) matches Some(q)
            && p.1 == q.1,
    decreases ts.len(), 4int,
{
    let w = mask_numbers(ts);
    lemma_mask_value(ts);
    assert(w.len() == ts.len());
    assert(spec_element(ts) == spec_value(ts));
    assert(spec_element(w) == spec_value(w));
    match spec_value(ts) {
        None => {
            assert(spec_value(w) is None);
        },
        Some((v, n)) => {
            assert(spec_value(w) matches Some(p) && p.1 == n);
            if n < ts.len() {
                assert(w[n as int] == mask_one(ts[n as int]));
                assert(w[n as int] == TokenModel::Punct(',') <==> ts[n as int]
                    == TokenModel::Punct(','));
            }
            if n < ts.len() && ts[n as int] == TokenModel::Punct(',') {
                assert(w.skip(n as int + 1) =~= mask_numbers(ts.skip(n as int + 1)));
                lemma_mask_elements(ts.skip(n as int + 1));
            }
        },
    }
}

/// The member list accepts masked tokens exactly as it accepts the
/// originals, consuming the same count.
pub proof fn lemma_mask_members(ts: Seq<TokenModel>)
    ensures
        spec_members(mask_numbers(ts)) is Some <==> spec_members(ts) is Some,
        spec_members(mask_numbers(ts)) matches Some(p) ==> spec_members(ts) matches Some(q)
            && p.1 == q.1,
    decreases ts.len(), 4int,
{
    let w = mask_numbers(ts);
    lemma_mask_member(ts);
    assert(w.len() == ts.len());
    match spec_member(ts) {
        None => {
            assert(spec_member(w) is None);
        },
        Some(((k, v), n)) => {
            assert(spec_member(w) matches Some(p) && p.1 == n);
            if n < ts.len() {
                assert(w[n as int] == mask_one(ts[n as int]));
                assert(w[n as int] == TokenModel::Punct(',') <==> ts[n as int]
                    == TokenModel::Punct(','));
            }
            if n < ts.len() && ts[n as int] == TokenModel::Punct(',') {
                assert(w.skip(n as int + 1) =~= mask_numbers(ts.skip(n as int + 1)));
                lemma_mask_members(ts.skip(n as int + 1));
            }
        },
    }
}

/// One member accepts masked tokens exactly as it accepts the originals.
pub proof fn lemma_mask_member(ts: Seq<TokenModel>)
    ensures
        spec_member(mask_numbers(ts)) is Some <==> spec_member(ts) is Some,
        spec_member(mask_numbers(ts)) matches Some(p) ==> spec_member(ts) matches Some(q) && p.1
            == q.1,
    decreases ts.len(), 2int,
{
    let w = mask_numbers(ts);
    if ts.len() >= 2 {
        assert(w[0] == mask_one(ts[0]));
        assert(w[1] == mask_one(ts[1]));
        assert(w[0] is Str <==> ts[0] is Str);
        if ts[0] is Str && ts[1] == TokenModel::Punct(':') {
            assert(w.skip(2) =~= mask_numbers(ts.skip(2)));
            lemma_mask_value(ts.skip(2));
        }
    }
}

/// THE VALIDATOR AGREES WITH THE PARSER: a token sequence with its number
/// literals blanked out is accepted exactly when the original is, so the
/// validator's answer over its payload-free tokens decides validity of the
/// original text.
pub proof fn lemma_mask_parse(ts: Seq<TokenModel>)
    ensures
        spec_parse(mask_numbers(ts)) is Some <==> spec_parse(ts) is Some,
{
    lemma_mask_value(ts);
}

/// The whole validator pipeline decides exactly the validity of the text:
/// once a text tokenizes, the validator's payload-free tokens are accepted
/// exactly when the text itself parses.
pub proof fn lemma_validator_decides_validity(text: Seq<char>)
    ensures
        spec_tokenize(text) matches Some(ts) ==> ((spec_parse(mask_numbers(ts)) is Some) <==> (
        crate::spec_parse_text(text) is Some)),
{
    match spec_tokenize(text) {
        Some(ts) => {
            lemma_mask_parse(ts);
        },
        None => {},
    }
}

} // verus!
