//! The data model: lexical tokens, the JSON value tree, and their
//! mathematical models over character sequences.

use vstd::prelude::*;

verus! {

/// The failure signal shared by the tokenizer and the parser. It carries no
/// diagnostic detail: rejection is a single opaque outcome.
#[derive(Debug, Clone)]
pub struct Error;

/// An atomic lexical unit of JSON text. String payloads keep the raw text
/// between the quotes, escape sequences left un-decoded; number payloads keep
/// the literal text exactly as matched by the number grammar.
#[derive(PartialEq, Debug)]
pub enum Token {
    Punct(char),
    String(String),
    Number(String),
    True,
    False,
    Null,
}

/// A parsed JSON value. An object is an order-preserving mapping with unique
/// keys; an array preserves element order.
#[derive(PartialEq, Debug)]
pub enum Value {
    String(String),
    Number(String),
    Boolean(bool),
    Null,
    Object(Vec<(String, Value)>),
    Array(Vec<Value>),
}

/// The mathematical model of a token: payloads as character sequences.
pub enum TokenModel {
    Punct(char),
    Str(Seq<char>),
    Num(Seq<char>),
    True,
    False,
    Null,
}

/// The mathematical model of a value tree.
pub enum ValueModel {
    Str(Seq<char>),
    Num(Seq<char>),
    Bool(bool),
    Null,
    Object(Seq<(Seq<char>, ValueModel)>),
    Array(Seq<ValueModel>),
}

impl DeepView for Token {
    type V = TokenModel;

    open spec fn deep_view(&self) -> TokenModel {
        match self {
            Token::Punct(c) => TokenModel::Punct(*c),
            Token::String(s) => TokenModel::Str(s@),
            Token::Number(n) => TokenModel::Num(n@),
            Token::True => TokenModel::True,
            Token::False => TokenModel::False,
            Token::Null => TokenModel::Null,
        }
    }
}

/// The model of a value tree.
pub open spec fn view_value(v: Value) -> ValueModel
    decreases v, 0int,
{
    match v {
        Value::String(s) => ValueModel::Str(s@),
        Value::Number(n) => ValueModel::Num(n@),
        Value::Boolean(b) => ValueModel::Bool(b),
        Value::Null => ValueModel::Null,
        Value::Object(members) => ValueModel::Object(view_members(members@)),
        Value::Array(items) => ValueModel::Array(view_items(items@)),
    }
}

/// The model of an object's member list, in order.
pub open spec fn view_members(ms: Seq<(String, Value)>) -> Seq<(Seq<char>, ValueModel)>
    decreases ms, 1int,
{
    if ms.len() == 0 {
        Seq::empty()
    } else {
        seq![(ms[0].0@, view_value(ms[0].1))] + view_members(ms.drop_first())
    }
}

/// The model of an array's element list, in order.
pub open spec fn view_items(items: Seq<Value>) -> Seq<ValueModel>
    decreases items, 1int,
{
    if items.len() == 0 {
        Seq::empty()
    } else {
        seq![view_value(items[0])] + view_items(items.drop_first())
    }
}

impl DeepView for Value {
    type V = ValueModel;

    open spec fn deep_view(&self) -> ValueModel {
        view_value(*self)
    }
}

} // verus!
