//! The parser: a recursive-descent recognizer from a token sequence to a
//! value tree, with an explicit cursor threaded through each production.
//!
//! `spec_json` and its sub-productions are the mathematical definition of
//! the grammar; each executable production is proved to return exactly what
//! its spec production says. The top-level `parse` succeeds only when the
//! outermost value consumes the whole token sequence.

use vstd::prelude::*;

use crate::types::{Error, Token, TokenModel, Value, ValueModel, view_items, view_members,
    view_value};

verus! {

/// `json := element`
pub open spec fn spec_json(ts: Seq<TokenModel>) -> Option<(ValueModel, nat)>
    decreases ts.len(), 5int,
{
    spec_element(ts)
}

/// `element := value`
pub open spec fn spec_element(ts: Seq<TokenModel>) -> Option<(ValueModel, nat)>
    decreases ts.len(), 3int,
{
    spec_value(ts)
}

/// `value := string | number | "true" | "false" | "null" | array | object`:
/// the parsed value together with how many tokens it consumed.
pub open spec fn spec_value(ts: Seq<TokenModel>) -> Option<(ValueModel, nat)>
    decreases ts.len(), 2int,
{
    if ts.len() == 0 {
        None
    } else {
        match ts[0] {
            TokenModel::Str(s) => Some((ValueModel::Str(s), 1nat)),
            TokenModel::Num(m) => Some((ValueModel::Num(m), 1nat)),
            TokenModel::True => Some((ValueModel::Bool(true), 1nat)),
            TokenModel::False => Some((ValueModel::Bool(false), 1nat)),
            TokenModel::Null => Some((ValueModel::Null, 1nat)),
            TokenModel::Punct(p) => if p == '[' {
                spec_array(ts)
            } else if p == '{' {
                spec_object(ts)
            } else {
                None
            },
        }
    }
}

/// `array := "[" "]" | "[" elements "]"`
pub open spec fn spec_array(ts: Seq<TokenModel>) -> Option<(ValueModel, nat)>
    decreases ts.len(), 1int,
{
    if ts.len() == 0 || ts[0] != TokenModel::Punct('[') {
        None
    } else if ts.len() >= 2 && ts[1] == TokenModel::Punct(']') {
        Some((ValueModel::Array(Seq::empty()), 2nat))
    } else {
        match spec_elements(ts.skip(1)) {
            None => None,
            Some((es, n)) => if 1 + n < ts.len() && ts[1 + n as int] == TokenModel::Punct(']') {
                Some((ValueModel::Array(es), (n + 2) as nat))
            } else {
                None
            },
        }
    }
}

/// `elements := element ("," element)*`, greedy with local fallback: after
/// one element, a following comma makes the production try to parse the
/// remainder as further elements; if that attempt fails, the comma and
/// everything after it are not consumed and the single element stands.
pub open spec fn spec_elements(ts: Seq<TokenModel>) -> Option<(Seq<ValueModel>, nat)>
    decreases ts.len(), 4int,
{
    match spec_element(ts) {
        None => None,
        Some((v, n)) => if n < ts.len() && ts[n as int] == TokenModel::Punct(',') {
            match spec_elements(ts.skip(n as int + 1)) {
                None => Some((seq![v], n)),
                Some((rest, m)) => Some((seq![v] + rest, (n + 1 + m) as nat)),
            }
        } else {
            Some((seq![v], n))
        },
    }
}

/// `object := "{" "}" | "{" members "}"`; the member list is collapsed into
/// a mapping with unique keys, a later duplicate key overwriting the earlier
/// value in place.
pub open spec fn spec_object(ts: Seq<TokenModel>) -> Option<(ValueModel, nat)>
    decreases ts.len(), 1int,
{
    if ts.len() == 0 || ts[0] != TokenModel::Punct('{') {
        None
    } else if ts.len() >= 2 && ts[1] == TokenModel::Punct('}') {
        Some((ValueModel::Object(Seq::empty()), 2nat))
    } else {
        match spec_members(ts.skip(1)) {
            None => None,
            Some((ms, n)) => if 1 + n < ts.len() && ts[1 + n as int] == TokenModel::Punct('}') {
                Some((ValueModel::Object(dedup_members(ms)), (n + 2) as nat))
            } else {
                None
            },
        }
    }
}

/// `members := member ("," member)*`, greedy with the same local fallback as
/// `elements`; the members are kept in parse order, duplicates included.
pub open spec fn spec_members(ts: Seq<TokenModel>) -> Option<
    (Seq<(Seq<char>, ValueModel)>, nat),
>
    decreases ts.len(), 4int,
{
    match spec_member(ts) {
        None => None,
        Some(((k, v), n)) => if n < ts.len() && ts[n as int] == TokenModel::Punct(',') {
            match spec_members(ts.skip(n as int + 1)) {
                None => Some((seq![(k, v)], n)),
                Some((rest, m)) => Some((seq![(k, v)] + rest, (n + 1 + m) as nat)),
            }
        } else {
            Some((seq![(k, v)], n))
        },
    }
}

/// `member := string ":" element`
pub open spec fn spec_member(ts: Seq<TokenModel>) -> Option<((Seq<char>, ValueModel), nat)>
    decreases ts.len(), 2int,
{
    if ts.len() >= 2 && ts[0] is Str && ts[1] == TokenModel::Punct(':') {
        match spec_element(ts.skip(2)) {
            None => None,
            Some((v, n)) => Some(((ts[0]->Str_0, v), (n + 2) as nat)),
        }
    } else {
        None
    }
}

/// Writes `k := v` into an ordered mapping: an existing entry for `k` is
/// overwritten in place, a new key is appended at the end.
pub open spec fn assoc_update(
    m: Seq<(Seq<char>, ValueModel)>,
    k: Seq<char>,
    v: ValueModel,
) -> Seq<(Seq<char>, ValueModel)>
    decreases m.len(),
{
    if m.len() == 0 {
        seq![(k, v)]
    } else if m[0].0 == k {
        seq![(k, v)] + m.drop_first()
    } else {
        seq![m[0]] + assoc_update(m.drop_first(), k, v)
    }
}

/// Collapses a member list in parse order into a mapping with unique keys;
/// on a repeated key the later value wins.
pub open spec fn dedup_members(ms: Seq<(Seq<char>, ValueModel)>) -> Seq<(Seq<char>, ValueModel)>
    decreases ms.len(),
{
    if ms.len() == 0 {
        Seq::empty()
    } else {
        assoc_update(dedup_members(ms.drop_last()), ms.last().0, ms.last().1)
    }
}

/// The whole parse: the outermost value must consume every token.
pub open spec fn spec_parse(ts: Seq<TokenModel>) -> Option<ValueModel> {
    match spec_json(ts) {
        None => None,
        Some((v, n)) => if n == ts.len() {
            Some(v)
        } else {
            None
        },
    }
}

/// Pointwise reading of `view_items`.
pub proof fn lemma_view_items_index(s: Seq<Value>)
    ensures
        view_items(s).len() == s.len(),
        forall|i: int| 0 <= i < s.len() ==> #[trigger] view_items(s)[i] == view_value(s[i]),
    decreases s.len(),
{
    if s.len() > 0 {
        lemma_view_items_index(s.drop_first());
    }
}

/// Pointwise reading of `view_members`.
pub proof fn lemma_view_members_index(s: Seq<(String, Value)>)
    ensures
        view_members(s).len() == s.len(),
        forall|i: int|
            0 <= i < s.len() ==> #[trigger] view_members(s)[i] == (s[i].0@, view_value(s[i].1)),
    decreases s.len(),
{
    if s.len() > 0 {
        lemma_view_members_index(s.drop_first());
    }
}

/// When `k` is absent, `assoc_update` appends the new entry.
pub proof fn lemma_assoc_update_missing(m: Seq<(Seq<char>, ValueModel)>, k: Seq<char>, v: ValueModel)
    requires
        forall|j: int| 0 <= j < m.len() ==> (#[trigger] m[j]).0 != k,
    ensures
        assoc_update(m, k, v) == m + seq![(k, v)],
    decreases m.len(),
{
    if m.len() == 0 {
        assert(assoc_update(m, k, v) =~= m + seq![(k, v)]);
    } else {
        lemma_assoc_update_missing(m.drop_first(), k, v);
        assert(seq![m[0]] + (m.drop_first() + seq![(k, v)]) =~= m + seq![(k, v)]);
    }
}

/// When `k` first occurs at `i`, `assoc_update` overwrites that entry.
pub proof fn lemma_assoc_update_found(
    m: Seq<(Seq<char>, ValueModel)>,
    k: Seq<char>,
    v: ValueModel,
    i: int,
)
    requires
        0 <= i < m.len(),
        m[i].0 == k,
        forall|j: int| 0 <= j < i ==> (#[trigger] m[j]).0 != k,
    ensures
        assoc_update(m, k, v) == m.update(i, (k, v)),
    decreases m.len(),
{
    if i == 0 {
        assert(seq![(k, v)] + m.drop_first() =~= m.update(0, (k, v)));
    } else {
        lemma_assoc_update_found(m.drop_first(), k, v, i - 1);
        assert(seq![m[0]] + m.drop_first().update(i - 1, (k, v)) =~= m.update(i, (k, v)));
    }
}

/// Parses an input token list into a JSON value. Fails when the list is
/// empty, when a punctuation token stands where a value, key, colon or comma
/// is required, when an array or object lacks its closing bracket or brace,
/// when a member lacks its key, colon or value, or when tokens are left over
/// after the outermost value.
pub fn parse(tokens: Vec<Token>) -> (r: Result<Value, Error>)
    ensures
        match r {
            Ok(v) => spec_parse(tokens.deep_view()) == Some(v.deep_view()),
            Err(_) => spec_parse(tokens.deep_view()) is None,
        },
{
    proof {
        assert(tokens.deep_view().skip(0) =~= tokens.deep_view());
    }
    match json(&tokens, 0) {
        Err(e) => Err(e),
        Ok((v, n)) => {
            if n == tokens.len() {
                Ok(v)
            } else {
                Err(Error)
            }
        },
    }
}

/// `json := element`
fn json(tokens: &Vec<Token>, pos: usize) -> (r: Result<(Value, usize), Error>)
    requires
        pos <= tokens@.len(),
    ensures
        match r {
            Ok((v, n)) => pos + n <= tokens@.len() && spec_json(
                tokens.deep_view().skip(pos as int),
            ) == Some((v.deep_view(), n as nat)),
            Err(_) => spec_json(tokens.deep_view().skip(pos as int)) is None,
        },
    decreases tokens@.len() - pos, 5int,
{
    element(tokens, pos)
}

/// `element := value`
fn element(tokens: &Vec<Token>, pos: usize) -> (r: Result<(Value, usize), Error>)
    requires
        pos <= tokens@.len(),
    ensures
        match r {
            Ok((v, n)) => pos + n <= tokens@.len() && spec_element(
                tokens.deep_view().skip(pos as int),
            ) == Some((v.deep_view(), n as nat)),
            Err(_) => spec_element(tokens.deep_view().skip(pos as int)) is None,
        },
    decreases tokens@.len() - pos, 3int,
{
    value(tokens, pos)
}

/// `value := string | number | "true" | "false" | "null" | array | object`
fn value(tokens: &Vec<Token>, pos: usize) -> (r: Result<(Value, usize), Error>)
    requires
        pos <= tokens@.len(),
    ensures
        match r {
            Ok((v, n)) => pos + n <= tokens@.len() && spec_value(
                tokens.deep_view().skip(pos as int),
            ) == Some((v.deep_view(), n as nat)),
            Err(_) => spec_value(tokens.deep_view().skip(pos as int)) is None,
        },
    decreases tokens@.len() - pos, 2int,
{
    let ghost ts = tokens.deep_view().skip(pos as int);
    if pos == tokens.len() {
        return Err(Error);
    }
    proof {
        assert(ts[0] == tokens.deep_view()[pos as int]);
    }
    match &tokens[pos] {
        Token::String(s) => Ok((Value::String(s.clone()), 1)),
        Token::Number(m) => Ok((Value::Number(m.clone()), 1)),
        Token::True => Ok((Value::Boolean(true), 1)),
        Token::False => Ok((Value::Boolean(false), 1)),
        Token::Null => Ok((Value::Null, 1)),
        Token::Punct(p) => {
            if *p == '[' {
                array(tokens, pos)
            } else if *p == '{' {
                object(tokens, pos)
            } else {
                Err(Error)
            }
        },
    }
}

/// `array := "[" "]" | "[" elements "]"`
fn array(tokens: &Vec<Token>, pos: usize) -> (r: Result<(Value, usize), Error>)
    requires
        pos <= tokens@.len(),
    ensures
        match r {
            Ok((v, n)) => pos + n <= tokens@.len() && spec_array(
                tokens.deep_view().skip(pos as int),
            ) == Some((v.deep_view(), n as nat)),
            Err(_) => spec_array(tokens.deep_view().skip(pos as int)) is None,
        },
    decreases tokens@.len() - pos, 1int,
{
    let ghost ts = tokens.deep_view().skip(pos as int);
    let len = tokens.len();
    if pos == len {
        return Err(Error);
    }
    proof {
        assert(ts[0] == tokens.deep_view()[pos as int]);
    }
    let begins_with_open_bracket = matches!(&tokens[pos], Token::Punct('['));
    if !begins_with_open_bracket {
        return Err(Error);
    }
    if len - pos >= 2 {
        proof {
            assert(ts[1] == tokens.deep_view()[pos + 1]);
        }
        if matches!(&tokens[pos + 1], Token::Punct(']')) {
            let out: Vec<Value> = Vec::new();
            proof {
                assert(view_items(out@) =~= Seq::<ValueModel>::empty());
            }
            return Ok((Value::Array(out), 2));
        }
    }
    proof {
        assert(ts.skip(1) =~= tokens.deep_view().skip(pos + 1));
    }
    match elements(tokens, pos + 1) {
        Err(_) => Err(Error),
        Ok((es, n)) => {
            if len - (pos + 1 + n) >= 1 {
                proof {
                    assert(ts[1 + n as int] == tokens.deep_view()[pos + 1 + n]);
                }
                if matches!(&tokens[pos + 1 + n], Token::Punct(']')) {
                    return Ok((Value::Array(es), n + 2));
                }
            }
            Err(Error)
        },
    }
}

/// `elements := element ("," element)*`, with the fallback rule: when the
/// attempt after a comma fails, the single element parsed so far stands and
/// the comma is not consumed.
fn elements(tokens: &Vec<Token>, pos: usize) -> (r: Result<(Vec<Value>, usize), Error>)
    requires
        pos <= tokens@.len(),
    ensures
        match r {
            Ok((es, n)) => pos + n <= tokens@.len() && spec_elements(
                tokens.deep_view().skip(pos as int),
            ) == Some((view_items(es@), n as nat)),
            Err(_) => spec_elements(tokens.deep_view().skip(pos as int)) is None,
        },
    decreases tokens@.len() - pos, 4int,
{
    let ghost ts = tokens.deep_view().skip(pos as int);
    let len = tokens.len();
    match element(tokens, pos) {
        Err(e) => Err(e),
        Ok((v, n)) => {
            let ghost vm = v.deep_view();
            let mut followed_by_comma = false;
            if len - (pos + n) >= 1 {
                proof {
                    assert(ts[n as int] == tokens.deep_view()[pos + n]);
                }
                followed_by_comma = matches!(&tokens[pos + n], Token::Punct(','));
            }
            if followed_by_comma {
                proof {
                    assert(ts.skip(n as int + 1) =~= tokens.deep_view().skip(pos + n + 1));
                }
                match elements(tokens, pos + n + 1) {
                    Err(_) => {
                        let mut out: Vec<Value> = Vec::new();
                        out.push(v);
                        proof {
                            lemma_view_items_index(out@);
                            assert(view_items(out@) =~= seq![vm]);
                        }
                        Ok((out, n))
                    },
                    Ok((rest, m)) => {
                        let ghost restm = view_items(rest@);
                        let mut out = rest;
                        out.insert(0, v);
                        proof {
                            lemma_view_items_index(out@);
                            lemma_view_items_index(rest@);
                            assert(view_items(out@) =~= seq![vm] + restm);
                        }
                        Ok((out, n + 1 + m))
                    },
                }
            } else {
                let mut out: Vec<Value> = Vec::new();
                out.push(v);
                proof {
                    lemma_view_items_index(out@);
                    assert(view_items(out@) =~= seq![vm]);
                }
                Ok((out, n))
            }
        },
    }
}

/// `object := "{" "}" | "{" members "}"`; the parsed member list is then
/// collapsed into the object's mapping, a later duplicate key overwriting
/// the earlier value.
fn object(tokens: &Vec<Token>, pos: usize) -> (r: Result<(Value, usize), Error>)
    requires
        pos <= tokens@.len(),
    ensures
        match r {
            Ok((v, n)) => pos + n <= tokens@.len() && spec_object(
                tokens.deep_view().skip(pos as int),
            ) == Some((v.deep_view(), n as nat)),
            Err(_) => spec_object(tokens.deep_view().skip(pos as int)) is None,
        },
    decreases tokens@.len() - pos, 1int,
{
    let ghost ts = tokens.deep_view().skip(pos as int);
    let len = tokens.len();
    if pos == len {
        return Err(Error);
    }
    proof {
        assert(ts[0] == tokens.deep_view()[pos as int]);
    }
    let begins_with_open_brace = matches!(&tokens[pos], Token::Punct('{'));
    if !begins_with_open_brace {
        return Err(Error);
    }
    if len - pos >= 2 {
        proof {
            assert(ts[1] == tokens.deep_view()[pos + 1]);
        }
        if matches!(&tokens[pos + 1], Token::Punct('}')) {
            let out: Vec<(String, Value)> = Vec::new();
            proof {
                assert(view_members(out@) =~= Seq::<(Seq<char>, ValueModel)>::empty());
            }
            return Ok((Value::Object(out), 2));
        }
    }
    proof {
        assert(ts.skip(1) =~= tokens.deep_view().skip(pos + 1));
    }
    match members(tokens, pos + 1) {
        Err(_) => Err(Error),
        Ok((ms, n)) => {
            if len - (pos + 1 + n) >= 1 {
                proof {
                    assert(ts[1 + n as int] == tokens.deep_view()[pos + 1 + n]);
                }
                if matches!(&tokens[pos + 1 + n], Token::Punct('}')) {
                    let collapsed = collapse_members(ms);
                    return Ok((Value::Object(collapsed), n + 2));
                }
            }
            Err(Error)
        },
    }
}

/// `members := member ("," member)*`, with the same fallback rule as
/// `elements`; members are returned in parse order, duplicates included.
fn members(tokens: &Vec<Token>, pos: usize) -> (r: Result<(Vec<(String, Value)>, usize), Error>)
    requires
        pos <= tokens@.len(),
    ensures
        match r {
            Ok((ms, n)) => pos + n <= tokens@.len() && spec_members(
                tokens.deep_view().skip(pos as int),
            ) == Some((view_members(ms@), n as nat)),
            Err(_) => spec_members(tokens.deep_view().skip(pos as int)) is None,
        },
    decreases tokens@.len() - pos, 4int,
{
    let ghost ts = tokens.deep_view().skip(pos as int);
    let len = tokens.len();
    match member(tokens, pos) {
        Err(e) => Err(e),
        Ok((k, v, n)) => {
            let ghost km = k@;
            let ghost vm = v.deep_view();
            let mut followed_by_comma = false;
            if len - (pos + n) >= 1 {
                proof {
                    assert(ts[n as int] == tokens.deep_view()[pos + n]);
                }
                followed_by_comma = matches!(&tokens[pos + n], Token::Punct(','));
            }
            if followed_by_comma {
                proof {
                    assert(ts.skip(n as int + 1) =~= tokens.deep_view().skip(pos + n + 1));
                }
                match members(tokens, pos + n + 1) {
                    Err(_) => {
                        let mut out: Vec<(String, Value)> = Vec::new();
                        out.push((k, v));
                        proof {
                            lemma_view_members_index(out@);
                            assert(view_members(out@) =~= seq![(km, vm)]);
                        }
                        Ok((out, n))
                    },
                    Ok((rest, m)) => {
                        let ghost restm = view_members(rest@);
                        let mut out = rest;
                        out.insert(0, (k, v));
                        proof {
                            lemma_view_members_index(out@);
                            lemma_view_members_index(rest@);
                            assert(view_members(out@) =~= seq![(km, vm)] + restm);
                        }
                        Ok((out, n + 1 + m))
                    },
                }
            } else {
                let mut out: Vec<(String, Value)> = Vec::new();
                out.push((k, v));
                proof {
                    lemma_view_members_index(out@);
                    assert(view_members(out@) =~= seq![(km, vm)]);
                }
                Ok((out, n))
            }
        },
    }
}

/// `member := string ":" element`
fn member(tokens: &Vec<Token>, pos: usize) -> (r: Result<(String, Value, usize), Error>)
    requires
        pos <= tokens@.len(),
    ensures
        match r {
            Ok((k, v, n)) => pos + n <= tokens@.len() && spec_member(
                tokens.deep_view().skip(pos as int),
            ) == Some(((k@, v.deep_view()), n as nat)),
            Err(_) => spec_member(tokens.deep_view().skip(pos as int)) is None,
        },
    decreases tokens@.len() - pos, 2int,
{
    let ghost ts = tokens.deep_view().skip(pos as int);
    let len = tokens.len();
    if len - pos < 2 {
        return Err(Error);
    }
    proof {
        assert(ts[0] == tokens.deep_view()[pos as int]);
        assert(ts[1] == tokens.deep_view()[pos + 1]);
    }
    let key: String = match &tokens[pos] {
        Token::String(s) => s.clone(),
        _ => {
            return Err(Error);
        },
    };
    if !matches!(&tokens[pos + 1], Token::Punct(':')) {
        return Err(Error);
    }
    proof {
        assert(ts.skip(2) =~= tokens.deep_view().skip(pos + 2));
    }
    match element(tokens, pos + 2) {
        Err(_) => Err(Error),
        Ok((v, n)) => Ok((key, v, n + 2)),
    }
}

/// Collapses a member list in parse order: each member is written over the
/// mapping built so far, so a later duplicate key wins.
fn collapse_members(ms: Vec<(String, Value)>) -> (r: Vec<(String, Value)>)
    ensures
        view_members(r@) == dedup_members(view_members(ms@)),
{
    let ghost all = view_members(ms@);
    proof {
        lemma_view_members_index(ms@);
    }
    let mut out: Vec<(String, Value)> = Vec::new();
    let mut rest = ms;
    proof {
        assert(view_members(out@) =~= Seq::<(Seq<char>, ValueModel)>::empty());
        assert(all.take(0) =~= Seq::<(Seq<char>, ValueModel)>::empty());
        assert(dedup_members(all.take(0)) =~= Seq::<(Seq<char>, ValueModel)>::empty());
    }
    let ghost total = rest@.len();
    let ghost mut done: int = 0;
    while rest.len() > 0
        invariant
            0 <= done,
            done + rest@.len() == total,
            total == all.len(),
            view_members(rest@) =~= all.skip(done),
            view_members(out@) == dedup_members(all.take(done)),
        decreases rest@.len(),
    {
        let ghost old_rest = rest@;
        let pair = rest.remove(0);
        let ghost km = pair.0@;
        let ghost vm = view_value(pair.1);
        proof {
            lemma_view_members_index(old_rest);
            lemma_view_members_index(rest@);
            assert(view_members(rest@) =~= view_members(old_rest).drop_first());
            assert(view_members(rest@) =~= all.skip(done + 1));
            assert(view_members(old_rest)[0] == (km, vm));
            assert(all[done] == (km, vm));
        }
        assoc_set(&mut out, pair.0, pair.1);
        proof {
            assert(all.take(done + 1).drop_last() =~= all.take(done));
            assert(all.take(done + 1).last() == (km, vm));
            done = done + 1;
        }
    }
    proof {
        assert(all.take(total as int) =~= all);
    }
    out
}

/// Writes one member over the mapping: an existing entry for the key is
/// overwritten in place, a new key is appended.
fn assoc_set(out: &mut Vec<(String, Value)>, k: String, v: Value)
    ensures
        view_members(final(out)@) == assoc_update(view_members(old(out)@), k@, view_value(v)),
{
    let ghost m = view_members(old(out)@);
    proof {
        lemma_view_members_index(old(out)@);
    }
    let mut i: usize = 0;
    while i < out.len()
        invariant
            i <= out@.len(),
            out@ == old(out)@,
            m == view_members(old(out)@),
            forall|j: int| 0 <= j < i ==> (#[trigger] m[j]).0 != k@,
        decreases out@.len() - i,
    {
        proof {
            lemma_view_members_index(out@);
        }
        if out[i].0.eq(&k) {
            let ghost vm = view_value(v);
            let _ = out.remove(i);
            out.insert(i, (k, v));
            proof {
                lemma_assoc_update_found(m, k@, vm, i as int);
                lemma_view_members_index(out@);
                assert(out@ =~= old(out)@.update(i as int, (k, v)));
                assert(view_members(out@) =~= m.update(i as int, (k@, vm)));
            }
            return ;
        }
        i = i + 1;
    }
    let ghost vm = view_value(v);
    out.push((k, v));
    proof {
        lemma_assoc_update_missing(m, k@, vm);
        lemma_view_members_index(out@);
        assert(view_members(out@) =~= m + seq![(k@, vm)]);
    }
}

} // verus!
