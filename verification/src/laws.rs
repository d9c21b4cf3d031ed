//! The library's laws: a well-formed value tree serializes to text that
//! tokenizes back to exactly the value's token sequence and parses back to
//! exactly the same tree; and whitespace between tokens never matters.

use vstd::prelude::*;

use crate::parser::{assoc_update, dedup_members, lemma_assoc_update_missing, spec_array,
    spec_element, spec_elements, spec_member, spec_members, spec_object, spec_parse, spec_value};
use crate::serializer::{item_line, member_line, render_items, render_members, render_value,
    spec_indent};
use crate::tokenizer::{cons_token, digit_run, is_control_char, is_digit_char, is_hex_digit_char,
    is_punct_char, is_simple_escape_char, is_whitespace_char, leading_zero_violation,
    lemma_digit_run_bound, lemma_num_end_bound, lemma_str_body_end_bound, num_end, opt_prepend,
    spec_tokenize, str_body_end};
use crate::types::{TokenModel, ValueModel};

verus! {

/// A well-formed string payload: what stands between the quotes of a string
/// token that the tokenizer itself would accept, with no raw quote, no raw
/// backslash outside a recognized escape, and no control character.
pub open spec fn wf_string_body(b: Seq<char>) -> bool
    decreases b.len(),
{
    if b.len() == 0 {
        true
    } else if b[0] == '\\' {
        (b.len() >= 2 && is_simple_escape_char(b[1]) && wf_string_body(b.skip(2))) || (b.len() >= 6
            && b[1] == 'u' && is_hex_digit_char(b[2]) && is_hex_digit_char(b[3])
            && is_hex_digit_char(b[4]) && is_hex_digit_char(b[5]) && wf_string_body(b.skip(6)))
    } else {
        b[0] != '"' && !is_control_char(b[0]) && wf_string_body(b.skip(1))
    }
}

/// A well-formed number payload: its own maximal number match is the whole
/// literal, and the leading-zero rule holds.
pub open spec fn wf_number_lit(m: Seq<char>) -> bool {
    num_end(m) == Some(m.len() as nat) && !leading_zero_violation(m)
}

/// No two members share a key.
pub open spec fn unique_keys(ms: Seq<(Seq<char>, ValueModel)>) -> bool {
    forall|i: int, j: int|
        0 <= i < j < ms.len() ==> (#[trigger] ms[i]).0 != (#[trigger] ms[j]).0
}

/// A well-formed value tree: every string and key payload is one the
/// tokenizer accepts, every number literal is its own maximal match, and
/// every object's keys are unique.
pub open spec fn wf_value(v: ValueModel) -> bool
    decreases v, 1int,
{
    match v {
        ValueModel::Str(s) => wf_string_body(s),
        ValueModel::Num(m) => wf_number_lit(m),
        ValueModel::Bool(_) => true,
        ValueModel::Null => true,
        ValueModel::Object(ms) => unique_keys(ms) && wf_members(ms),
        ValueModel::Array(es) => wf_items(es),
    }
}

/// Every member has a well-formed key and value.
pub open spec fn wf_members(ms: Seq<(Seq<char>, ValueModel)>) -> bool
    decreases ms, 2int,
{
    if ms.len() == 0 {
        true
    } else {
        wf_string_body(ms[0].0) && wf_value(ms[0].1) && wf_members(ms.drop_first())
    }
}

/// Every element is well-formed.
pub open spec fn wf_items(es: Seq<ValueModel>) -> bool
    decreases es, 2int,
{
    if es.len() == 0 {
        true
    } else {
        wf_value(es[0]) && wf_items(es.drop_first())
    }
}

/// The token sequence of a value: what the tokenizer produces from its
/// canonical text.
pub open spec fn tokens_of(v: ValueModel) -> Seq<TokenModel>
    decreases v, 1int,
{
    match v {
        ValueModel::Str(s) => seq![TokenModel::Str(s)],
        ValueModel::Num(m) => seq![TokenModel::Num(m)],
        ValueModel::Bool(b) => if b {
            seq![TokenModel::True]
        } else {
            seq![TokenModel::False]
        },
        ValueModel::Null => seq![TokenModel::Null],
        ValueModel::Object(ms) => if ms.len() == 0 {
            seq![TokenModel::Punct('{'), TokenModel::Punct('}')]
        } else {
            seq![TokenModel::Punct('{')] + member_tokens(ms) + seq![TokenModel::Punct('}')]
        },
        ValueModel::Array(es) => if es.len() == 0 {
            seq![TokenModel::Punct('['), TokenModel::Punct(']')]
        } else {
            seq![TokenModel::Punct('[')] + item_tokens(es) + seq![TokenModel::Punct(']')]
        },
    }
}

/// The token sequence of a non-empty member list, commas included.
pub open spec fn member_tokens(ms: Seq<(Seq<char>, ValueModel)>) -> Seq<TokenModel>
    decreases ms, 2int,
{
    if ms.len() == 0 {
        Seq::empty()
    } else if ms.len() == 1 {
        seq![TokenModel::Str(ms[0].0), TokenModel::Punct(':')] + tokens_of(ms[0].1)
    } else {
        seq![TokenModel::Str(ms[0].0), TokenModel::Punct(':')] + tokens_of(ms[0].1) + seq![
            TokenModel::Punct(','),
        ] + member_tokens(ms.drop_first())
    }
}

/// The token sequence of a non-empty element list, commas included.
pub open spec fn item_tokens(es: Seq<ValueModel>) -> Seq<TokenModel>
    decreases es, 2int,
{
    if es.len() == 0 {
        Seq::empty()
    } else if es.len() == 1 {
        tokens_of(es[0])
    } else {
        tokens_of(es[0]) + seq![TokenModel::Punct(',')] + item_tokens(es.drop_first())
    }
}

/// A value's token sequence is non-empty and starts with a token that can
/// begin a value.
pub proof fn lemma_tokens_of_first(v: ValueModel)
    ensures
        tokens_of(v).len() >= 1,
        !(tokens_of(v)[0] == TokenModel::Punct(']')),
        !(tokens_of(v)[0] == TokenModel::Punct('}')),
        !(tokens_of(v)[0] == TokenModel::Punct(',')),
        !(tokens_of(v)[0] == TokenModel::Punct(':')),
{
}

/// With unique keys, collapsing a member list changes nothing.
pub proof fn lemma_dedup_unique(ms: Seq<(Seq<char>, ValueModel)>)
    requires
        unique_keys(ms),
    ensures
        dedup_members(ms) == ms,
    decreases ms.len(),
{
    if ms.len() > 0 {
        let front = ms.drop_last();
        assert(unique_keys(front)) by {
            assert(forall|i: int|
                0 <= i < front.len() ==> (#[trigger] front[i]) == ms[i]);
        }
        lemma_dedup_unique(front);
        assert(forall|j: int| 0 <= j < front.len() ==> (#[trigger] front[j]).0 != ms.last().0);
        lemma_assoc_update_missing(front, ms.last().0, ms.last().1);
        assert(front + seq![(ms.last().0, ms.last().1)] =~= ms);
    }
}

/// Parsing a value's token sequence, whatever follows it, yields that value
/// and consumes exactly that sequence.
pub proof fn lemma_parse_value_tokens(v: ValueModel, rest: Seq<TokenModel>)
    requires
        wf_value(v),
    ensures
        spec_value(tokens_of(v) + rest) == Some((v, tokens_of(v).len() as nat)),
    decreases v, 1int,
{
    let ts = tokens_of(v) + rest;
    match v {
        ValueModel::Str(s) => {
            assert(ts[0] == TokenModel::Str(s));
            assert(spec_value(ts) =~~= Some((v, tokens_of(v).len() as nat)));
        },
        ValueModel::Num(m) => {
            assert(ts[0] == TokenModel::Num(m));
            assert(spec_value(ts) =~~= Some((v, tokens_of(v).len() as nat)));
        },
        ValueModel::Bool(b) => {
            assert(ts[0] == if b {
                TokenModel::True
            } else {
                TokenModel::False
            });
            assert(spec_value(ts) =~~= Some((v, tokens_of(v).len() as nat)));
        },
        ValueModel::Null => {
            assert(ts[0] == TokenModel::Null);
            assert(spec_value(ts) =~~= Some((v, tokens_of(v).len() as nat)));
        },
        ValueModel::Array(es) => {
            if es.len() == 0 {
                assert(es =~= Seq::<ValueModel>::empty());
                assert(ts[0] == TokenModel::Punct('[') && ts[1] == TokenModel::Punct(']'));
                assert(spec_array(ts) == Some((ValueModel::Array(Seq::empty()), 2nat)));
            } else {
                let inner = item_tokens(es);
                let tail = seq![TokenModel::Punct(']')] + rest;
                assert(ts[0] == TokenModel::Punct('['));
                lemma_item_tokens_first(es);
                assert(ts[1] == inner[0]);
                assert(!(ts[1] == TokenModel::Punct(']')));
                assert(ts.skip(1) =~= inner + tail);
                lemma_parse_items_tokens(es, tail);
                assert(spec_elements(ts.skip(1)) == Some((es, inner.len() as nat)));
                assert(ts[1 + inner.len() as int] == tail[0]);
                assert(tokens_of(v).len() == inner.len() + 2);
            }
        },
        ValueModel::Object(ms) => {
            if ms.len() == 0 {
                assert(ms =~= Seq::<(Seq<char>, ValueModel)>::empty());
                assert(ts[0] == TokenModel::Punct('{') && ts[1] == TokenModel::Punct('}'));
                assert(spec_object(ts) == Some((ValueModel::Object(Seq::empty()), 2nat)));
            } else {
                let inner = member_tokens(ms);
                let tail = seq![TokenModel::Punct('}')] + rest;
                assert(ts[0] == TokenModel::Punct('{'));
                lemma_member_tokens_first(ms);
                assert(ts[1] == inner[0]);
                assert(!(ts[1] == TokenModel::Punct('}')));
                assert(ts.skip(1) =~= inner + tail);
                lemma_parse_members_tokens(ms, tail);
                assert(spec_members(ts.skip(1)) == Some((ms, inner.len() as nat)));
                assert(ts[1 + inner.len() as int] == tail[0]);
                lemma_dedup_unique(ms);
                assert(tokens_of(v).len() == inner.len() + 2);
            }
        },
    }
    assert(spec_value(ts) =~~= Some((v, tokens_of(v).len() as nat)));
}

/// A non-empty element list's token sequence is non-empty and starts a value.
pub proof fn lemma_item_tokens_first(es: Seq<ValueModel>)
    requires
        es.len() >= 1,
    ensures
        item_tokens(es).len() >= 1,
        item_tokens(es)[0] == tokens_of(es[0])[0],
        !(item_tokens(es)[0] == TokenModel::Punct(']')),
{
    lemma_tokens_of_first(es[0]);
}

/// A non-empty member list's token sequence starts with its first key.
pub proof fn lemma_member_tokens_first(ms: Seq<(Seq<char>, ValueModel)>)
    requires
        ms.len() >= 1,
    ensures
        member_tokens(ms).len() >= 2,
        member_tokens(ms)[0] == TokenModel::Str(ms[0].0),
        !(member_tokens(ms)[0] == TokenModel::Punct('}')),
{
    lemma_tokens_of_first(ms[0].1);
}

/// Parsing a non-empty element list's token sequence, followed by anything
/// that is not a comma, yields exactly those elements.
pub proof fn lemma_parse_items_tokens(es: Seq<ValueModel>, rest: Seq<TokenModel>)
    requires
        es.len() >= 1,
        wf_items(es),
        rest.len() >= 1,
        !(rest[0] == TokenModel::Punct(',')),
    ensures
        spec_elements(item_tokens(es) + rest) == Some((es, item_tokens(es).len() as nat)),
    decreases es, 2int,
{
    let ts = item_tokens(es) + rest;
    let first = tokens_of(es[0]);
    let n = first.len();
    if es.len() == 1 {
        assert(ts =~= first + rest);
        lemma_parse_value_tokens(es[0], rest);
        assert(spec_element(ts) == Some((es[0], n as nat)));
        assert(ts[n as int] == rest[0]);
        assert(seq![es[0]] =~= es);
    } else {
        let more = es.drop_first();
        let tail = seq![TokenModel::Punct(',')] + item_tokens(more) + rest;
        assert(ts =~= first + tail);
        lemma_parse_value_tokens(es[0], tail);
        assert(spec_element(ts) == Some((es[0], n as nat)));
        assert(ts[n as int] == tail[0]);
        assert(ts[n as int] == TokenModel::Punct(','));
        assert(ts.skip(n as int + 1) =~= item_tokens(more) + rest);
        lemma_parse_items_tokens(more, rest);
        assert(spec_elements(ts.skip(n as int + 1)) == Some((more, item_tokens(more).len() as nat)));
        assert(seq![es[0]] + more =~= es);
        assert(item_tokens(es).len() == n + 1 + item_tokens(more).len());
    }
}

/// Parsing a non-empty member list's token sequence, followed by anything
/// that is not a comma, yields exactly those members in parse order.
pub proof fn lemma_parse_members_tokens(ms: Seq<(Seq<char>, ValueModel)>, rest: Seq<TokenModel>)
    requires
        ms.len() >= 1,
        wf_members(ms),
        rest.len() >= 1,
        !(rest[0] == TokenModel::Punct(',')),
    ensures
        spec_members(member_tokens(ms) + rest) == Some((ms, member_tokens(ms).len() as nat)),
    decreases ms, 2int,
{
    let ts = member_tokens(ms) + rest;
    let k = ms[0].0;
    let v = ms[0].1;
    let vtoks = tokens_of(v);
    let n = vtoks.len();
    if ms.len() == 1 {
        assert(ts =~= seq![TokenModel::Str(k), TokenModel::Punct(':')] + vtoks + rest);
        assert(ts[0] == TokenModel::Str(k) && ts[1] == TokenModel::Punct(':'));
        assert(ts.skip(2) =~= vtoks + rest);
        lemma_parse_value_tokens(v, rest);
        assert(spec_member(ts) == Some(((k, v), (n + 2) as nat)));
        assert(ts[n as int + 2] == rest[0]);
        assert(seq![(k, v)] =~= ms);
    } else {
        let more = ms.drop_first();
        let tail = seq![TokenModel::Punct(',')] + member_tokens(more) + rest;
        assert(ts =~= seq![TokenModel::Str(k), TokenModel::Punct(':')] + vtoks + tail);
        assert(ts[0] == TokenModel::Str(k) && ts[1] == TokenModel::Punct(':'));
        assert(ts.skip(2) =~= vtoks + tail);
        lemma_parse_value_tokens(v, tail);
        assert(spec_member(ts) == Some(((k, v), (n + 2) as nat)));
        assert(ts[n as int + 2] == tail[0]);
        assert(ts[n as int + 2] == TokenModel::Punct(','));
        assert(ts.skip(n as int + 2 + 1) =~= member_tokens(more) + rest);
        lemma_parse_members_tokens(more, rest);
        assert(spec_members(ts.skip(n as int + 2 + 1)) == Some(
            (more, member_tokens(more).len() as nat),
        ));
        assert(seq![(k, v)] + more =~= ms);
        assert(member_tokens(ms).len() == n + 2 + 1 + member_tokens(more).len());
    }
}

/// A well-formed value's token sequence parses back to exactly that value.
pub proof fn lemma_parse_tokens_of(v: ValueModel)
    requires
        wf_value(v),
    ensures
        spec_parse(tokens_of(v)) == Some(v),
{
    lemma_parse_value_tokens(v, Seq::empty());
    assert(tokens_of(v) + Seq::<TokenModel>::empty() =~= tokens_of(v));
}

/// Every character is whitespace.
pub open spec fn all_whitespace(w: Seq<char>) -> bool {
    forall|i: int| 0 <= i < w.len() ==> is_whitespace_char(#[trigger] w[i])
}

/// A character that could extend a preceding number lexeme.
pub open spec fn is_num_extender(c: char) -> bool {
    is_digit_char(c) || c == '.' || c == 'e' || c == 'E'
}

/// A text either empty or not starting with a number-extending character:
/// safe to stand right after any lexeme.
pub open spec fn safe_suffix(s: Seq<char>) -> bool {
    s.len() == 0 || !is_num_extender(s[0])
}

/// Leading whitespace never changes the token sequence.
pub proof fn lemma_tokenize_ws(w: Seq<char>, s: Seq<char>)
    requires
        all_whitespace(w),
    ensures
        spec_tokenize(w + s) == spec_tokenize(s),
    decreases w.len(),
{
    if w.len() == 0 {
        assert(w + s =~= s);
    } else {
        assert((w + s)[0] == w[0]);
        assert((w + s).skip(1) =~= w.drop_first() + s);
        assert(all_whitespace(w.drop_first())) by {
            assert(forall|i: int|
                0 <= i < w.drop_first().len() ==> (#[trigger] w.drop_first()[i]) == w[i + 1]);
        }
        lemma_tokenize_ws(w.drop_first(), s);
    }
}

/// An indent is whitespace.
pub proof fn lemma_indent_ws(depth: nat)
    ensures
        all_whitespace(spec_indent(depth)),
    decreases depth,
{
    if depth > 0 {
        lemma_indent_ws((depth - 1) as nat);
        let w = spec_indent((depth - 1) as nat);
        let f = w + seq![' ', ' ', ' ', ' '];
        assert(forall|i: int|
            0 <= i < f.len() ==> is_whitespace_char(#[trigger] f[i])) by {
            assert(forall|i: int| 0 <= i < w.len() ==> f[i] == w[i]);
            assert(f[w.len() as int] == ' ' && f[w.len() as int + 1] == ' ' && f[w.len() as int + 2] == ' '
                && f[w.len() as int + 3] == ' ');
        }
    }
}

/// A punctuation character tokenizes to its own token.
pub proof fn lemma_tokenize_punct(c: char, s: Seq<char>)
    requires
        is_punct_char(c),
    ensures
        spec_tokenize(seq![c] + s) == cons_token(TokenModel::Punct(c), spec_tokenize(s)),
{
    assert((seq![c] + s)[0] == c);
    assert((seq![c] + s).skip(1) =~= s);
}

/// The keyword `true` tokenizes to its token.
pub proof fn lemma_tokenize_true(s: Seq<char>)
    ensures
        spec_tokenize(seq!['t', 'r', 'u', 'e'] + s) == cons_token(
            TokenModel::True,
            spec_tokenize(s),
        ),
{
    let w = seq!['t', 'r', 'u', 'e'] + s;
    assert(w[0] == 't' && w[1] == 'r' && w[2] == 'u' && w[3] == 'e');
    assert(w.skip(4) =~= s);
}

/// The keyword `false` tokenizes to its token.
pub proof fn lemma_tokenize_false(s: Seq<char>)
    ensures
        spec_tokenize(seq!['f', 'a', 'l', 's', 'e'] + s) == cons_token(
            TokenModel::False,
            spec_tokenize(s),
        ),
{
    let w = seq!['f', 'a', 'l', 's', 'e'] + s;
    assert(w[0] == 'f' && w[1] == 'a' && w[2] == 'l' && w[3] == 's' && w[4] == 'e');
    assert(w.skip(5) =~= s);
}

/// The keyword `null` tokenizes to its token.
pub proof fn lemma_tokenize_null(s: Seq<char>)
    ensures
        spec_tokenize(seq!['n', 'u', 'l', 'l'] + s) == cons_token(
            TokenModel::Null,
            spec_tokenize(s),
        ),
{
    let w = seq!['n', 'u', 'l', 'l'] + s;
    assert(w[0] == 'n' && w[1] == 'u' && w[2] == 'l' && w[3] == 'l');
    assert(w.skip(4) =~= s);
}

/// Scanning a well-formed body followed by a closing quote ends exactly at
/// that quote.
pub proof fn lemma_str_body_end_wf(b: Seq<char>, s: Seq<char>)
    requires
        wf_string_body(b),
    ensures
        str_body_end(b + seq!['"'] + s) == Some((b.len() + 1) as nat),
    decreases b.len(),
{
    let w = b + seq!['"'] + s;
    if b.len() == 0 {
        assert(w[0] == '"');
    } else if b[0] == '\\' {
        assert(w[0] == '\\');
        if b.len() >= 2 && is_simple_escape_char(b[1]) && wf_string_body(b.skip(2)) {
            assert(w[1] == b[1]);
            assert(w.skip(2) =~= b.skip(2) + seq!['"'] + s);
            lemma_str_body_end_wf(b.skip(2), s);
        } else {
            assert(b.len() >= 6 && b[1] == 'u' && is_hex_digit_char(b[2]) && is_hex_digit_char(
                b[3],
            ) && is_hex_digit_char(b[4]) && is_hex_digit_char(b[5]) && wf_string_body(b.skip(6)));
            assert(w[1] == 'u' && w[2] == b[2] && w[3] == b[3] && w[4] == b[4] && w[5] == b[5]);
            assert(w.skip(6) =~= b.skip(6) + seq!['"'] + s);
            lemma_str_body_end_wf(b.skip(6), s);
        }
    } else {
        assert(w[0] == b[0] && b[0] != '"' && b[0] != '\\' && !is_control_char(b[0]));
        assert(w.skip(1) =~= b.skip(1) + seq!['"'] + s);
        lemma_str_body_end_wf(b.skip(1), s);
    }
}

/// A quoted well-formed body tokenizes to one string token with exactly that
/// body as payload.
pub proof fn lemma_tokenize_string(b: Seq<char>, s: Seq<char>)
    requires
        wf_string_body(b),
    ensures
        spec_tokenize(seq!['"'] + b + seq!['"'] + s) == cons_token(
            TokenModel::Str(b),
            spec_tokenize(s),
        ),
{
    let w = seq!['"'] + b + seq!['"'] + s;
    assert(w[0] == '"');
    assert(w.skip(1) =~= b + seq!['"'] + s);
    lemma_str_body_end_wf(b, s);
    let e = (b.len() + 1) as nat;
    assert(str_body_end(w.skip(1)) == Some(e));
    assert(w.subrange(1, e as int) =~= b);
    assert(w.skip(1 + e as int) =~= s);
}

/// Appending a text that starts with a non-digit never changes a digit run
/// inside the first part.
pub proof fn lemma_digit_run_append(m: Seq<char>, s: Seq<char>, i: int)
    requires
        0 <= i <= m.len(),
        s.len() == 0 || !is_digit_char(s[0]),
    ensures
        digit_run(m + s, i) == digit_run(m, i),
    decreases m.len() - i,
{
    let w = m + s;
    if i < m.len() {
        assert(w[i] == m[i]);
        if is_digit_char(m[i]) {
            lemma_digit_run_append(m, s, i + 1);
        }
    } else {
        if i < w.len() {
            assert(w[i] == s[i - m.len()]);
            assert(!is_digit_char(w[i]));
        }
    }
}

/// Appending a safe text never changes the maximal number match of a
/// complete number literal.
pub proof fn lemma_num_end_append(m: Seq<char>, s: Seq<char>)
    requires
        num_end(m) == Some(m.len() as nat),
        safe_suffix(s),
    ensures
        num_end(m + s) == Some(m.len() as nat),
{
    let w = m + s;
    let start: int = if m.len() > 0 && m[0] == '-' {
        1int
    } else {
        0int
    };
    if m.len() == 0 {
        assert(digit_run(m, 0) == 0);
        assert(num_end(m) is None);
    }
    assert(m.len() >= 1);
    assert(w[0] == m[0]);
    assert(w.len() > 0);
    let wstart: int = if w[0] == '-' {
        1int
    } else {
        0int
    };
    assert(wstart == start);
    lemma_digit_run_bound(m, start);
    lemma_digit_run_append(m, s, start);
    let d1 = digit_run(m, start);
    assert(digit_run(w, start) == d1);
    if d1 == 0 {
        assert(num_end(m) is None);
    }
    assert(d1 > 0);
    let p1 = start + d1;
    assert(p1 <= m.len());
    // The fraction guard reads the same characters in both texts.
    if p1 < m.len() {
        assert(w[p1] == m[p1]);
        lemma_digit_run_bound(m, p1 + 1);
        lemma_digit_run_append(m, s, p1 + 1);
    } else {
        if p1 < w.len() {
            assert(w[p1] == s[0]);
            assert(!is_num_extender(s[0]));
        }
    }
    let frac: int = if p1 < m.len() && m[p1] == '.' && digit_run(m, p1 + 1) > 0 {
        1 + digit_run(m, p1 + 1) as int
    } else {
        0int
    };
    let wfrac: int = if p1 < w.len() && w[p1] == '.' && digit_run(w, p1 + 1) > 0 {
        1 + digit_run(w, p1 + 1) as int
    } else {
        0int
    };
    if p1 == m.len() {
        assert(wfrac == 0);
    } else {
        if m[p1] == '.' && digit_run(m, p1 + 1) > 0 {
            assert(wfrac == frac);
        } else {
            // Without a fraction here, the literal must close with an
            // exponent starting at this very position, or end here.
            assert(wfrac == frac || (w[p1] == '.' && digit_run(w, p1 + 1) > 0));
            if frac == 0 && wfrac != 0 {
                // A digit run differing can only happen past the literal's
                // end, which `p1 + 1 <= m.len()` rules out.
                assert(digit_run(w, p1 + 1) == digit_run(m, p1 + 1));
                assert(false);
            }
        }
    }
    let p2 = p1 + frac;
    assert(p2 <= m.len()) by {
        if p1 + 1 <= m.len() {
            lemma_digit_run_bound(m, p1 + 1);
        }
    }
    if p2 < m.len() {
        assert(w[p2] == m[p2]);
    } else {
        if p2 < w.len() {
            assert(w[p2] == s[0]);
            assert(!is_num_extender(s[0]));
        }
    }
    let ex: int = if p2 < m.len() && (m[p2] == 'e' || m[p2] == 'E') {
        let sg: int = if p2 + 1 < m.len() && (m[p2 + 1] == '+' || m[p2 + 1] == '-') {
            1int
        } else {
            0int
        };
        if digit_run(m, p2 + 1 + sg) > 0 {
            1 + sg + digit_run(m, p2 + 1 + sg) as int
        } else {
            0int
        }
    } else {
        0int
    };
    assert(p2 + ex == m.len());
    if p2 == m.len() {
        assert(num_end(w) == Some(m.len() as nat));
    } else {
        // The literal closes with an exponent: `m[p2]` is `e` or `E`, the
        // optional sign and the digits all lie inside the literal.
        assert(m[p2] == 'e' || m[p2] == 'E');
        assert(ex == m.len() - p2);
        assert(ex > 0);
        let sg: int = if p2 + 1 < m.len() && (m[p2 + 1] == '+' || m[p2 + 1] == '-') {
            1int
        } else {
            0int
        };
        assert(digit_run(m, p2 + 1 + sg) > 0);
        assert(p2 + 1 + sg <= m.len());
        lemma_digit_run_bound(m, p2 + 1 + sg);
        lemma_digit_run_append(m, s, p2 + 1 + sg);
        if p2 + 1 < m.len() {
            assert(w[p2 + 1] == m[p2 + 1]);
        }
        let wsg: int = if p2 + 1 < w.len() && (w[p2 + 1] == '+' || w[p2 + 1] == '-') {
            1int
        } else {
            0int
        };
        if p2 + 1 == m.len() {
            // Then the exponent would have no digits inside the literal.
            assert(digit_run(m, p2 + 1 + sg) == 0) by {
                lemma_digit_run_bound(m, p2 + 1);
            }
            assert(false);
        }
        assert(wsg == sg);
        assert(digit_run(w, p2 + 1 + sg) == digit_run(m, p2 + 1 + sg));
        assert(num_end(w) == Some(m.len() as nat));
    }
}

/// A well-formed number literal followed by safe text tokenizes to one
/// number token with exactly that literal as payload.
pub proof fn lemma_tokenize_number(m: Seq<char>, s: Seq<char>)
    requires
        wf_number_lit(m),
        safe_suffix(s),
    ensures
        spec_tokenize(m + s) == cons_token(TokenModel::Num(m), spec_tokenize(s)),
{
    let w = m + s;
    lemma_num_end_append(m, s);
    assert(m.len() >= 1) by {
        if m.len() == 0 {
            assert(digit_run(m, 0) == 0);
        }
    }
    assert(w[0] == m[0]);
    assert(m[0] == '-' || is_digit_char(m[0])) by {
        if m[0] != '-' {
            let start: int = 0int;
            if digit_run(m, start) == 0 {
                assert(num_end(m) is None);
            }
        }
    }
    assert(w.take(m.len() as int) =~= m);
    assert(w.skip(m.len() as int) =~= s);
}

/// The canonical text of a well-formed value, followed by safe text,
/// tokenizes to the value's token sequence followed by the rest's tokens.
#[verifier::rlimit(100)]
pub proof fn lemma_tokenize_render(v: ValueModel, depth: nat, s: Seq<char>)
    requires
        wf_value(v),
        safe_suffix(s),
    ensures
        spec_tokenize(render_value(v, depth) + s) == opt_prepend(tokens_of(v), spec_tokenize(s)),
    decreases v, 1int,
{
    let w = render_value(v, depth) + s;
    match v {
        ValueModel::Str(b) => {
            assert(w =~= seq!['"'] + b + seq!['"'] + s);
            lemma_tokenize_string(b, s);
        },
        ValueModel::Num(m) => {
            assert(w =~= m + s);
            lemma_tokenize_number(m, s);
        },
        ValueModel::Bool(b) => {
            if b {
                assert(w =~= seq!['t', 'r', 'u', 'e'] + s);
                lemma_tokenize_true(s);
            } else {
                assert(w =~= seq!['f', 'a', 'l', 's', 'e'] + s);
                lemma_tokenize_false(s);
            }
        },
        ValueModel::Null => {
            assert(w =~= seq!['n', 'u', 'l', 'l'] + s);
            lemma_tokenize_null(s);
        },
        ValueModel::Array(es) => {
            if es.len() == 0 {
                assert(es =~= Seq::<ValueModel>::empty());
                assert(w =~= seq!['['] + (seq![']'] + s));
                lemma_tokenize_punct('[', seq![']'] + s);
                lemma_tokenize_punct(']', s);
                match spec_tokenize(s) {
                    Some(r) => {
                        assert(seq![TokenModel::Punct('[')] + (seq![TokenModel::Punct(']')] + r)
                            =~= seq![TokenModel::Punct('['), TokenModel::Punct(']')] + r);
                    },
                    None => {},
                }
            } else {
                let body = render_items(es, (depth + 1) as nat);
                let tail1 = seq!['\n'] + (spec_indent(depth) + (seq![']'] + s));
                assert(w =~= seq!['['] + (seq!['\n'] + (body + tail1)));
                lemma_tokenize_punct('[', seq!['\n'] + (body + tail1));
                assert(all_whitespace(seq!['\n']));
                lemma_tokenize_ws(seq!['\n'], body + tail1);
                assert(tail1[0] == '\n' && !is_num_extender('\n'));
                lemma_tokenize_render_items(es, (depth + 1) as nat, tail1);
                lemma_tokenize_ws(seq!['\n'], spec_indent(depth) + (seq![']'] + s));
                lemma_indent_ws(depth);
                lemma_tokenize_ws(spec_indent(depth), seq![']'] + s);
                lemma_tokenize_punct(']', s);
                assert(spec_tokenize(tail1) == cons_token(
                    TokenModel::Punct(']'),
                    spec_tokenize(s),
                ));
                match spec_tokenize(s) {
                    Some(r) => {
                        assert(seq![TokenModel::Punct('[')] + (item_tokens(es) + (seq![
                            TokenModel::Punct(']'),
                        ] + r)) =~= (seq![TokenModel::Punct('[')] + item_tokens(es) + seq![
                            TokenModel::Punct(']'),
                        ]) + r);
                    },
                    None => {},
                }
            }
        },
        ValueModel::Object(ms) => {
            if ms.len() == 0 {
                assert(ms =~= Seq::<(Seq<char>, ValueModel)>::empty());
                assert(w =~= seq!['{'] + (seq!['}'] + s));
                lemma_tokenize_punct('{', seq!['}'] + s);
                lemma_tokenize_punct('}', s);
                match spec_tokenize(s) {
                    Some(r) => {
                        assert(seq![TokenModel::Punct('{')] + (seq![TokenModel::Punct('}')] + r)
                            =~= seq![TokenModel::Punct('{'), TokenModel::Punct('}')] + r);
                    },
                    None => {},
                }
            } else {
                let body = render_members(ms, (depth + 1) as nat);
                let tail1 = seq!['\n'] + (spec_indent(depth) + (seq!['}'] + s));
                assert(w =~= seq!['{'] + (seq!['\n'] + (body + tail1)));
                lemma_tokenize_punct('{', seq!['\n'] + (body + tail1));
                assert(all_whitespace(seq!['\n']));
                lemma_tokenize_ws(seq!['\n'], body + tail1);
                assert(tail1[0] == '\n' && !is_num_extender('\n'));
                lemma_tokenize_render_members(ms, (depth + 1) as nat, tail1);
                lemma_tokenize_ws(seq!['\n'], spec_indent(depth) + (seq!['}'] + s));
                lemma_indent_ws(depth);
                lemma_tokenize_ws(spec_indent(depth), seq!['}'] + s);
                lemma_tokenize_punct('}', s);
                assert(spec_tokenize(tail1) == cons_token(
                    TokenModel::Punct('}'),
                    spec_tokenize(s),
                ));
                match spec_tokenize(s) {
                    Some(r) => {
                        assert(seq![TokenModel::Punct('{')] + (member_tokens(ms) + (seq![
                            TokenModel::Punct('}'),
                        ] + r)) =~= (seq![TokenModel::Punct('{')] + member_tokens(ms) + seq![
                            TokenModel::Punct('}'),
                        ]) + r);
                    },
                    None => {},
                }
            }
        },
    }
}

/// The rendered lines of a non-empty element list, followed by safe text
/// starting with a newline or other non-extending character, tokenize to the
/// list's token sequence followed by the rest's tokens.
#[verifier::rlimit(100)]
pub proof fn lemma_tokenize_render_items(es: Seq<ValueModel>, depth: nat, tail: Seq<char>)
    requires
        es.len() >= 1,
        wf_items(es),
        tail.len() >= 1,
        !is_num_extender(tail[0]),
    ensures
        spec_tokenize(render_items(es, depth) + tail) == opt_prepend(
            item_tokens(es),
            spec_tokenize(tail),
        ),
    decreases es, 2int,
{
    lemma_indent_ws(depth);
    if es.len() == 1 {
        assert(render_items(es, depth) == item_line(es[0], depth));
        assert(item_line(es[0], depth) == spec_indent(depth) + render_value(es[0], depth));
        assert(render_items(es, depth) + tail =~= spec_indent(depth) + (render_value(es[0], depth)
            + tail));
        lemma_tokenize_ws(spec_indent(depth), render_value(es[0], depth) + tail);
        lemma_tokenize_render(es[0], depth, tail);
        assert(item_tokens(es) == tokens_of(es[0]));
    } else {
        let more = es.drop_first();
        let mid = seq![','] + (seq!['\n'] + (render_items(more, depth) + tail));
        assert(render_items(es, depth) == item_line(es[0], depth) + seq![',', '\n']
            + render_items(more, depth));
        assert(item_line(es[0], depth) == spec_indent(depth) + render_value(es[0], depth));
        assert(render_items(es, depth) + tail =~= spec_indent(depth) + (render_value(es[0], depth)
            + mid));
        lemma_tokenize_ws(spec_indent(depth), render_value(es[0], depth) + mid);
        assert(mid[0] == ',' && !is_num_extender(','));
        lemma_tokenize_render(es[0], depth, mid);
        lemma_tokenize_punct(',', seq!['\n'] + (render_items(more, depth) + tail));
        assert(all_whitespace(seq!['\n']));
        lemma_tokenize_ws(seq!['\n'], render_items(more, depth) + tail);
        lemma_tokenize_render_items(more, depth, tail);
        assert(item_tokens(es) == tokens_of(es[0]) + seq![TokenModel::Punct(',')] + item_tokens(
            more,
        ));
        match spec_tokenize(tail) {
            Some(r) => {
                assert(tokens_of(es[0]) + (seq![TokenModel::Punct(',')] + (item_tokens(more) + r))
                    =~= (tokens_of(es[0]) + seq![TokenModel::Punct(',')] + item_tokens(more)) + r);
            },
            None => {},
        }
    }
}

/// The rendered lines of a non-empty member list, followed by safe text,
/// tokenize to the list's token sequence followed by the rest's tokens.
#[verifier::rlimit(100)]
pub proof fn lemma_tokenize_render_members(
    ms: Seq<(Seq<char>, ValueModel)>,
    depth: nat,
    tail: Seq<char>,
)
    requires
        ms.len() >= 1,
        wf_members(ms),
        tail.len() >= 1,
        !is_num_extender(tail[0]),
    ensures
        spec_tokenize(render_members(ms, depth) + tail) == opt_prepend(
            member_tokens(ms),
            spec_tokenize(tail),
        ),
    decreases ms, 2int,
{
    lemma_indent_ws(depth);
    let k = ms[0].0;
    let v = ms[0].1;
    let after: Seq<char> = if ms.len() == 1 {
        tail
    } else {
        seq![','] + (seq!['\n'] + (render_members(ms.drop_first(), depth) + tail))
    };
    let colon = seq![' '] + (seq![':'] + (seq![' '] + (render_value(v, depth) + after)));
    if ms.len() == 1 {
        assert(render_members(ms, depth) == member_line(k, v, depth));
    } else {
        assert(render_members(ms, depth) == member_line(k, v, depth) + seq![',', '\n']
            + render_members(ms.drop_first(), depth));
    }
    assert(member_line(k, v, depth) == spec_indent(depth) + seq!['"'] + k + seq!['"', ' ', ':', ' ']
        + render_value(v, depth));
    assert(render_members(ms, depth) + tail =~= spec_indent(depth) + (seq!['"'] + k + seq!['"']
        + colon));
    lemma_tokenize_ws(spec_indent(depth), seq!['"'] + k + seq!['"'] + colon);
    lemma_tokenize_string(k, colon);
    assert(all_whitespace(seq![' ']));
    lemma_tokenize_ws(seq![' '], seq![':'] + (seq![' '] + (render_value(v, depth) + after)));
    lemma_tokenize_punct(':', seq![' '] + (render_value(v, depth) + after));
    lemma_tokenize_ws(seq![' '], render_value(v, depth) + after);
    assert(after.len() >= 1 && !is_num_extender(after[0])) by {
        if ms.len() > 1 {
            assert(after[0] == ',');
        }
    }
    lemma_tokenize_render(v, depth, after);
    if ms.len() == 1 {
        assert(member_tokens(ms) == seq![TokenModel::Str(k), TokenModel::Punct(':')] + tokens_of(
            v,
        ));
        match spec_tokenize(tail) {
            Some(r) => {
                assert(seq![TokenModel::Str(k)] + (seq![TokenModel::Punct(':')] + (tokens_of(v)
                    + r)) =~= (seq![TokenModel::Str(k), TokenModel::Punct(':')] + tokens_of(v))
                    + r);
            },
            None => {},
        }
    } else {
        let more = ms.drop_first();
        lemma_tokenize_punct(',', seq!['\n'] + (render_members(more, depth) + tail));
        assert(all_whitespace(seq!['\n']));
        lemma_tokenize_ws(seq!['\n'], render_members(more, depth) + tail);
        lemma_tokenize_render_members(more, depth, tail);
        assert(member_tokens(ms) == seq![TokenModel::Str(k), TokenModel::Punct(':')] + tokens_of(
            v,
        ) + seq![TokenModel::Punct(',')] + member_tokens(more));
        match spec_tokenize(tail) {
            Some(r) => {
                assert(seq![TokenModel::Str(k)] + (seq![TokenModel::Punct(':')] + (tokens_of(v) + (
                seq![TokenModel::Punct(',')] + (member_tokens(more) + r)))) =~= (seq![
                    TokenModel::Str(k),
                    TokenModel::Punct(':'),
                ] + tokens_of(v) + seq![TokenModel::Punct(',')] + member_tokens(more)) + r);
            },
            None => {},
        }
    }
}

/// The canonical text of a well-formed value tokenizes to exactly the
/// value's token sequence.
pub proof fn lemma_tokenize_render_value(v: ValueModel, depth: nat)
    requires
        wf_value(v),
    ensures
        spec_tokenize(render_value(v, depth)) == Some(tokens_of(v)),
{
    lemma_tokenize_render(v, depth, Seq::empty());
    assert(render_value(v, depth) + Seq::<char>::empty() =~= render_value(v, depth));
    assert(spec_tokenize(Seq::<char>::empty()) == Some(Seq::<TokenModel>::empty()));
    assert(tokens_of(v) + Seq::<TokenModel>::empty() =~= tokens_of(v));
}

/// ROUND TRIP: the canonical text of any well-formed value tree parses back
/// to exactly that tree.
pub proof fn lemma_serialize_then_parse(v: ValueModel)
    requires
        wf_value(v),
    ensures
        crate::spec_parse_text(render_value(v, 0)) == Some(v),
{
    lemma_tokenize_render_value(v, 0);
    lemma_parse_tokens_of(v);
}

/// The lexeme of a token: the text the tokenizer matches for it.
pub open spec fn lexeme(t: TokenModel) -> Seq<char> {
    match t {
        TokenModel::Punct(c) => seq![c],
        TokenModel::Str(b) => seq!['"'] + b + seq!['"'],
        TokenModel::Num(m) => m,
        TokenModel::True => seq!['t', 'r', 'u', 'e'],
        TokenModel::False => seq!['f', 'a', 'l', 's', 'e'],
        TokenModel::Null => seq!['n', 'u', 'l', 'l'],
    }
}

/// A token the tokenizer could have produced.
pub open spec fn wf_token(t: TokenModel) -> bool {
    match t {
        TokenModel::Punct(c) => is_punct_char(c),
        TokenModel::Str(b) => wf_string_body(b),
        TokenModel::Num(m) => wf_number_lit(m),
        TokenModel::True => true,
        TokenModel::False => true,
        TokenModel::Null => true,
    }
}

/// A text laid out as tokens with a whitespace gap before each token and one
/// after the last: gap, lexeme, gap, lexeme, ..., gap.
pub open spec fn assemble(ts: Seq<TokenModel>, gaps: Seq<Seq<char>>) -> Seq<char>
    decreases ts.len(),
{
    if ts.len() == 0 {
        if gaps.len() > 0 {
            gaps[0]
        } else {
            Seq::empty()
        }
    } else {
        gaps[0] + lexeme(ts[0]) + assemble(ts.drop_first(), gaps.drop_first())
    }
}

/// An admissible choice of gaps: one more gap than tokens, every gap pure
/// whitespace, and an empty gap only where the tokens cannot merge - after a
/// number token the next lexeme must not start with a digit, a dot or an
/// exponent letter, or the gap between them must be non-empty.
pub open spec fn gaps_ok(ts: Seq<TokenModel>, gaps: Seq<Seq<char>>) -> bool {
    &&& gaps.len() == ts.len() + 1
    &&& forall|i: int| 0 <= i < gaps.len() ==> all_whitespace(#[trigger] gaps[i])
    &&& forall|i: int|
        0 <= i < ts.len() - 1 ==> ((#[trigger] gaps[i + 1]).len() > 0 || !(ts[i] is Num
            && is_num_extender(lexeme(ts[i + 1])[0])))
}

/// A well-formed token's lexeme is never empty.
pub proof fn lemma_lexeme_nonempty(t: TokenModel)
    requires
        wf_token(t),
    ensures
        lexeme(t).len() >= 1,
{
    if t is Num {
        let m = t->Num_0;
        if m.len() == 0 {
            assert(digit_run(m, 0) == 0);
            assert(num_end(m) is None);
        }
    }
}

/// Any admissible layout of a well-formed token sequence tokenizes back to
/// exactly that sequence, whatever the whitespace in the gaps.
#[verifier::rlimit(100)]
pub proof fn lemma_tokenize_assembly(ts: Seq<TokenModel>, gaps: Seq<Seq<char>>)
    requires
        forall|i: int| 0 <= i < ts.len() ==> wf_token(#[trigger] ts[i]),
        gaps_ok(ts, gaps),
    ensures
        spec_tokenize(assemble(ts, gaps)) == Some(ts),
    decreases ts.len(),
{
    if ts.len() == 0 {
        lemma_tokenize_ws(gaps[0], Seq::empty());
        assert(gaps[0] + Seq::<char>::empty() =~= gaps[0]);
        assert(ts =~= Seq::<TokenModel>::empty());
    } else {
        let t = ts[0];
        let more = ts.drop_first();
        let mgaps = gaps.drop_first();
        let rest = assemble(more, mgaps);
        assert(forall|i: int| 0 <= i < more.len() ==> wf_token(#[trigger] more[i])) by {
            assert(forall|i: int| 0 <= i < more.len() ==> more[i] == ts[i + 1]);
        }
        assert(gaps_ok(more, mgaps)) by {
            assert(forall|i: int| 0 <= i < mgaps.len() ==> mgaps[i] == gaps[i + 1]);
            assert(forall|i: int| 0 <= i < more.len() ==> more[i] == ts[i + 1]);
        }
        lemma_tokenize_assembly(more, mgaps);
        lemma_tokenize_ws(gaps[0], lexeme(t) + rest);
        assert(assemble(ts, gaps) =~= gaps[0] + (lexeme(t) + rest));
        match t {
            TokenModel::Punct(c) => {
                lemma_tokenize_punct(c, rest);
                assert(lexeme(t) + rest =~= seq![c] + rest);
            },
            TokenModel::Str(b) => {
                lemma_tokenize_string(b, rest);
                assert(lexeme(t) + rest =~= seq!['"'] + b + seq!['"'] + rest);
            },
            TokenModel::Num(m) => {
                // The character right after the literal is whitespace, the
                // end of the text, or the first character of the next
                // lexeme, which an admissible layout keeps non-extending.
                assert(safe_suffix(rest)) by {
                    if more.len() == 0 {
                        if mgaps[0].len() > 0 {
                            assert(rest[0] == mgaps[0][0]);
                            assert(is_whitespace_char(rest[0]));
                        }
                    } else {
                        lemma_lexeme_nonempty(more[0]);
                        if mgaps[0].len() > 0 {
                            assert(rest[0] == mgaps[0][0]);
                            assert(is_whitespace_char(rest[0]));
                        } else {
                            assert(rest =~= lexeme(more[0]) + assemble(
                                more.drop_first(),
                                mgaps.drop_first(),
                            ));
                            assert(rest[0] == lexeme(more[0])[0]);
                            assert(mgaps[0] == gaps[1] && more[0] == ts[1]);
                            assert(!(ts[0] is Num && is_num_extender(lexeme(ts[1])[0])));
                        }
                    }
                }
                lemma_tokenize_number(m, rest);
                assert(lexeme(t) + rest =~= m + rest);
            },
            TokenModel::True => {
                lemma_tokenize_true(rest);
                assert(lexeme(t) + rest =~= seq!['t', 'r', 'u', 'e'] + rest);
            },
            TokenModel::False => {
                lemma_tokenize_false(rest);
                assert(lexeme(t) + rest =~= seq!['f', 'a', 'l', 's', 'e'] + rest);
            },
            TokenModel::Null => {
                lemma_tokenize_null(rest);
                assert(lexeme(t) + rest =~= seq!['n', 'u', 'l', 'l'] + rest);
            },
        }
        assert(seq![t] + more =~= ts);
    }
}

/// WHITESPACE IDEMPOTENCE: two texts that lay out the same token sequence
/// with different whitespace in the gaps - inserting or removing whitespace
/// between tokens - parse to exactly the same outcome.
pub proof fn lemma_whitespace_immaterial(
    ts: Seq<TokenModel>,
    gaps1: Seq<Seq<char>>,
    gaps2: Seq<Seq<char>>,
)
    requires
        forall|i: int| 0 <= i < ts.len() ==> wf_token(#[trigger] ts[i]),
        gaps_ok(ts, gaps1),
        gaps_ok(ts, gaps2),
    ensures
        crate::spec_parse_text(assemble(ts, gaps1)) == crate::spec_parse_text(
            assemble(ts, gaps2),
        ),
{
    lemma_tokenize_assembly(ts, gaps1);
    lemma_tokenize_assembly(ts, gaps2);
}

/// A scanned string body is well-formed up to its closing quote.
pub proof fn lemma_str_body_take_wf(x: Seq<char>)
    requires
        str_body_end(x) is Some,
    ensures
        wf_string_body(x.take(str_body_end(x)->0 as int - 1)),
    decreases x.len(),
{
    let e = str_body_end(x)->0 as int;
    lemma_str_body_end_bound(x);
    if x[0] == '"' {
        assert(x.take(0) =~= Seq::<char>::empty());
    } else if x[0] == '\\' {
        if x.len() >= 2 && is_simple_escape_char(x[1]) {
            lemma_str_body_end_bound(x.skip(2));
            lemma_str_body_take_wf(x.skip(2));
            let e2 = str_body_end(x.skip(2))->0 as int;
            assert(e == e2 + 2);
            let b = x.take(e - 1);
            assert(b[0] == '\\' && b[1] == x[1]);
            assert(b.skip(2) =~= x.skip(2).take(e2 - 1));
            assert(b.len() >= 2);
        } else {
            assert(x.len() >= 6 && x[1] == 'u');
            lemma_str_body_end_bound(x.skip(6));
            lemma_str_body_take_wf(x.skip(6));
            let e2 = str_body_end(x.skip(6))->0 as int;
            assert(e == e2 + 6);
            let b = x.take(e - 1);
            assert(b[0] == '\\' && b[1] == 'u' && b[2] == x[2] && b[3] == x[3] && b[4] == x[4]
                && b[5] == x[5]);
            assert(b.skip(6) =~= x.skip(6).take(e2 - 1));
            assert(b.len() >= 6);
            assert(!(b.len() >= 2 && is_simple_escape_char(b[1])));
        }
    } else {
        lemma_str_body_end_bound(x.skip(1));
        lemma_str_body_take_wf(x.skip(1));
        let e2 = str_body_end(x.skip(1))->0 as int;
        assert(e == e2 + 1);
        let b = x.take(e - 1);
        if b.len() > 0 {
            assert(b[0] == x[0]);
            assert(b.skip(1) =~= x.skip(1).take(e2 - 1));
        }
    }
}

/// Truncating right after a digit run leaves the run unchanged.
pub proof fn lemma_digit_run_take(s: Seq<char>, n: int, i: int)
    requires
        0 <= i <= n <= s.len(),
        i + digit_run(s, i) <= n,
    ensures
        digit_run(s.take(n), i) == digit_run(s, i),
    decreases s.len() - i,
{
    let w = s.take(n);
    if i < n {
        assert(w[i] == s[i]);
        if is_digit_char(s[i]) {
            lemma_digit_run_take(s, n, i + 1);
        }
    }
}

/// A maximal number match is still its own maximal match once cut out of
/// the text.
pub proof fn lemma_num_end_take(s: Seq<char>)
    requires
        num_end(s) is Some,
    ensures
        num_end(s.take(num_end(s)->0 as int)) == Some(num_end(s)->0),
{
    let n = num_end(s)->0 as int;
    lemma_num_end_bound(s);
    let w = s.take(n);
    assert(w[0] == s[0]);
    let start: int = if s[0] == '-' {
        1int
    } else {
        0int
    };
    let d1 = digit_run(s, start);
    assert(d1 > 0);
    let p1 = start + d1;
    lemma_digit_run_bound(s, start);
    assert(p1 <= n) by {
        if p1 + 1 <= s.len() {
            lemma_digit_run_bound(s, p1 + 1);
        }
    }
    lemma_digit_run_take(s, n, start);
    assert(digit_run(w, start) == d1);
    let frac: int = if p1 < s.len() && s[p1] == '.' && digit_run(s, p1 + 1) > 0 {
        1 + digit_run(s, p1 + 1) as int
    } else {
        0int
    };
    let p2 = p1 + frac;
    assert(p2 <= n) by {
        if p2 + 1 <= s.len() {
            lemma_digit_run_bound(s, p2 + 1);
        }
    }
    let wfrac: int = if p1 < w.len() && w[p1] == '.' && digit_run(w, p1 + 1) > 0 {
        1 + digit_run(w, p1 + 1) as int
    } else {
        0int
    };
    assert(wfrac == frac) by {
        if p1 < n {
            assert(w[p1] == s[p1]);
            if s[p1] == '.' && digit_run(s, p1 + 1) > 0 {
                lemma_digit_run_take(s, n, p1 + 1);
            } else {
                if digit_run(s, p1 + 1) == 0 {
                    if p1 + 1 < n && is_digit_char(s[p1 + 1]) {
                        assert(digit_run(s, p1 + 1) > 0);
                    }
                    assert(digit_run(w, p1 + 1) == 0);
                }
            }
        }
    }
    let ex: int = if p2 < s.len() && (s[p2] == 'e' || s[p2] == 'E') {
        let sg: int = if p2 + 1 < s.len() && (s[p2 + 1] == '+' || s[p2 + 1] == '-') {
            1int
        } else {
            0int
        };
        if digit_run(s, p2 + 1 + sg) > 0 {
            1 + sg + digit_run(s, p2 + 1 + sg) as int
        } else {
            0int
        }
    } else {
        0int
    };
    assert(p2 + ex == n);
    if ex == 0 {
        assert(p2 == n);
        assert(num_end(w) == Some(n as nat));
    } else {
        assert(p2 < s.len() && (s[p2] == 'e' || s[p2] == 'E'));
        assert(p2 < n);
        assert(w[p2] == s[p2]);
        let sg: int = if p2 + 1 < s.len() && (s[p2 + 1] == '+' || s[p2 + 1] == '-') {
            1int
        } else {
            0int
        };
        assert(digit_run(s, p2 + 1 + sg) > 0);
        assert(ex == 1 + sg + digit_run(s, p2 + 1 + sg));
        assert(p2 + 1 + sg + digit_run(s, p2 + 1 + sg) == n);
        lemma_digit_run_take(s, n, p2 + 1 + sg);
        assert(p2 + 1 + sg <= n);
        if p2 + 1 < n {
            assert(w[p2 + 1] == s[p2 + 1]);
        }
        if sg == 1 {
            assert(p2 + 1 < n);
        }
        assert(num_end(w) == Some(n as nat));
    }
}

/// Every token the tokenizer produces is well-formed.
pub proof fn lemma_tokenize_wf(s: Seq<char>)
    ensures
        spec_tokenize(s) matches Some(ts) ==> forall|i: int|
            0 <= i < ts.len() ==> wf_token(#[trigger] ts[i]),
    decreases s.len(),
{
    if s.len() == 0 {
    } else {
        let c = s[0];
        if is_whitespace_char(c) {
            lemma_tokenize_ws(seq![c], s.skip(1));
            lemma_tokenize_wf(s.skip(1));
        } else if is_punct_char(c) {
            lemma_tokenize_wf(s.skip(1));
            lemma_cons_wf(TokenModel::Punct(c), spec_tokenize(s.skip(1)));
        } else if c == 't' {
            if s.len() >= 4 && s[1] == 'r' && s[2] == 'u' && s[3] == 'e' {
                lemma_tokenize_wf(s.skip(4));
                lemma_cons_wf(TokenModel::True, spec_tokenize(s.skip(4)));
            }
        } else if c == 'f' {
            if s.len() >= 5 && s[1] == 'a' && s[2] == 'l' && s[3] == 's' && s[4] == 'e' {
                lemma_tokenize_wf(s.skip(5));
                lemma_cons_wf(TokenModel::False, spec_tokenize(s.skip(5)));
            }
        } else if c == 'n' {
            if s.len() >= 4 && s[1] == 'u' && s[2] == 'l' && s[3] == 'l' {
                lemma_tokenize_wf(s.skip(4));
                lemma_cons_wf(TokenModel::Null, spec_tokenize(s.skip(4)));
            }
        } else if c == '"' {
            match str_body_end(s.skip(1)) {
                Some(e) => {
                    lemma_str_body_end_bound(s.skip(1));
                    lemma_str_body_take_wf(s.skip(1));
                    assert(s.skip(1).take(e as int - 1) =~= s.subrange(1, e as int));
                    lemma_tokenize_wf(s.skip(1 + e as int));
                    lemma_cons_wf(TokenModel::Str(s.subrange(1, e as int)), spec_tokenize(
                        s.skip(1 + e as int),
                    ));
                },
                None => {},
            }
        } else if c == '-' || is_digit_char(c) {
            match num_end(s) {
                Some(n) => {
                    if !leading_zero_violation(s.take(n as int)) {
                        lemma_num_end_take(s);
                        lemma_num_end_bound(s);
                        lemma_tokenize_wf(s.skip(n as int));
                        lemma_cons_wf(TokenModel::Num(s.take(n as int)), spec_tokenize(
                            s.skip(n as int),
                        ));
                    }
                },
                None => {},
            }
        }
    }
}

/// Consing a well-formed token onto a sequence of well-formed tokens keeps
/// every token well-formed.
proof fn lemma_cons_wf(t: TokenModel, rest: Option<Seq<TokenModel>>)
    requires
        wf_token(t),
        rest matches Some(ts) ==> forall|i: int|
            0 <= i < ts.len() ==> wf_token(#[trigger] ts[i]),
    ensures
        cons_token(t, rest) matches Some(ts) ==> forall|i: int|
            0 <= i < ts.len() ==> wf_token(#[trigger] ts[i]),
{
    match rest {
        Some(ts) => {
            let w = seq![t] + ts;
            assert(forall|i: int| 0 <= i < w.len() ==> wf_token(#[trigger] w[i])) by {
                assert(w[0] == t);
                assert(forall|i: int| 1 <= i < w.len() ==> w[i] == ts[i - 1]);
            }
        },
        None => {},
    }
}

/// Membership of one member pair in a member list.
pub open spec fn entry_of(m: Seq<(Seq<char>, ValueModel)>, p: (Seq<char>, ValueModel)) -> bool {
    exists|i: int| 0 <= i < m.len() && m[i] == p
}

/// Each entry after an update is the written pair or one of the old entries.
pub proof fn lemma_assoc_update_entries(m: Seq<(Seq<char>, ValueModel)>, k: Seq<char>, v: ValueModel)
    ensures
        forall|j: int|
            0 <= j < assoc_update(m, k, v).len() ==> (#[trigger] assoc_update(m, k, v)[j]) == (
            k,
            v,
            ) || entry_of(m, assoc_update(m, k, v)[j]),
    decreases m.len(),
{
    let r = assoc_update(m, k, v);
    if m.len() == 0 {
        assert(r[0] == (k, v));
    } else if m[0].0 == k {
        assert(r[0] == (k, v));
        assert(forall|j: int| 1 <= j < r.len() ==> r[j] == m[j]);
    } else {
        lemma_assoc_update_entries(m.drop_first(), k, v);
        let inner = assoc_update(m.drop_first(), k, v);
        assert(r[0] == m[0]);
        assert(forall|j: int| 1 <= j < r.len() ==> r[j] == inner[j - 1]);
        assert(forall|j: int| 1 <= j < r.len() ==> (r[j] == (k, v) || entry_of(m, r[j]))) by {
            assert forall|j: int| 1 <= j < r.len() && !(r[j] == (k, v)) implies entry_of(
                m,
                r[j],
            ) by {
                assert(entry_of(m.drop_first(), inner[j - 1]));
                let i = choose|i: int|
                    0 <= i < m.drop_first().len() && m.drop_first()[i] == inner[j - 1];
                assert(m[i + 1] == r[j]);
            }
        }
    }
}

/// An update never breaks key uniqueness.
pub proof fn lemma_assoc_update_unique(m: Seq<(Seq<char>, ValueModel)>, k: Seq<char>, v: ValueModel)
    requires
        unique_keys(m),
    ensures
        unique_keys(assoc_update(m, k, v)),
    decreases m.len(),
{
    let r = assoc_update(m, k, v);
    if m.len() == 0 {
    } else if m[0].0 == k {
        assert(forall|j: int| 1 <= j < r.len() ==> r[j] == m[j]);
        assert(forall|i: int, j: int|
            0 <= i < j < r.len() ==> (#[trigger] r[i]).0 != (#[trigger] r[j]).0) by {
            assert(forall|j: int| 1 <= j < r.len() ==> (#[trigger] r[j]).0 == m[j].0);
            assert(r[0].0 == m[0].0);
        }
    } else {
        assert(unique_keys(m.drop_first())) by {
            assert(forall|i: int|
                0 <= i < m.drop_first().len() ==> (#[trigger] m.drop_first()[i]) == m[i + 1]);
        }
        lemma_assoc_update_unique(m.drop_first(), k, v);
        lemma_assoc_update_entries(m.drop_first(), k, v);
        let inner = assoc_update(m.drop_first(), k, v);
        assert(forall|j: int| 1 <= j < r.len() ==> r[j] == inner[j - 1]);
        assert(forall|j: int| 1 <= j < r.len() ==> (#[trigger] r[j]).0 != m[0].0) by {
            assert forall|j: int| 1 <= j < r.len() implies (#[trigger] r[j]).0 != m[0].0 by {
                if inner[j - 1] == (k, v) {
                } else {
                    assert(entry_of(m.drop_first(), inner[j - 1]));
                    let i = choose|i: int|
                        0 <= i < m.drop_first().len() && m.drop_first()[i] == inner[j - 1];
                    assert(m[i + 1] == inner[j - 1]);
                }
            }
        }
        assert(forall|i: int, j: int|
            0 <= i < j < r.len() ==> (#[trigger] r[i]).0 != (#[trigger] r[j]).0) by {
            assert(forall|i: int, j: int|
                1 <= i < j < r.len() ==> (#[trigger] inner[i - 1]).0 != (#[trigger] inner[j
                    - 1]).0);
        }
    }
}

/// A collapsed member list has unique keys.
pub proof fn lemma_dedup_unique_keys(ms: Seq<(Seq<char>, ValueModel)>)
    ensures
        unique_keys(dedup_members(ms)),
    decreases ms.len(),
{
    if ms.len() == 0 {
    } else {
        lemma_dedup_unique_keys(ms.drop_last());
        lemma_assoc_update_unique(dedup_members(ms.drop_last()), ms.last().0, ms.last().1);
    }
}

/// Each entry of a collapsed member list is one of the original members.
pub proof fn lemma_dedup_entries(ms: Seq<(Seq<char>, ValueModel)>)
    ensures
        forall|j: int|
            0 <= j < dedup_members(ms).len() ==> entry_of(ms, #[trigger] dedup_members(ms)[j]),
    decreases ms.len(),
{
    if ms.len() > 0 {
        let front = ms.drop_last();
        lemma_dedup_entries(front);
        lemma_assoc_update_entries(dedup_members(front), ms.last().0, ms.last().1);
        let r = dedup_members(ms);
        assert forall|j: int| 0 <= j < r.len() implies entry_of(ms, r[j]) by {
            if r[j] == (ms.last().0, ms.last().1) {
                assert(ms[ms.len() - 1] == r[j]);
            } else {
                assert(entry_of(dedup_members(front), r[j]));
                let i = choose|i: int|
                    0 <= i < dedup_members(front).len() && dedup_members(front)[i] == r[j];
                assert(entry_of(front, dedup_members(front)[i]));
                let i2 = choose|i2: int| 0 <= i2 < front.len() && front[i2] == r[j];
                assert(ms[i2] == r[j]);
            }
        }
    }
}

/// Pointwise reading of `wf_items`.
pub proof fn lemma_wf_items_index(es: Seq<ValueModel>)
    ensures
        wf_items(es) <==> (forall|i: int| 0 <= i < es.len() ==> wf_value(#[trigger] es[i])),
    decreases es.len(),
{
    if es.len() > 0 {
        let dd = es.drop_first();
        lemma_wf_items_index(dd);
        assert(forall|i: int| 0 <= i < dd.len() ==> (#[trigger] dd[i]) == es[i + 1]);
        if wf_items(es) {
            assert forall|i: int| 0 <= i < es.len() implies wf_value(#[trigger] es[i]) by {
                if i > 0 {
                    assert(es[i] == dd[i - 1]);
                    assert(wf_value(dd[i - 1]));
                }
            }
        }
        if forall|i: int| 0 <= i < es.len() ==> wf_value(#[trigger] es[i]) {
            assert forall|i: int| 0 <= i < dd.len() implies wf_value(#[trigger] dd[i]) by {
                assert(dd[i] == es[i + 1]);
            }
            assert(wf_value(es[0]));
        }
    }
}

/// Pointwise reading of `wf_members`.
pub proof fn lemma_wf_members_index(ms: Seq<(Seq<char>, ValueModel)>)
    ensures
        wf_members(ms) <==> (forall|i: int|
            0 <= i < ms.len() ==> wf_string_body((#[trigger] ms[i]).0) && wf_value(ms[i].1)),
    decreases ms.len(),
{
    if ms.len() > 0 {
        let dd = ms.drop_first();
        lemma_wf_members_index(dd);
        assert(forall|i: int| 0 <= i < dd.len() ==> (#[trigger] dd[i]) == ms[i + 1]);
        if wf_members(ms) {
            assert forall|i: int| 0 <= i < ms.len() implies wf_string_body((#[trigger] ms[i]).0)
                && wf_value(ms[i].1) by {
                if i > 0 {
                    assert(ms[i] == dd[i - 1]);
                    assert(wf_string_body(dd[i - 1].0) && wf_value(dd[i - 1].1));
                }
            }
        }
        if forall|i: int|
            0 <= i < ms.len() ==> wf_string_body((#[trigger] ms[i]).0) && wf_value(ms[i].1) {
            assert forall|i: int| 0 <= i < dd.len() implies wf_string_body(
                (#[trigger] dd[i]).0,
            ) && wf_value(dd[i].1) by {
                assert(dd[i] == ms[i + 1]);
            }
            assert(wf_string_body(ms[0].0) && wf_value(ms[0].1));
        }
    }
}

/// A value parsed from well-formed tokens is well-formed.
pub proof fn lemma_parse_value_wf(ts: Seq<TokenModel>)
    requires
        forall|i: int| 0 <= i < ts.len() ==> wf_token(#[trigger] ts[i]),
    ensures
        spec_value(ts) matches Some(p) ==> wf_value(p.0),
    decreases ts.len(), 2int,
{
    if ts.len() > 0 {
        match ts[0] {
            TokenModel::Punct(p) => {
                if p == '[' {
                    lemma_parse_array_wf(ts);
                } else if p == '{' {
                    lemma_parse_object_wf(ts);
                }
            },
            _ => {
                assert(wf_token(ts[0]));
            },
        }
    }
}

/// An array parsed from well-formed tokens is well-formed.
pub proof fn lemma_parse_array_wf(ts: Seq<TokenModel>)
    requires
        forall|i: int| 0 <= i < ts.len() ==> wf_token(#[trigger] ts[i]),
    ensures
        spec_array(ts) matches Some(p) ==> wf_value(p.0),
    decreases ts.len(), 1int,
{
    if ts.len() > 0 && ts[0] == TokenModel::Punct('[') {
        if !(ts.len() >= 2 && ts[1] == TokenModel::Punct(']')) {
            assert(forall|i: int|
                0 <= i < ts.skip(1).len() ==> wf_token(#[trigger] ts.skip(1)[i]));
            lemma_parse_elements_wf(ts.skip(1));
        }
    }
}

/// Elements parsed from well-formed tokens are all well-formed.
pub proof fn lemma_parse_elements_wf(ts: Seq<TokenModel>)
    requires
        forall|i: int| 0 <= i < ts.len() ==> wf_token(#[trigger] ts[i]),
    ensures
        spec_elements(ts) matches Some(p) ==> wf_items(p.0),
    decreases ts.len(), 4int,
{
    lemma_parse_value_wf(ts);
    match spec_element(ts) {
        None => {},
        Some((v, n)) => {
            if n < ts.len() && ts[n as int] == TokenModel::Punct(',') {
                assert(forall|i: int|
                    0 <= i < ts.skip(n as int + 1).len() ==> wf_token(#[trigger] ts.skip(
                        n as int + 1,
                    )[i]));
                lemma_parse_elements_wf(ts.skip(n as int + 1));
                match spec_elements(ts.skip(n as int + 1)) {
                    None => {
                        lemma_wf_items_index(seq![v]);
                    },
                    Some((rest, _)) => {
                        lemma_wf_items_index(rest);
                        lemma_wf_items_index(seq![v] + rest);
                        assert(forall|i: int|
                            1 <= i < (seq![v] + rest).len() ==> (#[trigger] (seq![v] + rest)[i])
                                == rest[i - 1]);
                    },
                }
            } else {
                lemma_wf_items_index(seq![v]);
            }
        },
    }
}

/// An object parsed from well-formed tokens is well-formed: its keys are
/// unique after collapsing and every surviving member is well-formed.
pub proof fn lemma_parse_object_wf(ts: Seq<TokenModel>)
    requires
        forall|i: int| 0 <= i < ts.len() ==> wf_token(#[trigger] ts[i]),
    ensures
        spec_object(ts) matches Some(p) ==> wf_value(p.0),
    decreases ts.len(), 1int,
{
    if ts.len() > 0 && ts[0] == TokenModel::Punct('{') {
        if !(ts.len() >= 2 && ts[1] == TokenModel::Punct('}')) {
            assert(forall|i: int|
                0 <= i < ts.skip(1).len() ==> wf_token(#[trigger] ts.skip(1)[i]));
            lemma_parse_members_wf(ts.skip(1));
            match spec_members(ts.skip(1)) {
                None => {},
                Some((ms, _)) => {
                    lemma_dedup_unique_keys(ms);
                    lemma_dedup_entries(ms);
                    lemma_wf_members_index(ms);
                    lemma_wf_members_index(dedup_members(ms));
                    if wf_members(ms) {
                        assert(forall|j: int|
                            0 <= j < dedup_members(ms).len() ==> wf_string_body(
                                (#[trigger] dedup_members(ms)[j]).0,
                            ) && wf_value(dedup_members(ms)[j].1)) by {
                            assert forall|j: int| 0 <= j < dedup_members(ms).len() implies
                                wf_string_body((#[trigger] dedup_members(ms)[j]).0) && wf_value(
                                dedup_members(ms)[j].1,
                            ) by {
                                assert(entry_of(ms, dedup_members(ms)[j]));
                                let i = choose|i: int|
                                    0 <= i < ms.len() && ms[i] == dedup_members(ms)[j];
                            }
                        }
                    }
                },
            }
        }
    }
}

/// Members parsed from well-formed tokens are all well-formed.
pub proof fn lemma_parse_members_wf(ts: Seq<TokenModel>)
    requires
        forall|i: int| 0 <= i < ts.len() ==> wf_token(#[trigger] ts[i]),
    ensures
        spec_members(ts) matches Some(p) ==> wf_members(p.0),
    decreases ts.len(), 4int,
{
    lemma_parse_member_wf(ts);
    match spec_member(ts) {
        None => {},
        Some(((k, v), n)) => {
            if n < ts.len() && ts[n as int] == TokenModel::Punct(',') {
                assert(forall|i: int|
                    0 <= i < ts.skip(n as int + 1).len() ==> wf_token(#[trigger] ts.skip(
                        n as int + 1,
                    )[i]));
                lemma_parse_members_wf(ts.skip(n as int + 1));
                match spec_members(ts.skip(n as int + 1)) {
                    None => {
                        lemma_wf_members_index(seq![(k, v)]);
                    },
                    Some((rest, _)) => {
                        lemma_wf_members_index(rest);
                        lemma_wf_members_index(seq![(k, v)] + rest);
                        assert(forall|i: int|
                            1 <= i < (seq![(k, v)] + rest).len() ==> (#[trigger] (seq![(k, v)]
                                + rest)[i]) == rest[i - 1]);
                    },
                }
            } else {
                lemma_wf_members_index(seq![(k, v)]);
            }
        },
    }
}

/// A member parsed from well-formed tokens has a well-formed key and value.
pub proof fn lemma_parse_member_wf(ts: Seq<TokenModel>)
    requires
        forall|i: int| 0 <= i < ts.len() ==> wf_token(#[trigger] ts[i]),
    ensures
        spec_member(ts) matches Some(p) ==> wf_string_body(p.0.0) && wf_value(p.0.1),
    decreases ts.len(), 2int,
{
    if ts.len() >= 2 && ts[0] is Str && ts[1] == TokenModel::Punct(':') {
        assert(wf_token(ts[0]));
        assert(forall|i: int| 0 <= i < ts.skip(2).len() ==> wf_token(#[trigger] ts.skip(2)[i]));
        lemma_parse_value_wf(ts.skip(2));
    }
}

/// Whatever any text parses to is a well-formed value tree.
pub proof fn lemma_parse_text_wf(text: Seq<char>)
    ensures
        crate::spec_parse_text(text) matches Some(v) ==> wf_value(v),
{
    match spec_tokenize(text) {
        None => {},
        Some(ts) => {
            lemma_tokenize_wf(text);
            lemma_parse_value_wf(ts);
        },
    }
}

/// ROUND TRIP: whenever a document parses, the parsed tree's canonical text
/// parses again, to exactly the same tree.
pub proof fn lemma_parse_render_roundtrip(text: Seq<char>)
    ensures
        crate::spec_parse_text(text) matches Some(v) ==> crate::spec_parse_text(
            render_value(v, 0),
        ) == Some(v),
{
    match crate::spec_parse_text(text) {
        None => {},
        Some(v) => {
            lemma_parse_text_wf(text);
            lemma_serialize_then_parse(v);
        },
    }
}

} // verus!
