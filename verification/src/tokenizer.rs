//! The tokenizer: a single left-to-right pass from text to tokens.
//!
//! `spec_tokenize` is the mathematical definition of the lexical grammar;
//! `tokenize` is the executable scanner, proved to return exactly what
//! `spec_tokenize` says for every input.

use vstd::prelude::*;

use crate::types::{Error, Token, TokenModel};

verus! {

/// The four whitespace characters skipped between tokens.
pub open spec fn is_whitespace_char(c: char) -> bool {
    c == ' ' || c == '\n' || c == '\r' || c == '\t'
}

/// The six punctuation characters that form one token each.
pub open spec fn is_punct_char(c: char) -> bool {
    c == '{' || c == '}' || c == '[' || c == ']' || c == ',' || c == ':'
}

/// A decimal digit.
pub open spec fn is_digit_char(c: char) -> bool {
    '0' <= c && c <= '9'
}

/// A hexadecimal digit, either case.
pub open spec fn is_hex_digit_char(c: char) -> bool {
    is_digit_char(c) || ('a' <= c && c <= 'f') || ('A' <= c && c <= 'F')
}

/// The character of a recognized two-character escape: `\"`, `\\`, `\/`,
/// `\b`, `\f`, `\n`, `\r`, `\t`.
pub open spec fn is_simple_escape_char(c: char) -> bool {
    c == '"' || c == '\\' || c == '/' || c == 'b' || c == 'f' || c == 'n' || c == 'r' || c == 't'
}

/// A control character, excluded from plain string runs.
pub open spec fn is_control_char(c: char) -> bool {
    (c as u32) < 32 || (c as u32) == 127
}

/// Scanning a string literal after its opening quote: the number of
/// characters up to and including the closing quote, or `None` when the
/// string is unterminated or holds an invalid escape or a control character.
pub open spec fn str_body_end(s: Seq<char>) -> Option<nat>
    decreases s.len(),
{
    if s.len() == 0 {
        None
    } else if s[0] == '"' {
        Some(1nat)
    } else if s[0] == '\\' {
        if s.len() >= 2 && is_simple_escape_char(s[1]) {
            match str_body_end(s.skip(2)) {
                Some(n) => Some((n + 2) as nat),
                None => None,
            }
        } else if s.len() >= 6 && s[1] == 'u' && is_hex_digit_char(s[2]) && is_hex_digit_char(s[3])
            && is_hex_digit_char(s[4]) && is_hex_digit_char(s[5]) {
            match str_body_end(s.skip(6)) {
                Some(n) => Some((n + 6) as nat),
                None => None,
            }
        } else {
            None
        }
    } else if is_control_char(s[0]) {
        None
    } else {
        match str_body_end(s.skip(1)) {
            Some(n) => Some((n + 1) as nat),
            None => None,
        }
    }
}

pub proof fn lemma_str_body_end_bound(s: Seq<char>)
    ensures
        str_body_end(s) matches Some(e) ==> 1 <= e <= s.len(),
    decreases s.len(),
{
    if s.len() == 0 {
    } else if s[0] == '"' {
    } else if s[0] == '\\' {
        if s.len() >= 2 && is_simple_escape_char(s[1]) {
            lemma_str_body_end_bound(s.skip(2));
        } else if s.len() >= 6 && s[1] == 'u' && is_hex_digit_char(s[2]) && is_hex_digit_char(s[3])
            && is_hex_digit_char(s[4]) && is_hex_digit_char(s[5]) {
            lemma_str_body_end_bound(s.skip(6));
        }
    } else if !is_control_char(s[0]) {
        lemma_str_body_end_bound(s.skip(1));
    }
}

/// The length of the run of decimal digits starting at position `i`.
pub open spec fn digit_run(s: Seq<char>, i: int) -> nat
    decreases s.len() - i,
{
    if 0 <= i < s.len() && is_digit_char(s[i]) {
        (1 + digit_run(s, i + 1)) as nat
    } else {
        0
    }
}

pub proof fn lemma_digit_run_bound(s: Seq<char>, i: int)
    requires
        0 <= i <= s.len(),
    ensures
        i + digit_run(s, i) <= s.len(),
    decreases s.len() - i,
{
    if i < s.len() && is_digit_char(s[i]) {
        lemma_digit_run_bound(s, i + 1);
    }
}

/// The length of the maximal prefix of `s` matching the number pattern
/// (an optional sign, an integer part, an optional fraction, an optional
/// exponent), or `None` when no digit follows the start. The fraction is
/// taken only when a digit follows the dot, the exponent only when a digit
/// follows it, so a bare trailing `.` or `e` is left unconsumed.
pub open spec fn num_end(s: Seq<char>) -> Option<nat> {
    let start: int = if s.len() > 0 && s[0] == '-' {
        1int
    } else {
        0int
    };
    let d1 = digit_run(s, start);
    if d1 == 0 {
        None
    } else {
        let p1 = start + d1;
        let frac: int = if p1 < s.len() && s[p1] == '.' && digit_run(s, p1 + 1) > 0 {
            1 + digit_run(s, p1 + 1) as int
        } else {
            0int
        };
        let p2 = p1 + frac;
        let ex: int = if p2 < s.len() && (s[p2] == 'e' || s[p2] == 'E') {
            let sg: int = if p2 + 1 < s.len() && (s[p2 + 1] == '+' || s[p2 + 1] == '-') {
                1int
            } else {
                0int
            };
            if digit_run(s, p2 + 1 + sg) > 0 {
                1 + sg + digit_run(s, p2 + 1 + sg) as int
            } else {
                0int
            }
        } else {
            0int
        };
        Some((p2 + ex) as nat)
    }
}

pub proof fn lemma_num_end_bound(s: Seq<char>)
    ensures
        num_end(s) matches Some(n) ==> 1 <= n <= s.len(),
{
    let start: int = if s.len() > 0 && s[0] == '-' {
        1int
    } else {
        0int
    };
    if start <= s.len() {
        lemma_digit_run_bound(s, start);
        let d1 = digit_run(s, start);
        if d1 > 0 {
            let p1 = start + d1;
            if p1 + 1 <= s.len() {
                lemma_digit_run_bound(s, p1 + 1);
            }
            let frac: int = if p1 < s.len() && s[p1] == '.' && digit_run(s, p1 + 1) > 0 {
                1 + digit_run(s, p1 + 1) as int
            } else {
                0int
            };
            let p2 = p1 + frac;
            if p2 < s.len() && (s[p2] == 'e' || s[p2] == 'E') {
                let sg: int = if p2 + 1 < s.len() && (s[p2 + 1] == '+' || s[p2 + 1] == '-') {
                    1int
                } else {
                    0int
                };
                if p2 + 1 + sg <= s.len() {
                    lemma_digit_run_bound(s, p2 + 1 + sg);
                }
            }
        }
    }
}

/// Whether a matched number literal violates the leading-zero rule: after
/// an optional sign, the integer part must be the single digit `0` or start
/// with a nonzero digit, so a leading `0` directly followed by any further
/// digit is invalid.
pub open spec fn leading_zero_violation(lit: Seq<char>) -> bool {
    let sign: int = if lit.len() > 0 && lit[0] == '-' {
        1int
    } else {
        0int
    };
    sign + 1 < lit.len() && lit[sign] == '0' && is_digit_char(lit[sign + 1])
}

/// Prepends a token to a tokenization outcome, keeping failure.
pub open spec fn cons_token(t: TokenModel, rest: Option<Seq<TokenModel>>) -> Option<
    Seq<TokenModel>,
> {
    match rest {
        Some(ts) => Some(seq![t] + ts),
        None => None,
    }
}

/// The lexical grammar: the token sequence of a text, or `None` when some
/// position matches no rule. Dispatch is on the first remaining character;
/// whitespace is skipped; keywords must match exactly; a number takes its
/// maximal match and is then rejected on a leading zero.
pub open spec fn spec_tokenize(s: Seq<char>) -> Option<Seq<TokenModel>>
    decreases s.len(),
    via spec_tokenize_decreases
{
    if s.len() == 0 {
        Some(Seq::empty())
    } else {
        let c = s[0];
        if is_whitespace_char(c) {
            spec_tokenize(s.skip(1))
        } else if is_punct_char(c) {
            cons_token(TokenModel::Punct(c), spec_tokenize(s.skip(1)))
        } else if c == 't' {
            if s.len() >= 4 && s[1] == 'r' && s[2] == 'u' && s[3] == 'e' {
                cons_token(TokenModel::True, spec_tokenize(s.skip(4)))
            } else {
                None
            }
        } else if c == 'f' {
            if s.len() >= 5 && s[1] == 'a' && s[2] == 'l' && s[3] == 's' && s[4] == 'e' {
                cons_token(TokenModel::False, spec_tokenize(s.skip(5)))
            } else {
                None
            }
        } else if c == 'n' {
            if s.len() >= 4 && s[1] == 'u' && s[2] == 'l' && s[3] == 'l' {
                cons_token(TokenModel::Null, spec_tokenize(s.skip(4)))
            } else {
                None
            }
        } else if c == '"' {
            match str_body_end(s.skip(1)) {
                Some(e) => cons_token(
                    TokenModel::Str(s.subrange(1, e as int)),
                    spec_tokenize(s.skip(1 + e as int)),
                ),
                None => None,
            }
        } else if c == '-' || is_digit_char(c) {
            match num_end(s) {
                Some(n) => if leading_zero_violation(s.take(n as int)) {
                    None
                } else {
                    cons_token(TokenModel::Num(s.take(n as int)), spec_tokenize(s.skip(n as int)))
                },
                None => None,
            }
        } else {
            None
        }
    }
}

#[via_fn]
proof fn spec_tokenize_decreases(s: Seq<char>) {
    if s.len() > 0 {
        lemma_str_body_end_bound(s.skip(1));
        lemma_num_end_bound(s);
    }
}

/// A digit run is exactly the stretch up to the first non-digit.
pub proof fn lemma_digit_run_exact(s: Seq<char>, i: int, j: int)
    requires
        0 <= i <= j <= s.len(),
        forall|k: int| i <= k < j ==> is_digit_char(#[trigger] s[k]),
        j < s.len() ==> !is_digit_char(s[j as int]),
    ensures
        digit_run(s, i) == j - i,
    decreases j - i,
{
    if i < j {
        lemma_digit_run_exact(s, i + 1, j);
    }
}

/// Shifts a scan outcome by the `k` characters already consumed.
pub open spec fn shift_end(o: Option<nat>, k: nat) -> Option<nat> {
    match o {
        Some(e) => Some((e + k) as nat),
        None => None,
    }
}

/// Finds the end of a string literal's body: given the position right after
/// the opening quote, returns the position right after the closing quote.
fn scan_string_body(text: &str, start: usize, n: usize) -> (r: Option<usize>)
    requires
        n == text@.len(),
        start <= n,
    ensures
        match r {
            Some(j) => start < j <= n && str_body_end(text@.skip(start as int)) == Some(
                (j - start) as nat,
            ),
            None => str_body_end(text@.skip(start as int)) is None,
        },
{
    let mut cur: usize = start;
    loop
        invariant
            start <= cur <= n,
            n == text@.len(),
            str_body_end(text@.skip(start as int)) == shift_end(
                str_body_end(text@.skip(cur as int)),
                (cur - start) as nat,
            ),
        decreases n - cur,
    {
        if cur == n {
            return None;
        }
        let c = text.get_char(cur);
        proof {
            assert(text@.skip(cur as int)[0] == c);
        }
        if c == '"' {
            return Some(cur + 1);
        } else if c == '\\' {
            if n - cur >= 2 {
                let e = text.get_char(cur + 1);
                proof {
                    assert(text@.skip(cur as int)[1] == e);
                }
                if e == '"' || e == '\\' || e == '/' || e == 'b' || e == 'f' || e == 'n'
                    || e == 'r' || e == 't' {
                    proof {
                        assert(text@.skip(cur as int).skip(2) =~= text@.skip(cur + 2));
                    }
                    cur = cur + 2;
                } else if e == 'u' && n - cur >= 6 {
                    let h0 = text.get_char(cur + 2);
                    let h1 = text.get_char(cur + 3);
                    let h2 = text.get_char(cur + 4);
                    let h3 = text.get_char(cur + 5);
                    proof {
                        assert(text@.skip(cur as int)[2] == h0);
                        assert(text@.skip(cur as int)[3] == h1);
                        assert(text@.skip(cur as int)[4] == h2);
                        assert(text@.skip(cur as int)[5] == h3);
                    }
                    if is_hex_digit(h0) && is_hex_digit(h1) && is_hex_digit(h2) && is_hex_digit(
                        h3,
                    ) {
                        proof {
                            assert(text@.skip(cur as int).skip(6) =~= text@.skip(cur + 6));
                        }
                        cur = cur + 6;
                    } else {
                        return None;
                    }
                } else {
                    return None;
                }
            } else {
                return None;
            }
        } else if (c as u32) < 32 || (c as u32) == 127 {
            return None;
        } else {
            proof {
                assert(text@.skip(cur as int).skip(1) =~= text@.skip(cur + 1));
            }
            cur = cur + 1;
        }
    }
}

/// Whether `c` is a decimal digit.
fn is_digit(c: char) -> (b: bool)
    ensures
        b == is_digit_char(c),
{
    let u = c as u32;
    48 <= u && u <= 57
}

/// Whether `c` is a hexadecimal digit.
fn is_hex_digit(c: char) -> (b: bool)
    ensures
        b == is_hex_digit_char(c),
{
    let u = c as u32;
    (48 <= u && u <= 57) || (97 <= u && u <= 102) || (65 <= u && u <= 70)
}

/// Counts the run of decimal digits from `from`.
fn count_digits(text: &str, from: usize, n: usize) -> (j: usize)
    requires
        n == text@.len(),
        from <= n,
    ensures
        from <= j <= n,
        digit_run(text@, from as int) == j - from,
    decreases n - from,
{
    let mut cur: usize = from;
    loop
        invariant
            from <= cur <= n,
            n == text@.len(),
            forall|k: int| from <= k < cur ==> is_digit_char(#[trigger] text@[k]),
        decreases n - cur,
    {
        if cur == n {
            proof {
                lemma_digit_run_exact(text@, from as int, cur as int);
            }
            return cur;
        }
        if is_digit(text.get_char(cur)) {
            cur = cur + 1;
        } else {
            proof {
                lemma_digit_run_exact(text@, from as int, cur as int);
            }
            return cur;
        }
    }
}

/// Finds the end of the maximal number lexeme starting at `i`, as `num_end`
/// describes it over the remaining text.
fn scan_number(text: &str, i: usize, n: usize) -> (r: Option<usize>)
    requires
        n == text@.len(),
        i < n,
    ensures
        match r {
            Some(j) => i < j <= n && num_end(text@.skip(i as int)) == Some((j - i) as nat),
            None => num_end(text@.skip(i as int)) is None,
        },
{
    let ghost s = text@.skip(i as int);
    proof {
        lemma_digit_run_skip(text@, i as int);
    }
    let start: usize = if text.get_char(i) == '-' {
        i + 1
    } else {
        i
    };
    let p1 = count_digits(text, start, n);
    if p1 == start {
        return None;
    }
    let p2: usize = if p1 < n && text.get_char(p1) == '.' {
        let d2 = count_digits(text, p1 + 1, n);
        if d2 > p1 + 1 {
            d2
        } else {
            p1
        }
    } else {
        p1
    };
    let p3: usize = if p2 < n && (text.get_char(p2) == 'e' || text.get_char(p2) == 'E') {
        let sg: usize = if p2 + 1 < n && (text.get_char(p2 + 1) == '+' || text.get_char(p2 + 1)
            == '-') {
            1
        } else {
            0
        };
        let d3 = count_digits(text, p2 + 1 + sg, n);
        if d3 > p2 + 1 + sg {
            d3
        } else {
            p2
        }
    } else {
        p2
    };
    Some(p3)
}

/// `digit_run` over a suffix agrees with `digit_run` over the whole text.
pub proof fn lemma_digit_run_skip(s: Seq<char>, i: int)
    requires
        0 <= i <= s.len(),
    ensures
        forall|r: int|
            0 <= r ==> #[trigger] digit_run(s.skip(i), r) == digit_run(s, i + r),
{
    assert forall|r: int| 0 <= r implies #[trigger] digit_run(s.skip(i), r) == digit_run(
        s,
        i + r,
    ) by {
        lemma_digit_run_skip_one(s, i, r);
    }
}

proof fn lemma_digit_run_skip_one(s: Seq<char>, i: int, r: int)
    requires
        0 <= i <= s.len(),
        0 <= r,
    ensures
        digit_run(s.skip(i), r) == digit_run(s, i + r),
    decreases s.len() - i - r,
{
    if r < s.skip(i).len() && is_digit_char(s.skip(i)[r]) {
        lemma_digit_run_skip_one(s, i, r + 1);
    }
}

/// Checks the leading-zero rule on the literal at positions `i..j`.
fn has_leading_zero(text: &str, i: usize, j: usize, n: usize) -> (b: bool)
    requires
        n == text@.len(),
        i < j <= n,
    ensures
        b == leading_zero_violation(text@.subrange(i as int, j as int)),
{
    let ghost lit = text@.subrange(i as int, j as int);
    let t0: usize = if text.get_char(i) == '-' {
        i + 1
    } else {
        i
    };
    proof {
        assert(lit[0] == text@[i as int]);
    }
    if j - t0 >= 2 {
        proof {
            assert(lit[(t0 - i) as int] == text@[t0 as int]);
            assert(lit[(t0 - i) as int + 1] == text@[t0 + 1]);
        }
        text.get_char(t0) == '0' && is_digit(text.get_char(t0 + 1))
    } else {
        false
    }
}

/// Converts an input text into a list of tokens by a single iterative
/// left-to-right scan, exactly as `spec_tokenize` describes: whitespace is
/// skipped; `{ } [ ] , :` become `Punct` tokens; `true`, `false` and `null`
/// must match exactly; a string keeps the raw text between its quotes with
/// escape sequences left un-decoded; a number takes its longest match and is
/// rejected on a leading zero; any other character is an error.
pub fn tokenize(text: &str) -> (r: Result<Vec<Token>, Error>)
    ensures
        match r {
            Ok(tokens) => spec_tokenize(text@) == Some(tokens.deep_view()),
            Err(_) => spec_tokenize(text@) is None,
        },
{
    let n = text.unicode_len();
    let mut tokens: Vec<Token> = Vec::new();
    let mut i: usize = 0;
    proof {
        assert(text@.skip(0) =~= text@);
        assert(tokens.deep_view() =~= Seq::<TokenModel>::empty());
    }
    while i < n
        invariant
            i <= n,
            n == text@.len(),
            spec_tokenize(text@) == opt_prepend(
                tokens.deep_view(),
                spec_tokenize(text@.skip(i as int)),
            ),
        decreases n - i,
    {
        let ghost pre = tokens.deep_view();
        let ghost suf = text@.skip(i as int);
        let c = text.get_char(i);
        proof {
            assert(suf[0] == c);
        }
        if c == ' ' || c == '\n' || c == '\r' || c == '\t' {
            proof {
                assert(suf.skip(1) =~= text@.skip(i + 1));
            }
            i = i + 1;
        } else if c == '{' || c == '}' || c == '[' || c == ']' || c == ',' || c == ':' {
            tokens.push(Token::Punct(c));
            proof {
                assert(suf.skip(1) =~= text@.skip(i + 1));
                assert(tokens.deep_view() =~= pre + seq![TokenModel::Punct(c)]);
                lemma_extend(pre, TokenModel::Punct(c), tokens.deep_view(), text@.skip(i + 1));
            }
            i = i + 1;
        } else if c == 't' {
            if n - i >= 4 && text.get_char(i + 1) == 'r' && text.get_char(i + 2) == 'u'
                && text.get_char(i + 3) == 'e' {
                tokens.push(Token::True);
                proof {
                    assert(suf[1] == 'r' && suf[2] == 'u' && suf[3] == 'e');
                    assert(suf.skip(4) =~= text@.skip(i + 4));
                    assert(tokens.deep_view() =~= pre + seq![TokenModel::True]);
                    lemma_extend(pre, TokenModel::True, tokens.deep_view(), text@.skip(i + 4));
                }
                i = i + 4;
            } else {
                proof {
                    if n - i >= 4 {
                        assert(suf[1] == text@[i + 1] && suf[2] == text@[i + 2] && suf[3] == text@[i + 3]);
                    }
                }
                return Err(Error);
            }
        } else if c == 'f' {
            if n - i >= 5 && text.get_char(i + 1) == 'a' && text.get_char(i + 2) == 'l'
                && text.get_char(i + 3) == 's' && text.get_char(i + 4) == 'e' {
                tokens.push(Token::False);
                proof {
                    assert(suf[1] == 'a' && suf[2] == 'l' && suf[3] == 's' && suf[4] == 'e');
                    assert(suf.skip(5) =~= text@.skip(i + 5));
                    assert(tokens.deep_view() =~= pre + seq![TokenModel::False]);
                    lemma_extend(pre, TokenModel::False, tokens.deep_view(), text@.skip(i + 5));
                }
                i = i + 5;
            } else {
                proof {
                    if n - i >= 5 {
                        assert(suf[1] == text@[i + 1] && suf[2] == text@[i + 2] && suf[3] == text@[i + 3] && suf[4] == text@[i + 4]);
                    }
                }
                return Err(Error);
            }
        } else if c == 'n' {
            if n - i >= 4 && text.get_char(i + 1) == 'u' && text.get_char(i + 2) == 'l'
                && text.get_char(i + 3) == 'l' {
                tokens.push(Token::Null);
                proof {
                    assert(suf[1] == 'u' && suf[2] == 'l' && suf[3] == 'l');
                    assert(suf.skip(4) =~= text@.skip(i + 4));
                    assert(tokens.deep_view() =~= pre + seq![TokenModel::Null]);
                    lemma_extend(pre, TokenModel::Null, tokens.deep_view(), text@.skip(i + 4));
                }
                i = i + 4;
            } else {
                proof {
                    if n - i >= 4 {
                        assert(suf[1] == text@[i + 1] && suf[2] == text@[i + 2] && suf[3] == text@[i + 3]);
                    }
                }
                return Err(Error);
            }
        } else if c == '"' {
            match scan_string_body(text, i + 1, n) {
                None => {
                    proof {
                        assert(suf.skip(1) =~= text@.skip(i + 1));
                    }
                    return Err(Error);
                },
                Some(j) => {
                    proof {
                        assert(suf.skip(1) =~= text@.skip(i + 1));
                    }
                    let content = text.substring_char(i + 1, j - 1).to_owned();
                    let ghost e = (j - (i + 1)) as nat;
                    tokens.push(Token::String(content));
                    proof {
                        assert(content@ =~= suf.subrange(1, e as int));
                        assert(suf.skip(1 + e as int) =~= text@.skip(j as int));
                        assert(tokens.deep_view() =~= pre + seq![TokenModel::Str(
                            suf.subrange(1, e as int),
                        )]);
                        lemma_extend(pre, TokenModel::Str(suf.subrange(1, e as int)),
                            tokens.deep_view(), text@.skip(j as int));
                    }
                    i = j;
                },
            }
        } else if c == '-' || is_digit(c) {
            match scan_number(text, i, n) {
                None => {
                    return Err(Error);
                },
                Some(j) => {
                    if has_leading_zero(text, i, j, n) {
                        proof {
                            assert(text@.subrange(i as int, j as int) =~= suf.take((j - i) as int));
                        }
                        return Err(Error);
                    }
                    let lit = text.substring_char(i, j).to_owned();
                    tokens.push(Token::Number(lit));
                    proof {
                        assert(text@.subrange(i as int, j as int) =~= suf.take((j - i) as int));
                        assert(lit@ =~= suf.take((j - i) as int));
                        assert(suf.skip((j - i) as int) =~= text@.skip(j as int));
                        assert(tokens.deep_view() =~= pre + seq![TokenModel::Num(
                            suf.take((j - i) as int),
                        )]);
                        lemma_extend(pre, TokenModel::Num(suf.take((j - i) as int)),
                            tokens.deep_view(), text@.skip(j as int));
                    }
                    i = j;
                },
            }
        } else {
            return Err(Error);
        }
    }
    proof {
        assert(text@.skip(n as int) =~= Seq::<char>::empty());
        assert(tokens.deep_view() + Seq::<TokenModel>::empty() =~= tokens.deep_view());
    }
    Ok(tokens)
}

/// One step of the scan: pushing the token the spec prepends keeps the
/// loop's accounting of `spec_tokenize` intact.
proof fn lemma_extend(pre: Seq<TokenModel>, t: TokenModel, post: Seq<TokenModel>, rest: Seq<char>)
    requires
        post == pre + seq![t],
    ensures
        opt_prepend(pre, cons_token(t, spec_tokenize(rest))) == opt_prepend(
            post,
            spec_tokenize(rest),
        ),
{
    match spec_tokenize(rest) {
        Some(ts) => {
            assert(pre + (seq![t] + ts) =~= (pre + seq![t]) + ts);
        },
        None => {},
    }
}

/// Prepends already-built tokens to a tokenization outcome.
pub open spec fn opt_prepend(ts: Seq<TokenModel>, rest: Option<Seq<TokenModel>>) -> Option<
    Seq<TokenModel>,
> {
    match rest {
        Some(r) => Some(ts + r),
        None => None,
    }
}

} // verus!
