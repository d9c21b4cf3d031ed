//! The canonical pretty-printer: a value tree back to indented text.
//!
//! `render_value` is the mathematical definition of the format; the
//! executable printer is proved to produce exactly that text. Strings are
//! printed verbatim between quotes (escape sequences are stored un-decoded
//! and stay as they are), numbers print their literal text, a non-empty
//! container puts each entry on its own line indented four spaces per
//! nesting depth, and an empty container prints as `{}` or `[]`.

use vstd::prelude::*;

use crate::types::{Value, ValueModel, view_members, view_items, view_value};
use crate::parser::{lemma_view_members_index, lemma_view_items_index};

verus! {

/// Four spaces per nesting depth.
pub open spec fn spec_indent(depth: nat) -> Seq<char>
    decreases depth,
{
    if depth == 0 {
        Seq::empty()
    } else {
        spec_indent((depth - 1) as nat) + seq![' ', ' ', ' ', ' ']
    }
}

/// The canonical text of a value at a nesting depth.
pub open spec fn render_value(v: ValueModel, depth: nat) -> Seq<char>
    decreases v, 0int,
{
    match v {
        ValueModel::Str(s) => seq!['"'] + s + seq!['"'],
        ValueModel::Num(m) => m,
        ValueModel::Bool(b) => if b {
            seq!['t', 'r', 'u', 'e']
        } else {
            seq!['f', 'a', 'l', 's', 'e']
        },
        ValueModel::Null => seq!['n', 'u', 'l', 'l'],
        ValueModel::Object(ms) => if ms.len() == 0 {
            seq!['{', '}']
        } else {
            seq!['{', '\n'] + render_members(ms, (depth + 1) as nat) + seq!['\n'] + spec_indent(
                depth,
            ) + seq!['}']
        },
        ValueModel::Array(es) => if es.len() == 0 {
            seq!['[', ']']
        } else {
            seq!['[', '\n'] + render_items(es, (depth + 1) as nat) + seq!['\n'] + spec_indent(
                depth,
            ) + seq![']']
        },
    }
}

/// One member's line: the indent, the quoted key, ` : `, and the value.
pub open spec fn member_line(key: Seq<char>, v: ValueModel, depth: nat) -> Seq<char>
    decreases v, 1int,
{
    spec_indent(depth) + seq!['"'] + key + seq!['"', ' ', ':', ' '] + render_value(v, depth)
}

/// The member lines of a non-empty object, separated by `,\n`.
pub open spec fn render_members(ms: Seq<(Seq<char>, ValueModel)>, depth: nat) -> Seq<char>
    decreases ms, 2int,
{
    if ms.len() == 0 {
        Seq::empty()
    } else if ms.len() == 1 {
        member_line(ms[0].0, ms[0].1, depth)
    } else {
        member_line(ms[0].0, ms[0].1, depth) + seq![',', '\n'] + render_members(
            ms.drop_first(),
            depth,
        )
    }
}

/// One element's line: the indent and the value.
pub open spec fn item_line(v: ValueModel, depth: nat) -> Seq<char>
    decreases v, 1int,
{
    spec_indent(depth) + render_value(v, depth)
}

/// The element lines of a non-empty array, separated by `,\n`.
pub open spec fn render_items(es: Seq<ValueModel>, depth: nat) -> Seq<char>
    decreases es, 2int,
{
    if es.len() == 0 {
        Seq::empty()
    } else if es.len() == 1 {
        item_line(es[0], depth)
    } else {
        item_line(es[0], depth) + seq![',', '\n'] + render_items(es.drop_first(), depth)
    }
}

/// Extending a rendered member list by one more member appends a separator
/// and that member's line.
pub proof fn lemma_render_members_snoc(ms: Seq<(Seq<char>, ValueModel)>, depth: nat, i: int)
    requires
        1 <= i < ms.len(),
    ensures
        render_members(ms.take(i + 1), depth) == render_members(ms.take(i), depth) + seq![
            ',',
            '\n',
        ] + member_line(ms[i].0, ms[i].1, depth),
    decreases i,
{
    let a = ms.take(i + 1);
    let b = ms.take(i);
    if i == 1 {
        assert(a.drop_first() =~= seq![ms[1]]);
        assert(b =~= seq![ms[0]]);
        assert(a[0] == ms[0] && a[1] == ms[1]);
        assert(render_members(a.drop_first(), depth) == member_line(ms[1].0, ms[1].1, depth));
        assert(render_members(a, depth) == member_line(ms[0].0, ms[0].1, depth) + seq![',', '\n']
            + member_line(ms[1].0, ms[1].1, depth));
    } else {
        lemma_render_members_snoc(ms.drop_first(), depth, i - 1);
        assert(a.drop_first() =~= ms.drop_first().take(i));
        assert(b.drop_first() =~= ms.drop_first().take(i - 1));
        assert(ms.drop_first()[i - 1] == ms[i]);
        assert(a[0] == ms[0] && b[0] == ms[0]);
        assert((member_line(ms[0].0, ms[0].1, depth) + seq![',', '\n'] + (render_members(
            ms.drop_first().take(i - 1),
            depth,
        ) + seq![',', '\n'] + member_line(ms[i].0, ms[i].1, depth))) =~= ((member_line(
            ms[0].0,
            ms[0].1,
            depth,
        ) + seq![',', '\n'] + render_members(ms.drop_first().take(i - 1), depth)) + seq![',', '\n']
            + member_line(ms[i].0, ms[i].1, depth)));
    }
}

/// Extending a rendered element list by one more element appends a
/// separator and that element's line.
pub proof fn lemma_render_items_snoc(es: Seq<ValueModel>, depth: nat, i: int)
    requires
        1 <= i < es.len(),
    ensures
        render_items(es.take(i + 1), depth) == render_items(es.take(i), depth) + seq![',', '\n']
            + item_line(es[i], depth),
    decreases i,
{
    let a = es.take(i + 1);
    let b = es.take(i);
    if i == 1 {
        assert(a.drop_first() =~= seq![es[1]]);
        assert(b =~= seq![es[0]]);
        assert(a[0] == es[0] && a[1] == es[1]);
        assert(render_items(a.drop_first(), depth) == item_line(es[1], depth));
        assert(render_items(a, depth) == item_line(es[0], depth) + seq![',', '\n'] + item_line(
            es[1],
            depth,
        ));
    } else {
        lemma_render_items_snoc(es.drop_first(), depth, i - 1);
        assert(a.drop_first() =~= es.drop_first().take(i));
        assert(b.drop_first() =~= es.drop_first().take(i - 1));
        assert(es.drop_first()[i - 1] == es[i]);
        assert((item_line(es[0], depth) + seq![',', '\n'] + (render_items(
            es.drop_first().take(i - 1),
            depth,
        ) + seq![',', '\n'] + item_line(es[i], depth))) =~= ((item_line(es[0], depth) + seq![
            ',',
            '\n',
        ] + render_items(es.drop_first().take(i - 1), depth)) + seq![',', '\n'] + item_line(
            es[i],
            depth,
        )));
    }
}

impl Value {
    /// The canonical indented text of this value.
    pub fn to_text(&self) -> (r: String)
        ensures
            r@ == render_value(self.deep_view(), 0),
    {
        proof {
            assert(""@ =~= spec_indent(0)) by {
                reveal_strlit("");
            }
        }
        display(self, "", Ghost(0nat))
    }
}

/// Prints one value at the given indentation; `indent` is the text of
/// `spec_indent(depth)`.
fn display(value: &Value, indent: &str, Ghost(depth): Ghost<nat>) -> (r: String)
    requires
        indent@ == spec_indent(depth),
    ensures
        r@ == render_value(value.deep_view(), depth),
    decreases *value,
{
    match value {
        Value::String(s) => display_string(s),
        Value::Number(m) => m.clone(),
        Value::Boolean(b) => display_bool(*b),
        Value::Null => display_null(),
        Value::Object(members) => {
            let ghost ms = view_members(members@);
            proof {
                lemma_view_members_index(members@);
            }
            if members.len() == 0 {
                let r = String::from_str("{}");
                proof {
                    reveal_strlit("{}");
                    assert(r@ =~= seq!['{', '}']);
                }
                r
            } else {
                let mut child_indent = indent.to_owned();
                child_indent.append("    ");
                proof {
                    reveal_strlit("    ");
                    assert(child_indent@ =~= spec_indent((depth + 1) as nat));
                }
                let mut out = String::from_str("{\n");
                proof {
                    reveal_strlit("{\n");
                    assert(out@ =~= seq!['{', '\n'] + render_members(ms.take(0), (depth + 1) as nat));
                }
                let mut idx: usize = 0;
                while idx < members.len()
                    invariant
                        idx <= members@.len(),
                        ms == view_members(members@),
                        ms.len() == members@.len(),
                        forall|i: int|
                            0 <= i < members@.len() ==> #[trigger] ms[i] == (
                                members@[i].0@,
                                view_value(members@[i].1),
                            ),
                        child_indent@ == spec_indent((depth + 1) as nat),
                        indent@ == spec_indent(depth),
                        *value == Value::Object(*members),
                        out@ == seq!['{', '\n'] + render_members(ms.take(idx as int), (depth + 1) as nat),
                    decreases members@.len() - idx,
                {
                    let ghost before = out@;
                    if idx > 0 {
                        out.append(",\n");
                        proof {
                            reveal_strlit(",\n");
                        }
                    }
                    out.append(child_indent.as_str());
                    out.append("\"");
                    out.append(members[idx].0.as_str());
                    out.append("\" : ");
                    proof {
                        assert(decreases_to!(*value => value->Object_0));
                        assert(value->Object_0 == *members);
                        assert(decreases_to!(*members => members@));
                        assert(decreases_to!(members@ => members@[idx as int]));
                        assert(decreases_to!(members@[idx as int] => members@[idx as int].1));
                        assert(decreases_to!(*value => members@[idx as int].1));
                    }
                    let piece = display(&members[idx].1, child_indent.as_str(), Ghost(
                        (depth + 1) as nat,
                    ));
                    out.append(piece.as_str());
                    proof {
                        reveal_strlit("\"");
                        reveal_strlit("\" : ");
                        assert(("\" : ")@ =~= seq!['"', ' ', ':', ' ']);
                        assert(("\"")@ =~= seq!['"']);
                        if idx > 0 {
                            lemma_render_members_snoc(ms, (depth + 1) as nat, idx as int);
                            assert(out@ =~= seq!['{', '\n'] + render_members(
                                ms.take(idx as int + 1),
                                (depth + 1) as nat,
                            ));
                        } else {
                            assert(ms.take(1).drop_first() =~= Seq::<
                                (Seq<char>, ValueModel),
                            >::empty());
                            assert(render_members(ms.take(1), (depth + 1) as nat) == member_line(
                                ms[0].0,
                                ms[0].1,
                                (depth + 1) as nat,
                            ));
                            assert(out@ =~= seq!['{', '\n'] + render_members(
                                ms.take(1),
                                (depth + 1) as nat,
                            ));
                        }
                    }
                    idx = idx + 1;
                }
                out.append("\n");
                out.append(indent);
                out.append("}");
                proof {
                    reveal_strlit("\n");
                    reveal_strlit("}");
                    assert(ms.take(members@.len() as int) =~= ms);
                    assert(out@ =~= seq!['{', '\n'] + render_members(ms, (depth + 1) as nat) + seq![
                        '\n',
                    ] + spec_indent(depth) + seq!['}']);
                }
                out
            }
        },
        Value::Array(items) => {
            let ghost es = view_items(items@);
            proof {
                lemma_view_items_index(items@);
            }
            if items.len() == 0 {
                let r = String::from_str("[]");
                proof {
                    reveal_strlit("[]");
                    assert(r@ =~= seq!['[', ']']);
                }
                r
            } else {
                let mut child_indent = indent.to_owned();
                child_indent.append("    ");
                proof {
                    reveal_strlit("    ");
                    assert(child_indent@ =~= spec_indent((depth + 1) as nat));
                }
                let mut out = String::from_str("[\n");
                proof {
                    reveal_strlit("[\n");
                    assert(out@ =~= seq!['[', '\n'] + render_items(es.take(0), (depth + 1) as nat));
                }
                let mut idx: usize = 0;
                while idx < items.len()
                    invariant
                        idx <= items@.len(),
                        es == view_items(items@),
                        es.len() == items@.len(),
                        forall|i: int|
                            0 <= i < items@.len() ==> #[trigger] es[i] == view_value(items@[i]),
                        child_indent@ == spec_indent((depth + 1) as nat),
                        indent@ == spec_indent(depth),
                        *value == Value::Array(*items),
                        out@ == seq!['[', '\n'] + render_items(es.take(idx as int), (depth + 1) as nat),
                    decreases items@.len() - idx,
                {
                    if idx > 0 {
                        out.append(",\n");
                        proof {
                            reveal_strlit(",\n");
                        }
                    }
                    out.append(child_indent.as_str());
                    proof {
                        assert(decreases_to!(*value => value->Array_0));
                        assert(value->Array_0 == *items);
                        assert(decreases_to!(*items => items@));
                        assert(decreases_to!(items@ => items@[idx as int]));
                        assert(decreases_to!(*value => items@[idx as int]));
                    }
                    let piece = display(&items[idx], child_indent.as_str(), Ghost(
                        (depth + 1) as nat,
                    ));
                    out.append(piece.as_str());
                    proof {
                        if idx > 0 {
                            lemma_render_items_snoc(es, (depth + 1) as nat, idx as int);
                            assert(out@ =~= seq!['[', '\n'] + render_items(
                                es.take(idx as int + 1),
                                (depth + 1) as nat,
                            ));
                        } else {
                            assert(es.take(1).drop_first() =~= Seq::<ValueModel>::empty());
                            assert(render_items(es.take(1), (depth + 1) as nat) == item_line(
                                es[0],
                                (depth + 1) as nat,
                            ));
                            assert(out@ =~= seq!['[', '\n'] + render_items(
                                es.take(1),
                                (depth + 1) as nat,
                            ));
                        }
                    }
                    idx = idx + 1;
                }
                out.append("\n");
                out.append(indent);
                out.append("]");
                proof {
                    reveal_strlit("\n");
                    reveal_strlit("]");
                    assert(es.take(items@.len() as int) =~= es);
                    assert(out@ =~= seq!['[', '\n'] + render_items(es, (depth + 1) as nat) + seq![
                        '\n',
                    ] + spec_indent(depth) + seq![']']);
                }
                out
            }
        },
    }
}

/// A string value: the stored text between quotes, printed verbatim.
fn display_string(s: &String) -> (r: String)
    ensures
        r@ == seq!['"'] + s@ + seq!['"'],
{
    let mut out = String::from_str("\"");
    out.append(s.as_str());
    out.append("\"");
    proof {
        reveal_strlit("\"");
        assert(out@ =~= seq!['"'] + s@ + seq!['"']);
    }
    out
}

/// A boolean value: `true` or `false`.
fn display_bool(b: bool) -> (r: String)
    ensures
        b ==> r@ == seq!['t', 'r', 'u', 'e'],
        !b ==> r@ == seq!['f', 'a', 'l', 's', 'e'],
{
    if b {
        let r = String::from_str("true");
        proof {
            reveal_strlit("true");
            assert(r@ =~= seq!['t', 'r', 'u', 'e']);
        }
        r
    } else {
        let r = String::from_str("false");
        proof {
            reveal_strlit("false");
            assert(r@ =~= seq!['f', 'a', 'l', 's', 'e']);
        }
        r
    }
}

/// The null value: `null`.
fn display_null() -> (r: String)
    ensures
        r@ == seq!['n', 'u', 'l', 'l'],
{
    let r = String::from_str("null");
    proof {
        reveal_strlit("null");
        assert(r@ =~= seq!['n', 'u', 'l', 'l']);
    }
    r
}

} // verus!
