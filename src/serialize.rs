//! Writing a document back as JSON text.
use vstd::prelude::*;
use crate::chars::{push_char, to_chars};
use crate::value::{lemma_view_fields, lemma_view_values, view_fields, view_values, Json, Value};

verus! {

/// The text that stands for `c` inside a string literal.
pub open spec fn escape_char(c: char) -> Seq<char> {
    if c == '"' {
        seq!['\\', '"']
    } else if c == '\\' {
        seq!['\\', '\\']
    } else if c == '\u{8}' {
        seq!['\\', 'b']
    } else if c == '\u{c}' {
        seq!['\\', 'f']
    } else if c == '\n' {
        seq!['\\', 'n']
    } else if c == '\r' {
        seq!['\\', 'r']
    } else if c == '\t' {
        seq!['\\', 't']
    } else {
        seq![c]
    }
}

/// The body of the string literal for `t`, without its quotes.
pub open spec fn escape_text(t: Seq<char>) -> Seq<char>
    decreases t.len(),
{
    if t.len() == 0 {
        Seq::empty()
    } else {
        escape_text(t.drop_last()) + escape_char(t.last())
    }
}

/// The string literal for `t`.
pub open spec fn string_literal(t: Seq<char>) -> Seq<char> {
    seq!['"'] + escape_text(t) + seq!['"']
}

/// The compact JSON text of a document: no whitespace, fields and elements
/// in order.
pub open spec fn to_text(j: Json) -> Seq<char>
    decreases j,
{
    match j {
        Json::Number(t) => t,
        Json::Str(t) => string_literal(t),
        Json::Bool(b) => if b {
            seq!['t', 'r', 'u', 'e']
        } else {
            seq!['f', 'a', 'l', 's', 'e']
        },
        Json::Null => seq!['n', 'u', 'l', 'l'],
        Json::Array(vs) => seq!['['] + items_text(vs) + seq![']'],
        Json::Object(fs) => seq!['{'] + fields_text(fs) + seq!['}'],
    }
}

/// The elements of an array, separated by commas.
pub open spec fn items_text(vs: Seq<Json>) -> Seq<char>
    decreases vs,
{
    if vs.len() == 0 {
        Seq::empty()
    } else if vs.len() == 1 {
        to_text(vs[0])
    } else {
        to_text(vs[0]) + seq![','] + items_text(vs.drop_first())
    }
}

/// The fields of an object, each `"key":value`, separated by commas.
pub open spec fn fields_text(fs: Seq<(Seq<char>, Json)>) -> Seq<char>
    decreases fs,
{
    if fs.len() == 0 {
        Seq::empty()
    } else if fs.len() == 1 {
        string_literal(fs[0].0) + seq![':'] + to_text(fs[0].1)
    } else {
        string_literal(fs[0].0) + seq![':'] + to_text(fs[0].1) + seq![','] + fields_text(
            fs.drop_first(),
        )
    }
}

pub proof fn lemma_items_text_push(vs: Seq<Json>, x: Json)
    ensures
        items_text(vs.push(x)) == if vs.len() == 0 {
            to_text(x)
        } else {
            items_text(vs) + seq![','] + to_text(x)
        },
    decreases vs.len(),
{
    if vs.len() > 0 {
        assert(vs.push(x).drop_first() =~= vs.drop_first().push(x));
        lemma_items_text_push(vs.drop_first(), x);
        if vs.len() > 1 {
            assert(items_text(vs.push(x)) =~= items_text(vs) + seq![','] + to_text(x));
        } else {
            assert(vs.drop_first() =~= Seq::<Json>::empty());
            assert(items_text(vs.push(x)) =~= items_text(vs) + seq![','] + to_text(x));
        }
    }
}

pub proof fn lemma_fields_text_push(fs: Seq<(Seq<char>, Json)>, x: (Seq<char>, Json))
    ensures
        fields_text(fs.push(x)) == if fs.len() == 0 {
            string_literal(x.0) + seq![':'] + to_text(x.1)
        } else {
            fields_text(fs) + seq![','] + string_literal(x.0) + seq![':'] + to_text(x.1)
        },
    decreases fs.len(),
{
    if fs.len() > 0 {
        assert(fs.push(x).drop_first() =~= fs.drop_first().push(x));
        lemma_fields_text_push(fs.drop_first(), x);
        if fs.len() == 1 {
            assert(fs.drop_first() =~= Seq::<(Seq<char>, Json)>::empty());
        }
        assert(fields_text(fs.push(x)) =~= fields_text(fs) + seq![','] + string_literal(x.0)
            + seq![':'] + to_text(x.1));
    }
}

/// The escape that stands for `c` in a string literal, where it needs one.
fn escape_of(c: char) -> (r: Option<&'static str>)
    ensures
        match r {
            Some(l) => l@ == escape_char(c),
            None => escape_char(c) == seq![c],
        },
{
    proof {
        reveal_strlit("\\\"");
        reveal_strlit("\\\\");
        reveal_strlit("\\b");
        reveal_strlit("\\f");
        reveal_strlit("\\n");
        reveal_strlit("\\r");
        reveal_strlit("\\t");
    }
    let r = if c == '"' {
        Some("\\\"")
    } else if c == '\\' {
        Some("\\\\")
    } else if c == '\u{8}' {
        Some("\\b")
    } else if c == '\u{c}' {
        Some("\\f")
    } else if c == '\n' {
        Some("\\n")
    } else if c == '\r' {
        Some("\\r")
    } else if c == '\t' {
        Some("\\t")
    } else {
        None
    };
    proof {
        if let Some(l) = r {
            assert(l@ =~= escape_char(c));
        }
    }
    r
}

/// Appends the string literal for `t` to `out`.
fn write_string(t: &String, out: &mut String)
    ensures
        final(out)@ == old(out)@ + string_literal(t@),
{
    let s = to_chars(t.as_str());
    let ghost start_out = old(out)@ + seq!['"'];
    push_char(out, '"');
    let mut i: usize = 0;
    while i < s.len()
        invariant
            s@ == t@,
            i <= s@.len(),
            out@ == start_out + escape_text(s@.take(i as int)),
        decreases s@.len() - i,
    {
        let c = s[i];
        proof {
            assert(s@.take(i + 1).drop_last() =~= s@.take(i as int));
            assert(escape_text(s@.take(i + 1)) == escape_text(s@.take(i as int)) + escape_char(c));
        }
        let ghost before = out@;
        match escape_of(c) {
            None => {
                push_char(out, c);
            },
            Some(l) => {
                out.append(l);
            },
        }
        assert(out@ =~= start_out + escape_text(s@.take(i + 1)));
        i += 1;
    }
    push_char(out, '"');
    proof {
        assert(s@.take(i as int) =~= t@);
        assert(out@ =~= old(out)@ + string_literal(t@));
    }
}

/// Appends the JSON text of `v` to `out`.
fn write_value(v: &Value, out: &mut String)
    ensures
        final(out)@ == old(out)@ + to_text(v@),
    decreases v,
{
    proof {
        reveal_strlit("true");
        reveal_strlit("false");
        reveal_strlit("null");
        reveal_strlit("[");
        reveal_strlit("]");
        reveal_strlit("{");
        reveal_strlit("}");
        reveal_strlit(",");
        reveal_strlit(":");
        assert("["@ =~= seq!['[']);
        assert("]"@ =~= seq![']']);
        assert("{"@ =~= seq!['{']);
        assert("}"@ =~= seq!['}']);
        assert(","@ =~= seq![',']);
        assert(":"@ =~= seq![':']);
    }
    match v {
        Value::Number(t) => {
            out.append(t.as_str());
        },
        Value::Str(t) => {
            write_string(t, out);
        },
        Value::Bool(b) => {
            if *b {
                out.append("true");
                assert("true"@ =~= seq!['t', 'r', 'u', 'e']);
            } else {
                out.append("false");
                assert("false"@ =~= seq!['f', 'a', 'l', 's', 'e']);
            }
        },
        Value::Null => {
            out.append("null");
            assert("null"@ =~= seq!['n', 'u', 'l', 'l']);
        },
        Value::Array(items) => {
            let ghost start = old(out)@ + seq!['['];
            out.append("[");
            proof {
                lemma_view_values(items@);
            }
            let mut i: usize = 0;
            while i < items.len()
                invariant
                    *v == Value::Array(*items),
                    i <= items@.len(),
                    view_values(items@).len() == items@.len(),
                    forall|j: int| 0 <= j < items@.len() ==> #[trigger] view_values(items@)[j] == items@[j]@,
                    out@ == start + items_text(view_values(items@).take(i as int)),
                decreases items@.len() - i,
            {
                let ghost vs = view_values(items@);
                proof {
                    reveal_strlit(",");
                    assert(","@ =~= seq![',']);
                    assert(vs.take(i + 1) =~= vs.take(i as int).push(vs[i as int]));
                    lemma_items_text_push(vs.take(i as int), vs[i as int]);
                }
                let ghost prev = out@;
                if i > 0 {
                    out.append(",");
                }
                let ghost sep = out@;
                proof {
                    vstd::std_specs::vec::axiom_vec_index_decreases(*items, i as int);
                    assert(decreases_to!(*items => items[i as int]));
                    assert(*v == Value::Array(*items));
                    assert(decreases_to!(*v => v->Array_0));
                    assert(decreases_to!(*v => items[i as int]));
                }
                write_value(&items[i], out);
                proof {
                    assert(vs[i as int] == items@[i as int]@);
                    assert(out@ == sep + to_text(vs[i as int]));
                    assert(prev == start + items_text(vs.take(i as int)));
                    if i > 0 {
                        assert(sep == prev + seq![',']);
                        assert(out@ =~= start + (items_text(vs.take(i as int)) + seq![','] + to_text(
                            vs[i as int],
                        )));
                    } else {
                        assert(out@ =~= start + to_text(vs[i as int]));
                    }
                }
                i += 1;
            }
            out.append("]");
            proof {
                assert(view_values(items@).take(i as int) =~= view_values(items@));
            }
        },
        Value::Object(fields) => {
            let ghost start = old(out)@ + seq!['{'];
            out.append("{");
            proof {
                lemma_view_fields(fields@);
            }
            let mut i: usize = 0;
            while i < fields.len()
                invariant
                    *v == Value::Object(*fields),
                    i <= fields@.len(),
                    view_fields(fields@).len() == fields@.len(),
                    forall|j: int|
                        0 <= j < fields@.len() ==> #[trigger] view_fields(fields@)[j] == (
                        fields@[j].0@,
                        fields@[j].1@,
                    ),
                    out@ == start + fields_text(view_fields(fields@).take(i as int)),
                decreases fields@.len() - i,
            {
                let ghost fs = view_fields(fields@);
                proof {
                    reveal_strlit(",");
                    reveal_strlit(":");
                    assert(","@ =~= seq![',']);
                    assert(":"@ =~= seq![':']);
                    assert(fs.take(i + 1) =~= fs.take(i as int).push(fs[i as int]));
                    lemma_fields_text_push(fs.take(i as int), fs[i as int]);
                }
                if i > 0 {
                    out.append(",");
                }
                write_string(&fields[i].0, out);
                out.append(":");
                proof {
                    vstd::std_specs::vec::axiom_vec_index_decreases(*fields, i as int);
                    assert(decreases_to!(*fields => fields[i as int]));
                    assert(decreases_to!(*v => v->Object_0));
                    assert(decreases_to!(*v => fields[i as int]));
                    assert(decreases_to!(*v => fields@[i as int].1));
                }
                write_value(&fields[i].1, out);
                proof {
                    assert(fs[i as int] == (fields@[i as int].0@, fields@[i as int].1@));
                    let f = fs[i as int];
                    if i > 0 {
                        assert(out@ =~= start + (fields_text(fs.take(i as int)) + seq![',']
                            + string_literal(f.0) + seq![':'] + to_text(f.1)));
                    } else {
                        assert(out@ =~= start + (string_literal(f.0) + seq![':'] + to_text(f.1)));
                    }
                }
                i += 1;
            }
            out.append("}");
            proof {
                assert(view_fields(fields@).take(i as int) =~= view_fields(fields@));
            }
        },
    }
}

/// The compact JSON text of `v`: no whitespace, fields and elements in
/// order, and each `"`, `\\` and control character that has a short escape
/// written as that escape.
pub fn serialize(v: &Value) -> (r: String)
    ensures
        r@ == to_text(v@),
{
    let mut out = String::new();
    write_value(v, &mut out);
    assert(out@ =~= to_text(v@));
    out
}

} // verus!
