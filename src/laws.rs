//! Properties that relate parsing and writing.
use vstd::prelude::*;
use crate::error::ErrorKind;
use crate::grammar::{
    array_at, build_fields, digits_end, elements, is_digit, is_sign, is_ws,
    keys_unique, members, number_at, number_tail, object_at, parse_spec, prefixed, skip_ws,
    string_at, string_body, unescape, value_at,
};
use crate::serialize::{escape_char, escape_text, fields_text, items_text, string_literal, to_text};
use crate::value::Json;

verus! {

/// `t` is a number lexeme: an optional sign, digits, an optional fraction
/// and an optional exponent.
pub open spec fn is_number_lexeme(t: Seq<char>) -> bool {
    let q0: int = if t.len() > 0 && is_sign(t[0]) {
        1
    } else {
        0
    };
    let q1 = digits_end(t, q0);
    q1 > q0 && number_tail(t, q1) == Some(t.len() as int)
}

/// Every number is a lexeme and every object has distinct keys.
pub open spec fn well_formed(j: Json) -> bool
    decreases j,
{
    match j {
        Json::Number(t) => is_number_lexeme(t),
        Json::Array(vs) => items_well_formed(vs),
        Json::Object(fs) => keys_unique(fs) && fields_well_formed(fs),
        _ => true,
    }
}

pub open spec fn items_well_formed(vs: Seq<Json>) -> bool
    decreases vs,
{
    if vs.len() == 0 {
        true
    } else {
        well_formed(vs[0]) && items_well_formed(vs.drop_first())
    }
}

pub open spec fn fields_well_formed(fs: Seq<(Seq<char>, Json)>) -> bool
    decreases fs,
{
    if fs.len() == 0 {
        true
    } else {
        well_formed(fs[0].1) && fields_well_formed(fs.drop_first())
    }
}

/// `t` stands in `s` at `p`.
pub open spec fn text_at(s: Seq<char>, p: int, t: Seq<char>) -> bool {
    0 <= p && p + t.len() <= s.len() && s.subrange(p, p + t.len()) == t
}

/// Position `e` of `s` ends a value: the input ends there, or a `,`, `]` or
/// `}` follows.
pub open spec fn ends_value(s: Seq<char>, e: int) -> bool {
    e == s.len() || (0 <= e < s.len() && (s[e] == ',' || s[e] == ']' || s[e] == '}'))
}

/// No whitespace stands at position `e` of `s`.
pub open spec fn no_ws_at(s: Seq<char>, e: int) -> bool {
    !(0 <= e < s.len() && is_ws(s[e]))
}

/// `c` can begin a value.
pub open spec fn starts_value(c: char) -> bool {
    c == '"' || c == '[' || c == '{' || c == 't' || c == 'f' || c == 'n' || is_sign(c) || is_digit(c)
}

proof fn lemma_text_at_split(s: Seq<char>, p: int, a: Seq<char>, b: Seq<char>)
    requires
        text_at(s, p, a + b),
    ensures
        text_at(s, p, a),
        text_at(s, p + a.len(), b),
{
    let w = s.subrange(p, p + a.len() + b.len());
    assert(w == a + b);
    assert(s.subrange(p, p + a.len()) =~= w.subrange(0, a.len() as int));
    assert(w.subrange(0, a.len() as int) =~= a);
    assert(s.subrange(p + a.len(), p + a.len() + b.len()) =~= w.subrange(
        a.len() as int,
        w.len() as int,
    ));
    assert(w.subrange(a.len() as int, w.len() as int) =~= b);
}

proof fn lemma_text_at_index(s: Seq<char>, p: int, t: Seq<char>, i: int)
    requires
        text_at(s, p, t),
        0 <= i < t.len(),
    ensures
        s[p + i] == t[i],
{
    assert(s.subrange(p, p + t.len())[i] == s[p + i]);
}

proof fn lemma_escape_text_front(t: Seq<char>)
    requires
        t.len() > 0,
    ensures
        escape_text(t) == escape_char(t[0]) + escape_text(t.drop_first()),
    decreases t.len(),
{
    if t.len() == 1 {
        assert(t.drop_last() =~= Seq::<char>::empty());
        assert(t.drop_first() =~= Seq::<char>::empty());
        assert(escape_text(t) =~= escape_char(t[0]) + escape_text(t.drop_first()));
    } else {
        lemma_escape_text_front(t.drop_last());
        assert(t.drop_last().drop_first() =~= t.drop_first().drop_last());
        assert(escape_text(t) =~= escape_char(t[0]) + escape_text(t.drop_first()));
    }
}

proof fn lemma_string_body_round_trip(t: Seq<char>, s: Seq<char>, q: int)
    requires
        text_at(s, q, escape_text(t)),
        q + escape_text(t).len() < s.len(),
        s[q + escape_text(t).len()] == '"',
    ensures
        string_body(s, q) == Ok::<(Seq<char>, int), (ErrorKind, int)>(
            (t, q + escape_text(t).len() + 1),
        ),
    decreases t.len(),
{
    if t.len() == 0 {
        assert(escape_text(t) == Seq::<char>::empty());
        assert(t =~= Seq::<char>::empty());
    } else {
        lemma_escape_text_front(t);
        let c = t[0];
        let e = escape_char(c);
        lemma_text_at_split(s, q, e, escape_text(t.drop_first()));
        lemma_string_body_round_trip(t.drop_first(), s, q + e.len());
        lemma_text_at_index(s, q, e, 0);
        if e.len() == 2 {
            lemma_text_at_index(s, q, e, 1);
            assert(s[q] == '\\');
            assert(unescape(s[q + 1]) == Some(c));
        } else {
            assert(e == seq![c]);
            assert(s[q] == c);
            assert(c != '"' && c != '\\');
        }
        assert(seq![c] + t.drop_first() =~= t);
    }
}

proof fn lemma_string_round_trip(t: Seq<char>, s: Seq<char>, p: int)
    requires
        text_at(s, p, string_literal(t)),
        no_ws_at(s, p + string_literal(t).len()),
    ensures
        string_at(s, p) == Ok::<(Seq<char>, int), (ErrorKind, int)>(
            (t, p + string_literal(t).len()),
        ),
{
    let n = string_literal(t).len();
    lemma_text_at_split(s, p, seq!['"'] + escape_text(t), seq!['"']);
    lemma_text_at_split(s, p, seq!['"'], escape_text(t));
    lemma_text_at_index(s, p + 1 + escape_text(t).len(), seq!['"'], 0);
    lemma_string_body_round_trip(t, s, p + 1);
}

proof fn lemma_text_at_all(s: Seq<char>, p: int, t: Seq<char>)
    requires
        text_at(s, p, t),
    ensures
        forall|i: int| 0 <= i < t.len() ==> s[p + i] == #[trigger] t[i],
{
    assert forall|i: int| 0 <= i < t.len() implies s[p + i] == #[trigger] t[i] by {
        lemma_text_at_index(s, p, t, i);
    }
}

proof fn lemma_digits_shift(s: Seq<char>, t: Seq<char>, p: int, i: int)
    requires
        text_at(s, p, t),
        0 <= i <= t.len(),
        p + t.len() == s.len() || !is_digit(s[p + t.len()]),
    ensures
        digits_end(s, p + i) == p + digits_end(t, i),
    decreases t.len() - i,
{
    if i < t.len() {
        lemma_text_at_index(s, p, t, i);
        lemma_digits_shift(s, t, p, i + 1);
    }
}

proof fn lemma_number_round_trip(t: Seq<char>, s: Seq<char>, p: int)
    requires
        is_number_lexeme(t),
        text_at(s, p, t),
        ends_value(s, p + t.len()),
    ensures
        number_at(s, p) == Ok::<(Json, int), (ErrorKind, int)>((Json::Number(t), p + t.len())),
{
    let n = t.len() as int;
    lemma_text_at_all(s, p, t);
    let q0: int = if t.len() > 0 && is_sign(t[0]) {
        1
    } else {
        0
    };
    lemma_digits_shift(s, t, p, q0);
    let q1 = digits_end(t, q0);
    let f = if q1 < n && t[q1] == '.' {
        lemma_digits_shift(s, t, p, q1 + 1);
        digits_end(t, q1 + 1)
    } else {
        q1
    };
    if f < n && (t[f] == 'e' || t[f] == 'E') {
        let g = if f + 1 < n && is_sign(t[f + 1]) {
            f + 2
        } else {
            f + 1
        };
        lemma_digits_shift(s, t, p, g);
    }
    assert(number_tail(s, p + q1) == Some(p + n));
    assert(s.subrange(p, p + n) == t);
}

proof fn lemma_first_char(j: Json)
    requires
        well_formed(j),
    ensures
        to_text(j).len() > 0,
        starts_value(to_text(j)[0]),
{
    match j {
        Json::Number(t) => {
            let q0: int = if t.len() > 0 && is_sign(t[0]) {
                1
            } else {
                0
            };
            assert(digits_end(t, q0) > q0);
        },
        Json::Str(t) => {
            assert(string_literal(t)[0] == '"');
        },
        Json::Array(vs) => {
            assert(to_text(j)[0] == '[');
        },
        Json::Object(fs) => {
            assert(to_text(j)[0] == '{');
        },
        _ => {},
    }
}

proof fn lemma_build_fields_unique(fs: Seq<(Seq<char>, Json)>)
    requires
        keys_unique(fs),
    ensures
        build_fields(fs) == fs,
    decreases fs.len(),
{
    if fs.len() > 0 {
        let init = fs.drop_last();
        assert(keys_unique(init));
        lemma_build_fields_unique(init);
        assert(!(exists|i: int| 0 <= i < init.len() && init[i].0 == fs.last().0)) by {
            if exists|i: int| 0 <= i < init.len() && init[i].0 == fs.last().0 {
                let i = choose|i: int| 0 <= i < init.len() && init[i].0 == fs.last().0;
                assert(fs[i].0 == fs[fs.len() - 1].0);
            }
        }
        assert(init.push(fs.last()) =~= fs);
    } else {
        assert(fs =~= Seq::<(Seq<char>, Json)>::empty());
    }
}

proof fn lemma_value_round_trip(j: Json, s: Seq<char>, p: int)
    requires
        well_formed(j),
        text_at(s, p, to_text(j)),
        ends_value(s, p + to_text(j).len()),
    ensures
        value_at(s, p) == Ok::<(Json, int), (ErrorKind, int)>((j, p + to_text(j).len())),
    decreases j,
{
    let n = to_text(j).len() as int;
    lemma_first_char(j);
    lemma_text_at_index(s, p, to_text(j), 0);
    match j {
        Json::Number(t) => {
            lemma_number_round_trip(t, s, p);
        },
        Json::Str(t) => {
            lemma_string_round_trip(t, s, p);
        },
        Json::Bool(b) => {
            assert(s.subrange(p, p + n) == to_text(j));
        },
        Json::Null => {
            assert(s.subrange(p, p + n) == to_text(j));
        },
        Json::Array(vs) => {
            let inner = items_text(vs);
            assert(to_text(j) == seq!['['] + (inner + seq![']']));
            lemma_text_at_split(s, p, seq!['['], inner + seq![']']);
            if vs.len() == 0 {
                assert(inner =~= Seq::<char>::empty());
                lemma_text_at_index(s, p + 1, inner + seq![']'], 0);
                assert(vs =~= Seq::<Json>::empty());
            } else {
                lemma_first_char(vs[0]);
                assert(inner[0] == to_text(vs[0])[0]);
                lemma_text_at_index(s, p + 1, inner + seq![']'], 0);
                lemma_items_round_trip(vs, s, p + 1);
            }
        },
        Json::Object(fs) => {
            let inner = fields_text(fs);
            assert(to_text(j) == seq!['{'] + (inner + seq!['}']));
            lemma_text_at_split(s, p, seq!['{'], inner + seq!['}']);
            lemma_build_fields_unique(fs);
            if fs.len() == 0 {
                assert(inner =~= Seq::<char>::empty());
                lemma_text_at_index(s, p + 1, inner + seq!['}'], 0);
                assert(fs =~= Seq::<(Seq<char>, Json)>::empty());
            } else {
                assert(inner[0] == '"');
                lemma_text_at_index(s, p + 1, inner + seq!['}'], 0);
                lemma_fields_round_trip(fs, s, p + 1);
            }
        },
    }
}

proof fn lemma_items_round_trip(vs: Seq<Json>, s: Seq<char>, q: int)
    requires
        items_well_formed(vs),
        vs.len() > 0,
        text_at(s, q, items_text(vs) + seq![']']),
        ends_value(s, q + items_text(vs).len() + 1),
    ensures
        elements(s, q) == Ok::<(Seq<Json>, int), (ErrorKind, int)>(
            (vs, q + items_text(vs).len() + 1),
        ),
    decreases vs,
{
    let v = vs[0];
    let tv = to_text(v);
    lemma_first_char(v);
    if vs.len() == 1 {
        lemma_text_at_split(s, q, tv, seq![']']);
        lemma_text_at_index(s, q + tv.len(), seq![']'], 0);
        lemma_value_round_trip(v, s, q);
        assert(seq![v] =~= vs);
    } else {
        let rest = vs.drop_first();
        let tail = items_text(rest) + seq![']'];
        assert(items_text(vs) + seq![']'] =~= tv + (seq![','] + tail));
        lemma_text_at_split(s, q, tv, seq![','] + tail);
        lemma_text_at_split(s, q + tv.len(), seq![','], tail);
        lemma_text_at_index(s, q + tv.len(), seq![','], 0);
        lemma_value_round_trip(v, s, q);
        assert(items_well_formed(rest));
        assert(well_formed(rest[0]));
        lemma_first_char(rest[0]);
        assert(tail[0] == to_text(rest[0])[0]);
        lemma_text_at_index(s, q + tv.len() + 1, tail, 0);
        lemma_items_round_trip(rest, s, q + tv.len() + 1);
        assert(seq![v] + rest =~= vs);
    }
}

proof fn lemma_fields_round_trip(fs: Seq<(Seq<char>, Json)>, s: Seq<char>, q: int)
    requires
        fields_well_formed(fs),
        fs.len() > 0,
        text_at(s, q, fields_text(fs) + seq!['}']),
        ends_value(s, q + fields_text(fs).len() + 1),
    ensures
        members(s, q) == Ok::<(Seq<(Seq<char>, Json)>, int), (ErrorKind, int)>(
            (fs, q + fields_text(fs).len() + 1),
        ),
    decreases fs,
{
    let k = fs[0].0;
    let v = fs[0].1;
    let tk = string_literal(k);
    let tv = to_text(v);
    lemma_first_char(v);
    assert(tk[0] == '"');
    if fs.len() == 1 {
        assert(fields_text(fs) + seq!['}'] =~= tk + (seq![':'] + (tv + seq!['}'])));
        lemma_text_at_split(s, q, tk, seq![':'] + (tv + seq!['}']));
        lemma_text_at_split(s, q + tk.len(), seq![':'], tv + seq!['}']);
        lemma_text_at_split(s, q + tk.len() + 1, tv, seq!['}']);
        lemma_text_at_index(s, q, tk, 0);
        lemma_text_at_index(s, q + tk.len(), seq![':'], 0);
        lemma_text_at_index(s, q + tk.len() + 1, tv, 0);
        lemma_text_at_index(s, q + tk.len() + 1 + tv.len(), seq!['}'], 0);
        lemma_string_round_trip(k, s, q);
        lemma_value_round_trip(v, s, q + tk.len() + 1);
        assert(seq![(k, v)] =~= fs);
    } else {
        let rest = fs.drop_first();
        let tail = fields_text(rest) + seq!['}'];
        assert(fields_text(fs) + seq!['}'] =~= tk + (seq![':'] + (tv + (seq![','] + tail))));
        lemma_text_at_split(s, q, tk, seq![':'] + (tv + (seq![','] + tail)));
        lemma_text_at_split(s, q + tk.len(), seq![':'], tv + (seq![','] + tail));
        lemma_text_at_split(s, q + tk.len() + 1, tv, seq![','] + tail);
        lemma_text_at_split(s, q + tk.len() + 1 + tv.len(), seq![','], tail);
        lemma_text_at_index(s, q, tk, 0);
        lemma_text_at_index(s, q + tk.len(), seq![':'], 0);
        lemma_text_at_index(s, q + tk.len() + 1, tv, 0);
        lemma_text_at_index(s, q + tk.len() + 1 + tv.len(), seq![','], 0);
        lemma_string_round_trip(k, s, q);
        lemma_value_round_trip(v, s, q + tk.len() + 1);
        assert(tail[0] == '"');
        lemma_text_at_index(s, q + tk.len() + 1 + tv.len() + 1, tail, 0);
        lemma_fields_round_trip(rest, s, q + tk.len() + 1 + tv.len() + 1);
        assert(seq![(k, v)] + rest =~= fs);
    }
}

/// Reading back the text of a well-formed document gives the document.
pub proof fn lemma_parse_to_text(j: Json)
    requires
        well_formed(j),
    ensures
        parse_spec(to_text(j)) == Ok::<Json, (ErrorKind, int)>(j),
{
    let s = to_text(j);
    lemma_first_char(j);
    assert(s.subrange(0, s.len() as int) =~= s);
    lemma_value_round_trip(j, s, 0);
}

proof fn lemma_digits_end(s: Seq<char>, p: int)
    requires
        0 <= p <= s.len(),
    ensures
        p <= digits_end(s, p) <= s.len(),
        digits_end(s, p) < s.len() ==> !is_digit(s[digits_end(s, p)]),
    decreases s.len() - p,
{
    if p < s.len() && is_digit(s[p]) {
        lemma_digits_end(s, p + 1);
    }
}

proof fn lemma_number_well_formed(s: Seq<char>, p: int)
    requires
        0 <= p < s.len(),
        number_at(s, p) is Ok,
    ensures
        well_formed(number_at(s, p)->Ok_0.0),
        number_at(s, p)->Ok_0.1 <= s.len(),
{
    let q0 = if p < s.len() && is_sign(s[p]) {
        p + 1
    } else {
        p
    };
    lemma_digits_end(s, q0);
    let q1 = digits_end(s, q0);
    if q1 < s.len() && s[q1] == '.' {
        lemma_digits_end(s, q1 + 1);
    }
    let f = if q1 < s.len() && s[q1] == '.' {
        digits_end(s, q1 + 1)
    } else {
        q1
    };
    let g = if f + 1 < s.len() && is_sign(s[f + 1]) {
        f + 2
    } else {
        f + 1
    };
    if f < s.len() && (s[f] == 'e' || s[f] == 'E') {
        lemma_digits_end(s, g);
    }
    let e = number_tail(s, q1)->0;
    crate::grammar::lemma_skip_ws(s, e);
    let t = s.subrange(p, e);
    assert(text_at(s, p, t));
    lemma_digits_shift(s, t, p, q0 - p);
    if q1 < s.len() && s[q1] == '.' {
        lemma_digits_shift(s, t, p, q1 + 1 - p);
    }
    if f < s.len() && (s[f] == 'e' || s[f] == 'E') {
        lemma_digits_shift(s, t, p, g - p);
    }
    assert(is_number_lexeme(t));
}

proof fn lemma_items_forall(vs: Seq<Json>)
    ensures
        items_well_formed(vs) <==> forall|i: int| 0 <= i < vs.len() ==> well_formed(#[trigger] vs[i]),
    decreases vs.len(),
{
    if vs.len() > 0 {
        lemma_items_forall(vs.drop_first());
        if forall|i: int| 0 <= i < vs.len() ==> well_formed(#[trigger] vs[i]) {
            assert forall|i: int| 0 <= i < vs.drop_first().len() implies well_formed(
                #[trigger] vs.drop_first()[i],
            ) by {
                assert(vs.drop_first()[i] == vs[i + 1]);
            }
        }
        if items_well_formed(vs) {
            assert forall|i: int| 0 <= i < vs.len() implies well_formed(#[trigger] vs[i]) by {
                if i > 0 {
                    assert(vs[i] == vs.drop_first()[i - 1]);
                }
            }
        }
    }
}

proof fn lemma_fields_forall(fs: Seq<(Seq<char>, Json)>)
    ensures
        fields_well_formed(fs) <==> forall|i: int| 0 <= i < fs.len() ==> well_formed(#[trigger] fs[i].1),
    decreases fs.len(),
{
    if fs.len() > 0 {
        lemma_fields_forall(fs.drop_first());
        if forall|i: int| 0 <= i < fs.len() ==> well_formed(#[trigger] fs[i].1) {
            assert forall|i: int| 0 <= i < fs.drop_first().len() implies well_formed(
                #[trigger] fs.drop_first()[i].1,
            ) by {
                assert(fs.drop_first()[i] == fs[i + 1]);
            }
        }
        if fields_well_formed(fs) {
            assert forall|i: int| 0 <= i < fs.len() implies well_formed(#[trigger] fs[i].1) by {
                if i > 0 {
                    assert(fs[i] == fs.drop_first()[i - 1]);
                }
            }
        }
    }
}

proof fn lemma_build_fields_well_formed(pairs: Seq<(Seq<char>, Json)>)
    requires
        forall|i: int| 0 <= i < pairs.len() ==> well_formed(#[trigger] pairs[i].1),
    ensures
        keys_unique(build_fields(pairs)),
        forall|i: int|
            0 <= i < build_fields(pairs).len() ==> well_formed(#[trigger] build_fields(pairs)[i].1),
    decreases pairs.len(),
{
    if pairs.len() > 0 {
        let init = pairs.drop_last();
        assert forall|i: int| 0 <= i < init.len() implies well_formed(#[trigger] init[i].1) by {
            assert(init[i] == pairs[i]);
        }
        lemma_build_fields_well_formed(init);
        let b = build_fields(init);
        let k = pairs.last().0;
        if exists|i: int| 0 <= i < b.len() && b[i].0 == k {
            let i = choose|i: int| 0 <= i < b.len() && b[i].0 == k;
            assert(build_fields(pairs) == b.update(i, (k, pairs.last().1)));
        } else {
            assert(build_fields(pairs) == b.push((k, pairs.last().1)));
        }
    } else {
        assert(build_fields(pairs) =~= Seq::<(Seq<char>, Json)>::empty());
    }
}

proof fn lemma_value_well_formed(s: Seq<char>, p: int)
    requires
        value_at(s, p) is Ok,
    ensures
        well_formed(value_at(s, p)->Ok_0.0),
        value_at(s, p)->Ok_0.1 <= s.len(),
    decreases s.len() - p, 1int,
{
    let c = s[p];
    if c == '{' {
        lemma_object_well_formed(s, p);
    } else if c == '[' {
        lemma_array_well_formed(s, p);
    } else if c == '"' {
        crate::grammar::lemma_string_body_end(s, p + 1);
        crate::grammar::lemma_skip_ws(s, string_body(s, p + 1)->Ok_0.1);
    } else if is_sign(c) || is_digit(c) {
        lemma_number_well_formed(s, p);
    } else {
        let w: int = if c == 'f' {
            5
        } else {
            4
        };
        crate::grammar::lemma_skip_ws(s, p + w);
    }
}

proof fn lemma_array_well_formed(s: Seq<char>, p: int)
    requires
        0 <= p < s.len(),
        array_at(s, p) is Ok,
    ensures
        well_formed(array_at(s, p)->Ok_0.0),
        array_at(s, p)->Ok_0.1 <= s.len(),
    decreases s.len() - p, 0int,
{
    let q = skip_ws(s, p + 1);
    crate::grammar::lemma_skip_ws(s, p + 1);
    if q < s.len() && s[q] == ']' {
        crate::grammar::lemma_skip_ws(s, q + 1);
        assert(items_well_formed(Seq::<Json>::empty()));
    } else {
        lemma_elements_well_formed(s, q);
    }
}

proof fn lemma_elements_well_formed(s: Seq<char>, q: int)
    requires
        elements(s, q) is Ok,
    ensures
        items_well_formed(elements(s, q)->Ok_0.0),
        elements(s, q)->Ok_0.1 <= s.len(),
    decreases s.len() - q, 2int,
{
    lemma_value_well_formed(s, q);
    let (v, r) = value_at(s, q)->Ok_0;
    if q < r && r < s.len() && s[r] == ']' {
        crate::grammar::lemma_skip_ws(s, r + 1);
        assert(seq![v].drop_first() =~= Seq::<Json>::empty());
        assert(items_well_formed(Seq::<Json>::empty()));
        assert(items_well_formed(seq![v]));
    } else {
        crate::grammar::lemma_skip_ws(s, r + 1);
        let q2 = skip_ws(s, r + 1);
        lemma_elements_well_formed(s, q2);
        let vs = elements(s, q2)->Ok_0.0;
        assert((seq![v] + vs).drop_first() =~= vs);
        assert((seq![v] + vs)[0] == v);
        assert(elements(s, q) == prefixed(seq![v], elements(s, q2)));
        assert(items_well_formed(seq![v] + vs));
    }
}

proof fn lemma_object_well_formed(s: Seq<char>, p: int)
    requires
        0 <= p < s.len(),
        object_at(s, p) is Ok,
    ensures
        well_formed(object_at(s, p)->Ok_0.0),
        object_at(s, p)->Ok_0.1 <= s.len(),
    decreases s.len() - p, 0int,
{
    let q = skip_ws(s, p + 1);
    crate::grammar::lemma_skip_ws(s, p + 1);
    if q < s.len() && s[q] == '}' {
        crate::grammar::lemma_skip_ws(s, q + 1);
        assert(fields_well_formed(Seq::<(Seq<char>, Json)>::empty()));
        assert(keys_unique(Seq::<(Seq<char>, Json)>::empty()));
    } else {
        lemma_members_well_formed(s, q);
        let pairs = members(s, q)->Ok_0.0;
        lemma_fields_forall(pairs);
        lemma_build_fields_well_formed(pairs);
        lemma_fields_forall(build_fields(pairs));
    }
}

proof fn lemma_members_well_formed(s: Seq<char>, q: int)
    requires
        members(s, q) is Ok,
    ensures
        fields_well_formed(members(s, q)->Ok_0.0),
        members(s, q)->Ok_0.1 <= s.len(),
    decreases s.len() - q, 2int,
{
    let (k, r1) = string_at(s, q)->Ok_0;
    crate::grammar::lemma_string_body_end(s, q + 1);
    crate::grammar::lemma_skip_ws(s, string_body(s, q + 1)->Ok_0.1);
    crate::grammar::lemma_skip_ws(s, r1 + 1);
    let q1 = skip_ws(s, r1 + 1);
    lemma_value_well_formed(s, q1);
    let (v, r) = value_at(s, q1)->Ok_0;
    if q < r && r < s.len() && s[r] == '}' {
        crate::grammar::lemma_skip_ws(s, r + 1);
        assert(seq![(k, v)].drop_first() =~= Seq::<(Seq<char>, Json)>::empty());
        assert(fields_well_formed(Seq::<(Seq<char>, Json)>::empty()));
        assert(fields_well_formed(seq![(k, v)]));
    } else {
        crate::grammar::lemma_skip_ws(s, r + 1);
        let q2 = skip_ws(s, r + 1);
        lemma_members_well_formed(s, q2);
        let fs = members(s, q2)->Ok_0.0;
        assert((seq![(k, v)] + fs).drop_first() =~= fs);
        assert((seq![(k, v)] + fs)[0] == (k, v));
        assert(members(s, q) == prefixed(seq![(k, v)], members(s, q2)));
        assert(fields_well_formed(seq![(k, v)] + fs));
    }
}

/// Parsing the written text of a parsed document gives the same document:
/// for every input `s` that parses to `j`, `to_text(j)` parses to `j` too.
pub proof fn lemma_round_trip(s: Seq<char>)
    requires
        parse_spec(s) is Ok,
    ensures
        parse_spec(to_text(parse_spec(s)->Ok_0)) == parse_spec(s),
{
    crate::grammar::lemma_skip_ws(s, 0);
    lemma_value_well_formed(s, skip_ws(s, 0));
    lemma_parse_to_text(parse_spec(s)->Ok_0);
}

/// Nothing is left over silently: a document parses only where its value,
/// with the whitespace after it, reaches the end of the input, and where the
/// value ends earlier the parse fails with `TrailingInput` at that point.
pub proof fn lemma_no_trailing_input(s: Seq<char>)
    ensures
        parse_spec(s) is Ok ==> value_at(s, skip_ws(s, 0)) is Ok && value_at(s, skip_ws(s, 0))->Ok_0.1
            == s.len(),
        value_at(s, skip_ws(s, 0)) is Ok && value_at(s, skip_ws(s, 0))->Ok_0.1 < s.len()
            ==> parse_spec(s) == Err::<Json, (ErrorKind, int)>(
            (ErrorKind::TrailingInput, value_at(s, skip_ws(s, 0))->Ok_0.1),
        ),
{
    crate::grammar::lemma_skip_ws(s, 0);
    let p = skip_ws(s, 0);
    if value_at(s, p) is Ok {
        lemma_value_well_formed(s, p);
    }
}

} // verus!
