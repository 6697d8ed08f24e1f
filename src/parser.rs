//! The executable recursive-descent parser, proved to agree with the
//! grammar of `grammar`.
use vstd::prelude::*;
use crate::error::{ErrorKind, ParseError};
use crate::chars::{push_char, to_chars};
use crate::grammar::{
    array_at, build_fields, digits_end, elements, insert_field, keys_unique, lemma_prefixed_twice,
    literal_at, members, number_at, object_at, parse_spec, prefixed, skip_ws, string_at,
    string_body, unescape, value_at,
};
use crate::value::{lemma_view_fields, view_fields, view_values, Json, Value};

verus! {

/// `r` is the executable form of the recognizer result `g`.
pub open spec fn agrees<T: View>(r: Result<(T, usize), ParseError>, g: Result<(T::V, int), (ErrorKind, int)>) -> bool {
    match r {
        Ok((v, e)) => g == Ok::<(T::V, int), (ErrorKind, int)>((v@, e as int)),
        Err(x) => g == Err::<(T::V, int), (ErrorKind, int)>((x.kind, x.offset as int)),
    }
}

/// The position after the run of whitespace at `p`.
fn skip_whitespace(s: &Vec<char>, p: usize) -> (r: usize)
    requires
        p <= s@.len(),
    ensures
        r == skip_ws(s@, p as int),
        p <= r <= s@.len(),
{
    let mut q = p;
    while q < s.len() && (s[q] == ' ' || s[q] == '\t' || s[q] == '\r' || s[q] == '\n')
        invariant
            p <= q <= s@.len(),
            skip_ws(s@, p as int) == skip_ws(s@, q as int),
        decreases s@.len() - q,
    {
        q += 1;
    }
    q
}

/// The position after the run of digits at `p`.
fn scan_digits(s: &Vec<char>, p: usize) -> (r: usize)
    requires
        p <= s@.len(),
    ensures
        r == digits_end(s@, p as int),
        p <= r <= s@.len(),
{
    let mut q = p;
    while q < s.len() && '0' <= s[q] && s[q] <= '9'
        invariant
            p <= q <= s@.len(),
            digits_end(s@, p as int) == digits_end(s@, q as int),
        decreases s@.len() - q,
    {
        q += 1;
    }
    q
}

fn fail<T>(kind: ErrorKind, offset: usize) -> (r: Result<T, ParseError>)
    ensures
        r == Err::<T, ParseError>(ParseError { kind, offset }),
{
    Err(ParseError { kind, offset })
}

/// Recognizes a number at `p`, keeping its lexeme.
fn parse_number(s: &Vec<char>, p: usize) -> (r: Result<(Value, usize), ParseError>)
    requires
        s@.len() <= usize::MAX,
        p < s@.len(),
    ensures
        agrees(r, number_at(s@, p as int)),
        r is Ok ==> p < r->Ok_0.1 <= s@.len(),
{
    let q0 = if s[p] == '+' || s[p] == '-' {
        p + 1
    } else {
        p
    };
    let q1 = scan_digits(s, q0);
    if q1 == q0 {
        return fail(ErrorKind::InvalidNumber, p);
    }
    let f = if q1 < s.len() && s[q1] == '.' {
        let f = scan_digits(s, q1 + 1);
        if f == q1 + 1 {
            return fail(ErrorKind::InvalidNumber, p);
        }
        f
    } else {
        q1
    };
    let e = if f < s.len() && (s[f] == 'e' || s[f] == 'E') {
        let g = if f + 1 < s.len() && (s[f + 1] == '+' || s[f + 1] == '-') {
            f + 2
        } else {
            f + 1
        };
        let h = scan_digits(s, g);
        if h == g {
            return fail(ErrorKind::InvalidNumber, p);
        }
        h
    } else {
        f
    };
    let lexeme = collect(s, p, e);
    Ok((Value::Number(lexeme), skip_whitespace(s, e)))
}

/// The characters from `from` up to `to`, as a string.
fn collect(s: &Vec<char>, from: usize, to: usize) -> (r: String)
    requires
        from <= to <= s@.len(),
    ensures
        r@ == s@.subrange(from as int, to as int),
{
    let mut r = String::new();
    let mut i = from;
    while i < to
        invariant
            from <= i <= to <= s@.len(),
            r@ == s@.subrange(from as int, i as int),
        decreases to - i,
    {
        push_char(&mut r, s[i]);
        i += 1;
        assert(r@ =~= s@.subrange(from as int, i as int));
    }
    r
}

/// The character that the escape `\c` stands for.
fn unescape_char(c: char) -> (r: Option<char>)
    ensures
        r == unescape(c),
{
    if c == '"' {
        Some('"')
    } else if c == '\\' {
        Some('\\')
    } else if c == '/' {
        Some('/')
    } else if c == 'b' {
        Some('\u{8}')
    } else if c == 'f' {
        Some('\u{c}')
    } else if c == 'n' {
        Some('\n')
    } else if c == 'r' {
        Some('\r')
    } else if c == 't' {
        Some('\t')
    } else {
        None
    }
}

/// Recognizes a string whose opening quote is at `p`, decoding its escapes.
fn parse_string(s: &Vec<char>, p: usize) -> (r: Result<(String, usize), ParseError>)
    requires
        s@.len() <= usize::MAX,
        p < s@.len(),
        s@[p as int] == '"',
    ensures
        agrees(r, string_at(s@, p as int)),
        r is Ok ==> p < r->Ok_0.1 <= s@.len(),
{
    let mut out = String::new();
    let mut q = p + 1;
    proof {
        assert(out@ + Seq::<char>::empty() =~= out@);
        if let Ok((t, e)) = string_body(s@, q as int) {
            assert(out@ + t =~= t);
        }
    }
    loop
        invariant
            s@.len() <= usize::MAX,
            p + 1 <= q <= s@.len(),
            string_body(s@, p + 1) == prefixed(out@, string_body(s@, q as int)),
        decreases s@.len() - q,
    {
        if q >= s.len() {
            return fail(ErrorKind::InvalidString, q);
        }
        let c = s[q];
        if c == '"' {
            assert(out@ + Seq::<char>::empty() =~= out@);
            return Ok((out, skip_whitespace(s, q + 1)));
        }
        let d = if c == '\\' {
            if q + 1 >= s.len() {
                return fail(ErrorKind::InvalidString, q);
            }
            match unescape_char(s[q + 1]) {
                None => {
                    return fail(ErrorKind::InvalidString, q);
                },
                Some(d) => d,
            }
        } else {
            c
        };
        let ghost before = out@;
        let ghost next: int = if c == '\\' {
            q + 2
        } else {
            q + 1
        };
        push_char(&mut out, d);
        proof {
            lemma_prefixed_twice(before, seq![d], string_body(s@, next));
            assert(before + seq![d] =~= out@);
        }
        q = if c == '\\' {
            q + 2
        } else {
            q + 1
        };
    }
}

/// Whether `word` stands at `p`.
fn word_at(s: &Vec<char>, p: usize, word: &str) -> (r: bool)
    requires
        p <= s@.len() <= usize::MAX,
    ensures
        r == (p + word@.len() <= s@.len() && s@.subrange(p as int, p + word@.len()) == word@),
{
    let n = word.unicode_len();
    if n > s.len() - p {
        return false;
    }
    let mut i: usize = 0;
    while i < n
        invariant
            n == word@.len(),
            p + n <= s@.len() <= usize::MAX,
            i <= n,
            s@.subrange(p as int, p + i) == word@.subrange(0, i as int),
        decreases n - i,
    {
        if s[p + i] != word.get_char(i) {
            assert(s@.subrange(p as int, p + n)[i as int] != word@[i as int]);
            return false;
        }
        assert(s@.subrange(p as int, p + i + 1) =~= word@.subrange(0, i + 1));
        i += 1;
    }
    assert(word@.subrange(0, n as int) =~= word@);
    true
}

/// Sets the value of key `k` in `fields`: in place where `k` is present,
/// else at the end.
fn insert_field_exec(fields: &mut Vec<(String, Value)>, k: String, v: Value)
    requires
        keys_unique(view_fields(old(fields)@)),
    ensures
        view_fields(final(fields)@) == insert_field(view_fields(old(fields)@), k@, v@),
        keys_unique(view_fields(final(fields)@)),
{
    let ghost old_fs = view_fields(fields@);
    proof {
        lemma_view_fields(fields@);
    }
    let mut i: usize = 0;
    while i < fields.len()
        invariant
            fields@ == old(fields)@,
            old_fs == view_fields(fields@),
            old_fs.len() == fields@.len(),
            keys_unique(old_fs),
            forall|j: int| 0 <= j < fields@.len() ==> #[trigger] old_fs[j] == (fields@[j].0@, fields@[j].1@),
            i <= fields@.len(),
            forall|j: int| 0 <= j < i ==> old_fs[j].0 != k@,
        decreases fields@.len() - i,
    {
        if fields[i].0 == k {
            let ghost kv = k@;
            let ghost vv = v@;
            fields.set(i, (k, v));
            proof {
                lemma_view_fields(fields@);
                assert(old_fs[i as int].0 == kv);
                let c = choose|j: int| 0 <= j < old_fs.len() && old_fs[j].0 == kv;
                assert(c == i);
                assert(view_fields(fields@) =~= old_fs.update(i as int, (kv, vv)));
            }
            return;
        }
        i += 1;
    }
    let ghost kv = k@;
    let ghost vv = v@;
    fields.push((k, v));
    proof {
        lemma_view_fields(fields@);
        assert(view_fields(fields@) =~= old_fs.push((kv, vv)));
    }
}

/// Recognizes the value at `p`.
fn parse_value(s: &Vec<char>, p: usize) -> (r: Result<(Value, usize), ParseError>)
    requires
        s@.len() <= usize::MAX,
        p <= s@.len(),
    ensures
        agrees(r, value_at(s@, p as int)),
        r is Ok ==> p < r->Ok_0.1 <= s@.len(),
    decreases s@.len() - p, 1int,
{
    proof {
        reveal_strlit("false");
        reveal_strlit("true");
        reveal_strlit("null");
        assert("false"@ =~= seq!['f', 'a', 'l', 's', 'e']);
        assert("true"@ =~= seq!['t', 'r', 'u', 'e']);
        assert("null"@ =~= seq!['n', 'u', 'l', 'l']);
    }
    if p >= s.len() {
        return fail(ErrorKind::NoMatch, p);
    }
    let c = s[p];
    if c == '"' {
        match parse_string(s, p) {
            Ok((t, e)) => Ok((Value::Str(t), e)),
            Err(x) => Err(x),
        }
    } else if c == '{' {
        parse_object(s, p)
    } else if c == '[' {
        parse_array(s, p)
    } else if c == '+' || c == '-' || ('0' <= c && c <= '9') {
        parse_number(s, p)
    } else if c == 'f' {
        parse_literal(s, p, "false", Value::Bool(false))
    } else if c == 't' {
        parse_literal(s, p, "true", Value::Bool(true))
    } else if c == 'n' {
        parse_literal(s, p, "null", Value::Null)
    } else {
        fail(ErrorKind::NoMatch, p)
    }
}

/// Recognizes the literal `word` at `p`, standing for `v`.
fn parse_literal(s: &Vec<char>, p: usize, word: &str, v: Value) -> (r: Result<(Value, usize), ParseError>)
    requires
        s@.len() <= usize::MAX,
        p < s@.len(),
        word@.len() > 0,
    ensures
        agrees(r, literal_at(s@, p as int, word@, v@)),
        r is Ok ==> p < r->Ok_0.1 <= s@.len(),
{
    if word_at(s, p, word) {
        let e = skip_whitespace(s, p + word.unicode_len());
        Ok((v, e))
    } else {
        fail(ErrorKind::InvalidLiteral, p)
    }
}

/// Recognizes the array whose `[` is at `p`.
fn parse_array(s: &Vec<char>, p: usize) -> (r: Result<(Value, usize), ParseError>)
    requires
        s@.len() <= usize::MAX,
        p < s@.len(),
        s@[p as int] == '[',
    ensures
        agrees(r, array_at(s@, p as int)),
        r is Ok ==> p < r->Ok_0.1 <= s@.len(),
    decreases s@.len() - p, 0int,
{
    let q0 = skip_whitespace(s, p + 1);
    if q0 < s.len() && s[q0] == ']' {
        let e = skip_whitespace(s, q0 + 1);
        let r = Ok((Value::Array(Vec::new()), e));
        assert(view_values(Seq::<Value>::empty()) =~= Seq::<Json>::empty());
        return r;
    }
    let mut items: Vec<Value> = Vec::new();
    let mut q = q0;
    proof {
        if let Ok((vs, e)) = elements(s@, q as int) {
            assert(view_values(items@) + vs =~= vs);
        }
    }
    loop
        invariant
                s@.len() <= usize::MAX,
            p < q0 <= q <= s@.len(),
            !(q0 < s@.len() && s@[q0 as int] == ']'),
            array_at(s@, p as int) == match prefixed(view_values(items@), elements(s@, q as int)) {
                Ok((vs, e)) => Ok::<(Json, int), (ErrorKind, int)>((Json::Array(vs), e)),
                Err(x) => Err(x),
            },
        decreases s@.len() - q,
    {
        let ghost before = view_values(items@);
        let ghost items_before = items@;
        match parse_value(s, q) {
            Err(x) => {
                return Err(x);
            },
            Ok((v, r)) => {
                let ghost vv = v@;
                items.push(v);
                assert(items@.drop_last() =~= items_before);
                assert(view_values(items@) == before.push(vv));
                if r < s.len() && s[r] == ']' {
                    let e = skip_whitespace(s, r + 1);
                    assert(before + seq![vv] =~= before.push(vv));
                    return Ok((Value::Array(items), e));
                } else if r < s.len() && s[r] == ',' {
                    let q2 = skip_whitespace(s, r + 1);
                    proof {
                        lemma_prefixed_twice(before, seq![vv], elements(s@, q2 as int));
                        assert(before + seq![vv] =~= before.push(vv));
                    }
                    q = q2;
                } else {
                    return fail(ErrorKind::InvalidArray, r);
                }
            },
        }
    }
}

/// Recognizes the object whose `{` is at `p`.
fn parse_object(s: &Vec<char>, p: usize) -> (r: Result<(Value, usize), ParseError>)
    requires
        s@.len() <= usize::MAX,
        p < s@.len(),
        s@[p as int] == '{',
    ensures
        agrees(r, object_at(s@, p as int)),
        r is Ok ==> p < r->Ok_0.1 <= s@.len(),
    decreases s@.len() - p, 0int,
{
    let q0 = skip_whitespace(s, p + 1);
    if q0 < s.len() && s[q0] == '}' {
        let e = skip_whitespace(s, q0 + 1);
        let r = Ok((Value::Object(Vec::new()), e));
        assert(view_fields(Seq::<(String, Value)>::empty()) =~= Seq::<(Seq<char>, Json)>::empty());
        return r;
    }
    let mut fields: Vec<(String, Value)> = Vec::new();
    let ghost mut pairs: Seq<(Seq<char>, Json)> = Seq::empty();
    let mut q = q0;
    proof {
        if let Ok((fs, e)) = members(s@, q as int) {
            assert(pairs + fs =~= fs);
        }
    }
    loop
        invariant
                s@.len() <= usize::MAX,
            p < q0 <= q <= s@.len(),
            !(q0 < s@.len() && s@[q0 as int] == '}'),
            view_fields(fields@) == build_fields(pairs),
            keys_unique(view_fields(fields@)),
            object_at(s@, p as int) == match prefixed(pairs, members(s@, q as int)) {
                Ok((fs, e)) => Ok::<(Json, int), (ErrorKind, int)>((Json::Object(build_fields(fs)), e)),
                Err(x) => Err(x),
            },
        decreases s@.len() - q,
    {
        if !(q < s.len() && s[q] == '"') {
            return fail(ErrorKind::InvalidObject, q);
        }
        let (k, r1) = match parse_string(s, q) {
            Ok(kr) => kr,
            Err(x) => {
                return Err(x);
            },
        };
        if !(r1 < s.len() && s[r1] == ':') {
            return fail(ErrorKind::InvalidObject, r1);
        }
        let q1 = skip_whitespace(s, r1 + 1);
        let (v, r) = match parse_value(s, q1) {
            Ok(vr) => vr,
            Err(x) => {
                return Err(x);
            },
        };
        let ghost field = (k@, v@);
        let ghost before = pairs;
        insert_field_exec(&mut fields, k, v);
        proof {
            pairs = pairs.push(field);
            assert(pairs.drop_last() =~= before);
            assert(before + seq![field] =~= pairs);
        }
        if r < s.len() && s[r] == '}' {
            let e = skip_whitespace(s, r + 1);
            return Ok((Value::Object(fields), e));
        } else if r < s.len() && s[r] == ',' {
            let q2 = skip_whitespace(s, r + 1);
            proof {
                lemma_prefixed_twice(before, seq![field], members(s@, q2 as int));
            }
            q = q2;
        } else {
            return fail(ErrorKind::InvalidObject, r);
        }
    }
}

/// Parses a whole JSON document: leading whitespace, one value, and nothing
/// after it but whitespace.
pub fn parse(text: &str) -> (r: Result<Value, ParseError>)
    ensures
        match r {
            Ok(v) => parse_spec(text@) == Ok::<Json, (ErrorKind, int)>(v@),
            Err(x) => parse_spec(text@) == Err::<Json, (ErrorKind, int)>((x.kind, x.offset as int)),
        },
{
    let s = to_chars(text);
    let p = skip_whitespace(&s, 0);
    match parse_value(&s, p) {
        Ok((v, e)) => if e < s.len() {
            fail(ErrorKind::TrailingInput, e)
        } else {
            Ok(v)
        },
        Err(x) => Err(x),
    }
}

} // verus!
