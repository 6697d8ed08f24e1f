//! The grammar, stated as functions on the characters of the input.
//!
//! Each recognizer takes the input `s` and a position `p` and returns either
//! the recognized fragment with the position just after it and after any
//! whitespace that follows, or the kind of failure with its offset.
use vstd::prelude::*;
use crate::error::ErrorKind;
use crate::value::Json;

verus! {

pub open spec fn is_ws(c: char) -> bool {
    c == ' ' || c == '\t' || c == '\r' || c == '\n'
}

pub open spec fn is_digit(c: char) -> bool {
    '0' <= c && c <= '9'
}

pub open spec fn is_sign(c: char) -> bool {
    c == '+' || c == '-'
}

/// The first position at or after `p` that holds no whitespace.
pub open spec fn skip_ws(s: Seq<char>, p: int) -> int
    decreases s.len() - p,
{
    if 0 <= p < s.len() && is_ws(s[p]) {
        skip_ws(s, p + 1)
    } else {
        p
    }
}

/// The first position at or after `p` that holds no digit.
pub open spec fn digits_end(s: Seq<char>, p: int) -> int
    decreases s.len() - p,
{
    if 0 <= p < s.len() && is_digit(s[p]) {
        digits_end(s, p + 1)
    } else {
        p
    }
}

/// The character that the escape `\c` stands for. Unicode escapes
/// (`\uXXXX`) are not part of this grammar: `\u` is an invalid escape.
pub open spec fn unescape(c: char) -> Option<char> {
    if c == '"' {
        Some('"')
    } else if c == '\\' {
        Some('\\')
    } else if c == '/' {
        Some('/')
    } else if c == 'b' {
        Some('\u{8}')
    } else if c == 'f' {
        Some('\u{c}')
    } else if c == 'n' {
        Some('\n')
    } else if c == 'r' {
        Some('\r')
    } else if c == 't' {
        Some('\t')
    } else {
        None
    }
}

/// Puts `pre` in front of a recognized sequence.
pub open spec fn prefixed<A>(pre: Seq<A>, r: Result<(Seq<A>, int), (ErrorKind, int)>) -> Result<
    (Seq<A>, int),
    (ErrorKind, int),
> {
    match r {
        Ok((t, e)) => Ok((pre + t, e)),
        Err(x) => Err(x),
    }
}

/// The decoded body of a string from `q` up to its closing quote, and the
/// position after that quote.
pub open spec fn string_body(s: Seq<char>, q: int) -> Result<(Seq<char>, int), (ErrorKind, int)>
    decreases s.len() - q,
{
    if q < 0 || q >= s.len() {
        Err((ErrorKind::InvalidString, q))
    } else if s[q] == '"' {
        Ok((Seq::empty(), q + 1))
    } else if s[q] == '\\' {
        if q + 1 >= s.len() {
            Err((ErrorKind::InvalidString, q))
        } else {
            match unescape(s[q + 1]) {
                Some(d) => prefixed(seq![d], string_body(s, q + 2)),
                None => Err((ErrorKind::InvalidString, q)),
            }
        }
    } else {
        prefixed(seq![s[q]], string_body(s, q + 1))
    }
}

/// A string that starts with the quote at `p`.
pub open spec fn string_at(s: Seq<char>, p: int) -> Result<(Seq<char>, int), (ErrorKind, int)> {
    match string_body(s, p + 1) {
        Ok((t, e)) => Ok((t, skip_ws(s, e))),
        Err(x) => Err(x),
    }
}

/// The end of a number's fraction and exponent, from the end `q` of its
/// integer digits; `None` where a `.` or an exponent mark lacks digits.
pub open spec fn number_tail(s: Seq<char>, q: int) -> Option<int> {
    let f = if q < s.len() && s[q] == '.' {
        digits_end(s, q + 1)
    } else {
        q
    };
    if q < s.len() && s[q] == '.' && f == q + 1 {
        None
    } else if f < s.len() && (s[f] == 'e' || s[f] == 'E') {
        let g = if f + 1 < s.len() && is_sign(s[f + 1]) {
            f + 2
        } else {
            f + 1
        };
        let h = digits_end(s, g);
        if h == g {
            None
        } else {
            Some(h)
        }
    } else {
        Some(f)
    }
}

/// A number that starts at `p`: an optional sign, digits, an optional
/// fraction and an optional exponent. Leading zeros are accepted.
pub open spec fn number_at(s: Seq<char>, p: int) -> Result<(Json, int), (ErrorKind, int)> {
    let q0 = if p < s.len() && is_sign(s[p]) {
        p + 1
    } else {
        p
    };
    let q1 = digits_end(s, q0);
    if q1 == q0 {
        Err((ErrorKind::InvalidNumber, p))
    } else {
        match number_tail(s, q1) {
            Some(e) => Ok((Json::Number(s.subrange(p, e)), skip_ws(s, e))),
            None => Err((ErrorKind::InvalidNumber, p)),
        }
    }
}

/// The literal `word`, standing for `v`, at `p`.
pub open spec fn literal_at(s: Seq<char>, p: int, word: Seq<char>, v: Json) -> Result<
    (Json, int),
    (ErrorKind, int),
> {
    if p + word.len() <= s.len() && s.subrange(p, p + word.len()) == word {
        Ok((v, skip_ws(s, p + word.len())))
    } else {
        Err((ErrorKind::InvalidLiteral, p))
    }
}

/// The value that starts at `p`; the first character decides which
/// recognizer applies.
pub open spec fn value_at(s: Seq<char>, p: int) -> Result<(Json, int), (ErrorKind, int)>
    decreases s.len() - p, 1int,
{
    if !(0 <= p < s.len()) {
        Err((ErrorKind::NoMatch, p))
    } else {
        let c = s[p];
        if c == '"' {
            match string_at(s, p) {
                Ok((t, e)) => Ok((Json::Str(t), e)),
                Err(x) => Err(x),
            }
        } else if c == '{' {
            object_at(s, p)
        } else if c == '[' {
            array_at(s, p)
        } else if is_sign(c) || is_digit(c) {
            number_at(s, p)
        } else if c == 'f' {
            literal_at(s, p, seq!['f', 'a', 'l', 's', 'e'], Json::Bool(false))
        } else if c == 't' {
            literal_at(s, p, seq!['t', 'r', 'u', 'e'], Json::Bool(true))
        } else if c == 'n' {
            literal_at(s, p, seq!['n', 'u', 'l', 'l'], Json::Null)
        } else {
            Err((ErrorKind::NoMatch, p))
        }
    }
}

/// An array whose `[` is at `p`.
pub open spec fn array_at(s: Seq<char>, p: int) -> Result<(Json, int), (ErrorKind, int)>
    decreases s.len() - p, 0int,
{
    if !(0 <= p < s.len()) {
        Err((ErrorKind::InvalidArray, p))
    } else {
        let q = skip_ws(s, p + 1);
        proof {
            lemma_skip_ws(s, p + 1);
        }
        if q < s.len() && s[q] == ']' {
            Ok((Json::Array(Seq::empty()), skip_ws(s, q + 1)))
        } else {
            match elements(s, q) {
                Ok((vs, e)) => Ok((Json::Array(vs), e)),
                Err(x) => Err(x),
            }
        }
    }
}

/// The elements of an array from the first one, at `q`, through the closing
/// `]`. (A value always ends after it starts: the test `q < r` only lets the
/// recursion be seen to end.)
pub open spec fn elements(s: Seq<char>, q: int) -> Result<(Seq<Json>, int), (ErrorKind, int)>
    decreases s.len() - q, 2int,
{
    if !(0 <= q <= s.len()) {
        Err((ErrorKind::InvalidArray, q))
    } else {
        match value_at(s, q) {
            Err(x) => Err(x),
            Ok((v, r)) => {
                if q < r && r < s.len() && s[r] == ']' {
                    Ok((seq![v], skip_ws(s, r + 1)))
                } else if q < r && r < s.len() && s[r] == ',' {
                    proof {
                        lemma_skip_ws(s, r + 1);
                    }
                    prefixed(seq![v], elements(s, skip_ws(s, r + 1)))
                } else {
                    Err((ErrorKind::InvalidArray, r))
                }
            }
        }
    }
}

/// An object whose `{` is at `p`.
pub open spec fn object_at(s: Seq<char>, p: int) -> Result<(Json, int), (ErrorKind, int)>
    decreases s.len() - p, 0int,
{
    if !(0 <= p < s.len()) {
        Err((ErrorKind::InvalidObject, p))
    } else {
        let q = skip_ws(s, p + 1);
        proof {
            lemma_skip_ws(s, p + 1);
        }
        if q < s.len() && s[q] == '}' {
            Ok((Json::Object(Seq::empty()), skip_ws(s, q + 1)))
        } else {
            match members(s, q) {
                Ok((fs, e)) => Ok((Json::Object(build_fields(fs)), e)),
                Err(x) => Err(x),
            }
        }
    }
}

/// The fields of an object, as written, from the first key, at `q`, through
/// the closing `}`.
pub open spec fn members(s: Seq<char>, q: int) -> Result<
    (Seq<(Seq<char>, Json)>, int),
    (ErrorKind, int),
>
    decreases s.len() - q, 2int,
{
    if !(0 <= q < s.len() && s[q] == '"') {
        Err((ErrorKind::InvalidObject, q))
    } else {
        match string_at(s, q) {
            Err(x) => Err(x),
            Ok((k, r1)) => {
                proof {
                    lemma_string_body_end(s, q + 1);
                    lemma_skip_ws(s, string_body(s, q + 1)->Ok_0.1);
                }
                if !(r1 < s.len() && s[r1] == ':') {
                    Err((ErrorKind::InvalidObject, r1))
                } else {
                    proof {
                        lemma_skip_ws(s, r1 + 1);
                    }
                    match value_at(s, skip_ws(s, r1 + 1)) {
                        Err(x) => Err(x),
                        Ok((v, r)) => {
                            if q < r && r < s.len() && s[r] == '}' {
                                Ok((seq![(k, v)], skip_ws(s, r + 1)))
                            } else if q < r && r < s.len() && s[r] == ',' {
                                proof {
                                    lemma_skip_ws(s, r + 1);
                                }
                                prefixed(seq![(k, v)], members(s, skip_ws(s, r + 1)))
                            } else {
                                Err((ErrorKind::InvalidObject, r))
                            }
                        }
                    }
                }
            }
        }
    }
}

/// The keys of `fs` are pairwise distinct.
pub open spec fn keys_unique(fs: Seq<(Seq<char>, Json)>) -> bool {
    forall|i: int, j: int| 0 <= i < fs.len() && 0 <= j < fs.len() && i != j ==> fs[i].0 != fs[j].0
}

/// Sets the value of key `k`: in place where `k` is present, else at the end.
pub open spec fn insert_field(fs: Seq<(Seq<char>, Json)>, k: Seq<char>, v: Json) -> Seq<
    (Seq<char>, Json),
> {
    if exists|i: int| 0 <= i < fs.len() && fs[i].0 == k {
        let i = choose|i: int| 0 <= i < fs.len() && fs[i].0 == k;
        fs.update(i, (k, v))
    } else {
        fs.push((k, v))
    }
}

/// The fields of an object as written, with each later duplicate key
/// overwriting the value of the earlier one.
pub open spec fn build_fields(pairs: Seq<(Seq<char>, Json)>) -> Seq<(Seq<char>, Json)>
    decreases pairs.len(),
{
    if pairs.len() == 0 {
        Seq::empty()
    } else {
        insert_field(build_fields(pairs.drop_last()), pairs.last().0, pairs.last().1)
    }
}

/// The whole document: leading whitespace, one value, and nothing after it
/// but whitespace.
pub open spec fn parse_spec(s: Seq<char>) -> Result<Json, (ErrorKind, int)> {
    match value_at(s, skip_ws(s, 0)) {
        Ok((v, e)) => if e < s.len() {
            Err((ErrorKind::TrailingInput, e))
        } else {
            Ok(v)
        },
        Err(x) => Err(x),
    }
}

pub proof fn lemma_prefixed_twice<A>(a: Seq<A>, b: Seq<A>, r: Result<(Seq<A>, int), (ErrorKind, int)>)
    ensures
        prefixed(a, prefixed(b, r)) == prefixed(a + b, r),
{
    if let Ok((t, e)) = r {
        assert(a + (b + t) =~= (a + b) + t);
    }
}

pub proof fn lemma_skip_ws(s: Seq<char>, p: int)
    requires
        0 <= p <= s.len(),
    ensures
        p <= skip_ws(s, p) <= s.len(),
        forall|i: int| p <= i < skip_ws(s, p) ==> is_ws(#[trigger] s[i]),
        skip_ws(s, p) < s.len() ==> !is_ws(s[skip_ws(s, p)]),
    decreases s.len() - p,
{
    if p < s.len() && is_ws(s[p]) {
        lemma_skip_ws(s, p + 1);
    }
}

pub proof fn lemma_string_body_end(s: Seq<char>, q: int)
    requires
        0 <= q,
    ensures
        string_body(s, q) is Ok ==> q < string_body(s, q)->Ok_0.1 <= s.len(),
    decreases s.len() - q,
{
    if 0 <= q < s.len() && s[q] != '"' {
        if s[q] == '\\' {
            if q + 1 < s.len() {
                lemma_string_body_end(s, q + 2);
            }
        } else {
            lemma_string_body_end(s, q + 1);
        }
    }
}

} // verus!
