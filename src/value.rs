use vstd::prelude::*;

verus! {

/// The mathematical model of a JSON document.
pub enum Json {
    /// A number, kept as the characters of its lexeme.
    Number(Seq<char>),
    /// A string, with every escape sequence decoded.
    Str(Seq<char>),
    Bool(bool),
    Null,
    /// The fields of an object, one per key, in order of first appearance.
    Object(Seq<(Seq<char>, Json)>),
    Array(Seq<Json>),
}

/// A parsed JSON document.
///
/// A number is held as the text of its lexeme (`-0.5e+10`, `012`); a caller
/// that wants a floating-point value parses that text.
#[derive(Debug)]
pub enum Value {
    Number(String),
    Str(String),
    Bool(bool),
    Null,
    /// Fields with unique keys, in order of first appearance.
    Object(Vec<(String, Value)>),
    Array(Vec<Value>),
}

/// Another name for [`Value`].
pub type JSONValue = Value;

pub open spec fn view_values(vs: Seq<Value>) -> Seq<Json>
    decreases vs,
{
    if vs.len() == 0 {
        Seq::empty()
    } else {
        view_values(vs.drop_last()).push(vs.last().view())
    }
}

pub open spec fn view_fields(fs: Seq<(String, Value)>) -> Seq<(Seq<char>, Json)>
    decreases fs,
{
    if fs.len() == 0 {
        Seq::empty()
    } else {
        view_fields(fs.drop_last()).push((fs.last().0@, fs.last().1.view()))
    }
}

impl View for Value {
    type V = Json;

    open spec fn view(&self) -> Json
        decreases self,
    {
        match self {
            Value::Number(s) => Json::Number(s@),
            Value::Str(s) => Json::Str(s@),
            Value::Bool(b) => Json::Bool(*b),
            Value::Null => Json::Null,
            Value::Object(fs) => Json::Object(view_fields(fs@)),
            Value::Array(vs) => Json::Array(view_values(vs@)),
        }
    }
}

pub proof fn lemma_view_values(vs: Seq<Value>)
    ensures
        view_values(vs).len() == vs.len(),
        forall|i: int| 0 <= i < vs.len() ==> #[trigger] view_values(vs)[i] == vs[i]@,
    decreases vs.len(),
{
    reveal_with_fuel(view_values, 2);
    if vs.len() > 0 {
        lemma_view_values(vs.drop_last());
        assert(view_values(vs) == view_values(vs.drop_last()).push(vs.last()@));
    }
}

pub proof fn lemma_view_fields(fs: Seq<(String, Value)>)
    ensures
        view_fields(fs).len() == fs.len(),
        forall|i: int|
            0 <= i < fs.len() ==> #[trigger] view_fields(fs)[i] == (fs[i].0@, fs[i].1@),
    decreases fs.len(),
{
    reveal_with_fuel(view_fields, 2);
    if fs.len() > 0 {
        lemma_view_fields(fs.drop_last());
        assert(view_fields(fs) == view_fields(fs.drop_last()).push((fs.last().0@, fs.last().1@)));
    }
}

} // verus!
