//! Characters of a text, and building text from characters.
use vstd::prelude::*;
use vstd::std_specs::iter::IteratorSpec;

verus! {

/// The characters of `text`, one by one.
pub(crate) fn to_chars(text: &str) -> (s: Vec<char>)
    ensures
        s@ == text@,
        s@.len() <= usize::MAX,
{
    let mut s: Vec<char> = Vec::new();
    let mut it = text.chars();
    proof {
        broadcast use vstd::string::axiom_spec_iter;
    }
    loop
        invariant
            s@ + it.remaining() == text@,
            it.decrease() is Some,
        ensures
            s@ == text@,
        decreases it.decrease()->0,
    {
        proof {
            broadcast use vstd::string::next_postcondition;
        }
        match it.next() {
            Some(c) => {
                s.push(c);
            },
            None => {
                assert(s@ =~= text@);
                break;
            },
        }
    }
    // A vector's length is a usize.
    let len = s.len();
    assert(s@.len() == len);
    s
}

/// Relies on std's `String::push`, which appends one character to the
/// string.
#[verifier::external_body]
pub(crate) fn push_char(s: &mut String, c: char)
    ensures
        final(s)@ == old(s)@.push(c),
{
    s.push(c);
}

} // verus!
