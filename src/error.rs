use vstd::prelude::*;

verus! {

/// What went wrong while parsing.
#[derive(Debug, Clone, Copy, PartialEq, Eq, Structural)]
pub enum ErrorKind {
    /// A sign, fraction or exponent without its digits.
    InvalidNumber,
    /// An unterminated string, or a backslash followed by an unknown escape.
    InvalidString,
    /// A field without its key, its `:`, or a `,` or `}` after its value.
    InvalidObject,
    /// An element without a `,` or `]` after it.
    InvalidArray,
    /// A `t`, `f` or `n` that does not begin `true`, `false` or `null`.
    InvalidLiteral,
    /// Characters other than whitespace after the document.
    TrailingInput,
    /// No value begins at this position.
    NoMatch,
}

/// A parse failure: its kind and the offset, in characters, where it was found.
#[derive(Debug, Clone, Copy, PartialEq, Eq, Structural)]
pub struct ParseError {
    pub kind: ErrorKind,
    pub offset: usize,
}

/// The description of a failure of kind `kind`.
pub open spec fn message_of(kind: ErrorKind) -> Seq<char> {
    match kind {
        ErrorKind::InvalidNumber => "expected number"@,
        ErrorKind::InvalidString => "expected string"@,
        ErrorKind::InvalidObject => "expected object"@,
        ErrorKind::InvalidArray => "expected array"@,
        ErrorKind::InvalidLiteral => "expected literal"@,
        ErrorKind::TrailingInput => "trailing input"@,
        ErrorKind::NoMatch => "no value matches"@,
    }
}

impl ParseError {
    /// A short description of the failure.
    pub fn message(&self) -> (r: &'static str)
        ensures
            r@ == message_of(self.kind),
    {
        match self.kind {
            ErrorKind::InvalidNumber => "expected number",
            ErrorKind::InvalidString => "expected string",
            ErrorKind::InvalidObject => "expected object",
            ErrorKind::InvalidArray => "expected array",
            ErrorKind::InvalidLiteral => "expected literal",
            ErrorKind::TrailingInput => "trailing input",
            ErrorKind::NoMatch => "no value matches",
        }
    }
}

} // verus!
