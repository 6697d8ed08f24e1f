//! A recursive-descent JSON parser whose result is proved equal to a
//! functional statement of the grammar.
//!
//! - `grammar` states the grammar as spec functions over the characters of
//!   the input, and `parser::parse` is proved to return exactly what
//!   `grammar::parse_spec` gives, value or error.
//! - `serialize::serialize` writes a value back as compact JSON text, proved
//!   equal to `serialize::to_text`.
//! - `laws` proves that parsing the text written for a parsed document gives
//!   the same document back, and that no trailing input is ever ignored.
//!
//! Numbers are kept as their lexemes; object fields keep the order in which
//! their keys first appear, and a later duplicate key overwrites the value.

mod chars;
pub mod error;
pub mod grammar;
pub mod laws;
pub mod parser;
pub mod serialize;
pub mod value;
