//! A small lexical-analysis engine: an ordered table of character rules
//! drives a two-slot lookahead scanner that turns characters into positioned
//! tokens, reports each character that no rule accepts, and ends every
//! stream with exactly one end-of-input token.
//!
//! Positions are character indices: every span is a half-open range
//! `[start, end)` counted in characters.
//!
//! - `lex`: tokens, errors and the lexer traits.
//! - `rules`: character classes and the ordered rule table.
//! - `scanner`: the lookahead scanner and its mathematical model.
//! - `laws`: properties of every scan, proved over that model.
//! - `example1`: a lexer for words, whitespace and numbers.

pub mod lex;
pub mod rules;
pub mod scanner;
pub mod example1;
pub mod laws;
