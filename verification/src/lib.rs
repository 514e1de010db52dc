//! A tree-walking interpreter for a small Lox-family scripting language.
//!
//! The pipeline is `lex` (source text to tokens), `parse` (tokens to
//! expression and statement trees) and `interpret` (evaluation against a
//! stack of scopes). `driver` wires the three into the four modes of the
//! command line tool. Numbers are carried as IEEE-754 binary64 encodings;
//! `number` explains which operations the library performs on them itself and
//! which it asks its caller for.

pub mod driver;
pub mod interpret;
pub mod lex;
pub mod number;
pub mod parse;
pub mod precedence;
pub mod roundtrip;
pub mod scoping;
pub mod text;
