//! Lexical front end of a small scripting language: a single forward scan
//! turns source text into the flat token sequence that a parser consumes.

pub mod laws;
pub mod text;
pub mod tokenizer;
pub mod utils;
pub mod words;
