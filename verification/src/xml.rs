//! Low-level XML lexing: character classes, source positions, character
//! streams and the tokenizer built on top of them.

pub mod chars;
pub mod span;
pub mod stream;
pub mod tokenizer;
pub mod reads;
