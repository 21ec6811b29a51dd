//! A lexical scanner for a small scripting language, with the 16.16
//! fixed-point `Real` that its number literals carry.

pub mod error;
pub mod fixed;
pub mod lexer;
pub mod source_pos;
pub mod text;
pub mod tokens;
