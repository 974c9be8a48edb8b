//! A stricter tokenizer for the same notation: it knows no blanks, tells
//! operators from separators, and names the character it refuses.

pub mod lexer;
pub mod token;
