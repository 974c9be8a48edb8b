//! Reading a comma-separated list of polynomials from text.

pub mod grammar;
pub mod lexer;
pub mod parser;
pub mod token;
