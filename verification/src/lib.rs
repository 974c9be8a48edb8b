//! Gröbner bases of polynomial ideals over a finite field, computed with
//! Buchberger's algorithm and refined to minimal and reduced form.

pub mod algebra;
pub mod polynomial;
pub mod buchberger;
pub mod equation_parser;
pub mod parser;
