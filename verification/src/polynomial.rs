//! Monomials, polynomials and their arithmetic.

pub mod model;
pub mod monomial;
pub mod poly;
pub mod render;
pub mod term;
pub mod termination;
pub mod theory;
