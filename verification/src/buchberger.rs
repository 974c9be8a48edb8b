//! S-polynomials and the three steps from a generating set to a reduced
//! Gröbner basis.

pub mod grobner;
pub mod ideal;
pub mod s_polynomial;
