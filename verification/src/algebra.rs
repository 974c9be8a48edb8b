//! Coefficient arithmetic: the field interface, integers modulo `P`, and the
//! extended Euclidean algorithm.

pub mod field;
pub mod fp;
pub mod gcd;
