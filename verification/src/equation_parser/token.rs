use vstd::prelude::*;

verus! {

/// A lexical unit of the polynomial notation.
#[derive(Debug, Clone, Copy, PartialEq, Eq, Structural)]
pub enum Token {
    /// A run of digits, as its value.
    Num(u32),
    /// The variable letter.
    Var(char),
    /// One of `^`, `+`, `-`, `_`, `,`.
    Symb(char),
    /// The end of the text.
    EOF,
}

} // verus!
