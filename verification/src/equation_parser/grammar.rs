use super::token::Token;
use crate::algebra::fp::Fp;
use crate::polynomial::term::Term;
use vstd::prelude::*;

verus! {

/// The outcome of reading one construct: its value or the complaint, and
/// the position of the token that comes next.
pub struct Parsed<T> {
    pub value: Result<T, &'static str>,
    pub next: int,
}

/// The token at position `p`, if there is one.
pub open spec fn peek(t: Seq<Token>, p: int) -> Option<Token> {
    if 0 <= p < t.len() {
        Some(t[p])
    } else {
        None
    }
}

/// An exponent: `^` and a number.
pub open spec fn pow_at(t: Seq<Token>, p: int) -> Parsed<u32> {
    if peek(t, p) == Some(Token::Symb('^')) {
        match peek(t, p + 1) {
            Some(Token::Num(n)) => Parsed { value: Ok(n), next: p + 2 },
            _ => Parsed { value: Err("'^' is invalid"), next: p },
        }
    } else {
        Parsed { value: Err("not pow"), next: p }
    }
}

/// A variable factor: `x`, `_`, the index, and an exponent, which is one
/// where none is written. The value is the index and the exponent.
pub open spec fn var_at(t: Seq<Token>, p: int) -> Parsed<(u32, u32)> {
    if peek(t, p) == Some(Token::Var('x')) {
        if peek(t, p + 1) == Some(Token::Symb('_')) {
            match peek(t, p + 2) {
                Some(Token::Num(n)) => if peek(t, p + 3) == Some(Token::Symb('^')) {
                    let e = pow_at(t, p + 3);
                    match e.value {
                        Ok(d) => Parsed { value: Ok((n, d)), next: e.next },
                        Err(m) => Parsed { value: Err(m), next: e.next },
                    }
                } else {
                    Parsed { value: Ok((n, 1u32)), next: p + 3 }
                },
                _ => Parsed { value: Err("'x_' is invalid"), next: p },
            }
        } else {
            Parsed { value: Err("'x' is invalid"), next: p }
        }
    } else {
        Parsed { value: Err("not variable"), next: p }
    }
}

/// The exponent vector of `n` zeros.
pub open spec fn zeros(n: nat) -> Seq<int> {
    Seq::new(n, |j: int| 0int)
}

/// The variable factors from position `p` on, their exponents added to
/// `acc`. An index outside `1..=acc.len()` and an exponent sum beyond 32
/// bits are complaints.
pub open spec fn mono_from(t: Seq<Token>, p: int, acc: Seq<int>) -> Parsed<Seq<int>>
    decreases t.len() - p,
{
    if peek(t, p) == Some(Token::Var('x')) {
        let v = var_at(t, p);
        match v.value {
            Ok((idx, deg)) => if idx == 0 || idx > acc.len() {
                Parsed { value: Err("variable index out of range"), next: v.next }
            } else if acc[idx - 1] + deg > u32::MAX {
                Parsed { value: Err("exponent too large"), next: v.next }
            } else {
                mono_from(t, v.next, acc.update(idx - 1, acc[idx - 1] + deg))
            },
            Err(m) => Parsed { value: Err(m), next: v.next },
        }
    } else {
        Parsed { value: Ok(acc), next: p }
    }
}

/// A term in `n` variables: a number, which is one where none is written,
/// and variable factors. A term with neither is a complaint.
pub open spec fn term_at<const P: u32>(t: Seq<Token>, p: int, n: nat) -> Parsed<Term<Fp<P>>> {
    let numbered = peek(t, p) matches Some(Token::Num(_));
    let c: int = match peek(t, p) {
        Some(Token::Num(v)) => v as int,
        _ => 1,
    };
    let m = mono_from(
        t,
        if numbered {
            p + 1
        } else {
            p
        },
        zeros(n),
    );
    match m.value {
        Ok(e) => if e == zeros(n) && !numbered {
            Parsed { value: Err("empty term"), next: m.next }
        } else {
            Parsed { value: Ok(Term { coef: Fp::<P>::of(c % (P as int)), exps: e }), next: m.next }
        },
        Err(msg) => Parsed { value: Err(msg), next: m.next },
    }
}

/// Whether the token separates two terms.
pub open spec fn joins_terms(t: Option<Token>) -> bool {
    t == Some(Token::Symb('+')) || t == Some(Token::Symb('-'))
}

/// The terms from position `p` on, separated by `+` or `-`, after those in
/// `acc`. Both signs only separate: neither changes a coefficient.
pub open spec fn poly_from<const P: u32>(
    t: Seq<Token>,
    p: int,
    n: nat,
    acc: Seq<Term<Fp<P>>>,
) -> Parsed<Seq<Term<Fp<P>>>>
    decreases t.len() - p,
{
    let r = term_at::<P>(t, p, n);
    match r.value {
        Ok(term) => if joins_terms(peek(t, r.next)) && r.next >= p {
            poly_from(t, r.next + 1, n, acc.push(term))
        } else {
            Parsed { value: Ok(acc.push(term)), next: r.next }
        },
        Err(m) => Parsed { value: Err(m), next: r.next },
    }
}

/// The polynomials from position `p` on, separated by commas, after those
/// in `acc`. What follows the last polynomial is not looked at.
pub open spec fn list_from<const P: u32>(
    t: Seq<Token>,
    p: int,
    n: nat,
    acc: Seq<Seq<Term<Fp<P>>>>,
) -> Parsed<Seq<Seq<Term<Fp<P>>>>>
    decreases t.len() - p,
{
    let r = poly_from::<P>(t, p, n, Seq::empty());
    match r.value {
        Ok(poly) => if peek(t, r.next) == Some(Token::Symb(',')) && r.next >= p {
            list_from(t, r.next + 1, n, acc.push(poly))
        } else {
            Parsed { value: Ok(acc.push(poly)), next: r.next }
        },
        Err(m) => Parsed { value: Err(m), next: r.next },
    }
}

/// Reading variable factors never moves back, and keeps the number of
/// exponents.
pub proof fn lemma_mono_advances(t: Seq<Token>, p: int, acc: Seq<int>)
    ensures
        mono_from(t, p, acc).next >= p,
        mono_from(t, p, acc).value matches Ok(e) ==> e.len() == acc.len(),
    decreases t.len() - p,
{
    if peek(t, p) == Some(Token::Var('x')) {
        let v = var_at(t, p);
        match v.value {
            Ok((idx, deg)) => {
                if !(idx == 0 || idx > acc.len()) && !(acc[idx - 1] + deg > u32::MAX) {
                    lemma_mono_advances(t, v.next, acc.update(idx - 1, acc[idx - 1] + deg));
                }
            },
            Err(m) => {},
        }
    }
}

/// Reading a list of terms never moves back.
pub proof fn lemma_poly_advances<const P: u32>(
    t: Seq<Token>,
    p: int,
    n: nat,
    acc: Seq<Term<Fp<P>>>,
)
    ensures
        poly_from::<P>(t, p, n, acc).next >= p,
    decreases t.len() - p,
{
    let r = term_at::<P>(t, p, n);
    lemma_mono_advances(t, p, zeros(n));
    lemma_mono_advances(t, p + 1, zeros(n));
    match r.value {
        Ok(term) => {
            if joins_terms(peek(t, r.next)) && r.next >= p {
                lemma_poly_advances::<P>(t, r.next + 1, n, acc.push(term));
            }
        },
        Err(m) => {},
    }
}

} // verus!
