use crate::algebra::field::Field;
use crate::polynomial::model::{mul_fits, mul_terms, sub_terms, terms_valid};
use crate::polynomial::monomial::lcm;
use crate::polynomial::poly::Polynomial;
use crate::polynomial::term::{exps_ge, term_div, term_lcm, Term};
use crate::polynomial::theory::lemma_quotient_nonzero;
use vstd::prelude::*;

verus! {

/// A polynomial of which an S-polynomial can be formed: it has a leading
/// term, and the coefficient of that term is not zero.
pub open spec fn has_lead<F: Field>(f: Seq<Term<F>>) -> bool {
    terms_valid(f) && f.len() > 0 && f[0].coef != F::zero_spec()
}

/// The monomial by which `f` is multiplied in the S-polynomial of `f` and
/// `g`: the least common multiple of the leading terms over the leading
/// term of `f`.
pub open spec fn cofactor<F: Field>(f: Seq<Term<F>>, g: Seq<Term<F>>) -> Term<F> {
    term_div(term_lcm(f[0], g[0]), f[0])
}

/// The other cofactor: the same least common multiple over the leading
/// term of `g`.
pub open spec fn cofactor_right<F: Field>(f: Seq<Term<F>>, g: Seq<Term<F>>) -> Term<F> {
    term_div(term_lcm(f[0], g[0]), g[0])
}

/// The S-polynomial of `f` and `g`.
pub open spec fn s_poly_terms<F: Field>(f: Seq<Term<F>>, g: Seq<Term<F>>) -> Seq<Term<F>> {
    sub_terms(mul_terms(f, cofactor(f, g)), mul_terms(g, cofactor_right(f, g)))
}

/// Both products of the S-polynomial stay in the machine range.
pub open spec fn s_poly_fits<F: Field>(f: Seq<Term<F>>, g: Seq<Term<F>>) -> bool {
    mul_fits(f, cofactor(f, g)) && mul_fits(g, cofactor_right(f, g))
}

/// The S-polynomial of `f` and `g`, for any two polynomials with leading
/// terms: `None` where one of its two products has an exponent beyond the
/// machine range.
pub fn checked_s_poly<F, const N: usize>(f: &Polynomial<F, N>, g: &Polynomial<F, N>) -> (r: Option<
    Polynomial<F, N>,
>) where F: Field
    requires
        has_lead(f@),
        has_lead(g@),
    ensures
        r is Some <==> s_poly_fits(f@, g@),
        r matches Some(s) ==> s@ == s_poly_terms(f@, g@) && s.valid(),
        r matches Some(s) ==> (F::is_field() && f.wf() && g.wf() ==> s.wf()),
{
    let lf = &f.monos[0];
    let lg = &g.monos[0];
    assert(lf@ == f@[0] && lg@ == g@[0]);
    let l = lcm(lf, lg);
    assert(exps_ge(l@.exps, lf@.exps) && exps_ge(l@.exps, lg@.exps));
    let qf = l.div(lf);
    let qg = l.div(lg);
    proof {
        if F::is_field() {
            if l.coef == F::zero_spec() {
                F::lemma_no_zero_divisors(lf.coef, lg.coef);
            }
            lemma_quotient_nonzero(l.coef, lf.coef);
            lemma_quotient_nonzero(l.coef, lg.coef);
        }
    }
    match f.checked_mul(&qf) {
        None => None,
        Some(left) => match g.checked_mul(&qg) {
            None => None,
            Some(right) => Some(left.sub(&right)),
        },
    }
}

/// The S-polynomial of `f` and `g`: with `L` the least common multiple of
/// the two leading terms, `f * (L / lead(f)) - g * (L / lead(g))`.
pub fn s_poly<F, const N: usize>(f: &Polynomial<F, N>, g: &Polynomial<F, N>) -> (r: Polynomial<
    F,
    N,
>) where F: Field
    requires
        has_lead(f@),
        has_lead(g@),
        s_poly_fits(f@, g@),
    ensures
        r@ == s_poly_terms(f@, g@),
        r.valid(),
        F::is_field() && f.wf() && g.wf() ==> r.wf(),
{
    checked_s_poly(f, g).unwrap()
}

} // verus!
