use super::grobner::{close, closed, first_open, pair_closed, pair_outcome, scanned_before, Closure};
use super::s_polynomial::{cofactor, cofactor_right, has_lead, s_poly_terms};
use crate::algebra::field::Field;
use crate::polynomial::model::{
    first_reducer, irreducible, lemma_first_reducer_exists, mul_terms, reduce, step, sub_terms,
    Reduction, Step,
};
use crate::polynomial::poly::STEP_BUDGET;
use crate::polynomial::term::{lex_gt, term_lcm, Term};
use crate::polynomial::theory::{below, lemma_mul_sorted, lemma_sub_below, poly_wf};
use vstd::prelude::*;

verus! {

/// A way to obtain a polynomial from generators: a generator itself, the
/// difference of two such polynomials, or the product of one by a monomial.
pub enum Combination<F> {
    Generator(int),
    Difference(Box<Combination<F>>, Box<Combination<F>>),
    Multiple(Box<Combination<F>>, Term<F>),
}

/// The polynomial that a combination of the generators comes to. A
/// generator that does not exist counts as zero.
pub open spec fn value<F: Field>(c: Combination<F>, gens: Seq<Seq<Term<F>>>) -> Seq<Term<F>>
    decreases c,
{
    match c {
        Combination::Generator(i) => if 0 <= i < gens.len() {
            gens[i]
        } else {
            Seq::empty()
        },
        Combination::Difference(x, y) => sub_terms(value(*x, gens), value(*y, gens)),
        Combination::Multiple(x, m) => mul_terms(value(*x, gens), m),
    }
}

/// `p` lies in the ideal that `gens` generate: it is obtained from the
/// generators by subtractions and multiplications by monomials.
pub open spec fn in_ideal<F: Field>(p: Seq<Term<F>>, gens: Seq<Seq<Term<F>>>) -> bool {
    exists|c: Combination<F>| #[trigger] value(c, gens) == p
}

/// Every polynomial of `basis` lies in the ideal that `gens` generate.
pub open spec fn all_in_ideal<F: Field>(basis: Seq<Seq<Term<F>>>, gens: Seq<Seq<Term<F>>>) -> bool {
    forall|i: int| 0 <= i < basis.len() ==> in_ideal(#[trigger] basis[i], gens)
}

/// The generators lie in their ideal.
pub proof fn lemma_generators_in_ideal<F: Field>(gens: Seq<Seq<Term<F>>>)
    ensures
        all_in_ideal(gens, gens),
{
    assert forall|i: int| 0 <= i < gens.len() implies in_ideal(#[trigger] gens[i], gens) by {
        assert(value(Combination::<F>::Generator(i), gens) == gens[i]);
    }
}

/// The difference of two polynomials of the ideal lies in it.
pub proof fn lemma_difference_in_ideal<F: Field>(
    a: Seq<Term<F>>,
    b: Seq<Term<F>>,
    gens: Seq<Seq<Term<F>>>,
)
    requires
        in_ideal(a, gens),
        in_ideal(b, gens),
    ensures
        in_ideal(sub_terms(a, b), gens),
{
    let ca = choose|c: Combination<F>| #[trigger] value(c, gens) == a;
    let cb = choose|c: Combination<F>| #[trigger] value(c, gens) == b;
    assert(value(Combination::Difference(Box::new(ca), Box::new(cb)), gens) == sub_terms(a, b));
}

/// The product of a polynomial of the ideal by a monomial lies in it.
pub proof fn lemma_multiple_in_ideal<F: Field>(a: Seq<Term<F>>, m: Term<F>, gens: Seq<Seq<Term<F>>>)
    requires
        in_ideal(a, gens),
    ensures
        in_ideal(mul_terms(a, m), gens),
{
    let ca = choose|c: Combination<F>| #[trigger] value(c, gens) == a;
    assert(value(Combination::Multiple(Box::new(ca), m), gens) == mul_terms(a, m));
}

/// A reduction step by a polynomial of the ideal stays in the ideal.
pub proof fn lemma_step_in_ideal<F: Field>(a: Seq<Term<F>>, g: Seq<Term<F>>, gens: Seq<Seq<Term<F>>>)
    requires
        in_ideal(a, gens),
        in_ideal(g, gens),
    ensures
        step(a, g) matches Step::Reduced(s) ==> in_ideal(s, gens),
{
    if let Step::Reduced(s) = step(a, g) {
        let q = choose|q: Term<F>| s == sub_terms(a, mul_terms(g, q));
        lemma_multiple_in_ideal(g, q, gens);
        lemma_difference_in_ideal(a, mul_terms(g, q), gens);
    }
}

/// A reduction to the end by polynomials of the ideal stays in the ideal.
pub proof fn lemma_reduce_in_ideal<F: Field>(
    a: Seq<Term<F>>,
    basis: Seq<Seq<Term<F>>>,
    skip: int,
    fuel: nat,
    gens: Seq<Seq<Term<F>>>,
)
    requires
        in_ideal(a, gens),
        all_in_ideal(basis, gens),
    ensures
        reduce(a, basis, skip, fuel) matches Reduction::Done(r) ==> in_ideal(r, gens),
    decreases fuel,
{
    if !irreducible(a, basis, skip) {
        lemma_first_reducer_exists(a, basis, skip, 0);
        let i = choose|i: int| first_reducer(a, basis, skip, i);
        lemma_step_in_ideal(a, basis[i], gens);
        if let Step::Reduced(s) = step(a, basis[i]) {
            if fuel > 0 {
                lemma_reduce_in_ideal(s, basis, skip, (fuel - 1) as nat, gens);
            }
        }
    }
}

/// The S-polynomial of two polynomials of the ideal lies in it.
pub proof fn lemma_s_poly_in_ideal<F: Field>(
    f: Seq<Term<F>>,
    g: Seq<Term<F>>,
    gens: Seq<Seq<Term<F>>>,
)
    requires
        in_ideal(f, gens),
        in_ideal(g, gens),
    ensures
        in_ideal(s_poly_terms(f, g), gens),
{
    lemma_multiple_in_ideal(f, cofactor(f, g), gens);
    lemma_multiple_in_ideal(g, cofactor_right(f, g), gens);
    lemma_difference_in_ideal(
        mul_terms(f, cofactor(f, g)),
        mul_terms(g, cofactor_right(f, g)),
        gens,
    );
}

/// Where some pair is open and none before `(i, j)` is, there is a first
/// open pair.
pub proof fn lemma_first_open_exists<F: Field>(basis: Seq<Seq<Term<F>>>, i: int, j: int)
    requires
        0 <= i <= basis.len(),
        0 <= j <= basis.len(),
        !closed(basis),
        forall|i2: int, j2: int|
            0 <= i2 < basis.len() && 0 <= j2 < basis.len() && scanned_before(i2, j2, i, j)
                ==> #[trigger] pair_closed(basis, i2, j2),
    ensures
        ({
            let pair = choose|pair: (int, int)| first_open(basis, pair.0, pair.1);
            first_open(basis, pair.0, pair.1)
        }),
    decreases basis.len() - i, basis.len() - j,
{
    if i == basis.len() {
        assert(closed(basis));
    } else if j == basis.len() {
        lemma_first_open_exists(basis, i + 1, 0);
    } else if !pair_closed(basis, i, j) {
        let here = (i, j);
        assert(first_open(basis, here.0, here.1));
    } else {
        lemma_first_open_exists(basis, i, j + 1);
    }
}

/// The closure of polynomials of an ideal consists of polynomials of that
/// ideal: what the closure adds is obtained from the generators.
pub proof fn lemma_close_in_ideal<F: Field>(
    basis: Seq<Seq<Term<F>>>,
    fuel: nat,
    gens: Seq<Seq<Term<F>>>,
)
    requires
        all_in_ideal(basis, gens),
    ensures
        close(basis, fuel) matches Closure::Basis(b) ==> all_in_ideal(b, gens),
    decreases fuel,
{
    if !closed(basis) {
        lemma_first_open_exists(basis, 0, 0);
        let pair = choose|pair: (int, int)| first_open(basis, pair.0, pair.1);
        let f = basis[pair.0];
        let g = basis[pair.1];
        if let Reduction::Done(s) = pair_outcome(basis, pair.0, pair.1) {
            if s.len() > 0 && s[0].coef != F::zero_spec() && fuel > 0 {
                assert(in_ideal(f, gens) && in_ideal(g, gens));
                lemma_s_poly_in_ideal(f, g, gens);
                lemma_reduce_in_ideal(
                    s_poly_terms(f, g),
                    basis,
                    basis.len() as int,
                    STEP_BUDGET as nat,
                    gens,
                );
                let next = basis.push(s);
                assert forall|i: int| 0 <= i < next.len() implies in_ideal(
                    #[trigger] next[i],
                    gens,
                ) by {
                    if i < basis.len() {
                        assert(next[i] == basis[i]);
                    }
                }
                lemma_close_in_ideal(next, (fuel - 1) as nat, gens);
            }
        }
    }
}

/// In a field the S-polynomial cancels the leading terms: each of its
/// terms comes after the least common multiple of the two leading terms.
pub proof fn lemma_s_poly_cancels<F: Field>(f: Seq<Term<F>>, g: Seq<Term<F>>, n: nat)
    requires
        F::is_field(),
        poly_wf(f, n),
        poly_wf(g, n),
        has_lead(f),
        has_lead(g),
    ensures
        below(s_poly_terms(f, g), term_lcm(f[0], g[0]).exps),
{
    let l = term_lcm(f[0], g[0]);
    let cf = cofactor(f, g);
    let cg = cofactor_right(f, g);
    let left = mul_terms(f, cf);
    let right = mul_terms(g, cg);
    assert(f[0].coef.wf() && g[0].coef.wf() && f[0].exps.len() == n && g[0].exps.len() == n);
    F::lemma_closed(f[0].coef, g[0].coef);
    F::lemma_closed(l.coef, f[0].coef);
    F::lemma_closed(l.coef, g[0].coef);
    F::lemma_div_mul(l.coef, f[0].coef);
    F::lemma_div_mul(l.coef, g[0].coef);
    F::lemma_mul_commutative(f[0].coef, cf.coef);
    F::lemma_mul_commutative(g[0].coef, cg.coef);
    assert(left[0].coef == l.coef && right[0].coef == l.coef);
    assert(left[0].exps =~= l.exps);
    assert(right[0].exps =~= l.exps);
    F::lemma_sub_self(l.coef);
    lemma_mul_sorted(f, cf, n);
    lemma_mul_sorted(g, cg, n);
    let left_tail = left.skip(1);
    let right_tail = right.skip(1);
    assert(s_poly_terms(f, g) == sub_terms(left_tail, right_tail));
    assert forall|k: int| 0 <= k < left_tail.len() implies lex_gt(
        l.exps,
        (#[trigger] left_tail[k]).exps,
    ) by {
        assert(left_tail[k] == left[k + 1]);
    }
    assert forall|k: int| 0 <= k < right_tail.len() implies lex_gt(
        l.exps,
        (#[trigger] right_tail[k]).exps,
    ) by {
        assert(right_tail[k] == right[k + 1]);
    }
    lemma_sub_below(left_tail, right_tail, l.exps);
}

} // verus!
