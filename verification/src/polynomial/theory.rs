use super::model::{
    first_hit, first_reducer, has_hit, irreducible, lemma_first_reducer_exists, mul_terms,
    normalize, reduce, step, sub_terms, terms_arity, terms_nonzero, terms_sorted, terms_valid, Reduction, Step,
};
use super::term::{
    exps_add, exps_ge, lemma_lex_total, lemma_lex_transitive, lemma_lex_translate, lex_gt, term_div,
    term_mul, term_neg, term_sub, Term,
};
use crate::algebra::field::Field;
use vstd::prelude::*;

verus! {

/// A polynomial minus itself is the zero polynomial: every term meets its
/// own copy and cancels.
pub proof fn lemma_sub_self_is_zero<F: Field>(p: Seq<Term<F>>)
    requires
        terms_valid(p),
    ensures
        sub_terms(p, p) == Seq::<Term<F>>::empty(),
    decreases p.len(),
{
    if p.len() > 0 {
        assert(p[0].coef.wf());
        F::lemma_sub_self(p[0].coef);
        assert forall|i: int| 0 <= i < p.skip(1).len() implies (#[trigger] p.skip(1)[i]).coef.wf() by {
            assert(p[i + 1].coef.wf());
        }
        lemma_sub_self_is_zero(p.skip(1));
    }
}

/// No term of `r` is divisible by the leading term of an element of
/// `basis`.
pub open spec fn fully_reduced<F: Field>(r: Seq<Term<F>>, basis: Seq<Seq<Term<F>>>) -> bool {
    forall|i: int, k: int|
        0 <= i < basis.len() && basis[i].len() > 0 && 0 <= k < r.len() ==> !exps_ge(
            #[trigger] r[k].exps,
            #[trigger] basis[i][0].exps,
        )
}

/// A polynomial that no element of the basis reduces has no term that the
/// leading term of an element divides.
pub proof fn lemma_irreducible_is_fully_reduced<F: Field>(
    r: Seq<Term<F>>,
    basis: Seq<Seq<Term<F>>>,
)
    requires
        irreducible(r, basis, basis.len() as int),
    ensures
        fully_reduced(r, basis),
{
    assert forall|i: int, k: int|
        0 <= i < basis.len() && basis[i].len() > 0 && 0 <= k < r.len() implies !exps_ge(
        #[trigger] r[k].exps,
        #[trigger] basis[i][0].exps,
    ) by {
        assert(step(r, basis[i]) is Unchanged);
    }
}

/// Every term of `s` comes before the exponents `e` in the order.
pub open spec fn below<F: Field>(s: Seq<Term<F>>, e: Seq<int>) -> bool {
    forall|k: int| 0 <= k < s.len() ==> lex_gt(e, (#[trigger] s[k]).exps)
}

/// A difference has no term beyond a bound on the terms of both operands.
pub proof fn lemma_sub_below<F: Field>(a: Seq<Term<F>>, b: Seq<Term<F>>, e: Seq<int>)
    requires
        below(a, e),
        below(b, e),
    ensures
        below(sub_terms(a, b), e),
    decreases a.len() + b.len(),
{
    let r = sub_terms(a, b);
    if a.len() == 0 && b.len() == 0 {
    } else {
        let a1 = a.skip(1);
        let b1 = b.skip(1);
        if a.len() > 0 {
            assert forall|k: int| 0 <= k < a1.len() implies lex_gt(e, (#[trigger] a1[k]).exps) by {
                assert(a1[k] == a[k + 1]);
            }
            assert(lex_gt(e, a[0].exps));
        }
        if b.len() > 0 {
            assert forall|k: int| 0 <= k < b1.len() implies lex_gt(e, (#[trigger] b1[k]).exps) by {
                assert(b1[k] == b[k + 1]);
            }
            assert(lex_gt(e, b[0].exps));
        }
        if a.len() == 0 {
            lemma_sub_below(a, b1, e);
        } else if b.len() == 0 {
            lemma_sub_below(a1, b, e);
        } else if a[0].exps == b[0].exps {
            lemma_sub_below(a1, b1, e);
        } else if lex_gt(a[0].exps, b[0].exps) {
            lemma_sub_below(a1, b, e);
        } else {
            lemma_sub_below(a, b1, e);
        }
        assert forall|k: int| 0 <= k < r.len() implies lex_gt(e, (#[trigger] r[k]).exps) by {}
    }
}

/// The difference of two polynomials whose terms are strictly decreasing
/// has strictly decreasing terms too.
pub proof fn lemma_sub_sorted<F: Field>(a: Seq<Term<F>>, b: Seq<Term<F>>, n: nat)
    requires
        terms_sorted(a),
        terms_sorted(b),
        terms_arity(a, n),
        terms_arity(b, n),
    ensures
        terms_sorted(sub_terms(a, b)),
        terms_arity(sub_terms(a, b), n),
    decreases a.len() + b.len(),
{
    let r = sub_terms(a, b);
    if a.len() == 0 && b.len() == 0 {
    } else {
        let a1 = a.skip(1);
        let b1 = b.skip(1);
        if a.len() > 0 {
            assert forall|i: int, j: int| 0 <= i < j < a1.len() implies lex_gt(
                #[trigger] a1[i].exps,
                #[trigger] a1[j].exps,
            ) by {
                assert(a1[i] == a[i + 1] && a1[j] == a[j + 1]);
            }
            assert forall|k: int| 0 <= k < a1.len() implies (#[trigger] a1[k]).exps.len() == n by {
                assert(a1[k] == a[k + 1]);
            }
            assert forall|k: int| 0 <= k < a1.len() implies lex_gt(
                a[0].exps,
                (#[trigger] a1[k]).exps,
            ) by {
                assert(a1[k] == a[k + 1]);
            }
        }
        if b.len() > 0 {
            assert forall|i: int, j: int| 0 <= i < j < b1.len() implies lex_gt(
                #[trigger] b1[i].exps,
                #[trigger] b1[j].exps,
            ) by {
                assert(b1[i] == b[i + 1] && b1[j] == b[j + 1]);
            }
            assert forall|k: int| 0 <= k < b1.len() implies (#[trigger] b1[k]).exps.len() == n by {
                assert(b1[k] == b[k + 1]);
            }
            assert forall|k: int| 0 <= k < b1.len() implies lex_gt(
                b[0].exps,
                (#[trigger] b1[k]).exps,
            ) by {
                assert(b1[k] == b[k + 1]);
            }
        }
        // The head that is taken over, and what is left of each operand.
        let (lead, ra, rb) = if a.len() == 0 {
            (b[0].exps, a, b1)
        } else if b.len() == 0 {
            (a[0].exps, a1, b)
        } else if a[0].exps == b[0].exps {
            (a[0].exps, a1, b1)
        } else if lex_gt(a[0].exps, b[0].exps) {
            (a[0].exps, a1, b)
        } else {
            (b[0].exps, a, b1)
        };
        lemma_sub_sorted(ra, rb, n);
        let rest = sub_terms(ra, rb);
        if a.len() > 0 && b.len() > 0 && a[0].exps != b[0].exps {
            assert(a[0].exps.len() == n && b[0].exps.len() == n);
            lemma_lex_total(a[0].exps, b[0].exps);
            if lex_gt(a[0].exps, b[0].exps) {
                assert forall|k: int| 0 <= k < b.len() implies lex_gt(
                    a[0].exps,
                    (#[trigger] b[k]).exps,
                ) by {
                    if k > 0 {
                        lemma_lex_transitive(a[0].exps, b[0].exps, b[k].exps);
                    }
                }
            } else {
                assert forall|k: int| 0 <= k < a.len() implies lex_gt(
                    b[0].exps,
                    (#[trigger] a[k]).exps,
                ) by {
                    if k > 0 {
                        lemma_lex_transitive(b[0].exps, a[0].exps, a[k].exps);
                    }
                }
            }
        }
        assert(below(ra, lead));
        assert(below(rb, lead));
        lemma_sub_below(ra, rb, lead);
        assert forall|i: int, j: int| 0 <= i < j < r.len() implies lex_gt(
            #[trigger] r[i].exps,
            #[trigger] r[j].exps,
        ) by {
            if r.len() == rest.len() + 1 {
                assert(r[0].exps == lead);
                if i == 0 {
                    assert(r[j] == rest[j - 1]);
                } else {
                    assert(r[i] == rest[i - 1] && r[j] == rest[j - 1]);
                }
            }
        }
        assert forall|k: int| 0 <= k < r.len() implies (#[trigger] r[k]).exps.len() == n by {
            if r.len() == rest.len() + 1 && k > 0 {
                assert(r[k] == rest[k - 1]);
            }
        }
    }
}

/// The product of a polynomial with strictly decreasing terms by a monomial
/// has strictly decreasing terms.
pub proof fn lemma_mul_sorted<F: Field>(a: Seq<Term<F>>, m: Term<F>, n: nat)
    requires
        terms_sorted(a),
        terms_arity(a, n),
    ensures
        terms_sorted(mul_terms(a, m)),
        terms_arity(mul_terms(a, m), n),
{
    let r = mul_terms(a, m);
    assert forall|i: int, j: int| 0 <= i < j < r.len() implies lex_gt(
        #[trigger] r[i].exps,
        #[trigger] r[j].exps,
    ) by {
        assert(lex_gt(a[i].exps, a[j].exps));
        lemma_lex_translate(a[i].exps, a[j].exps, m.exps);
    }
}

/// Multiplication by a monomial distributes over subtraction, in a field
/// and for a monomial whose coefficient is not zero.
///
/// With the coefficient zero the law fails: the product of a difference
/// keeps its terms, all with the coefficient zero, while the difference of
/// the products cancels them where the operands share a term.
pub proof fn lemma_mul_distributes_over_sub<F: Field>(
    p: Seq<Term<F>>,
    q: Seq<Term<F>>,
    m: Term<F>,
    n: nat,
)
    requires
        F::is_field(),
        terms_valid(p),
        terms_valid(q),
        terms_arity(p, n),
        terms_arity(q, n),
        m.coef.wf(),
        m.coef != F::zero_spec(),
        m.exps.len() == n,
    ensures
        mul_terms(sub_terms(p, q), m) == sub_terms(mul_terms(p, m), mul_terms(q, m)),
    decreases p.len() + q.len(),
{
    let pm = mul_terms(p, m);
    let qm = mul_terms(q, m);
    let p_tail = p.skip(1);
    let q_tail = q.skip(1);
    if p.len() == 0 && q.len() == 0 {
        assert(mul_terms(sub_terms(p, q), m) =~= sub_terms(pm, qm));
    } else {
        if p.len() > 0 {
            assert(mul_terms(p_tail, m) =~= pm.skip(1));
            assert(pm[0] == term_mul(p[0], m));
            assert(p[0].coef.wf() && p[0].exps.len() == n);
            assert forall|k: int| 0 <= k < p_tail.len() implies (#[trigger] p_tail[k]).coef.wf()
                && p_tail[k].exps.len() == n by {
                assert(p_tail[k] == p[k + 1]);
            }
        }
        if q.len() > 0 {
            assert(mul_terms(q_tail, m) =~= qm.skip(1));
            assert(qm[0] == term_mul(q[0], m));
            assert(q[0].coef.wf() && q[0].exps.len() == n);
            assert forall|k: int| 0 <= k < q_tail.len() implies (#[trigger] q_tail[k]).coef.wf()
                && q_tail[k].exps.len() == n by {
                assert(q_tail[k] == q[k + 1]);
            }
        }
        if p.len() == 0 {
            lemma_mul_distributes_over_sub(p, q_tail, m, n);
            F::lemma_neg_mul(q[0].coef, m.coef);
            assert(term_mul(term_neg(q[0]), m) == term_neg(qm[0]));
            assert(mul_terms(seq![term_neg(q[0])] + sub_terms(p, q_tail), m) =~= seq![
                term_neg(qm[0]),
            ] + mul_terms(sub_terms(p, q_tail), m));
        } else if q.len() == 0 {
            lemma_mul_distributes_over_sub(p_tail, q, m, n);
            assert(mul_terms(seq![p[0]] + sub_terms(p_tail, q), m) =~= seq![pm[0]] + mul_terms(
                sub_terms(p_tail, q),
                m,
            ));
        } else if p[0].exps == q[0].exps {
            lemma_mul_distributes_over_sub(p_tail, q_tail, m, n);
            let d = term_sub(p[0], q[0]);
            let dm = term_sub(pm[0], qm[0]);
            F::lemma_sub_mul(p[0].coef, q[0].coef, m.coef);
            F::lemma_closed(p[0].coef, q[0].coef);
            assert(term_mul(d, m) == dm);
            if d.coef == F::zero_spec() {
                F::lemma_zero_mul(m.coef);
            } else {
                if dm.coef == F::zero_spec() {
                    F::lemma_no_zero_divisors(d.coef, m.coef);
                }
                assert(mul_terms(seq![d] + sub_terms(p_tail, q_tail), m) =~= seq![dm] + mul_terms(
                    sub_terms(p_tail, q_tail),
                    m,
                ));
            }
        } else {
            lemma_lex_total(p[0].exps, q[0].exps);
            lemma_lex_total(pm[0].exps, qm[0].exps);
            if lex_gt(p[0].exps, q[0].exps) {
                lemma_lex_translate(p[0].exps, q[0].exps, m.exps);
                lemma_mul_distributes_over_sub(p_tail, q, m, n);
                assert(mul_terms(seq![p[0]] + sub_terms(p_tail, q), m) =~= seq![pm[0]]
                    + mul_terms(sub_terms(p_tail, q), m));
            } else {
                lemma_lex_translate(q[0].exps, p[0].exps, m.exps);
                lemma_mul_distributes_over_sub(p, q_tail, m, n);
                F::lemma_neg_mul(q[0].coef, m.coef);
                assert(term_mul(term_neg(q[0]), m) == term_neg(qm[0]));
                assert(mul_terms(seq![term_neg(q[0])] + sub_terms(p, q_tail), m) =~= seq![
                    term_neg(qm[0]),
                ] + mul_terms(sub_terms(p, q_tail), m));
            }
        }
    }
}

/// The invariant of a polynomial in `n` variables: proper coefficients,
/// none of them zero, and terms that strictly decrease.
pub open spec fn poly_wf<F: Field>(a: Seq<Term<F>>, n: nat) -> bool {
    terms_valid(a) && terms_sorted(a) && terms_nonzero(a) && terms_arity(a, n)
}

/// A difference has proper coefficients, and none that is zero where the
/// operands have none.
pub proof fn lemma_sub_coefficients<F: Field>(a: Seq<Term<F>>, b: Seq<Term<F>>)
    requires
        terms_valid(a),
        terms_valid(b),
    ensures
        terms_valid(sub_terms(a, b)),
        terms_nonzero(a) && terms_nonzero(b) ==> terms_nonzero(sub_terms(a, b)),
    decreases a.len() + b.len(),
{
    let r = sub_terms(a, b);
    if a.len() == 0 && b.len() == 0 {
    } else {
        let a1 = a.skip(1);
        let b1 = b.skip(1);
        if a.len() > 0 {
            assert(a[0].coef.wf());
            assert forall|k: int| 0 <= k < a1.len() implies (#[trigger] a1[k]).coef.wf() by {
                assert(a1[k] == a[k + 1]);
            }
            if terms_nonzero(a) {
                assert(a[0].coef != F::zero_spec());
                assert forall|k: int| 0 <= k < a1.len() implies (#[trigger] a1[k]).coef
                    != F::zero_spec() by {
                    assert(a1[k] == a[k + 1]);
                }
            }
        }
        if b.len() > 0 {
            assert(b[0].coef.wf());
            F::lemma_closed(b[0].coef, b[0].coef);
            assert forall|k: int| 0 <= k < b1.len() implies (#[trigger] b1[k]).coef.wf() by {
                assert(b1[k] == b[k + 1]);
            }
            if terms_nonzero(b) {
                assert(b[0].coef != F::zero_spec());
                F::lemma_neg_nonzero(b[0].coef);
                assert forall|k: int| 0 <= k < b1.len() implies (#[trigger] b1[k]).coef
                    != F::zero_spec() by {
                    assert(b1[k] == b[k + 1]);
                }
            }
        }
        if a.len() > 0 && b.len() > 0 {
            F::lemma_closed(a[0].coef, b[0].coef);
        }
        let (ra, rb) = if a.len() == 0 {
            (a, b1)
        } else if b.len() == 0 {
            (a1, b)
        } else if a[0].exps == b[0].exps {
            (a1, b1)
        } else if lex_gt(a[0].exps, b[0].exps) {
            (a1, b)
        } else {
            (a, b1)
        };
        lemma_sub_coefficients(ra, rb);
        let rest = sub_terms(ra, rb);
        assert forall|k: int| 0 <= k < r.len() implies (#[trigger] r[k]).coef.wf() by {
            if r.len() == rest.len() + 1 && k > 0 {
                assert(r[k] == rest[k - 1]);
            }
        }
        if terms_nonzero(a) && terms_nonzero(b) {
            assert forall|k: int| 0 <= k < r.len() implies (#[trigger] r[k]).coef
                != F::zero_spec() by {
                if r.len() == rest.len() + 1 && k > 0 {
                    assert(r[k] == rest[k - 1]);
                }
            }
        }
    }
}

/// A product by a monomial has proper coefficients, and in a field none
/// that is zero where neither factor has one.
pub proof fn lemma_mul_coefficients<F: Field>(a: Seq<Term<F>>, m: Term<F>)
    requires
        terms_valid(a),
        m.coef.wf(),
    ensures
        terms_valid(mul_terms(a, m)),
        F::is_field() && terms_nonzero(a) && m.coef != F::zero_spec() ==> terms_nonzero(
            mul_terms(a, m),
        ),
{
    let r = mul_terms(a, m);
    assert forall|k: int| 0 <= k < r.len() implies (#[trigger] r[k]).coef.wf() by {
        assert(a[k].coef.wf());
        F::lemma_closed(a[k].coef, m.coef);
    }
    if F::is_field() && terms_nonzero(a) && m.coef != F::zero_spec() {
        assert forall|k: int| 0 <= k < r.len() implies (#[trigger] r[k]).coef
            != F::zero_spec() by {
            assert(a[k].coef.wf() && a[k].coef != F::zero_spec());
            if r[k].coef == F::zero_spec() {
                F::lemma_no_zero_divisors(a[k].coef, m.coef);
            }
        }
    }
}

/// In a field the quotient of two values other than zero is not zero.
pub proof fn lemma_quotient_nonzero<F: Field>(a: F, b: F)
    requires
        F::is_field(),
        a.wf(),
        b.wf(),
        a != F::zero_spec(),
        b != F::zero_spec(),
    ensures
        a.div_spec(b) != F::zero_spec(),
        a.div_spec(b).wf(),
{
    F::lemma_closed(a, b);
    F::lemma_div_mul(a, b);
    F::lemma_zero_mul(b);
}

/// Where some term is divisible there is a first one.
pub proof fn lemma_first_hit_exists<F: Field>(a: Seq<Term<F>>, lead: Seq<int>, from: int)
    requires
        0 <= from <= a.len(),
        has_hit(a, lead),
        forall|j: int| 0 <= j < from ==> !exps_ge((#[trigger] a[j]).exps, lead),
    ensures
        first_hit(a, lead, choose|k: int| first_hit(a, lead, k)),
    decreases a.len() - from,
{
    if from == a.len() {
        let k = choose|k: int| 0 <= k < a.len() && exps_ge((#[trigger] a[k]).exps, lead);
        assert(!exps_ge(a[k].exps, lead));
    } else if exps_ge(a[from].exps, lead) {
        assert(first_hit(a, lead, from));
    } else {
        lemma_first_hit_exists(a, lead, from + 1);
    }
}

/// In a field a reduction step keeps the invariant of polynomials.
pub proof fn lemma_step_wf<F: Field>(a: Seq<Term<F>>, g: Seq<Term<F>>, n: nat)
    requires
        F::is_field(),
        poly_wf(a, n),
        poly_wf(g, n),
    ensures
        step(a, g) matches Step::Reduced(s) ==> poly_wf(s, n),
{
    if let Step::Reduced(s) = step(a, g) {
        lemma_first_hit_exists(a, g[0].exps, 0);
        let k = choose|k: int| first_hit(a, g[0].exps, k);
        let q = term_div(a[k], g[0]);
        assert(a[k].coef.wf() && a[k].coef != F::zero_spec() && a[k].exps.len() == n);
        assert(g[0].coef.wf() && g[0].coef != F::zero_spec());
        lemma_quotient_nonzero(a[k].coef, g[0].coef);
        let prod = mul_terms(g, q);
        lemma_mul_coefficients(g, q);
        lemma_mul_sorted(g, q, n);
        lemma_sub_coefficients(a, prod);
        lemma_sub_sorted(a, prod, n);
    }
}

/// In a field a reduction to the end keeps the invariant of polynomials.
pub proof fn lemma_reduce_wf<F: Field>(
    a: Seq<Term<F>>,
    basis: Seq<Seq<Term<F>>>,
    skip: int,
    fuel: nat,
    n: nat,
)
    requires
        F::is_field(),
        poly_wf(a, n),
        forall|i: int| 0 <= i < basis.len() ==> poly_wf(#[trigger] basis[i], n),
    ensures
        reduce(a, basis, skip, fuel) matches Reduction::Done(r) ==> poly_wf(r, n),
    decreases fuel,
{
    if !irreducible(a, basis, skip) {
        lemma_first_reducer_exists(a, basis, skip, 0);
        let i = choose|i: int| first_reducer(a, basis, skip, i);
        lemma_step_wf(a, basis[i], n);
        if let Step::Reduced(s) = step(a, basis[i]) {
            if fuel > 0 {
                lemma_reduce_wf(s, basis, skip, (fuel - 1) as nat, n);
            }
        }
    }
}

/// In a field, dividing a polynomial by its leading coefficient keeps the
/// invariant and makes the leading coefficient the unit.
pub proof fn lemma_normalize_wf<F: Field>(a: Seq<Term<F>>, n: nat)
    requires
        F::is_field(),
        poly_wf(a, n),
    ensures
        poly_wf(normalize(a), n),
        a.len() > 0 ==> normalize(a)[0].coef == F::unit_spec(),
{
    let r = normalize(a);
    if a.len() > 0 {
        assert(a[0].coef.wf() && a[0].coef != F::zero_spec());
        F::lemma_div_self(a[0].coef);
        assert forall|k: int| 0 <= k < r.len() implies (#[trigger] r[k]).coef.wf() && r[k].coef
            != F::zero_spec() && r[k].exps.len() == n by {
            assert(a[k].coef.wf() && a[k].coef != F::zero_spec() && a[k].exps.len() == n);
            lemma_quotient_nonzero(a[k].coef, a[0].coef);
        }
        assert forall|i: int, j: int| 0 <= i < j < r.len() implies lex_gt(
            #[trigger] r[i].exps,
            #[trigger] r[j].exps,
        ) by {
            assert(lex_gt(a[i].exps, a[j].exps));
        }
    }
}

/// The coefficient that the polynomial has for the exponents `e`: that of
/// its first term with these exponents, and zero where it has none.
pub open spec fn coefficient<F: Field>(a: Seq<Term<F>>, e: Seq<int>) -> F
    decreases a.len(),
{
    if a.len() == 0 {
        F::zero_spec()
    } else if a[0].exps == e {
        a[0].coef
    } else {
        coefficient(a.skip(1), e)
    }
}

/// A polynomial has the coefficient zero for exponents beyond all its
/// terms.
pub proof fn lemma_coefficient_beyond<F: Field>(a: Seq<Term<F>>, e: Seq<int>)
    requires
        below(a, e),
    ensures
        coefficient(a, e) == F::zero_spec(),
    decreases a.len(),
{
    if a.len() > 0 {
        assert(lex_gt(e, a[0].exps));
        lemma_lex_total(e, e);
        assert forall|k: int| 0 <= k < a.skip(1).len() implies lex_gt(
            e,
            (#[trigger] a.skip(1)[k]).exps,
        ) by {
            assert(a.skip(1)[k] == a[k + 1]);
        }
        lemma_coefficient_beyond(a.skip(1), e);
    }
}

/// Subtraction is subtraction of coefficients: for polynomials with
/// strictly decreasing terms, the difference has for every exponent vector
/// the difference of the coefficients that the operands have for it.
pub proof fn lemma_sub_coefficient<F: Field>(a: Seq<Term<F>>, b: Seq<Term<F>>, e: Seq<int>, n: nat)
    requires
        F::zero_spec().wf(),
        terms_valid(a),
        terms_valid(b),
        terms_sorted(a),
        terms_sorted(b),
        terms_arity(a, n),
        terms_arity(b, n),
    ensures
        coefficient(sub_terms(a, b), e) == coefficient(a, e).sub_spec(coefficient(b, e)),
    decreases a.len() + b.len(),
{
    let r = sub_terms(a, b);
    let a1 = a.skip(1);
    let b1 = b.skip(1);
    if a.len() == 0 && b.len() == 0 {
        F::lemma_sub_self(F::zero_spec());
    } else {
        if a.len() > 0 {
            assert(a[0].coef.wf() && a[0].exps.len() == n);
            assert forall|k: int| 0 <= k < a1.len() implies (#[trigger] a1[k]).coef.wf()
                && a1[k].exps.len() == n && lex_gt(a[0].exps, a1[k].exps) by {
                assert(a1[k] == a[k + 1]);
            }
            assert forall|i: int, j: int| 0 <= i < j < a1.len() implies lex_gt(
                #[trigger] a1[i].exps,
                #[trigger] a1[j].exps,
            ) by {
                assert(a1[i] == a[i + 1] && a1[j] == a[j + 1]);
            }
            F::lemma_sub_zero(a[0].coef);
        }
        if b.len() > 0 {
            assert(b[0].coef.wf() && b[0].exps.len() == n);
            assert forall|k: int| 0 <= k < b1.len() implies (#[trigger] b1[k]).coef.wf()
                && b1[k].exps.len() == n && lex_gt(b[0].exps, b1[k].exps) by {
                assert(b1[k] == b[k + 1]);
            }
            assert forall|i: int, j: int| 0 <= i < j < b1.len() implies lex_gt(
                #[trigger] b1[i].exps,
                #[trigger] b1[j].exps,
            ) by {
                assert(b1[i] == b[i + 1] && b1[j] == b[j + 1]);
            }
            F::lemma_zero_sub(b[0].coef);
        }
        if a.len() == 0 {
            lemma_sub_coefficient(a, b1, e, n);
            let rest = sub_terms(a, b1);
            assert(r[0] == term_neg(b[0]) && r.skip(1) =~= rest);
        } else if b.len() == 0 {
            lemma_sub_coefficient(a1, b, e, n);
            let rest = sub_terms(a1, b);
            assert(r[0] == a[0] && r.skip(1) =~= rest);
        } else if a[0].exps == b[0].exps {
            lemma_sub_coefficient(a1, b1, e, n);
            let rest = sub_terms(a1, b1);
            let d = term_sub(a[0], b[0]);
            if d.coef != F::zero_spec() {
                assert(r[0] == d && r.skip(1) =~= rest);
            } else if e == a[0].exps {
                assert(below(a1, e));
                assert(below(b1, e));
                lemma_coefficient_beyond(a1, e);
                lemma_coefficient_beyond(b1, e);
                F::lemma_sub_self(F::zero_spec());
            }
        } else {
            lemma_lex_total(a[0].exps, b[0].exps);
            if lex_gt(a[0].exps, b[0].exps) {
                lemma_sub_coefficient(a1, b, e, n);
                let rest = sub_terms(a1, b);
                assert(r[0] == a[0] && r.skip(1) =~= rest);
                if e == a[0].exps {
                    assert forall|k: int| 0 <= k < b.len() implies lex_gt(
                        e,
                        (#[trigger] b[k]).exps,
                    ) by {
                        if k > 0 {
                            assert(b[k] == b1[k - 1]);
                            lemma_lex_transitive(a[0].exps, b[0].exps, b[k].exps);
                        }
                    }
                    lemma_coefficient_beyond(b, e);
                }
            } else {
                lemma_sub_coefficient(a, b1, e, n);
                let rest = sub_terms(a, b1);
                assert(r[0] == term_neg(b[0]) && r.skip(1) =~= rest);
                if e == b[0].exps {
                    assert forall|k: int| 0 <= k < a.len() implies lex_gt(
                        e,
                        (#[trigger] a[k]).exps,
                    ) by {
                        if k > 0 {
                            assert(a[k] == a1[k - 1]);
                            lemma_lex_transitive(b[0].exps, a[0].exps, a[k].exps);
                        }
                    }
                    lemma_coefficient_beyond(a, e);
                }
            }
        }
    }
}

/// Multiplication by a monomial is multiplication of coefficients: the
/// product has for the exponents `e` moved by those of the monomial the
/// coefficient that the polynomial has for `e`, times that of the monomial.
pub proof fn lemma_mul_coefficient<F: Field>(a: Seq<Term<F>>, m: Term<F>, e: Seq<int>, n: nat)
    requires
        terms_arity(a, n),
        e.len() == n,
        m.exps.len() == n,
        m.coef.wf(),
    ensures
        coefficient(mul_terms(a, m), exps_add(e, m.exps)) == coefficient(a, e).mul_spec(m.coef),
    decreases a.len(),
{
    let r = mul_terms(a, m);
    if a.len() == 0 {
        F::lemma_zero_mul(m.coef);
    } else {
        assert(a[0].exps.len() == n);
        assert(r[0] == term_mul(a[0], m));
        assert(r.skip(1) =~= mul_terms(a.skip(1), m));
        if r[0].exps == exps_add(e, m.exps) {
            assert forall|j: int| 0 <= j < n implies a[0].exps[j] == e[j] by {
                assert(exps_add(a[0].exps, m.exps)[j] == exps_add(e, m.exps)[j]);
            }
            assert(a[0].exps =~= e);
        }
        assert forall|k: int| 0 <= k < a.skip(1).len() implies (#[trigger] a.skip(1)[k]).exps.len()
            == n by {
            assert(a.skip(1)[k] == a[k + 1]);
        }
        lemma_mul_coefficient(a.skip(1), m, e, n);
    }
}

} // verus!
