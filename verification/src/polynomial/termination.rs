use super::model::{
    first_hit, first_reducer, irreducible, lemma_first_reducer_exists, mul_terms, reduce, step,
    sub_terms, terms_arity, terms_sorted, Step,
};
use super::term::{
    exps_add, exps_fit, leads_at, lemma_lex_total, lex_gt, term_div, term_sub, Term,
};
use super::theory::{
    below, lemma_first_hit_exists, lemma_mul_sorted, lemma_step_wf, lemma_sub_below,
    lemma_sub_sorted, poly_wf,
};
use crate::algebra::field::Field;
use vstd::arithmetic::power2::{
    lemma_pow2_pos, lemma_pow2_strictly_increases, lemma_pow2_unfold, pow2,
};
use vstd::prelude::*;

verus! {

/// The place of an exponent vector in the lexicographic order: the number
/// whose digits in base `2^32` are the exponents.
pub open spec fn rank(e: Seq<int>) -> nat
    decreases e.len(),
{
    if e.len() == 0 {
        0
    } else {
        (rank(e.drop_last()) * 0x1_0000_0000 + e.last()) as nat
    }
}

/// The rank of a vector of exponents in the machine range is its digits'
/// value, without any cut.
pub proof fn lemma_rank_value(e: Seq<int>)
    requires
        exps_fit(e),
        e.len() > 0,
    ensures
        rank(e) == rank(e.drop_last()) * 0x1_0000_0000 + e.last(),
        exps_fit(e.drop_last()),
{
    assert(0 <= e[e.len() - 1]);
    assert(rank(e.drop_last()) * 0x1_0000_0000 >= 0) by (nonlinear_arith)
        requires
            rank(e.drop_last()) >= 0,
    ;
    assert forall|j: int| 0 <= j < e.drop_last().len() implies 0 <= #[trigger] e.drop_last()[j]
        <= u32::MAX by {
        assert(e.drop_last()[j] == e[j]);
    }
}

/// The rank follows the lexicographic order.
pub proof fn lemma_rank_monotone(a: Seq<int>, b: Seq<int>)
    requires
        a.len() == b.len(),
        exps_fit(a),
        exps_fit(b),
        lex_gt(a, b),
    ensures
        rank(a) > rank(b),
    decreases a.len(),
{
    let k = choose|k: int| leads_at(a, b, k);
    lemma_rank_value(a);
    lemma_rank_value(b);
    let a0 = a.drop_last();
    let b0 = b.drop_last();
    assert(0 <= a.last() <= u32::MAX && 0 <= b.last() <= u32::MAX);
    if k == a.len() - 1 {
        assert(a0 =~= b0);
    } else {
        assert(leads_at(a0, b0, k));
        lemma_rank_monotone(a0, b0);
        assert(rank(a0) * 0x1_0000_0000 >= rank(b0) * 0x1_0000_0000 + 0x1_0000_0000)
            by (nonlinear_arith)
            requires
                rank(a0) >= rank(b0) + 1,
        ;
    }
}

/// The weight of a polynomial: the sum of two to the rank of each term.
pub open spec fn weight<F: Field>(a: Seq<Term<F>>) -> nat
    decreases a.len(),
{
    if a.len() == 0 {
        0
    } else {
        pow2(rank(a[0].exps)) + weight(a.skip(1))
    }
}

/// Every term has exponents in the machine range.
pub open spec fn terms_fit<F: Field>(a: Seq<Term<F>>) -> bool {
    forall|k: int| 0 <= k < a.len() ==> exps_fit((#[trigger] a[k]).exps)
}

/// The weight of a concatenation is the sum of the weights.
pub proof fn lemma_weight_concat<F: Field>(x: Seq<Term<F>>, y: Seq<Term<F>>)
    ensures
        weight(x + y) == weight(x) + weight(y),
    decreases x.len(),
{
    if x.len() == 0 {
        assert(x + y =~= y);
    } else {
        assert((x + y).skip(1) =~= x.skip(1) + y);
        lemma_weight_concat(x.skip(1), y);
    }
}

/// A polynomial with strictly decreasing terms, all of a rank below `r`,
/// weighs less than two to the `r`.
pub proof fn lemma_weight_bound<F: Field>(t: Seq<Term<F>>, r: nat, n: nat)
    requires
        terms_sorted(t),
        terms_fit(t),
        terms_arity(t, n),
        forall|k: int| 0 <= k < t.len() ==> rank((#[trigger] t[k]).exps) < r,
    ensures
        weight(t) < pow2(r),
    decreases t.len(),
{
    lemma_pow2_pos(r);
    if t.len() > 0 {
        let r0 = rank(t[0].exps);
        let rest = t.skip(1);
        assert forall|k: int| 0 <= k < rest.len() implies exps_fit((#[trigger] rest[k]).exps)
            && rest[k].exps.len() == n && rank(rest[k].exps) < r0 by {
            assert(rest[k] == t[k + 1]);
            assert(lex_gt(t[0].exps, t[k + 1].exps));
            lemma_rank_monotone(t[0].exps, t[k + 1].exps);
        }
        assert forall|i: int, j: int| 0 <= i < j < rest.len() implies lex_gt(
            #[trigger] rest[i].exps,
            #[trigger] rest[j].exps,
        ) by {
            assert(rest[i] == t[i + 1] && rest[j] == t[j + 1]);
        }
        lemma_weight_bound(rest, r0, n);
        lemma_pow2_unfold(r0 + 1);
        if r0 + 1 < r {
            lemma_pow2_strictly_increases(r0 + 1, r);
        }
    }
}

/// The terms of a difference have exponents in the machine range where
/// those of the operands have.
pub proof fn lemma_sub_fit<F: Field>(a: Seq<Term<F>>, b: Seq<Term<F>>)
    requires
        terms_fit(a),
        terms_fit(b),
    ensures
        terms_fit(sub_terms(a, b)),
    decreases a.len() + b.len(),
{
    let r = sub_terms(a, b);
    if a.len() == 0 && b.len() == 0 {
    } else {
        let a1 = a.skip(1);
        let b1 = b.skip(1);
        if a.len() > 0 {
            assert(exps_fit(a[0].exps));
            assert forall|k: int| 0 <= k < a1.len() implies exps_fit((#[trigger] a1[k]).exps) by {
                assert(a1[k] == a[k + 1]);
            }
        }
        if b.len() > 0 {
            assert(exps_fit(b[0].exps));
            assert forall|k: int| 0 <= k < b1.len() implies exps_fit((#[trigger] b1[k]).exps) by {
                assert(b1[k] == b[k + 1]);
            }
        }
        let (ra, rb) = if a.len() == 0 {
            (a, b1)
        } else if b.len() == 0 {
            (a1, b)
        } else if a[0].exps == b[0].exps {
            (a1, b1)
        } else if lex_gt(a[0].exps, b[0].exps) {
            (a1, b)
        } else {
            (a, b1)
        };
        lemma_sub_fit(ra, rb);
        let rest = sub_terms(ra, rb);
        assert forall|k: int| 0 <= k < r.len() implies exps_fit((#[trigger] r[k]).exps) by {
            if r.len() == rest.len() + 1 && k > 0 {
                assert(r[k] == rest[k - 1]);
            }
        }
    }
}

/// Where the first term of `p` cancels the `k`-th term of `a`, the
/// difference keeps the terms of `a` before the `k`-th and goes on with
/// what follows in both.
pub proof fn lemma_sub_at_hit<F: Field>(a: Seq<Term<F>>, p: Seq<Term<F>>, k: int, n: nat)
    requires
        terms_sorted(a),
        terms_arity(a, n),
        0 <= k < a.len(),
        p.len() > 0,
        p[0].exps == a[k].exps,
        term_sub(a[k], p[0]).coef == F::zero_spec(),
    ensures
        sub_terms(a, p) == a.take(k) + sub_terms(a.skip(k + 1), p.skip(1)),
    decreases k,
{
    if k == 0 {
        assert(a.take(0) + sub_terms(a.skip(1), p.skip(1)) =~= sub_terms(a.skip(1), p.skip(1)));
    } else {
        let a1 = a.skip(1);
        assert(lex_gt(a[0].exps, a[k].exps));
        lemma_lex_total(a[0].exps, p[0].exps);
        assert(a1[k - 1] == a[k]);
        assert forall|i: int, j: int| 0 <= i < j < a1.len() implies lex_gt(
            #[trigger] a1[i].exps,
            #[trigger] a1[j].exps,
        ) by {
            assert(a1[i] == a[i + 1] && a1[j] == a[j + 1]);
        }
        assert forall|i: int| 0 <= i < a1.len() implies (#[trigger] a1[i]).exps.len() == n by {
            assert(a1[i] == a[i + 1]);
        }
        lemma_sub_at_hit(a1, p, k - 1, n);
        assert(a1.skip(k) =~= a.skip(k + 1));
        assert(seq![a[0]] + (a1.take(k - 1) + sub_terms(a.skip(k + 1), p.skip(1))) =~= a.take(k)
            + sub_terms(a.skip(k + 1), p.skip(1)));
    }
}

/// In a field a reduction step makes a polynomial lighter, and leaves its
/// exponents in the machine range.
pub proof fn lemma_step_decreases<F: Field>(a: Seq<Term<F>>, g: Seq<Term<F>>, n: nat)
    requires
        F::is_field(),
        poly_wf(a, n),
        poly_wf(g, n),
        terms_fit(a),
    ensures
        step(a, g) matches Step::Reduced(s) ==> weight(s) < weight(a) && terms_fit(s) && poly_wf(
            s,
            n,
        ),
{
    if let Step::Reduced(s) = step(a, g) {
        lemma_step_wf(a, g, n);
        lemma_first_hit_exists(a, g[0].exps, 0);
        let k = choose|k: int| first_hit(a, g[0].exps, k);
        let q = term_div(a[k], g[0]);
        let prod = mul_terms(g, q);
        assert(a[k].coef.wf() && a[k].exps.len() == n && exps_fit(a[k].exps));
        assert(g[0].coef.wf() && g[0].coef != F::zero_spec() && g[0].exps.len() == n);
        // The leading term of the product is the term that is cancelled.
        assert(prod[0].exps =~= a[k].exps);
        F::lemma_closed(a[k].coef, g[0].coef);
        F::lemma_div_mul(a[k].coef, g[0].coef);
        F::lemma_mul_commutative(g[0].coef, q.coef);
        F::lemma_sub_self(a[k].coef);
        assert(term_sub(a[k], prod[0]).coef == F::zero_spec());
        lemma_sub_at_hit(a, prod, k, n);
        let head = a.take(k);
        let tail = sub_terms(a.skip(k + 1), prod.skip(1));
        assert(s == head + tail);
        // What follows the cancelled term lies below it, in both operands.
        lemma_mul_sorted(g, q, n);
        let a2 = a.skip(k + 1);
        let p2 = prod.skip(1);
        assert forall|i: int| 0 <= i < a2.len() implies (#[trigger] a2[i]).exps.len() == n
            && exps_fit(a2[i].exps) && lex_gt(a[k].exps, a2[i].exps) by {
            assert(a2[i] == a[k + 1 + i]);
        }
        assert forall|i: int, j: int| 0 <= i < j < a2.len() implies lex_gt(
            #[trigger] a2[i].exps,
            #[trigger] a2[j].exps,
        ) by {
            assert(a2[i] == a[k + 1 + i] && a2[j] == a[k + 1 + j]);
        }
        assert forall|i: int| 0 <= i < p2.len() implies (#[trigger] p2[i]).exps.len() == n
            && exps_fit(p2[i].exps) && lex_gt(a[k].exps, p2[i].exps) by {
            assert(p2[i] == prod[i + 1]);
            assert(lex_gt(prod[0].exps, prod[i + 1].exps));
            assert(exps_fit(exps_add(g[i + 1].exps, q.exps)));
        }
        assert forall|i: int, j: int| 0 <= i < j < p2.len() implies lex_gt(
            #[trigger] p2[i].exps,
            #[trigger] p2[j].exps,
        ) by {
            assert(p2[i] == prod[i + 1] && p2[j] == prod[j + 1]);
        }
        lemma_sub_sorted(a2, p2, n);
        lemma_sub_below(a2, p2, a[k].exps);
        lemma_sub_fit(a2, p2);
        assert forall|i: int| 0 <= i < tail.len() implies rank((#[trigger] tail[i]).exps) < rank(
            a[k].exps,
        ) by {
            assert(lex_gt(a[k].exps, tail[i].exps));
            lemma_rank_monotone(a[k].exps, tail[i].exps);
        }
        lemma_weight_bound(tail, rank(a[k].exps), n);
        lemma_weight_concat(head, tail);
        assert(a =~= head + a.skip(k));
        lemma_weight_concat(head, a.skip(k));
        assert(a.skip(k)[0] == a[k]);
        assert forall|i: int| 0 <= i < s.len() implies exps_fit((#[trigger] s[i]).exps) by {
            if i < k {
                assert(s[i] == a[i]);
            } else {
                assert(s[i] == tail[i - k]);
            }
        }
    }
}

/// In a field, a reduction of a polynomial with exponents in the machine
/// range comes to an end: it never needs more steps than the polynomial
/// weighs.
pub proof fn lemma_reduce_terminates<F: Field>(
    a: Seq<Term<F>>,
    basis: Seq<Seq<Term<F>>>,
    skip: int,
    fuel: nat,
    n: nat,
)
    requires
        F::is_field(),
        poly_wf(a, n),
        terms_fit(a),
        forall|i: int| 0 <= i < basis.len() ==> poly_wf(#[trigger] basis[i], n),
        fuel >= weight(a),
    ensures
        !(reduce(a, basis, skip, fuel) is Exhausted),
    decreases fuel,
{
    if !irreducible(a, basis, skip) {
        lemma_first_reducer_exists(a, basis, skip, 0);
        let i = choose|i: int| first_reducer(a, basis, skip, i);
        lemma_step_decreases(a, basis[i], n);
        if let Step::Reduced(s) = step(a, basis[i]) {
            lemma_reduce_terminates(s, basis, skip, (fuel - 1) as nat, n);
        }
    }
}

} // verus!
