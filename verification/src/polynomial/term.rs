use crate::algebra::field::Field;
use vstd::prelude::*;

verus! {

/// The mathematical content of a monomial: a coefficient and one exponent
/// for each variable.
pub struct Term<F> {
    pub coef: F,
    pub exps: Seq<int>,
}

/// The two exponent vectors agree on every variable before the `k`-th.
pub open spec fn agree_before(a: Seq<int>, b: Seq<int>, k: int) -> bool {
    forall|j: int| 0 <= j < k ==> a[j] == b[j]
}

/// The first variable on which `a` and `b` differ is the `k`-th, and `a`
/// has the larger exponent there.
pub open spec fn leads_at(a: Seq<int>, b: Seq<int>, k: int) -> bool {
    &&& 0 <= k < a.len()
    &&& a[k] > b[k]
    &&& agree_before(a, b, k)
}

/// `a` comes after `b` in the lexicographic order by variable index.
pub open spec fn lex_gt(a: Seq<int>, b: Seq<int>) -> bool {
    exists|k: int| #[trigger] leads_at(a, b, k)
}

/// Every exponent of `a` is at least the corresponding exponent of `b`, so
/// that the monomial with exponents `b` divides the one with exponents `a`.
pub open spec fn exps_ge(a: Seq<int>, b: Seq<int>) -> bool {
    forall|j: int| 0 <= j < a.len() ==> a[j] >= b[j]
}

/// The exponents of a product.
pub open spec fn exps_add(a: Seq<int>, b: Seq<int>) -> Seq<int> {
    Seq::new(a.len(), |j: int| a[j] + b[j])
}

/// The exponents of a quotient.
pub open spec fn exps_sub(a: Seq<int>, b: Seq<int>) -> Seq<int> {
    Seq::new(a.len(), |j: int| a[j] - b[j])
}

/// The exponents of a least common multiple.
pub open spec fn exps_max(a: Seq<int>, b: Seq<int>) -> Seq<int> {
    Seq::new(
        a.len(),
        |j: int|
            if a[j] >= b[j] {
                a[j]
            } else {
                b[j]
            },
    )
}

/// Every exponent is one that a monomial can store.
pub open spec fn exps_fit(a: Seq<int>) -> bool {
    forall|j: int| 0 <= j < a.len() ==> 0 <= #[trigger] a[j] <= u32::MAX
}

pub open spec fn term_neg<F: Field>(a: Term<F>) -> Term<F> {
    Term { coef: a.coef.neg_spec(), exps: a.exps }
}

/// The difference of two terms with the same exponents.
pub open spec fn term_sub<F: Field>(a: Term<F>, b: Term<F>) -> Term<F> {
    Term { coef: a.coef.sub_spec(b.coef), exps: a.exps }
}

pub open spec fn term_mul<F: Field>(a: Term<F>, b: Term<F>) -> Term<F> {
    Term { coef: a.coef.mul_spec(b.coef), exps: exps_add(a.exps, b.exps) }
}

pub open spec fn term_div<F: Field>(a: Term<F>, b: Term<F>) -> Term<F> {
    Term { coef: a.coef.div_spec(b.coef), exps: exps_sub(a.exps, b.exps) }
}

pub open spec fn term_lcm<F: Field>(a: Term<F>, b: Term<F>) -> Term<F> {
    Term { coef: a.coef.mul_spec(b.coef), exps: exps_max(a.exps, b.exps) }
}

/// Two different exponent vectors of one length are ordered one way or the
/// other, and never both.
pub proof fn lemma_lex_total(a: Seq<int>, b: Seq<int>)
    requires
        a.len() == b.len(),
    ensures
        a == b || lex_gt(a, b) || lex_gt(b, a),
        !(lex_gt(a, b) && lex_gt(b, a)),
        !lex_gt(a, a),
{
    lemma_lex_total_from(a, b, 0);
    if lex_gt(a, b) && lex_gt(b, a) {
        let k1 = choose|k: int| leads_at(a, b, k);
        let k2 = choose|k: int| leads_at(b, a, k);
        assert(false);
    }
    if lex_gt(a, a) {
        let k = choose|k: int| leads_at(a, a, k);
        assert(false);
    }
}

proof fn lemma_lex_total_from(a: Seq<int>, b: Seq<int>, k: int)
    requires
        a.len() == b.len(),
        0 <= k <= a.len(),
        agree_before(a, b, k),
    ensures
        a == b || lex_gt(a, b) || lex_gt(b, a),
    decreases a.len() - k,
{
    if k == a.len() {
        assert(a =~= b);
    } else if a[k] > b[k] {
        assert(leads_at(a, b, k));
    } else if a[k] < b[k] {
        assert(leads_at(b, a, k));
    } else {
        lemma_lex_total_from(a, b, k + 1);
    }
}

/// The lexicographic order is transitive.
pub proof fn lemma_lex_transitive(a: Seq<int>, b: Seq<int>, c: Seq<int>)
    requires
        a.len() == b.len(),
        b.len() == c.len(),
        lex_gt(a, b),
        lex_gt(b, c),
    ensures
        lex_gt(a, c),
{
    let k1 = choose|k: int| leads_at(a, b, k);
    let k2 = choose|k: int| leads_at(b, c, k);
    if k1 <= k2 {
        assert(leads_at(a, c, k1));
    } else {
        assert(leads_at(a, c, k2));
    }
}

/// Multiplying two monomials by a third keeps their order.
pub proof fn lemma_lex_translate(a: Seq<int>, b: Seq<int>, m: Seq<int>)
    requires
        a.len() == b.len(),
        lex_gt(a, b),
    ensures
        lex_gt(exps_add(a, m), exps_add(b, m)),
{
    let k = choose|k: int| leads_at(a, b, k);
    assert(leads_at(exps_add(a, m), exps_add(b, m), k));
}

} // verus!
