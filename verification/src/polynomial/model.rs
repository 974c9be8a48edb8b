use super::term::{exps_add, exps_fit, exps_ge, lex_gt, term_div, term_mul, term_neg, term_sub, Term};
use crate::algebra::field::Field;
use vstd::prelude::*;

verus! {

/// The difference of two term sequences, merged from their largest terms
/// down: terms with the same exponents are subtracted and dropped where the
/// coefficients cancel, the others are taken over in order, those of `b`
/// negated.
pub open spec fn sub_terms<F: Field>(a: Seq<Term<F>>, b: Seq<Term<F>>) -> Seq<Term<F>>
    decreases a.len() + b.len(),
{
    if a.len() == 0 && b.len() == 0 {
        Seq::empty()
    } else if a.len() == 0 {
        seq![term_neg(b[0])] + sub_terms(a, b.skip(1))
    } else if b.len() == 0 {
        seq![a[0]] + sub_terms(a.skip(1), b)
    } else if a[0].exps == b[0].exps {
        let d = term_sub(a[0], b[0]);
        if d.coef == F::zero_spec() {
            sub_terms(a.skip(1), b.skip(1))
        } else {
            seq![d] + sub_terms(a.skip(1), b.skip(1))
        }
    } else if lex_gt(a[0].exps, b[0].exps) {
        seq![a[0]] + sub_terms(a.skip(1), b)
    } else {
        seq![term_neg(b[0])] + sub_terms(a, b.skip(1))
    }
}

/// Every term of `a` multiplied by `m`.
pub open spec fn mul_terms<F: Field>(a: Seq<Term<F>>, m: Term<F>) -> Seq<Term<F>> {
    Seq::new(a.len(), |i: int| term_mul(a[i], m))
}

/// No exponent of the product of `a` by `m` leaves the machine range.
pub open spec fn mul_fits<F: Field>(a: Seq<Term<F>>, m: Term<F>) -> bool {
    forall|i: int| 0 <= i < a.len() ==> exps_fit(#[trigger] exps_add(a[i].exps, m.exps))
}

/// Every coefficient is a proper field value.
pub open spec fn terms_valid<F: Field>(a: Seq<Term<F>>) -> bool {
    forall|i: int| 0 <= i < a.len() ==> (#[trigger] a[i]).coef.wf()
}

/// The terms are strictly decreasing in the lexicographic order.
pub open spec fn terms_sorted<F: Field>(a: Seq<Term<F>>) -> bool {
    forall|i: int, j: int| 0 <= i < j < a.len() ==> lex_gt(#[trigger] a[i].exps, #[trigger] a[j].exps)
}

/// No term has the coefficient zero.
pub open spec fn terms_nonzero<F: Field>(a: Seq<Term<F>>) -> bool {
    forall|i: int| 0 <= i < a.len() ==> (#[trigger] a[i]).coef != F::zero_spec()
}

/// All terms have exponents for `n` variables.
pub open spec fn terms_arity<F: Field>(a: Seq<Term<F>>, n: nat) -> bool {
    forall|i: int| 0 <= i < a.len() ==> (#[trigger] a[i]).exps.len() == n
}

/// A polynomial that can serve as a divisor: zero, or with a leading
/// coefficient that is not zero.
pub open spec fn divisor_ok<F: Field>(g: Seq<Term<F>>) -> bool {
    terms_valid(g) && (g.len() > 0 ==> g[0].coef != F::zero_spec())
}

/// The polynomial with every coefficient divided by the leading one.
pub open spec fn normalize<F: Field>(a: Seq<Term<F>>) -> Seq<Term<F>> {
    Seq::new(a.len(), |k: int| Term { coef: a[k].coef.div_spec(a[0].coef), exps: a[k].exps })
}

/// The `k`-th term of `a` is the first that the monomial with exponents
/// `lead` divides.
pub open spec fn first_hit<F: Field>(a: Seq<Term<F>>, lead: Seq<int>, k: int) -> bool {
    &&& 0 <= k < a.len()
    &&& exps_ge(a[k].exps, lead)
    &&& forall|j: int| 0 <= j < k ==> !exps_ge((#[trigger] a[j]).exps, lead)
}

/// Some term of `a` is divisible by the monomial with exponents `lead`.
pub open spec fn has_hit<F: Field>(a: Seq<Term<F>>, lead: Seq<int>) -> bool {
    exists|k: int| 0 <= k < a.len() && exps_ge((#[trigger] a[k]).exps, lead)
}

/// What one reduction step of a polynomial by a divisor comes to.
pub enum Step<F> {
    /// The divisor is zero or its leading term divides no term.
    Unchanged,
    /// The polynomial after the step.
    Reduced(Seq<Term<F>>),
    /// The multiple of the divisor that would be subtracted has an exponent
    /// outside the machine range.
    Overflow,
}

/// One reduction step of `a` by `g`: the first term of `a` that the leading
/// term of `g` divides is cancelled by subtracting the fitting multiple of
/// `g`.
pub open spec fn step<F: Field>(a: Seq<Term<F>>, g: Seq<Term<F>>) -> Step<F> {
    if g.len() == 0 || !has_hit(a, g[0].exps) {
        Step::Unchanged
    } else {
        let k = choose|k: int| first_hit(a, g[0].exps, k);
        let q = term_div(a[k], g[0]);
        if mul_fits(g, q) {
            Step::Reduced(sub_terms(a, mul_terms(g, q)))
        } else {
            Step::Overflow
        }
    }
}

/// No element of `basis`, the one at `skip` left aside, reduces `a`.
pub open spec fn irreducible<F: Field>(a: Seq<Term<F>>, basis: Seq<Seq<Term<F>>>, skip: int) -> bool {
    forall|i: int| 0 <= i < basis.len() && i != skip ==> #[trigger] step(a, basis[i]) is Unchanged
}

/// The `i`-th element is the first of `basis`, the one at `skip` left
/// aside, that reduces `a`.
pub open spec fn first_reducer<F: Field>(
    a: Seq<Term<F>>,
    basis: Seq<Seq<Term<F>>>,
    skip: int,
    i: int,
) -> bool {
    &&& 0 <= i < basis.len()
    &&& i != skip
    &&& !(step(a, basis[i]) is Unchanged)
    &&& forall|j: int| 0 <= j < i && j != skip ==> #[trigger] step(a, basis[j]) is Unchanged
}

/// How a reduction to the end comes out.
pub enum Reduction<F> {
    /// The polynomial that no basis element reduces further.
    Done(Seq<Term<F>>),
    /// A step met an exponent outside the machine range.
    Overflow,
    /// More steps were needed than the budget allows.
    Exhausted,
}

/// Reduction of `a` by `basis` to the end: as long as some element other
/// than the one at `skip` reduces the polynomial, the first such element is
/// applied. `fuel` bounds the number of steps beyond the first.
pub open spec fn reduce<F: Field>(
    a: Seq<Term<F>>,
    basis: Seq<Seq<Term<F>>>,
    skip: int,
    fuel: nat,
) -> Reduction<F>
    decreases fuel,
{
    if irreducible(a, basis, skip) {
        Reduction::Done(a)
    } else {
        let i = choose|i: int| first_reducer(a, basis, skip, i);
        match step(a, basis[i]) {
            Step::Unchanged => Reduction::Done(a),
            Step::Overflow => Reduction::Overflow,
            Step::Reduced(s) => if fuel == 0 {
                Reduction::Exhausted
            } else {
                reduce(s, basis, skip, (fuel - 1) as nat)
            },
        }
    }
}

/// A finished reduction leaves a polynomial that no basis element reduces.
pub proof fn lemma_reduce_irreducible<F: Field>(
    a: Seq<Term<F>>,
    basis: Seq<Seq<Term<F>>>,
    skip: int,
    fuel: nat,
)
    ensures
        reduce(a, basis, skip, fuel) matches Reduction::Done(r) ==> irreducible(r, basis, skip),
    decreases fuel,
{
    if !irreducible(a, basis, skip) {
        let i = choose|i: int| first_reducer(a, basis, skip, i);
        match step(a, basis[i]) {
            Step::Reduced(s) => {
                if fuel > 0 {
                    lemma_reduce_irreducible(s, basis, skip, (fuel - 1) as nat);
                }
            },
            Step::Overflow => {},
            Step::Unchanged => {
                lemma_first_reducer_exists(a, basis, skip, 0);
            },
        }
    }
}

/// Where some element from the `from`-th on reduces `a` and none before
/// does, there is a first one that does.
pub proof fn lemma_first_reducer_exists<F: Field>(
    a: Seq<Term<F>>,
    basis: Seq<Seq<Term<F>>>,
    skip: int,
    from: int,
)
    requires
        0 <= from <= basis.len(),
        !irreducible(a, basis, skip),
        forall|j: int| 0 <= j < from && j != skip ==> #[trigger] step(a, basis[j]) is Unchanged,
    ensures
        first_reducer(a, basis, skip, choose|i: int| first_reducer(a, basis, skip, i)),
    decreases basis.len() - from,
{
    if from == basis.len() {
        assert(irreducible(a, basis, skip));
    } else if from != skip && !(step(a, basis[from]) is Unchanged) {
        assert(first_reducer(a, basis, skip, from));
    } else {
        lemma_first_reducer_exists(a, basis, skip, from + 1);
    }
}

/// At most one element is the first reducer.
pub proof fn lemma_first_reducer_unique<F: Field>(
    a: Seq<Term<F>>,
    basis: Seq<Seq<Term<F>>>,
    skip: int,
    i: int,
)
    requires
        first_reducer(a, basis, skip, i),
    ensures
        (choose|k: int| first_reducer(a, basis, skip, k)) == i,
        !irreducible(a, basis, skip),
{
    let c = choose|k: int| first_reducer(a, basis, skip, k);
    assert(first_reducer(a, basis, skip, c));
    if c < i {
        assert(step(a, basis[c]) is Unchanged);
    } else if i < c {
        assert(step(a, basis[i]) is Unchanged);
    }
}

/// At most one term is the first hit.
pub proof fn lemma_first_hit_unique<F: Field>(a: Seq<Term<F>>, lead: Seq<int>, k: int)
    requires
        first_hit(a, lead, k),
    ensures
        (choose|j: int| first_hit(a, lead, j)) == k,
        has_hit(a, lead),
{
    let c = choose|j: int| first_hit(a, lead, j);
    assert(first_hit(a, lead, c));
    if c < k {
        assert(!exps_ge(a[c].exps, lead));
    } else if k < c {
        assert(!exps_ge(a[k].exps, lead));
    }
}

} // verus!
