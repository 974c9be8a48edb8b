use super::ideal::{all_in_ideal, lemma_close_in_ideal, lemma_generators_in_ideal};
use super::s_polynomial::{checked_s_poly, has_lead, s_poly_fits, s_poly_terms};
use crate::algebra::field::Field;
use crate::polynomial::model::{divisor_ok, normalize, reduce, Reduction};
use crate::polynomial::poly::{
    all_wf, divisors_ok, simplify, simplify_excluding, views, Polynomial, ReductionError,
    STEP_BUDGET,
};
use crate::polynomial::term::{exps_ge, Term};
use vstd::prelude::*;

verus! {

/// The number of polynomials that one run of `buchberger` may add to the
/// generators before it gives up.
pub const ROUND_BUDGET: u64 = 0xffff_ffff_ffff_ffff;

/// Every polynomial of the list has a leading term with a coefficient that
/// is not zero.
pub open spec fn generators_ok<F: Field, const N: usize>(polys: Seq<Polynomial<F, N>>) -> bool {
    forall|i: int| 0 <= i < polys.len() ==> has_lead(#[trigger] polys[i]@)
}

/// What the pair `(i, j)` of basis elements comes to: nothing for two
/// elements of equal value, else the reduction of their S-polynomial by the
/// whole basis.
pub open spec fn pair_outcome<F: Field>(basis: Seq<Seq<Term<F>>>, i: int, j: int) -> Reduction<F> {
    if basis[i] == basis[j] {
        Reduction::Done(Seq::empty())
    } else if !s_poly_fits(basis[i], basis[j]) {
        Reduction::Overflow
    } else {
        reduce(s_poly_terms(basis[i], basis[j]), basis, basis.len() as int, STEP_BUDGET as nat)
    }
}

/// The pair `(i, j)` contributes nothing: the two elements are equal in
/// value, or their S-polynomial reduces to zero by the basis.
pub open spec fn pair_closed<F: Field>(basis: Seq<Seq<Term<F>>>, i: int, j: int) -> bool {
    pair_outcome(basis, i, j) matches Reduction::Done(s) && s.len() == 0
}

/// Every pair of basis elements is closed.
pub open spec fn closed<F: Field>(basis: Seq<Seq<Term<F>>>) -> bool {
    forall|i: int, j: int|
        0 <= i < basis.len() && 0 <= j < basis.len() ==> #[trigger] pair_closed(basis, i, j)
}

/// The pair `(i2, j2)` is scanned before `(i, j)`.
pub open spec fn scanned_before(i2: int, j2: int, i: int, j: int) -> bool {
    i2 < i || (i2 == i && j2 < j)
}

/// `(i, j)` is the first pair in scan order that is not closed.
pub open spec fn first_open<F: Field>(basis: Seq<Seq<Term<F>>>, i: int, j: int) -> bool {
    &&& 0 <= i < basis.len()
    &&& 0 <= j < basis.len()
    &&& !pair_closed(basis, i, j)
    &&& forall|i2: int, j2: int|
        0 <= i2 < basis.len() && 0 <= j2 < basis.len() && scanned_before(i2, j2, i, j)
            ==> #[trigger] pair_closed(basis, i2, j2)
}

/// How the closure of a generating set comes out.
pub enum Closure<F> {
    /// The basis in which every pair is closed.
    Basis(Seq<Seq<Term<F>>>),
    /// The reason for which no basis was reached.
    Failed(ReductionError),
}

/// The closure of `basis`: as long as some pair is not closed, the reduced
/// S-polynomial of the first such pair is appended. `fuel` bounds the
/// number of polynomials appended.
pub open spec fn close<F: Field>(basis: Seq<Seq<Term<F>>>, fuel: nat) -> Closure<F>
    decreases fuel,
{
    if closed(basis) {
        Closure::Basis(basis)
    } else {
        let pair = choose|pair: (int, int)| first_open(basis, pair.0, pair.1);
        match pair_outcome(basis, pair.0, pair.1) {
            Reduction::Overflow => Closure::Failed(ReductionError::ExponentOverflow),
            Reduction::Exhausted => Closure::Failed(ReductionError::BudgetExhausted),
            Reduction::Done(s) => if s.len() == 0 {
                Closure::Basis(basis)
            } else if s[0].coef == F::zero_spec() {
                Closure::Failed(ReductionError::DegenerateCoefficient)
            } else if fuel == 0 {
                Closure::Failed(ReductionError::BudgetExhausted)
            } else {
                close(basis.push(s), (fuel - 1) as nat)
            },
        }
    }
}

/// At most one pair is the first open one.
pub proof fn lemma_first_open_unique<F: Field>(basis: Seq<Seq<Term<F>>>, i: int, j: int)
    requires
        first_open(basis, i, j),
    ensures
        (choose|pair: (int, int)| first_open(basis, pair.0, pair.1)) == (i, j),
        !closed(basis),
{
    let here = (i, j);
    assert(first_open(basis, here.0, here.1));
    let c = choose|pair: (int, int)| first_open(basis, pair.0, pair.1);
    assert(first_open(basis, c.0, c.1));
    if scanned_before(c.0, c.1, i, j) {
        assert(pair_closed(basis, c.0, c.1));
    } else if scanned_before(i, j, c.0, c.1) {
        assert(pair_closed(basis, i, j));
    }
}

/// A Gröbner basis of the ideal that `polys` generate, by the plain closure:
/// the pairs of the list are scanned in order, the S-polynomial of the first
/// pair of unequal elements that does not reduce to zero by the list is
/// appended in reduced form, and the scan starts again, until every pair
/// reduces to zero. The result begins with `polys` and holds nothing but
/// polynomials of their ideal, so that it generates the same ideal.
pub fn buchberger<F, const N: usize>(polys: Vec<Polynomial<F, N>>) -> (r: Result<
    Vec<Polynomial<F, N>>,
    ReductionError,
>) where F: Field
    requires
        generators_ok(polys@),
    ensures
        (match close(views(polys@), ROUND_BUDGET as nat) {
            Closure::Basis(b) => r matches Ok(out) && views(out@) == b && closed(b)
                && all_in_ideal(b, views(polys@)) && generators_ok(out@) && polys@.len()
                <= out@.len() && out@.take(polys@.len() as int) == polys@,
            Closure::Failed(e) => r == Err::<Vec<Polynomial<F, N>>, _>(e),
        }),
        F::is_field() && all_wf(polys@) ==> r != Err::<Vec<Polynomial<F, N>>, _>(
            ReductionError::DegenerateCoefficient,
        ) && (r matches Ok(out) ==> all_wf(out@)),
{
    let ghost start = polys@;
    proof {
        lemma_generators_in_ideal(views(start));
        lemma_close_in_ideal(views(start), ROUND_BUDGET as nat, views(start));
    }
    let mut basis = polys;
    let mut budget: u64 = ROUND_BUDGET;
    assert(basis@.take(start.len() as int) =~= start);
    loop
        invariant
            start == polys@,
            close(views(start), ROUND_BUDGET as nat) matches Closure::Basis(whole)
                ==> all_in_ideal(whole, views(start)),
            F::is_field() && all_wf(start) ==> all_wf(basis@),
            generators_ok(basis@),
            close(views(start), ROUND_BUDGET as nat) == close(views(basis@), budget as nat),
            start.len() <= basis@.len(),
            basis@.take(start.len() as int) == start,
        decreases budget,
    {
        let ghost b = views(basis@);
        let n = basis.len();
        let mut found: Option<Polynomial<F, N>> = None;
        let mut i: usize = 0;
        while i < n && found.is_none()
            invariant
                start == polys@,
                F::is_field() && all_wf(start) ==> all_wf(basis@),
                found matches Some(s) ==> (F::is_field() && all_wf(start) ==> s.wf()),
                start.len() <= basis@.len(),
                basis@.take(start.len() as int) == start,
                n == basis.len(),
                b == views(basis@),
                0 <= i <= n,
                generators_ok(basis@),
                close(views(start), ROUND_BUDGET as nat) == close(b, budget as nat),
                found is None ==> forall|i2: int, j2: int|
                    0 <= i2 < i && 0 <= j2 < n ==> #[trigger] pair_closed(b, i2, j2),
                found matches Some(s) ==> i < n && exists|j: int|
                    #[trigger] first_open(b, i as int, j) && pair_outcome(b, i as int, j)
                        == Reduction::Done(s@) && s@.len() > 0 && s.valid(),
            decreases n - i + if found is Some { 0int } else { 1int },
        {
            let mut j: usize = 0;
            while j < n && found.is_none()
                invariant
                    start == polys@,
                    F::is_field() && all_wf(start) ==> all_wf(basis@),
                    found matches Some(s) ==> (F::is_field() && all_wf(start) ==> s.wf()),
                    n == basis.len(),
                    b == views(basis@),
                    0 <= i < n,
                    0 <= j <= n,
                    generators_ok(basis@),
                    close(views(start), ROUND_BUDGET as nat) == close(b, budget as nat),
                    found is None ==> forall|i2: int, j2: int|
                        0 <= i2 < i && 0 <= j2 < n ==> #[trigger] pair_closed(b, i2, j2),
                    found is None ==> forall|j2: int|
                        0 <= j2 < j ==> #[trigger] pair_closed(b, i as int, j2),
                    found matches Some(s) ==> j < n && first_open(b, i as int, j as int)
                        && pair_outcome(b, i as int, j as int) == Reduction::Done(s@) && s@.len()
                        > 0 && s.valid(),
                decreases n - j + if found is Some { 0int } else { 1int },
            {
                let f = &basis[i];
                let g = &basis[j];
                proof {
                    assert(b[i as int] == f@ && b[j as int] == g@);
                    if F::is_field() && all_wf(start) {
                        assert(basis@[i as int].wf() && basis@[j as int].wf());
                    }
                    assert(has_lead(basis@[i as int]@) && has_lead(basis@[j as int]@));
                    assert forall|k: int| 0 <= k < basis@.len() implies divisor_ok(
                        #[trigger] basis@[k]@,
                    ) by {
                        assert(has_lead(basis@[k]@));
                    }
                }
                if !f.same_terms(g) {
                    match checked_s_poly(f, g) {
                        None => {
                            proof {
                                assert(first_open(b, i as int, j as int));
                                lemma_first_open_unique(b, i as int, j as int);
                            }
                            return Err(ReductionError::ExponentOverflow);
                        },
                        Some(s) => match simplify(s, basis.as_slice()) {
                            Err(e) => {
                                proof {
                                    assert(first_open(b, i as int, j as int));
                                    lemma_first_open_unique(b, i as int, j as int);
                                }
                                return Err(e);
                            },
                            Ok((_, rest)) => {
                                if !rest.is_zero() {
                                    proof {
                                        assert(first_open(b, i as int, j as int));
                                    }
                                    found = Some(rest);
                                }
                            },
                        },
                    }
                }
                if found.is_none() {
                    j += 1;
                }
            }
            if found.is_none() {
                i += 1;
            }
        }
        match found {
            None => {
                proof {
                    assert(closed(b));
                }
                return Ok(basis);
            },
            Some(s) => {
                proof {
                    let j = choose|j: int|
                        #[trigger] first_open(b, i as int, j) && pair_outcome(b, i as int, j)
                            == Reduction::Done(s@) && s@.len() > 0 && s.valid();
                    lemma_first_open_unique(b, i as int, j);
                    assert(s.monos@[0]@ == s@[0]);
                    if F::is_field() && all_wf(start) {
                        assert(s@[0].coef != F::zero_spec());
                    }
                }
                if s.monos[0].is_zero() {
                    return Err(ReductionError::DegenerateCoefficient);
                }
                if budget == 0 {
                    return Err(ReductionError::BudgetExhausted);
                }
                budget -= 1;
                let ghost before = basis@;
                basis.push(s);
                proof {
                    assert(views(basis@) =~= b.push(s@));
                    assert(basis@.take(start.len() as int) =~= before.take(start.len() as int));
                    assert forall|k: int| 0 <= k < basis@.len() implies has_lead(
                        #[trigger] basis@[k]@,
                    ) by {
                        if k < before.len() {
                            assert(has_lead(before[k]@));
                        }
                    }
                    if F::is_field() && all_wf(start) {
                        assert forall|k: int| 0 <= k < basis@.len() implies (
                        #[trigger] basis@[k]).wf() by {
                            if k < before.len() {
                                assert(before[k].wf());
                            }
                        }
                    }
                }
            },
        }
    }
}

/// Some element of the basis with another value has a leading term that
/// divides the leading term of `p`.
pub open spec fn redundant<F: Field>(basis: Seq<Seq<Term<F>>>, p: Seq<Term<F>>) -> bool {
    exists|j: int|
        0 <= j < basis.len() && #[trigger] basis[j] != p && exps_ge(p[0].exps, basis[j][0].exps)
}

/// Of the first `upto` elements of the basis, those that are not redundant,
/// in their order, each divided by its leading coefficient.
pub open spec fn minimal_of<F: Field>(basis: Seq<Seq<Term<F>>>, upto: int) -> Seq<Seq<Term<F>>>
    decreases upto,
{
    if upto <= 0 {
        Seq::empty()
    } else {
        let rest = minimal_of(basis, upto - 1);
        let p = basis[upto - 1];
        if redundant(basis, p) {
            rest
        } else {
            rest.push(normalize(p))
        }
    }
}

/// Every element of what `minimal_of` keeps is a basis element that is not
/// redundant, divided by its leading coefficient.
pub proof fn lemma_minimal_members<F: Field>(basis: Seq<Seq<Term<F>>>, upto: int, k: int)
    requires
        0 <= upto <= basis.len(),
        0 <= k < minimal_of(basis, upto).len(),
    ensures
        exists|i: int|
            0 <= i < upto && !redundant(basis, #[trigger] basis[i]) && minimal_of(basis, upto)[k]
                == normalize(basis[i]),
    decreases upto,
{
    let p = basis[upto - 1];
    let rest = minimal_of(basis, upto - 1);
    if !redundant(basis, p) && k == rest.len() {
        assert(minimal_of(basis, upto)[k] == normalize(basis[upto - 1]));
    } else {
        lemma_minimal_members(basis, upto - 1, k);
        let i = choose|i: int|
            0 <= i < upto - 1 && !redundant(basis, #[trigger] basis[i]) && rest[k] == normalize(
                basis[i],
            );
        assert(0 <= i < upto && !redundant(basis, basis[i]) && minimal_of(basis, upto)[k]
            == normalize(basis[i]));
    }
}

/// Between two elements of different value, the leading term of neither
/// divides the leading term of the other.
pub open spec fn lead_independent<F: Field>(basis: Seq<Seq<Term<F>>>) -> bool {
    forall|a: int, b: int|
        0 <= a < basis.len() && 0 <= b < basis.len() && #[trigger] basis[a] != #[trigger] basis[b]
            ==> !exps_ge(basis[a][0].exps, basis[b][0].exps)
}

/// In the minimal basis no leading term divides the leading term of an
/// element of another value.
pub proof fn lemma_minimal_is_lead_independent<F: Field>(basis: Seq<Seq<Term<F>>>)
    requires
        forall|i: int| 0 <= i < basis.len() ==> (#[trigger] basis[i]).len() > 0,
    ensures
        lead_independent(minimal_of(basis, basis.len() as int)),
{
    let out = minimal_of(basis, basis.len() as int);
    assert forall|a: int, b: int|
        0 <= a < out.len() && 0 <= b < out.len() && #[trigger] out[a] != #[trigger] out[b]
        implies !exps_ge(out[a][0].exps, out[b][0].exps) by {
        lemma_minimal_members(basis, basis.len() as int, a);
        lemma_minimal_members(basis, basis.len() as int, b);
        let i = choose|i: int|
            0 <= i < basis.len() && !redundant(basis, #[trigger] basis[i]) && out[a] == normalize(
                basis[i],
            );
        let j = choose|j: int|
            0 <= j < basis.len() && !redundant(basis, #[trigger] basis[j]) && out[b] == normalize(
                basis[j],
            );
        assert(basis[i].len() > 0 && basis[j].len() > 0);
        assert(basis[j] != basis[i]);
        assert(normalize(basis[i])[0].exps == basis[i][0].exps);
        assert(normalize(basis[j])[0].exps == basis[j][0].exps);
    }
}

/// No two elements of the basis have the same value.
pub open spec fn distinct<F: Field>(basis: Seq<Seq<Term<F>>>) -> bool {
    forall|i: int, j: int|
        0 <= i < j < basis.len() ==> #[trigger] basis[i] != #[trigger] basis[j]
}

/// What `minimal_of` keeps comes from basis elements in their order.
pub proof fn lemma_minimal_in_order<F: Field>(basis: Seq<Seq<Term<F>>>, upto: int, a: int, b: int)
    requires
        0 <= upto <= basis.len(),
        0 <= a < b < minimal_of(basis, upto).len(),
    ensures
        exists|i: int, j: int|
            0 <= i < j < upto && !redundant(basis, #[trigger] basis[i]) && !redundant(
                basis,
                #[trigger] basis[j],
            ) && minimal_of(basis, upto)[a] == normalize(basis[i]) && minimal_of(basis, upto)[b]
                == normalize(basis[j]),
    decreases upto,
{
    let p = basis[upto - 1];
    let rest = minimal_of(basis, upto - 1);
    if !redundant(basis, p) && b == rest.len() {
        lemma_minimal_members(basis, upto - 1, a);
        let i = choose|i: int|
            0 <= i < upto - 1 && !redundant(basis, #[trigger] basis[i]) && rest[a] == normalize(
                basis[i],
            );
        let j = upto - 1;
        assert(0 <= i < j < upto && !redundant(basis, basis[i]) && !redundant(basis, basis[j])
            && minimal_of(basis, upto)[a] == normalize(basis[i]) && minimal_of(basis, upto)[b]
            == normalize(basis[j]));
    } else {
        lemma_minimal_in_order(basis, upto - 1, a, b);
        let (i, j) = choose|i: int, j: int|
            0 <= i < j < upto - 1 && !redundant(basis, #[trigger] basis[i]) && !redundant(
                basis,
                #[trigger] basis[j],
            ) && rest[a] == normalize(basis[i]) && rest[b] == normalize(basis[j]);
        assert(0 <= i < j < upto && !redundant(basis, basis[i]) && !redundant(basis, basis[j])
            && minimal_of(basis, upto)[a] == normalize(basis[i]) && minimal_of(basis, upto)[b]
            == normalize(basis[j]));
    }
}

/// In the minimal basis of a basis without repeated elements, the leading
/// term of no element divides the leading term of another.
///
/// With an element that occurs twice the law fails: both copies are kept,
/// and the leading term of each divides that of the other.
pub proof fn lemma_minimal_no_lead_divides_another<F: Field>(
    basis: Seq<Seq<Term<F>>>,
    a: int,
    b: int,
)
    requires
        forall|i: int| 0 <= i < basis.len() ==> (#[trigger] basis[i]).len() > 0,
        distinct(basis),
        0 <= a < minimal_of(basis, basis.len() as int).len(),
        0 <= b < minimal_of(basis, basis.len() as int).len(),
        a != b,
    ensures
        !exps_ge(
            minimal_of(basis, basis.len() as int)[a][0].exps,
            minimal_of(basis, basis.len() as int)[b][0].exps,
        ),
{
    let out = minimal_of(basis, basis.len() as int);
    let (lo, hi) = if a < b {
        (a, b)
    } else {
        (b, a)
    };
    lemma_minimal_in_order(basis, basis.len() as int, lo, hi);
    let (i, j) = choose|i: int, j: int|
        0 <= i < j < basis.len() && !redundant(basis, #[trigger] basis[i]) && !redundant(
            basis,
            #[trigger] basis[j],
        ) && out[lo] == normalize(basis[i]) && out[hi] == normalize(basis[j]);
    assert(basis[i] != basis[j]);
    assert(basis[i].len() > 0 && basis[j].len() > 0);
    assert(normalize(basis[i])[0].exps == basis[i][0].exps);
    assert(normalize(basis[j])[0].exps == basis[j][0].exps);
}

/// The minimal basis of a Gröbner basis: the elements whose leading term no
/// other element's leading term divides, in their order, each with the
/// leading coefficient brought to one.
pub fn minimal_grobner<F, const N: usize>(grobner: Vec<Polynomial<F, N>>) -> (r: Vec<
    Polynomial<F, N>,
>) where F: Field
    requires
        generators_ok(grobner@),
    ensures
        views(r@) == minimal_of(views(grobner@), grobner@.len() as int),
        lead_independent(views(r@)),
        forall|k: int| 0 <= k < r@.len() ==> (#[trigger] r@[k]).valid(),
        F::is_field() && all_wf(grobner@) ==> all_wf(r@) && forall|k: int|
            0 <= k < r@.len() ==> (#[trigger] r@[k])@[0].coef == F::unit_spec(),
{
    let ghost b = views(grobner@);
    proof {
        assert forall|i: int| 0 <= i < b.len() implies (#[trigger] b[i]).len() > 0 by {
            assert(has_lead(grobner@[i]@));
        }
        lemma_minimal_is_lead_independent(b);
    }
    let n = grobner.len();
    let mut ans: Vec<Polynomial<F, N>> = Vec::new();
    let mut i: usize = 0;
    while i < n
        invariant
            n == grobner.len(),
            b == views(grobner@),
            0 <= i <= n,
            generators_ok(grobner@),
            views(ans@) == minimal_of(b, i as int),
            forall|k: int| 0 <= k < ans@.len() ==> (#[trigger] ans@[k]).valid(),
            F::is_field() && all_wf(grobner@) ==> all_wf(ans@) && forall|k: int|
                0 <= k < ans@.len() ==> (#[trigger] ans@[k])@[0].coef == F::unit_spec(),
        decreases n - i,
    {
        let poly = &grobner[i];
        assert(has_lead(grobner@[i as int]@));
        assert(b[i as int] == poly@);
        let mut can_div = false;
        let mut j: usize = 0;
        while j < n && !can_div
            invariant
                n == grobner.len(),
                b == views(grobner@),
                0 <= j <= n,
                generators_ok(grobner@),
                has_lead(poly@),
                !can_div ==> forall|k: int|
                    0 <= k < j ==> !(#[trigger] b[k] != poly@ && exps_ge(
                        poly@[0].exps,
                        b[k][0].exps,
                    )),
                can_div ==> redundant(b, poly@),
            decreases n - j + if can_div { 0int } else { 1int },
        {
            let f = &grobner[j];
            assert(has_lead(grobner@[j as int]@));
            assert(b[j as int] == f@);
            assert(poly.monos@[0]@ == poly@[0] && f.monos@[0]@ == f@[0]);
            if !poly.same_terms(f) && poly.monos[0].can_divide(&f.monos[0]) {
                can_div = true;
            } else {
                j += 1;
            }
        }
        if !can_div {
            let mut kept = poly.duplicate();
            assert(kept@ =~= poly@);
            proof {
                if F::is_field() && all_wf(grobner@) {
                    assert(grobner@[i as int].wf());
                }
            }
            kept.norm();
            let ghost before = ans@;
            ans.push(kept);
            assert(views(ans@) =~= views(before).push(kept@));
        }
        i += 1;
    }
    ans
}

/// Reduction of `poly` to the end by all elements of `polys` but the one at
/// the position `myself`.
pub fn simplify_except_myself<F, const N: usize>(
    poly: Polynomial<F, N>,
    polys: &[Polynomial<F, N>],
    myself: usize,
) -> (r: Result<Polynomial<F, N>, ReductionError>) where F: Field
    requires
        poly.valid(),
        divisors_ok(polys@),
    ensures
        (match reduce(poly@, views(polys@), myself as int, STEP_BUDGET as nat) {
            Reduction::Done(s) => r matches Ok(p) && p@ == s && p.valid() && (F::is_field()
                && poly.wf() && all_wf(polys@) ==> p.wf()),
            Reduction::Overflow => r == Err::<Polynomial<F, N>, _>(
                ReductionError::ExponentOverflow,
            ),
            Reduction::Exhausted => r == Err::<Polynomial<F, N>, _>(
                ReductionError::BudgetExhausted,
            ),
        }),
{
    match simplify_excluding(poly, polys, myself) {
        Ok((_, p)) => Ok(p),
        Err(e) => Err(e),
    }
}

/// The error that a reduction ended with.
pub open spec fn failure<F>(r: Reduction<F>) -> ReductionError {
    match r {
        Reduction::Exhausted => ReductionError::BudgetExhausted,
        _ => ReductionError::ExponentOverflow,
    }
}

/// What the reduction of the `i`-th basis element by all the others comes
/// to.
pub open spec fn reduced_by_others<F: Field>(basis: Seq<Seq<Term<F>>>, i: int) -> Reduction<F> {
    reduce(basis[i], basis, i, STEP_BUDGET as nat)
}

/// The reduced basis of a minimal Gröbner basis: every element reduced to
/// the end by all the others, each against the basis as it was given. The
/// first element whose reduction fails gives the error.
pub fn simplified_grobner<F, const N: usize>(grobner: Vec<Polynomial<F, N>>) -> (r: Result<
    Vec<Polynomial<F, N>>,
    ReductionError,
>) where F: Field
    requires
        divisors_ok(grobner@),
    ensures
        r matches Ok(out) ==> out@.len() == grobner@.len() && forall|i: int|
            0 <= i < out@.len() ==> #[trigger] reduced_by_others(views(grobner@), i)
                == Reduction::Done(out@[i]@),
        r matches Err(e) ==> exists|i: int|
            0 <= i < grobner@.len() && !(#[trigger] reduced_by_others(views(grobner@), i) is Done)
                && e == failure(reduced_by_others(views(grobner@), i)) && forall|k: int|
                0 <= k < i ==> #[trigger] reduced_by_others(views(grobner@), k) is Done,
        (forall|i: int|
            0 <= i < grobner@.len() ==> #[trigger] reduced_by_others(views(grobner@), i) is Done)
            ==> r is Ok,
        F::is_field() && all_wf(grobner@) ==> (r matches Ok(out) ==> all_wf(out@)),
{
    let ghost b = views(grobner@);
    let mut ans: Vec<Polynomial<F, N>> = Vec::with_capacity(grobner.len());
    let mut i: usize = 0;
    while i < grobner.len()
        invariant
            0 <= i <= grobner.len(),
            b == views(grobner@),
            divisors_ok(grobner@),
            ans@.len() == i,
            F::is_field() && all_wf(grobner@) ==> all_wf(ans@),
            forall|k: int|
                0 <= k < i ==> #[trigger] reduced_by_others(b, k) == Reduction::Done(ans@[k]@),
        decreases grobner.len() - i,
    {
        let copy = grobner[i].duplicate();
        assert(copy@ =~= grobner@[i as int]@);
        assert(b[i as int] == copy@);
        assert(divisor_ok(grobner@[i as int]@));
        proof {
            if F::is_field() && all_wf(grobner@) {
                assert(grobner@[i as int].wf());
            }
        }
        match simplify_except_myself(copy, grobner.as_slice(), i) {
            Err(e) => {
                assert(!(reduced_by_others(b, i as int) is Done));
                return Err(e);
            },
            Ok(p) => {
                assert(reduced_by_others(b, i as int) == Reduction::Done(p@));
                ans.push(p);
            },
        }
        i += 1;
    }
    Ok(ans)
}

} // verus!
