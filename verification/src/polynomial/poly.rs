use super::model::{
    divisor_ok, first_hit, normalize, first_reducer, irreducible, lemma_first_hit_unique,
    lemma_first_reducer_unique, lemma_reduce_irreducible, mul_fits, mul_terms, reduce, step,
    sub_terms, terms_arity, terms_valid, Reduction, Step,
};
use super::monomial::Monomial;
use super::term::{exps_add, exps_fit, exps_ge, term_mul, term_neg, Term};
use super::theory::{
    fully_reduced, lemma_irreducible_is_fully_reduced, lemma_mul_coefficients, lemma_mul_sorted,
    lemma_normalize_wf, lemma_reduce_wf, lemma_step_wf, lemma_sub_coefficients, lemma_sub_sorted,
    poly_wf,
};
use crate::algebra::field::Field;
use vstd::prelude::*;
use vstd::std_specs::cmp::PartialEqSpecImpl;

verus! {

/// A polynomial in `N` variables: its terms from the largest down.
#[derive(Debug, Clone)]
pub struct Polynomial<F, const N: usize> where F: Field {
    pub monos: Vec<Monomial<F, N>>,
}

/// Why a reduction gave no result.
#[derive(Debug, Clone, Copy, PartialEq, Eq, Structural)]
pub enum ReductionError {
    /// A product of monomials has an exponent beyond `u32::MAX`.
    ExponentOverflow,
    /// The step budget ran out before the reduction came to an end.
    BudgetExhausted,
    /// A polynomial that was to join a basis has the leading coefficient
    /// zero, which the arithmetic of a field never yields.
    DegenerateCoefficient,
}

/// The number of reduction steps, beyond the first, that one reduction may
/// take. In a field a reduction ends by itself, after no more steps than
/// the polynomial weighs; the budget ends one that does not, as can happen
/// with coefficients that form no field.
pub const STEP_BUDGET: u64 = 0xffff_ffff_ffff_ffff;

impl<F: Field, const N: usize> View for Polynomial<F, N> {
    type V = Seq<Term<F>>;

    open spec fn view(&self) -> Seq<Term<F>> {
        Seq::new(self.monos@.len(), |i: int| self.monos@[i]@)
    }
}

/// The term sequences of a list of polynomials.
pub open spec fn views<F: Field, const N: usize>(polys: Seq<Polynomial<F, N>>) -> Seq<
    Seq<Term<F>>,
> {
    Seq::new(polys.len(), |i: int| polys[i]@)
}

/// Every polynomial of the list can serve as a divisor.
pub open spec fn divisors_ok<F: Field, const N: usize>(polys: Seq<Polynomial<F, N>>) -> bool {
    forall|i: int| 0 <= i < polys.len() ==> divisor_ok(#[trigger] polys[i]@)
}

/// Every polynomial of the list keeps the invariant.
pub open spec fn all_wf<F: Field, const N: usize>(polys: Seq<Polynomial<F, N>>) -> bool {
    forall|i: int| 0 <= i < polys.len() ==> (#[trigger] polys[i]).wf()
}

impl<F: Field, const N: usize> Polynomial<F, N> {
    /// Every coefficient is a proper field value.
    pub open spec fn valid(&self) -> bool {
        terms_valid(self@)
    }

    /// The invariant that the arithmetic keeps: proper coefficients, none of
    /// them zero, and terms that strictly decrease.
    pub open spec fn wf(&self) -> bool {
        poly_wf(self@, N as nat)
    }

    /// Every term has `N` exponents.
    pub proof fn lemma_arity(&self)
        ensures
            terms_arity(self@, N as nat),
    {
    }

    /// The polynomial with the given terms, which are taken as they come:
    /// neither sorted nor merged.
    pub fn new(monos: Vec<Monomial<F, N>>) -> (r: Polynomial<F, N>)
        ensures
            r.monos == monos,
    {
        Polynomial { monos }
    }

    /// Whether this is the zero polynomial, the one without terms.
    pub fn is_zero(&self) -> (r: bool)
        ensures
            r == (self@.len() == 0),
    {
        self.monos.len() == 0
    }

    /// A polynomial with the same terms.
    pub fn duplicate(&self) -> (r: Polynomial<F, N>)
        ensures
            r.monos@ == self.monos@,
    {
        let mut monos: Vec<Monomial<F, N>> = Vec::with_capacity(self.monos.len());
        let mut i: usize = 0;
        while i < self.monos.len()
            invariant
                0 <= i <= self.monos.len(),
                monos@ == self.monos@.take(i as int),
            decreases self.monos.len() - i,
        {
            monos.push(self.monos[i]);
            assert(monos@ =~= self.monos@.take(i + 1));
            i += 1;
        }
        assert(self.monos@.take(i as int) =~= self.monos@);
        Polynomial { monos }
    }

    /// Whether the two polynomials have the same terms, coefficients
    /// included.
    pub fn same_terms(&self, other: &Polynomial<F, N>) -> (r: bool)
        ensures
            r == (self@ == other@),
    {
        if self.monos.len() != other.monos.len() {
            assert(self@.len() != other@.len());
            return false;
        }
        let mut i: usize = 0;
        while i < self.monos.len()
            invariant
                0 <= i <= self.monos.len(),
                self.monos.len() == other.monos.len(),
                forall|k: int| 0 <= k < i ==> self@[k] == other@[k],
            decreases self.monos.len() - i,
        {
            let a = &self.monos[i];
            let b = &other.monos[i];
            if !a.same_exponents(b) || !a.coef.equals(&b.coef) {
                assert(self@[i as int] == a@ && other@[i as int] == b@);
                return false;
            }
            assert(self@[i as int] == a@ && other@[i as int] == b@);
            i += 1;
        }
        assert(self@ =~= other@);
        true
    }

    /// Divides every coefficient by the leading one, so that the leading
    /// coefficient becomes the unit. The zero polynomial stays as it is.
    pub fn norm(&mut self)
        requires
            old(self).valid(),
            divisor_ok(old(self)@),
        ensures
            final(self)@ == normalize(old(self)@),
            final(self).valid(),
            F::is_field() && old(self).wf() ==> final(self).wf() && (final(self)@.len() > 0
                ==> final(self)@[0].coef == F::unit_spec()),
    {
        proof {
            if F::is_field() && self.wf() {
                lemma_normalize_wf(self@, N as nat);
            }
        }
        if self.monos.len() == 0 {
            assert(self@ =~= normalize(self@));
            return ;
        }
        let lead = self.monos[0].coef;
        let ghost before = self@;
        assert(before[0].coef == lead);
        let mut i: usize = 0;
        while i < self.monos.len()
            invariant
                0 <= i <= self.monos.len(),
                self@.len() == before.len(),
                self.valid(),
                before.len() > 0,
                terms_valid(before),
                lead == before[0].coef,
                lead != F::zero_spec(),
                forall|k: int| 0 <= k < i ==> (#[trigger] self@[k]) == normalize(before)[k],
                forall|k: int| i <= k < self@.len() ==> (#[trigger] self@[k]) == before[k],
            decreases self.monos.len() - i,
        {
            let cur = self.monos[i];
            assert(cur@ == self@[i as int]);
            assert(before[i as int].coef.wf() && before[0].coef.wf());
            let m = Monomial { coef: cur.coef.div(lead), degree: cur.degree };
            let ghost prev = self@;
            self.monos.set(i, m);
            assert(m@ == normalize(before)[i as int]);
            assert forall|k: int| 0 <= k < self@.len() implies #[trigger] self@[k] == (if k == i {
                m@
            } else {
                prev[k]
            }) by {}
            assert forall|k: int| 0 <= k < self@.len() implies (#[trigger] self@[k]).coef.wf() by {
                if k != i {
                    assert(prev[k].coef.wf());
                }
            }
            i += 1;
        }
        assert(self@ =~= normalize(before));
    }

    /// The difference `self - rhs`, by one merge of the two term sequences.
    pub fn sub(&self, rhs: &Polynomial<F, N>) -> (r: Polynomial<F, N>)
        requires
            self.valid(),
            rhs.valid(),
        ensures
            r@ == sub_terms(self@, rhs@),
            r.valid(),
            self.wf() && rhs.wf() ==> r.wf(),
    {
        proof {
            self.lemma_arity();
            rhs.lemma_arity();
            lemma_sub_coefficients(self@, rhs@);
            if self.wf() && rhs.wf() {
                lemma_sub_sorted(self@, rhs@, N as nat);
            }
        }
        let l_len = self.monos.len();
        let r_len = rhs.monos.len();
        let mut monos: Vec<Monomial<F, N>> = Vec::new();
        let mut li: usize = 0;
        let mut ri: usize = 0;
        let ghost a = self@;
        let ghost b = rhs@;
        proof {
            assert(a.skip(0) =~= a);
            assert(b.skip(0) =~= b);
            assert(Seq::new(monos@.len(), |k: int| monos@[k]@) + sub_terms(a, b) =~= sub_terms(
                a,
                b,
            ));
        }
        while li != l_len || ri != r_len
            invariant
                l_len == self.monos.len(),
                r_len == rhs.monos.len(),
                a == self@,
                b == rhs@,
                0 <= li <= l_len,
                0 <= ri <= r_len,
                terms_valid(a),
                terms_valid(b),
                forall|k: int| 0 <= k < monos@.len() ==> (#[trigger] monos@[k]).coef.wf(),
                Seq::new(monos@.len(), |k: int| monos@[k]@) + sub_terms(
                    a.skip(li as int),
                    b.skip(ri as int),
                ) == sub_terms(a, b),
            decreases (l_len - li) + (r_len - ri),
        {
            let ghost before = Seq::new(monos@.len(), |k: int| monos@[k]@);
            let ghost ta = a.skip(li as int);
            let ghost tb = b.skip(ri as int);
            proof {
                if li < l_len {
                    assert(ta[0] == self.monos@[li as int]@);
                    assert(ta.skip(1) =~= a.skip(li + 1));
                    assert(a[li as int].coef.wf());
                }
                if ri < r_len {
                    assert(tb[0] == rhs.monos@[ri as int]@);
                    assert(tb.skip(1) =~= b.skip(ri + 1));
                    assert(b[ri as int].coef.wf());
                }
            }
            let ghost pushed: Seq<Term<F>>;
            if li == l_len {
                monos.push(rhs.monos[ri].neg());
                ri += 1;
                proof {
                    pushed = seq![term_neg(tb[0])];
                }
            } else if ri == r_len {
                monos.push(self.monos[li]);
                li += 1;
                proof {
                    pushed = seq![ta[0]];
                }
            } else if self.monos[li].same_exponents(&rhs.monos[ri]) {
                let x = self.monos[li].sub(&rhs.monos[ri]);
                if !x.is_zero() {
                    monos.push(x);
                    proof {
                        pushed = seq![x@];
                    }
                } else {
                    proof {
                        pushed = Seq::empty();
                    }
                }
                li += 1;
                ri += 1;
            } else if self.monos[li].exceeds(&rhs.monos[ri]) {
                monos.push(self.monos[li]);
                li += 1;
                proof {
                    pushed = seq![ta[0]];
                }
            } else {
                monos.push(rhs.monos[ri].neg());
                ri += 1;
                proof {
                    pushed = seq![term_neg(tb[0])];
                }
            }
            proof {
                let after = Seq::new(monos@.len(), |k: int| monos@[k]@);
                assert(after =~= before + pushed);
                assert(sub_terms(ta, tb) == pushed + sub_terms(
                    a.skip(li as int),
                    b.skip(ri as int),
                ));
                assert(after + sub_terms(a.skip(li as int), b.skip(ri as int)) =~= before + (pushed
                    + sub_terms(a.skip(li as int), b.skip(ri as int))));
            }
        }
        let r = Polynomial { monos };
        proof {
            assert(a.skip(li as int).len() == 0 && b.skip(ri as int).len() == 0);
            assert(r@ =~= r@ + sub_terms(a.skip(li as int), b.skip(ri as int)));
        }
        r
    }

    /// The product with a monomial, where every exponent of it fits the
    /// machine type; `None` where one does not.
    pub fn checked_mul(&self, rhs: &Monomial<F, N>) -> (r: Option<Polynomial<F, N>>)
        requires
            self.valid(),
            rhs.wf(),
        ensures
            r is Some <==> mul_fits(self@, rhs@),
            r matches Some(p) ==> p@ == mul_terms(self@, rhs@) && p.valid(),
            r matches Some(p) ==> (F::is_field() && self.wf() && rhs.coef != F::zero_spec()
                ==> p.wf()),
    {
        proof {
            self.lemma_arity();
            lemma_mul_coefficients(self@, rhs@);
            if self.wf() {
                lemma_mul_sorted(self@, rhs@, N as nat);
            }
        }
        let mut monos: Vec<Monomial<F, N>> = Vec::with_capacity(self.monos.len());
        let mut i: usize = 0;
        while i < self.monos.len()
            invariant
                0 <= i <= self.monos.len(),
                self.valid(),
                rhs.wf(),
                monos@.len() == i,
                forall|k: int| 0 <= k < i ==> (#[trigger] monos@[k])@ == term_mul(self@[k], rhs@),
                forall|k: int| 0 <= k < i ==> (#[trigger] monos@[k]).coef.wf(),
                forall|k: int| 0 <= k < i ==> exps_fit(#[trigger] exps_add(self@[k].exps, rhs@.exps)),
            decreases self.monos.len() - i,
        {
            let cur = &self.monos[i];
            assert(cur@ == self@[i as int]);
            assert(self@[i as int].coef.wf());
            let mut degree: [u32; N] = [0u32; N];
            let mut j: usize = 0;
            while j < N
                invariant
                    0 <= j <= N,
                    0 <= i < self.monos.len(),
                    cur@ == self@[i as int],
                    forall|k: int| 0 <= k < j ==> degree@[k] == cur@.exps[k] + rhs@.exps[k],
                decreases N - j,
            {
                let sum: u64 = cur.degree[j] as u64 + rhs.degree[j] as u64;
                if sum > 0xffff_ffff {
                    proof {
                        let e = exps_add(self@[i as int].exps, rhs@.exps);
                        assert(cur@.exps[j as int] == cur.degree@[j as int]);
                        assert(rhs@.exps[j as int] == rhs.degree@[j as int]);
                        assert(e.len() == N);
                        assert(e[j as int] == sum);
                        assert(!exps_fit(e));
                    }
                    return None;
                }
                degree[j] = sum as u32;
                j += 1;
            }
            let m = Monomial::new(cur.coef.mul(rhs.coef), degree);
            proof {
                let e = exps_add(self@[i as int].exps, rhs@.exps);
                assert(m@.exps =~= e);
                assert forall|k: int| 0 <= k < e.len() implies 0 <= #[trigger] e[k] <= u32::MAX by {
                    assert(e[k] == degree@[k]);
                }
            }
            monos.push(m);
            i += 1;
        }
        let p = Polynomial { monos };
        assert(p@ =~= mul_terms(self@, rhs@));
        Some(p)
    }

    /// The product with a monomial.
    pub fn mul(&self, rhs: &Monomial<F, N>) -> (r: Polynomial<F, N>)
        requires
            self.valid(),
            rhs.wf(),
            mul_fits(self@, rhs@),
        ensures
            r@ == mul_terms(self@, rhs@),
            r.valid(),
            F::is_field() && self.wf() && rhs.coef != F::zero_spec() ==> r.wf(),
    {
        self.checked_mul(rhs).unwrap()
    }

    /// One reduction step by `rhs`, as `simplify` makes it, for any operands:
    /// `None`, with the polynomial unchanged, where the step would need an
    /// exponent beyond the machine range.
    pub fn try_simplify(&mut self, rhs: &Polynomial<F, N>) -> (r: Option<bool>)
        requires
            old(self).valid(),
            divisor_ok(rhs@),
        ensures
            final(self).valid(),
            F::is_field() && old(self).wf() && rhs.wf() ==> final(self).wf(),
            (match step(old(self)@, rhs@) {
                Step::Unchanged => r == Some(false) && *final(self) == *old(self),
                Step::Reduced(s) => r == Some(true) && final(self)@ == s,
                Step::Overflow => r is None && *final(self) == *old(self),
            }),
    {
        proof {
            if F::is_field() && self.wf() && rhs.wf() {
                lemma_step_wf(self@, rhs@, N as nat);
            }
        }
        if rhs.is_zero() {
            return Some(false);
        }
        let lead = &rhs.monos[0];
        assert(lead@ == rhs@[0]);
        let mut k: usize = 0;
        while k < self.monos.len()
            invariant
                0 <= k <= self.monos.len(),
                *self == *old(self),
                self.valid(),
                divisor_ok(rhs@),
                rhs@.len() > 0,
                step(old(self)@, rhs@) matches Step::Reduced(s) ==> (F::is_field() && old(
                    self,
                ).wf() && rhs.wf() ==> poly_wf(s, N as nat)),
                lead@ == rhs@[0],
                forall|j: int| 0 <= j < k ==> !exps_ge((#[trigger] self@[j]).exps, lead@.exps),
            decreases self.monos.len() - k,
        {
            let cur = &self.monos[k];
            assert(cur@ == self@[k as int]);
            if cur.can_divide(lead) {
                proof {
                    assert(first_hit(self@, lead@.exps, k as int));
                    lemma_first_hit_unique(self@, lead@.exps, k as int);
                    assert(self@[k as int].coef.wf());
                }
                let q = cur.div(lead);
                match rhs.checked_mul(&q) {
                    None => {
                        return None;
                    },
                    Some(prod) => {
                        let d = self.sub(&prod);
                        *self = d;
                        return Some(true);
                    },
                }
            }
            k += 1;
        }
        Some(false)
    }

    /// One reduction step by `rhs`: the first term that the leading term of
    /// `rhs` divides is cancelled by subtracting the fitting multiple of
    /// `rhs`. Returns whether there was such a term; without one, or with
    /// `rhs` zero, the polynomial stays as it is.
    pub fn simplify(&mut self, rhs: &Polynomial<F, N>) -> (r: bool)
        requires
            old(self).valid(),
            divisor_ok(rhs@),
            !(step(old(self)@, rhs@) is Overflow),
        ensures
            final(self).valid(),
            F::is_field() && old(self).wf() && rhs.wf() ==> final(self).wf(),
            (match step(old(self)@, rhs@) {
                Step::Reduced(s) => r && final(self)@ == s,
                _ => !r && *final(self) == *old(self),
            }),
    {
        self.try_simplify(rhs).unwrap()
    }
}

impl<F: Field, const N: usize> PartialEq for Polynomial<F, N> {
    /// Equality of value: the same terms, coefficients included.
    fn eq(&self, other: &Self) -> (r: bool) {
        self.same_terms(other)
    }
}

impl<F: Field, const N: usize> PartialEqSpecImpl for Polynomial<F, N> {
    open spec fn obeys_eq_spec() -> bool {
        true
    }

    open spec fn eq_spec(&self, other: &Self) -> bool {
        self@ == other@
    }
}

/// Reduction of `poly` by the elements of `polys` other than the one at
/// `skip`, to the end: whenever an element reduces the polynomial, the scan
/// starts again at the first element. Returns whether any step was made,
/// and the polynomial that is left.
pub fn simplify_excluding<F, const N: usize>(
    poly: Polynomial<F, N>,
    polys: &[Polynomial<F, N>],
    skip: usize,
) -> (r: Result<(bool, Polynomial<F, N>), ReductionError>) where F: Field
    requires
        poly.valid(),
        divisors_ok(polys@),
    ensures
        (match reduce(poly@, views(polys@), skip as int, STEP_BUDGET as nat) {
            Reduction::Done(s) => r matches Ok((changed, p)) && p@ == s && p.valid() && changed
                == !irreducible(poly@, views(polys@), skip as int) && irreducible(
                p@,
                views(polys@),
                skip as int,
            ) && (!changed ==> p == poly) && (F::is_field() && poly.wf() && all_wf(polys@)
                ==> p.wf()),
            Reduction::Overflow => r == Err::<(bool, Polynomial<F, N>), _>(
                ReductionError::ExponentOverflow,
            ),
            Reduction::Exhausted => r == Err::<(bool, Polynomial<F, N>), _>(
                ReductionError::BudgetExhausted,
            ),
        }),
{
    let ghost basis = views(polys@);
    let ghost start = poly;
    proof {
        if F::is_field() && poly.wf() && all_wf(polys@) {
            assert forall|i: int| 0 <= i < basis.len() implies poly_wf(
                #[trigger] basis[i],
                N as nat,
            ) by {
                assert(polys@[i].wf());
            }
            lemma_reduce_wf(poly@, basis, skip as int, STEP_BUDGET as nat, N as nat);
        }
    }
    let mut rest = poly;
    let mut changed = false;
    let mut budget: u64 = STEP_BUDGET;
    loop
        invariant
            start == poly,
            basis == views(polys@),
            divisors_ok(polys@),
            rest.valid(),
            reduce(start@, basis, skip as int, STEP_BUDGET as nat) matches Reduction::Done(done)
                ==> (F::is_field() && start.wf() && all_wf(polys@) ==> poly_wf(done, N as nat)),
            reduce(start@, basis, skip as int, STEP_BUDGET as nat) == reduce(
                rest@,
                basis,
                skip as int,
                budget as nat,
            ),
            changed ==> !irreducible(start@, basis, skip as int),
            !changed ==> rest == start,
        decreases budget,
    {
        let ghost cur = rest@;
        let mut i: usize = 0;
        let mut hit = false;
        while i < polys.len() && !hit
            invariant
                0 <= i <= polys.len(),
                start == poly,
                basis == views(polys@),
                divisors_ok(polys@),
                rest.valid(),
                reduce(start@, basis, skip as int, STEP_BUDGET as nat) matches Reduction::Done(done)
                    ==> (F::is_field() && start.wf() && all_wf(polys@) ==> poly_wf(done, N as nat)),
                reduce(start@, basis, skip as int, STEP_BUDGET as nat) == reduce(
                    cur,
                    basis,
                    skip as int,
                    budget as nat,
                ),
                changed ==> !irreducible(start@, basis, skip as int),
                !changed && !hit ==> rest == start,
                !hit ==> rest@ == cur,
                !hit ==> forall|j: int|
                    0 <= j < i && j != skip ==> #[trigger] step(cur, basis[j]) is Unchanged,
                hit ==> i < polys.len() && first_reducer(cur, basis, skip as int, i as int)
                    && step(cur, basis[i as int]) == Step::Reduced(rest@),
            decreases polys.len() - i + if hit { 0int } else { 1int },
        {
            if i != skip {
                assert(basis[i as int] == polys@[i as int]@);
                assert(divisor_ok(polys@[i as int]@));
                match rest.try_simplify(&polys[i]) {
                    None => {
                        proof {
                            assert(first_reducer(cur, basis, skip as int, i as int));
                            lemma_first_reducer_unique(cur, basis, skip as int, i as int);
                            assert(reduce(cur, basis, skip as int, budget as nat)
                                == Reduction::<F>::Overflow);
                        }
                        return Err(ReductionError::ExponentOverflow);
                    },
                    Some(true) => {
                        hit = true;
                    },
                    Some(false) => {},
                }
            }
            if !hit {
                i += 1;
            }
        }
        if !hit {
            proof {
                assert(basis.len() == polys@.len());
                assert(irreducible(cur, basis, skip as int));
                lemma_reduce_irreducible(cur, basis, skip as int, budget as nat);
            }
            return Ok((changed, rest));
        }
        proof {
            lemma_first_reducer_unique(cur, basis, skip as int, i as int);
        }
        changed = true;
        if budget == 0 {
            return Err(ReductionError::BudgetExhausted);
        }
        budget -= 1;
    }
}

/// Reduction of `poly` by `polys` to the end: the elements are tried in
/// order, and after every step that reduces the polynomial the scan starts
/// again at the first. Returns whether any step was made, and the
/// polynomial that no element reduces further.
pub fn simplify<F, const N: usize>(poly: Polynomial<F, N>, polys: &[Polynomial<F, N>]) -> (r:
    Result<(bool, Polynomial<F, N>), ReductionError>) where F: Field
    requires
        poly.valid(),
        divisors_ok(polys@),
    ensures
        (match reduce(poly@, views(polys@), polys@.len() as int, STEP_BUDGET as nat) {
            Reduction::Done(s) => r matches Ok((changed, p)) && p@ == s && p.valid() && changed
                == !irreducible(poly@, views(polys@), polys@.len() as int) && fully_reduced(
                p@,
                views(polys@),
            ) && (!changed ==> p == poly) && (F::is_field() && poly.wf() && all_wf(polys@)
                ==> p.wf()),
            Reduction::Overflow => r == Err::<(bool, Polynomial<F, N>), _>(
                ReductionError::ExponentOverflow,
            ),
            Reduction::Exhausted => r == Err::<(bool, Polynomial<F, N>), _>(
                ReductionError::BudgetExhausted,
            ),
        }),
{
    let r = simplify_excluding(poly, polys, polys.len());
    proof {
        if r is Ok {
            lemma_irreducible_is_fully_reduced(r->Ok_0.1@, views(polys@));
        }
    }
    r
}

} // verus!
