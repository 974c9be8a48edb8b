use super::term::{
    agree_before, exps_ge, leads_at, lex_gt, term_div, term_lcm, term_neg, term_sub,
    Term,
};
use crate::algebra::field::Field;
use core::cmp::Ordering;
use vstd::prelude::*;
use vstd::std_specs::cmp::{PartialEqSpecImpl, PartialOrdSpecImpl};

verus! {

/// A coefficient together with the exponents of `N` variables.
#[derive(Clone, Copy, Debug)]
pub struct Monomial<F, const N: usize> where F: Field {
    pub coef: F,
    pub degree: [u32; N],
}

impl<F: Field, const N: usize> View for Monomial<F, N> {
    type V = Term<F>;

    open spec fn view(&self) -> Term<F> {
        Term { coef: self.coef, exps: Seq::new(N as nat, |j: int| self.degree@[j] as int) }
    }
}

impl<F: Field, const N: usize> Monomial<F, N> {
    /// The coefficient is a proper field value.
    pub open spec fn wf(self) -> bool {
        self.coef.wf()
    }

    pub fn new(coef: F, degree: [u32; N]) -> (r: Monomial<F, N>)
        ensures
            r.coef == coef,
            r.degree == degree,
    {
        Monomial { coef, degree }
    }

    /// Whether the coefficient is the field's zero.
    pub fn is_zero(&self) -> (r: bool)
        ensures
            r == (self.coef == F::zero_spec()),
    {
        let zero = F::zero();
        self.coef.equals(&zero)
    }

    /// The monomial with the opposite coefficient.
    pub fn neg(&self) -> (r: Monomial<F, N>)
        requires
            self.wf(),
        ensures
            r@ == term_neg(self@),
            r.degree == self.degree,
            r.wf(),
    {
        Monomial { coef: self.coef.neg(), degree: self.degree }
    }

    /// The difference of two monomials with the same exponents.
    pub fn sub(&self, rhs: &Monomial<F, N>) -> (r: Monomial<F, N>)
        requires
            self.wf(),
            rhs.wf(),
            self@.exps == rhs@.exps,
        ensures
            r@ == term_sub(self@, rhs@),
            r.degree == self.degree,
            r.wf(),
    {
        Monomial { coef: self.coef.sub(rhs.coef), degree: self.degree }
    }

    /// Whether `rhs` divides this monomial: no exponent of `rhs` exceeds the
    /// exponent that this monomial has for the same variable.
    pub fn can_divide(&self, rhs: &Monomial<F, N>) -> (r: bool)
        ensures
            r == exps_ge(self@.exps, rhs@.exps),
    {
        let mut i: usize = 0;
        while i < N
            invariant
                0 <= i <= N,
                forall|j: int| 0 <= j < i ==> self@.exps[j] >= rhs@.exps[j],
            decreases N - i,
        {
            if self.degree[i] < rhs.degree[i] {
                assert(self@.exps[i as int] < rhs@.exps[i as int]);
                return false;
            }
            i += 1;
        }
        true
    }

    /// The quotient by a monomial that divides this one.
    pub fn div(&self, rhs: &Monomial<F, N>) -> (r: Monomial<F, N>)
        requires
            self.wf(),
            rhs.wf(),
            rhs.coef != F::zero_spec(),
            exps_ge(self@.exps, rhs@.exps),
        ensures
            r@ == term_div(self@, rhs@),
            r.wf(),
    {
        let coef = self.coef.div(rhs.coef);
        let mut degree: [u32; N] = [0u32; N];
        let mut j: usize = 0;
        while j < N
            invariant
                0 <= j <= N,
                exps_ge(self@.exps, rhs@.exps),
                forall|k: int| 0 <= k < j ==> degree@[k] == self@.exps[k] - rhs@.exps[k],
            decreases N - j,
        {
            assert(self@.exps[j as int] >= rhs@.exps[j as int]);
            degree[j] = self.degree[j] - rhs.degree[j];
            j += 1;
        }
        let r = Monomial { coef, degree };
        assert(r@.exps =~= term_div(self@, rhs@).exps);
        r
    }

    /// Whether the two monomials have the same exponents, whatever their
    /// coefficients.
    pub fn same_exponents(&self, other: &Monomial<F, N>) -> (r: bool)
        ensures
            r == (self@.exps == other@.exps),
    {
        let mut i: usize = 0;
        while i < N
            invariant
                0 <= i <= N,
                agree_before(self@.exps, other@.exps, i as int),
            decreases N - i,
        {
            if self.degree[i] != other.degree[i] {
                assert(self@.exps[i as int] != other@.exps[i as int]);
                return false;
            }
            i += 1;
        }
        assert(self@.exps =~= other@.exps);
        true
    }

    /// Whether this monomial comes strictly after `other` in the
    /// lexicographic order of the exponents.
    pub fn exceeds(&self, other: &Monomial<F, N>) -> (r: bool)
        ensures
            r == lex_gt(self@.exps, other@.exps),
    {
        let mut i: usize = 0;
        while i < N
            invariant
                0 <= i <= N,
                agree_before(self@.exps, other@.exps, i as int),
            decreases N - i,
        {
            if self.degree[i] > other.degree[i] {
                assert(leads_at(self@.exps, other@.exps, i as int));
                return true;
            }
            if self.degree[i] < other.degree[i] {
                assert forall|k: int| !leads_at(self@.exps, other@.exps, k) by {
                    if leads_at(self@.exps, other@.exps, k) {
                        if k < i {
                            assert(self@.exps[k] == other@.exps[k]);
                        } else if k > i {
                            assert(self@.exps[i as int] == other@.exps[i as int]);
                        }
                    }
                }
                return false;
            }
            i += 1;
        }
        assert forall|k: int| !leads_at(self@.exps, other@.exps, k) by {
            if leads_at(self@.exps, other@.exps, k) {
                assert(self@.exps[k] == other@.exps[k]);
            }
        }
        false
    }
}

impl<F: Field, const N: usize> PartialEq for Monomial<F, N> {
    /// Equality as terms: the same exponents, whatever the coefficients.
    fn eq(&self, other: &Self) -> (r: bool) {
        self.same_exponents(other)
    }
}

impl<F: Field, const N: usize> PartialEqSpecImpl for Monomial<F, N> {
    open spec fn obeys_eq_spec() -> bool {
        true
    }

    open spec fn eq_spec(&self, other: &Self) -> bool {
        self@.exps == other@.exps
    }
}

impl<F: Field, const N: usize> PartialOrd for Monomial<F, N> {
    /// The lexicographic order of the exponents, by variable index.
    fn partial_cmp(&self, other: &Self) -> (r: Option<Ordering>) {
        if self.same_exponents(other) {
            Some(Ordering::Equal)
        } else if self.exceeds(other) {
            Some(Ordering::Greater)
        } else {
            Some(Ordering::Less)
        }
    }
}

impl<F: Field, const N: usize> PartialOrdSpecImpl for Monomial<F, N> {
    open spec fn obeys_partial_cmp_spec() -> bool {
        true
    }

    open spec fn partial_cmp_spec(&self, other: &Self) -> Option<Ordering> {
        if self@.exps == other@.exps {
            Some(Ordering::Equal)
        } else if lex_gt(self@.exps, other@.exps) {
            Some(Ordering::Greater)
        } else {
            Some(Ordering::Less)
        }
    }
}

/// The least common multiple of the two monomials' variable parts, with the
/// product of their coefficients.
pub fn lcm<F, const N: usize>(mono1: &Monomial<F, N>, mono2: &Monomial<F, N>) -> (r: Monomial<
    F,
    N,
>) where F: Field
    requires
        mono1.wf(),
        mono2.wf(),
    ensures
        r@ == term_lcm(mono1@, mono2@),
        r.wf(),
{
    let mut degree: [u32; N] = [0u32; N];
    let mut j: usize = 0;
    while j < N
        invariant
            0 <= j <= N,
            forall|k: int|
                0 <= k < j ==> degree@[k] == if mono1@.exps[k] >= mono2@.exps[k] {
                    mono1@.exps[k]
                } else {
                    mono2@.exps[k]
                },
        decreases N - j,
    {
        degree[j] = if mono1.degree[j] >= mono2.degree[j] {
            mono1.degree[j]
        } else {
            mono2.degree[j]
        };
        j += 1;
    }
    let r = Monomial::new(mono1.coef.mul(mono2.coef), degree);
    assert(r@.exps =~= term_lcm(mono1@, mono2@).exps);
    r
}

} // verus!
