use vstd::prelude::*;

verus! {

/// The operations that a coefficient type offers.
///
/// Every executable operation is described by a spec function of the same
/// meaning, so that contracts of polynomial arithmetic can speak of
/// coefficients without knowing their representation. `wf` marks the values
/// that are proper representatives; all operations keep it.
pub trait Field: Sized + Copy {
    /// The value is a proper representative of a field element.
    spec fn wf(self) -> bool;

    spec fn zero_spec() -> Self;

    spec fn unit_spec() -> Self;

    spec fn add_spec(self, rhs: Self) -> Self;

    spec fn sub_spec(self, rhs: Self) -> Self;

    spec fn mul_spec(self, rhs: Self) -> Self;

    spec fn div_spec(self, rhs: Self) -> Self;

    spec fn neg_spec(self) -> Self;

    /// The multiplicative identity.
    fn unit() -> (r: Self)
        ensures
            r == Self::unit_spec(),
    ;

    /// The additive identity.
    fn zero() -> (r: Self)
        ensures
            r == Self::zero_spec(),
    ;

    fn add(self, rhs: Self) -> (r: Self)
        requires
            self.wf(),
            rhs.wf(),
        ensures
            r == self.add_spec(rhs),
            r.wf(),
    ;

    fn sub(self, rhs: Self) -> (r: Self)
        requires
            self.wf(),
            rhs.wf(),
        ensures
            r == self.sub_spec(rhs),
            r.wf(),
    ;

    fn mul(self, rhs: Self) -> (r: Self)
        requires
            self.wf(),
            rhs.wf(),
        ensures
            r == self.mul_spec(rhs),
            r.wf(),
    ;

    /// Division; the divisor must not be zero.
    fn div(self, rhs: Self) -> (r: Self)
        requires
            self.wf(),
            rhs.wf(),
            rhs != Self::zero_spec(),
        ensures
            r == self.div_spec(rhs),
            r.wf(),
    ;

    fn neg(self) -> (r: Self)
        requires
            self.wf(),
        ensures
            r == self.neg_spec(),
            r.wf(),
    ;

    /// Equality of values.
    fn equals(&self, other: &Self) -> (r: bool)
        ensures
            r == (*self == *other),
    ;

    /// The arithmetic is that of a field: every value other than zero has
    /// an inverse. A type for which this depends on a parameter says here
    /// for which parameters it holds.
    spec fn is_field() -> bool;

    /// The operations lead from proper values to proper values.
    proof fn lemma_closed(a: Self, b: Self)
        requires
            a.wf(),
            b.wf(),
        ensures
            a.add_spec(b).wf(),
            a.sub_spec(b).wf(),
            a.mul_spec(b).wf(),
            a.neg_spec().wf(),
            b != Self::zero_spec() ==> a.div_spec(b).wf(),
    ;

    /// The opposite of a value other than zero is not zero.
    proof fn lemma_neg_nonzero(a: Self)
        requires
            a.wf(),
            a != Self::zero_spec(),
        ensures
            a.neg_spec() != Self::zero_spec(),
    ;

    /// In a field, dividing by a value other than zero and multiplying by
    /// it again gives the first value back.
    proof fn lemma_div_mul(a: Self, b: Self)
        requires
            Self::is_field(),
            a.wf(),
            b.wf(),
            b != Self::zero_spec(),
        ensures
            a.div_spec(b).mul_spec(b) == a,
    ;

    /// In a field a value other than zero divided by itself is the unit.
    proof fn lemma_div_self(a: Self)
        requires
            Self::is_field(),
            a.wf(),
            a != Self::zero_spec(),
        ensures
            a.div_spec(a) == Self::unit_spec(),
    ;

    /// Multiplication does not depend on the order of the factors.
    proof fn lemma_mul_commutative(a: Self, b: Self)
        requires
            a.wf(),
            b.wf(),
        ensures
            a.mul_spec(b) == b.mul_spec(a),
    ;

    /// Subtracting zero changes nothing.
    proof fn lemma_sub_zero(a: Self)
        requires
            a.wf(),
        ensures
            a.sub_spec(Self::zero_spec()) == a,
    ;

    /// Zero minus a value is the opposite of the value.
    proof fn lemma_zero_sub(a: Self)
        requires
            a.wf(),
        ensures
            Self::zero_spec().sub_spec(a) == a.neg_spec(),
    ;

    /// Zero times anything is zero.
    proof fn lemma_zero_mul(c: Self)
        requires
            c.wf(),
        ensures
            Self::zero_spec().mul_spec(c) == Self::zero_spec(),
    ;

    /// The opposite of a product is the product with the opposite.
    proof fn lemma_neg_mul(a: Self, c: Self)
        requires
            a.wf(),
            c.wf(),
        ensures
            a.neg_spec().mul_spec(c) == a.mul_spec(c).neg_spec(),
    ;

    /// Multiplication distributes over subtraction.
    proof fn lemma_sub_mul(a: Self, b: Self, c: Self)
        requires
            a.wf(),
            b.wf(),
            c.wf(),
        ensures
            a.sub_spec(b).mul_spec(c) == a.mul_spec(c).sub_spec(b.mul_spec(c)),
    ;

    /// In a field a product is zero only where a factor is.
    proof fn lemma_no_zero_divisors(a: Self, c: Self)
        requires
            Self::is_field(),
            a.wf(),
            c.wf(),
            c != Self::zero_spec(),
            a.mul_spec(c) == Self::zero_spec(),
        ensures
            a == Self::zero_spec(),
    ;

    /// A proper value minus itself is zero.
    proof fn lemma_sub_self(a: Self)
        requires
            a.wf(),
        ensures
            a.sub_spec(a) == Self::zero_spec(),
    ;
}

} // verus!
