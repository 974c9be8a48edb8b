use super::field::Field;
use super::gcd::{
    ext_gcd, ext_gcd_spec, is_prime, lemma_ext_gcd_bezout, lemma_ext_gcd_bounds,
    lemma_gcd_with_prime,
};
use vstd::arithmetic::div_mod::{
    lemma_add_mod_noop, lemma_fundamental_div_mod, lemma_fundamental_div_mod_converse_mod,
    lemma_mod_add_multiples_vanish, lemma_mod_multiples_vanish, lemma_mul_mod_noop_left,
    lemma_mul_mod_noop_right, lemma_small_mod, lemma_sub_mod_noop, lemma_sub_mod_noop_right,
};
use vstd::prelude::*;

verus! {

/// An integer modulo `P`, held as its representative in `[0, P)`.
#[derive(Debug, Clone, Copy, PartialEq, Eq)]
pub struct Fp<const P: u32> {
    pub val: u32,
}

/// The largest modulus for which all arithmetic stays in machine range.
pub const MAX_MODULUS: u32 = 0x7fff_ffff;

/// The representative in `[0, p)` of the inverse of `b` modulo `p`, as the
/// Euclidean recursion on `(b, p)` gives it.
pub open spec fn inverse(b: int, p: int) -> int {
    ext_gcd_spec(b, p).0 % p
}

impl<const P: u32> Fp<P> {
    /// The element with the given representative, which must lie in `[0, 2^32)`.
    pub open spec fn of(v: int) -> Self {
        Fp { val: v as u32 }
    }

    /// The element that `val` stands for: its remainder modulo `P`, never
    /// negative.
    pub fn new(val: i32) -> (r: Self)
        requires
            0 < P <= MAX_MODULUS,
        ensures
            r == Self::of((val as int) % (P as int)),
            r.wf(),
    {
        let p: i64 = P as i64;
        let v: i64 = val as i64;
        if v >= 0 {
            Fp { val: (v % p) as u32 }
        } else {
            let n: i64 = -v;
            let k: i64 = n % p;
            proof {
                let q = n as int / p as int;
                lemma_fundamental_div_mod(n as int, p as int);
                if k == 0 {
                    assert(v == (-q) * p + 0) by (nonlinear_arith)
                        requires
                            n == p * q + k,
                            k == 0,
                            v == -n,
                    ;
                    lemma_fundamental_div_mod_converse_mod(v as int, p as int, -q, 0);
                } else {
                    assert(v == (-q - 1) * p + (p - k)) by (nonlinear_arith)
                        requires
                            n == p * q + k,
                            v == -n,
                    ;
                    lemma_fundamental_div_mod_converse_mod(v as int, p as int, -q - 1, p - k);
                }
            }
            if k == 0 {
                Fp { val: 0 }
            } else {
                Fp { val: (p - k) as u32 }
            }
        }
    }

    /// The representative, in `[0, P)` for a proper element.
    pub fn value(&self) -> (r: u32)
        ensures
            r == self.val,
    {
        self.val
    }
}

impl<const P: u32> Field for Fp<P> {
    open spec fn wf(self) -> bool {
        self.val < P && P <= MAX_MODULUS
    }

    open spec fn zero_spec() -> Self {
        Fp { val: 0 }
    }

    open spec fn unit_spec() -> Self {
        Fp { val: 1 }
    }

    open spec fn add_spec(self, rhs: Self) -> Self {
        Self::of((self.val + rhs.val) % (P as int))
    }

    open spec fn sub_spec(self, rhs: Self) -> Self {
        Self::of((self.val + P - rhs.val) % (P as int))
    }

    open spec fn mul_spec(self, rhs: Self) -> Self {
        Self::of((self.val * rhs.val) % (P as int))
    }

    open spec fn div_spec(self, rhs: Self) -> Self {
        Self::of((self.val * inverse(rhs.val as int, (P as int))) % (P as int))
    }

    open spec fn neg_spec(self) -> Self {
        Self::of((P - self.val) % (P as int))
    }

    fn unit() -> (r: Self) {
        Fp { val: 1 }
    }

    fn zero() -> (r: Self) {
        Fp { val: 0 }
    }

    fn add(self, rhs: Self) -> (r: Self) {
        Fp { val: ((self.val as u64 + rhs.val as u64) % (P as u64)) as u32 }
    }

    fn sub(self, rhs: Self) -> (r: Self) {
        Fp { val: ((self.val as u64 + P as u64 - rhs.val as u64) % (P as u64)) as u32 }
    }

    fn mul(self, rhs: Self) -> (r: Self) {
        proof {
            assert(self.val * rhs.val <= 0x7fff_ffff * 0x7fff_ffff) by (nonlinear_arith)
                requires
                    self.val <= 0x7fff_ffff,
                    rhs.val <= 0x7fff_ffff,
            ;
        }
        Fp { val: ((self.val as u64 * rhs.val as u64) % (P as u64)) as u32 }
    }

    fn div(self, rhs: Self) -> (r: Self) {
        let (x, _) = ext_gcd(rhs.val as i32, P as i32);
        proof {
            lemma_ext_gcd_bounds(rhs.val as int, P as int);
        }
        let shifted: i64 = if x < 0 {
            x as i64 + P as i64
        } else {
            x as i64
        };
        let inv: u64 = (shifted as u64) % (P as u64);
        proof {
            if x < 0 {
                lemma_mod_add_multiples_vanish(x as int, P as int);
            }
            assert(inv == inverse(rhs.val as int, P as int));
            assert(self.val * inv <= 0x7fff_ffff * 0x7fff_ffff) by (nonlinear_arith)
                requires
                    self.val <= 0x7fff_ffff,
                    inv <= 0x7fff_ffff,
            ;
        }
        Fp { val: ((self.val as u64 * inv) % (P as u64)) as u32 }
    }

    fn neg(self) -> (r: Self) {
        Fp { val: ((P - self.val) % P) }
    }

    fn equals(&self, other: &Self) -> (r: bool) {
        self.val == other.val
    }

    open spec fn is_field() -> bool {
        is_prime(P as int)
    }

    proof fn lemma_closed(a: Self, b: Self) {
        let p = P as int;
        assert(0 <= (a.val + b.val) % p < p);
        assert(0 <= (a.val + P - b.val) % p < p);
        assert(0 <= (a.val * b.val) % p < p);
        assert(0 <= (P - a.val) % p < p);
        assert(0 <= (a.val * inverse(b.val as int, p)) % p < p);
    }

    proof fn lemma_neg_nonzero(a: Self) {
        lemma_small_mod((P - a.val) as nat, P as nat);
    }

    proof fn lemma_div_self(a: Self) {
        let p = P as int;
        let inv = inverse(a.val as int, p);
        lemma_inverse_is_inverse(a.val as int, p);
        assert(a.val * inv == inv * a.val) by (nonlinear_arith);
    }

    proof fn lemma_div_mul(a: Self, b: Self) {
        lemma_fp_div_mul(a, b);
    }

    proof fn lemma_mul_commutative(a: Self, b: Self) {
        assert(a.val * b.val == b.val * a.val) by (nonlinear_arith);
    }

    proof fn lemma_sub_zero(a: Self) {
        lemma_mod_add_multiples_vanish(a.val as int, P as int);
        lemma_small_mod(a.val as nat, P as nat);
    }

    proof fn lemma_zero_sub(a: Self) {
    }

    proof fn lemma_zero_mul(c: Self) {
        assert(0 * c.val == 0) by (nonlinear_arith);
        lemma_small_mod(0, P as nat);
        assert(Self::zero_spec().val * c.val == 0);
    }

    proof fn lemma_neg_mul(a: Self, c: Self) {
        let p = P as int;
        let (x, z) = (a.val as int, c.val as int);
        lemma_mul_mod_noop_left(p - x, z, p);
        assert((p - x) * z == p * z + (-(x * z))) by (nonlinear_arith);
        lemma_mod_multiples_vanish(z, -(x * z), p);
        assert((((p - x) % p) * z) % p == (-(x * z)) % p);
        let y = (x * z) % p;
        lemma_mod_add_multiples_vanish(-y, p);
        lemma_sub_mod_noop_right(0, x * z, p);
        assert((p - y) % p == (-(x * z)) % p);
    }

    proof fn lemma_sub_mul(a: Self, b: Self, c: Self) {
        let p = P as int;
        let (x, y, z) = (a.val as int, b.val as int, c.val as int);
        lemma_mul_mod_noop_left(x + p - y, z, p);
        assert((x + p - y) * z == p * z + (x * z - y * z)) by (nonlinear_arith);
        lemma_mod_multiples_vanish(z, x * z - y * z, p);
        assert((((x + p - y) % p) * z) % p == (x * z - y * z) % p);
        let u = (x * z) % p;
        let v = (y * z) % p;
        lemma_mod_add_multiples_vanish(u - v, p);
        lemma_sub_mod_noop(x * z, y * z, p);
        assert((u + p - v) % p == (x * z - y * z) % p);
    }

    proof fn lemma_no_zero_divisors(a: Self, c: Self) {
        let p = P as int;
        let (x, z) = (a.val as int, c.val as int);
        let inv = inverse(z, p);
        lemma_inverse_is_inverse(z, p);
        lemma_mul_mod_noop_right(x, inv * z, p);
        assert(x * 1 == x);
        lemma_small_mod(x as nat, p as nat);
        assert((x * (inv * z)) % p == x);
        assert(x * (inv * z) == (x * z) * inv) by (nonlinear_arith);
        lemma_mul_mod_noop_left(x * z, inv, p);
        assert(0 * inv == 0);
        assert(((x * z) * inv) % p == 0);
    }

    proof fn lemma_sub_self(a: Self) {
        assert((a.val + P - a.val) % (P as int) == 0) by (nonlinear_arith)
            requires
                P > 0,
                (P as int) == P,
        ;
    }
}

/// Addition is associative.
pub proof fn lemma_fp_add_associative<const P: u32>(a: Fp<P>, b: Fp<P>, c: Fp<P>)
    requires
        a.wf(),
        b.wf(),
        c.wf(),
    ensures
        a.add_spec(b).add_spec(c) == a.add_spec(b.add_spec(c)),
{
    let p = P as int;
    let (x, y, z) = (a.val as int, b.val as int, c.val as int);
    lemma_add_mod_noop((x + y) % p, z, p);
    lemma_add_mod_noop(x + y, z, p);
    lemma_add_mod_noop(x, (y + z) % p, p);
    lemma_add_mod_noop(x, y + z, p);
    lemma_small_mod(z as nat, p as nat);
    lemma_small_mod(x as nat, p as nat);
    assert(((x + y) % p + z) % p == ((x + y) + z) % p);
    assert((x + (y + z) % p) % p == (x + (y + z)) % p);
}

/// Zero is neutral for addition.
pub proof fn lemma_fp_add_zero<const P: u32>(a: Fp<P>)
    requires
        a.wf(),
    ensures
        a.add_spec(Fp::<P>::zero_spec()) == a,
{
    lemma_small_mod(a.val as nat, P as nat);
}

/// The unit is neutral for multiplication.
pub proof fn lemma_fp_mul_unit<const P: u32>(a: Fp<P>)
    requires
        a.wf(),
    ensures
        a.mul_spec(Fp::<P>::unit_spec()) == a,
{
    lemma_small_mod(a.val as nat, P as nat);
    assert(a.val * 1 == a.val);
}

/// Modulo a prime, the inverse of a number that is not a multiple of the
/// prime gives one when multiplied with it.
pub proof fn lemma_inverse_is_inverse(b: int, p: int)
    requires
        is_prime(p),
        0 < b < p,
    ensures
        0 <= inverse(b, p) < p,
        (inverse(b, p) * b) % p == 1,
{
    let x = ext_gcd_spec(b, p).0;
    let y = ext_gcd_spec(b, p).1;
    lemma_ext_gcd_bezout(b, p);
    lemma_gcd_with_prime(b, p);
    assert(b * x + p * y == 1);
    assert(b * x == p * (-y) + 1) by (nonlinear_arith)
        requires
            b * x + p * y == 1,
    ;
    lemma_mod_multiples_vanish(-y, 1, p);
    lemma_small_mod(1, p as nat);
    assert((b * x) % p == 1);
    lemma_mul_mod_noop_right(b, x, p);
    assert((b * (x % p)) % p == 1);
    assert(b * (x % p) == (x % p) * b) by (nonlinear_arith);
}

/// Where the modulus is prime, dividing by an element other than zero and
/// multiplying by it again gives the element back.
pub proof fn lemma_fp_div_mul<const P: u32>(a: Fp<P>, b: Fp<P>)
    requires
        is_prime(P as int),
        a.wf(),
        b.wf(),
        b != Fp::<P>::zero_spec(),
    ensures
        a.div_spec(b).mul_spec(b) == a,
{
    let p = P as int;
    let inv = inverse(b.val as int, p);
    let (x, y) = (a.val as int, b.val as int);
    lemma_inverse_is_inverse(y, p);
    lemma_mul_mod_noop_left(x * inv, y, p);
    assert(((x * inv) % p * y) % p == ((x * inv) * y) % p);
    assert((x * inv) * y == x * (inv * y)) by (nonlinear_arith);
    lemma_mul_mod_noop_right(x, inv * y, p);
    assert((x * (inv * y)) % p == (x * 1) % p);
    assert(x * 1 == x);
    lemma_small_mod(x as nat, p as nat);
    assert(0 <= (x * inv) % p < p);
    assert(a.div_spec(b).val == (x * inv) % p);
}

} // verus!
