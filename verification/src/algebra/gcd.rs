use vstd::arithmetic::div_mod::{
    lemma_add_mod_noop, lemma_fundamental_div_mod, lemma_mod_self_0, lemma_mul_mod_noop_left,
    lemma_mul_mod_noop_right, lemma_small_mod, lemma_sub_mod_noop,
};
use vstd::prelude::*;

verus! {

/// The Bézout coefficients that the Euclidean recursion yields for `(a, b)`.
pub open spec fn ext_gcd_spec(a: int, b: int) -> (int, int)
    decreases b,
{
    if b <= 0 {
        (1, 0)
    } else {
        let (x, y) = ext_gcd_spec(b, a % b);
        (y, x - (a / b) * y)
    }
}

/// The greatest common divisor of two non-negative integers.
pub open spec fn gcd(a: int, b: int) -> int
    decreases b,
{
    if b <= 0 {
        a
    } else {
        gcd(b, a % b)
    }
}

pub open spec fn abs(x: int) -> int {
    if x < 0 {
        -x
    } else {
        x
    }
}

/// The coefficients combine `a` and `b` to their greatest common divisor.
pub proof fn lemma_ext_gcd_bezout(a: int, b: int)
    requires
        a >= 0,
        b >= 0,
    ensures
        a * ext_gcd_spec(a, b).0 + b * ext_gcd_spec(a, b).1 == gcd(a, b),
    decreases b,
{
    if b > 0 {
        let r = a % b;
        let q = a / b;
        lemma_ext_gcd_bezout(b, r);
        let x = ext_gcd_spec(b, r).0;
        let y = ext_gcd_spec(b, r).1;
        assert(ext_gcd_spec(a, b) == (y, x - q * y));
        assert(a == q * b + r) by (nonlinear_arith)
            requires
                b > 0,
                q == a / b,
                r == a % b,
        ;
        assert(a * y + b * (x - q * y) == b * x + r * y) by (nonlinear_arith)
            requires
                a == q * b + r,
        ;
        assert(gcd(a, b) == gcd(b, r));
    } else {
        assert(ext_gcd_spec(a, b) == (1int, 0int));
        assert(a * 1 + b * 0 == a) by (nonlinear_arith);
    }
}

/// The coefficients are no larger than the arguments.
pub proof fn lemma_ext_gcd_bounds(a: int, b: int)
    requires
        a >= 0,
        b > 0,
    ensures
        abs(ext_gcd_spec(a, b).0) <= b,
        abs(ext_gcd_spec(a, b).1) <= (if a >= 1 { a } else { 1 }),
    decreases b,
{
    let r = a % b;
    let q = a / b;
    assert(a == q * b + r && 0 <= r < b && q >= 0) by (nonlinear_arith)
        requires
            a >= 0,
            b > 0,
            q == a / b,
            r == a % b,
    ;
    let x = ext_gcd_spec(b, r).0;
    let y = ext_gcd_spec(b, r).1;
    assert(ext_gcd_spec(a, b) == (y, x - q * y));
    if r > 0 {
        lemma_ext_gcd_bounds(b, r);
        assert(abs(q * y) <= q * b) by (nonlinear_arith)
            requires
                q >= 0,
                abs(y) <= b,
        ;
    } else {
        assert(ext_gcd_spec(b, r) == (1int, 0int));
        assert(q * 0 == 0);
    }
}

/// The greatest common divisor is positive and divides both arguments.
pub proof fn lemma_gcd_divides(a: int, b: int)
    requires
        a >= 0,
        b >= 0,
        a + b > 0,
    ensures
        gcd(a, b) > 0,
        a % gcd(a, b) == 0,
        b % gcd(a, b) == 0,
    decreases b,
{
    if b == 0 {
        lemma_mod_self_0(a);
        lemma_small_mod(0, a as nat);
    } else {
        let r = a % b;
        let q = a / b;
        lemma_gcd_divides(b, r);
        let g = gcd(b, r);
        lemma_fundamental_div_mod(a, b);
        lemma_mul_mod_noop_right(q, b, g);
        assert(q * 0 == 0);
        lemma_small_mod(0, g as nat);
        assert((q * b) % g == 0);
        lemma_add_mod_noop(q * b, r, g);
        assert(b * q == q * b) by (nonlinear_arith);
        assert(a % g == 0);
    }
}

/// Every common divisor of the arguments divides their greatest common
/// divisor.
pub proof fn lemma_gcd_greatest(a: int, b: int, d: int)
    requires
        a >= 0,
        b >= 0,
        d > 0,
        a % d == 0,
        b % d == 0,
    ensures
        gcd(a, b) % d == 0,
    decreases b,
{
    if b > 0 {
        let r = a % b;
        let q = a / b;
        lemma_fundamental_div_mod(a, b);
        assert(r == a - b * q);
        lemma_mul_mod_noop_left(b, q, d);
        assert(0 * q == 0);
        lemma_small_mod(0, d as nat);
        assert((b * q) % d == 0);
        lemma_sub_mod_noop(a, b * q, d);
        assert(r % d == 0);
        lemma_gcd_greatest(b, r, d);
    }
}

/// `p` has no divisor strictly between one and itself.
pub open spec fn is_prime(p: int) -> bool {
    p >= 2 && forall|d: int| 1 < d < p ==> #[trigger] (p % d) != 0
}

/// A prime has nothing in common with a positive number below it.
pub proof fn lemma_gcd_with_prime(b: int, p: int)
    requires
        is_prime(p),
        0 < b < p,
    ensures
        gcd(b, p) == 1,
{
    lemma_gcd_divides(b, p);
    let g = gcd(b, p);
    if g > 1 {
        if g < p {
            assert(p % g != 0);
        } else if g == p {
            lemma_small_mod(b as nat, p as nat);
        } else {
            lemma_small_mod(p as nat, g as nat);
        }
    }
}

/// Bézout coefficients of `a` and `b` by the Euclidean recursion: the pair
/// `(x, y)` with `a * x + b * y == gcd(a, b)`.
pub fn ext_gcd(a: i32, b: i32) -> (r: (i32, i32))
    requires
        a >= 0,
        b >= 0,
    ensures
        (r.0 as int, r.1 as int) == ext_gcd_spec(a as int, b as int),
        a * r.0 + b * r.1 == gcd(a as int, b as int),
    decreases b,
{
    proof {
        lemma_ext_gcd_bezout(a as int, b as int);
    }
    if b == 0 {
        return (1, 0);
    }
    let q: i32 = a / b;
    let m: i32 = a % b;
    let (x, y) = ext_gcd(b, m);
    proof {
        lemma_ext_gcd_bounds(a as int, b as int);
        if m > 0 {
            lemma_ext_gcd_bounds(b as int, m as int);
        }
        assert(a == q * b + m && 0 <= m < b && q >= 0) by (nonlinear_arith)
            requires
                a >= 0,
                b > 0,
                q == a as int / b as int,
                m == a as int % b as int,
        ;
        assert(abs(q * y) <= q * b) by (nonlinear_arith)
            requires
                q >= 0,
                abs(y as int) <= b,
        ;
    }
    (y, x - q * y)
}

} // verus!
