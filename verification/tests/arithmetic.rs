use algebra::algebra::field::Field;
use algebra::algebra::fp;
use algebra::algebra::gcd::ext_gcd;
use algebra::polynomial::monomial::{lcm, Monomial};
use algebra::polynomial::poly::{simplify, Polynomial, ReductionError};
use algebra::polynomial::render::{digit_char, push_decimal};

type Fp = fp::Fp<7>;

fn poly3(terms: Vec<(i32, [u32; 3])>) -> Polynomial<Fp, 3> {
    Polynomial::new(terms.into_iter().map(|(c, d)| Monomial::new(Fp::new(c), d)).collect())
}

#[test]
fn fp_test() {
    let x = Fp::new(2);
    let y = Fp::new(10);
    let add = x.add(y);
    assert_eq!(add.val, 5);
    let minus = x.sub(y);
    assert_eq!(minus.val, 6);
    let mul = x.mul(y);
    assert_eq!(mul.val, 6);
    let div = x.div(y);
    assert_eq!(div.val, 3);
}

#[test]
fn monomial() {
    let mono1 = Monomial::new(Fp::new(3), [2, 3, 3]);
    let mono2 = Monomial::new(Fp::new(5), [1, 2, 3]);

    assert!(mono1.can_divide(&mono2));
    assert_eq!(mono1.div(&mono2), Monomial::new(Fp::new(2), [1, 1, 0]));

    let mono3 = Monomial::new(Fp::new(8), [2, 3, 3]);
    assert_eq!(mono1.sub(&mono3), Monomial::new(Fp::new(2), [2, 3, 3]));
}

#[test]
fn polynomial() {
    let monos1 = vec![
        Monomial::new(Fp::new(4), [3, 1, 2]),
        Monomial::new(Fp::new(1), [1, 2, 0]),
        Monomial::new(Fp::new(1), [0, 1, 5]),
    ];
    let monos2 = vec![
        Monomial::new(Fp::new(3), [5, 1, 0]),
        Monomial::new(Fp::new(4), [1, 2, 0]),
    ];
    let poly1 = Polynomial::new(monos1);
    let poly2 = Polynomial::new(monos2);
    let mut poly3 = poly1.sub(&poly2);
    assert_eq!(
        poly3,
        Polynomial::new(vec![
            Monomial::new(Fp::new(4), [5, 1, 0]),
            Monomial::new(Fp::new(4), [3, 1, 2]),
            Monomial::new(Fp::new(4), [1, 2, 0]),
            Monomial::new(Fp::new(1), [0, 1, 5]),
        ])
    );

    let poly4 = Polynomial::new(vec![
        Monomial::new(Fp::new(5), [2, 1, 1]),
        Monomial::new(Fp::new(3), [1, 0, 0]),
    ]);
    assert!(poly3.simplify(&poly4));
    assert_eq!(
        poly3,
        Polynomial::new(vec![
            Monomial::new(Fp::new(4), [5, 1, 0]),
            Monomial::new(Fp::new(6), [2, 0, 1]),
            Monomial::new(Fp::new(4), [1, 2, 0]),
            Monomial::new(Fp::new(1), [0, 1, 5])
        ])
    )
}

#[test]
fn fp_new_reduces_into_range() {
    assert_eq!(Fp::new(0).value(), 0);
    assert_eq!(Fp::new(7).value(), 0);
    assert_eq!(Fp::new(15).value(), 1);
    assert_eq!(Fp::new(-1).value(), 6);
    assert_eq!(Fp::new(-7).value(), 0);
    assert_eq!(Fp::new(-15).value(), 6);
    assert_eq!(Fp::new(i32::MIN).value(), 5);
    assert_eq!(Fp::new(i32::MAX).value(), 1);
}

#[test]
fn fp_identities() {
    assert_eq!(Fp::zero().value(), 0);
    assert_eq!(Fp::unit().value(), 1);
    assert_eq!(Fp::new(3).neg().value(), 4);
    assert_eq!(Fp::new(0).neg().value(), 0);
    assert!(Fp::new(9).equals(&Fp::new(2)));
    assert!(!Fp::new(3).equals(&Fp::new(2)));
}

#[test]
fn fp_field_laws_hold_for_every_triple() {
    for a in 0..7 {
        for b in 0..7 {
            for c in 0..7 {
                let (x, y, z) = (Fp::new(a), Fp::new(b), Fp::new(c));
                assert_eq!(x.add(y).add(z), x.add(y.add(z)));
            }
            let (x, y) = (Fp::new(a), Fp::new(b));
            assert_eq!(x.add(Fp::zero()), x);
            assert_eq!(x.mul(Fp::unit()), x);
            if b != 0 {
                assert_eq!(x.div(y).mul(y), x);
            }
        }
    }
}

#[test]
fn fp_large_modulus_does_not_overflow() {
    type Big = fp::Fp<2147483647>;
    let a = Big::new(2147483646);
    assert_eq!(a.mul(a).value(), 1);
    assert_eq!(a.add(a).value(), 2147483645);
    assert_eq!(a.div(a).value(), 1);
    assert_eq!(Big::new(1).div(Big::new(2)).value(), 1073741824);
}

#[test]
fn ext_gcd_gives_bezout_coefficients() {
    assert_eq!(ext_gcd(5, 0), (1, 0));
    assert_eq!(ext_gcd(3, 7), (-2, 1));
    assert_eq!(ext_gcd(10, 7), (-2, 3));
    let (x, y) = ext_gcd(240, 46);
    assert_eq!(240 * x + 46 * y, 2);
    assert_eq!(ext_gcd(0, 7), (0, 1));
}

#[test]
fn monomial_parts() {
    let m = Monomial::new(Fp::new(3), [2, 0, 1]);
    assert!(!m.is_zero());
    assert!(Monomial::new(Fp::new(7), [2, 0, 1]).is_zero());
    let n = m.neg();
    assert_eq!(n.coef.value(), 4);
    assert_eq!(n.degree, [2, 0, 1]);
    let d = Monomial::new(Fp::new(3), [2, 3, 3]).div(&Monomial::new(Fp::new(5), [1, 2, 3]));
    assert_eq!(d.coef.value(), 2);
    assert_eq!(d.degree, [1, 1, 0]);
    let s = Monomial::new(Fp::new(3), [2, 3, 3]).sub(&Monomial::new(Fp::new(8), [2, 3, 3]));
    assert_eq!(s.coef.value(), 2);
    assert_eq!(s.degree, [2, 3, 3]);
    assert!(!Monomial::new(Fp::new(1), [1, 5, 0]).can_divide(&Monomial::new(Fp::new(1), [2, 0, 0])));
    assert!(Monomial::new(Fp::new(1), [1, 5, 0]).can_divide(&Monomial::new(Fp::new(1), [1, 5, 0])));
}

#[test]
fn monomial_order_is_lexicographic() {
    let a = Monomial::new(Fp::new(1), [1, 0, 0]);
    let b = Monomial::new(Fp::new(1), [0, 9, 9]);
    let c = Monomial::new(Fp::new(5), [0, 9, 9]);
    assert!(a.exceeds(&b));
    assert!(!b.exceeds(&a));
    assert!(!b.exceeds(&c));
    assert!(b.same_exponents(&c));
    assert!(b == c);
    assert!(a != b);
    assert!(a > b);
    assert!(b < a);
    assert!(b <= c && b >= c);
    assert_eq!(a.partial_cmp(&b), Some(std::cmp::Ordering::Greater));
    assert_eq!(b.partial_cmp(&a), Some(std::cmp::Ordering::Less));
    assert_eq!(b.partial_cmp(&c), Some(std::cmp::Ordering::Equal));
}

#[test]
fn lcm_takes_the_larger_exponents() {
    let l = lcm(
        &Monomial::new(Fp::new(2), [2, 0, 5]),
        &Monomial::new(Fp::new(3), [1, 4, 5]),
    );
    assert_eq!(l.degree, [2, 4, 5]);
    assert_eq!(l.coef.value(), 6);
}

#[test]
fn sub_of_itself_is_zero() {
    let p = poly3(vec![(4, [3, 1, 2]), (1, [1, 2, 0]), (1, [0, 1, 5])]);
    let d = p.sub(&p);
    assert!(d.is_zero());
    assert_eq!(d.monos.len(), 0);
}

#[test]
fn sub_drains_and_negates() {
    let zero = poly3(vec![]);
    let p = poly3(vec![(2, [1, 0, 0]), (3, [0, 0, 0])]);
    assert_eq!(p.sub(&zero), p);
    assert_eq!(zero.sub(&p), poly3(vec![(5, [1, 0, 0]), (4, [0, 0, 0])]));
}

#[test]
fn mul_distributes_over_sub() {
    let p = poly3(vec![(4, [3, 1, 2]), (1, [1, 2, 0]), (1, [0, 1, 5])]);
    let q = poly3(vec![(3, [5, 1, 0]), (4, [1, 2, 0]), (1, [0, 1, 5])]);
    let m = Monomial::new(Fp::new(3), [1, 0, 2]);
    assert_eq!(p.sub(&q).mul(&m), p.mul(&m).sub(&q.mul(&m)));
    assert_eq!(
        p.mul(&m),
        poly3(vec![(5, [4, 1, 4]), (3, [2, 2, 2]), (3, [1, 1, 7])])
    );
}

#[test]
fn checked_mul_reports_overflow() {
    let p = poly3(vec![(1, [u32::MAX, 0, 0])]);
    assert!(p.checked_mul(&Monomial::new(Fp::new(1), [1, 0, 0])).is_none());
    assert_eq!(
        p.checked_mul(&Monomial::new(Fp::new(2), [0, 1, 0])),
        Some(poly3(vec![(2, [u32::MAX, 1, 0])]))
    );
}

#[test]
fn single_step_leaves_irreducible_alone() {
    let mut p = poly3(vec![(1, [1, 0, 0])]);
    let before = p.clone();
    assert!(!p.simplify(&poly3(vec![(1, [0, 1, 0])])));
    assert_eq!(p, before);
    assert!(!p.simplify(&poly3(vec![])));
    assert_eq!(p, before);
    assert_eq!(p.try_simplify(&poly3(vec![(1, [0, 1, 0])])), Some(false));
}

#[test]
fn single_step_reports_overflow() {
    let mut p = poly3(vec![(1, [1, u32::MAX, 0])]);
    let before = p.clone();
    let g = poly3(vec![(1, [1, 0, 0]), (1, [0, 1, 0])]);
    assert_eq!(p.try_simplify(&g), None);
    assert_eq!(p, before);
}

#[test]
fn reduction_runs_to_the_end() {
    let basis = vec![
        poly3(vec![(1, [1, 0, 0]), (6, [0, 1, 0])]),
        poly3(vec![(1, [0, 1, 0]), (6, [0, 0, 1])]),
    ];
    let p = poly3(vec![(1, [2, 0, 0]), (1, [0, 0, 0])]);
    let (changed, r) = simplify(p, &basis).unwrap();
    assert!(changed);
    assert_eq!(r, poly3(vec![(1, [0, 0, 2]), (1, [0, 0, 0])]));
    for g in basis.iter() {
        for t in r.monos.iter() {
            assert!(!t.can_divide(&g.monos[0]));
        }
    }
    let (changed, same) = simplify(r.clone(), &basis).unwrap();
    assert!(!changed);
    assert_eq!(same, r);
}

#[test]
fn reduction_reports_overflow() {
    let basis = vec![poly3(vec![(1, [1, 0, 0]), (1, [0, 1, 0])])];
    let p = poly3(vec![(1, [1, u32::MAX, 0])]);
    assert_eq!(simplify(p, &basis), Err(ReductionError::ExponentOverflow));
}

#[test]
fn norm_makes_the_leading_coefficient_one() {
    let mut p = poly3(vec![(3, [1, 0, 0]), (6, [0, 0, 0])]);
    p.norm();
    assert_eq!(p, poly3(vec![(1, [1, 0, 0]), (2, [0, 0, 0])]));
}

#[test]
fn render_writes_the_notation() {
    assert_eq!(Monomial::new(Fp::new(4), [1, 3, 0]).render(), "4x_1x_2^3");
    assert_eq!(Monomial::new(Fp::new(1), [0, 0, 12]).render(), "x_3^12");
    assert_eq!(Monomial::new(Fp::new(1), [0, 1, 0]).render(), "x_2");
    assert_eq!(Monomial::new(Fp::new(1), [0, 0, 0]).render(), "1");
    assert_eq!(Monomial::new(Fp::new(0), [1, 0, 0]).render(), "0x_1");
    assert_eq!(Monomial::new(Fp::new(3), [0, 0, 4294967295]).render(), "3x_3^4294967295");
    assert_eq!(
        poly3(vec![(4, [5, 1, 0]), (1, [1, 2, 0]), (6, [0, 0, 0])]).render(),
        "4x_1^5x_2 + x_1x_2^2 + 6"
    );
    assert_eq!(poly3(vec![]).render(), "");
}

#[test]
fn value_equality_compares_coefficients() {
    let p = poly3(vec![(2, [1, 0, 0]), (3, [0, 0, 0])]);
    assert!(p.same_terms(&p.duplicate()));
    assert!(!p.same_terms(&poly3(vec![(2, [1, 0, 0]), (4, [0, 0, 0])])));
    assert!(!p.same_terms(&poly3(vec![(2, [1, 0, 0])])));
    assert!(!p.same_terms(&poly3(vec![(2, [1, 0, 0]), (3, [0, 1, 0])])));
    assert!(p != poly3(vec![(2, [1, 0, 0]), (4, [0, 0, 0])]));
}

#[test]
fn decimal_digits_are_written_in_order() {
    assert_eq!(digit_char(0), '0');
    assert_eq!(digit_char(9), '9');
    let mut text = String::from("n=");
    push_decimal(&mut text, 0);
    push_decimal(&mut text, 4070);
    assert_eq!(text, "n=04070");
}
