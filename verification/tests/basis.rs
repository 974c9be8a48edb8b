use algebra::algebra::fp;
use algebra::buchberger::grobner::{
    buchberger, minimal_grobner, simplified_grobner, simplify_except_myself,
};
use algebra::buchberger::s_polynomial::{checked_s_poly, s_poly};
use algebra::polynomial::monomial::Monomial;
use algebra::polynomial::poly::{simplify, Polynomial, ReductionError};

type Fp = fp::Fp<5>;

#[test]
fn buch_test() {
    let ideal = vec![
        Polynomial::new(vec![
            Monomial::new(Fp::new(1), [2, 1]),
            Monomial::new(Fp::new(4), [0, 0]),
        ]),
        Polynomial::new(vec![
            Monomial::new(Fp::new(1), [1, 2]),
            Monomial::new(Fp::new(4), [1, 0]),
        ]),
    ];
    let mut grobner = buchberger(ideal).unwrap();
    assert_eq!(
        grobner,
        vec![
            Polynomial::new(vec![
                Monomial::new(Fp::new(1), [2, 1]),
                Monomial::new(Fp::new(4), [0, 0]),
            ]),
            Polynomial::new(vec![
                Monomial::new(Fp::new(1), [1, 2]),
                Monomial::new(Fp::new(4), [1, 0]),
            ]),
            Polynomial::new(vec![
                Monomial::new(Fp::new(1), [2, 0]),
                Monomial::new(Fp::new(4), [0, 1]),
            ]),
            Polynomial::new(vec![
                Monomial::new(Fp::new(1), [0, 2]),
                Monomial::new(Fp::new(4), [0, 0]),
            ]),
        ]
    );
    grobner = minimal_grobner(grobner);
    assert_eq!(
        grobner,
        vec![
            Polynomial::new(vec![
                Monomial::new(Fp::new(1), [2, 0]),
                Monomial::new(Fp::new(4), [0, 1]),
            ]),
            Polynomial::new(vec![
                Monomial::new(Fp::new(1), [0, 2]),
                Monomial::new(Fp::new(4), [0, 0]),
            ]),
        ]
    );
}

#[test]
fn simple_grobner() {
    let mut grobner = vec![
        Polynomial::new(vec![
            Monomial::new(Fp::new(1), [2, 0]),
            Monomial::new(Fp::new(3), [0, 2]),
            Monomial::new(Fp::new(4), [0, 1]),
        ]),
        Polynomial::new(vec![
            Monomial::new(Fp::new(1), [0, 2]),
            Monomial::new(Fp::new(4), [0, 0]),
        ]),
    ];
    grobner = simplified_grobner(grobner).unwrap();
    assert_eq!(
        grobner,
        vec![
            Polynomial::new(vec![
                Monomial::new(Fp::new(1), [2, 0]),
                Monomial::new(Fp::new(4), [0, 1]),
                Monomial::new(Fp::new(3), [0, 0])
            ]),
            Polynomial::new(vec![
                Monomial::new(Fp::new(1), [0, 2]),
                Monomial::new(Fp::new(4), [0, 0]),
            ]),
        ]
    )
}

fn generators() -> Vec<Polynomial<Fp, 2>> {
    vec![
        Polynomial::new(vec![
            Monomial::new(Fp::new(1), [2, 1]),
            Monomial::new(Fp::new(4), [0, 0]),
        ]),
        Polynomial::new(vec![
            Monomial::new(Fp::new(1), [1, 2]),
            Monomial::new(Fp::new(4), [1, 0]),
        ]),
    ]
}

#[test]
fn s_poly_cancels_the_leading_terms() {
    let g = generators();
    let s = s_poly(&g[0], &g[1]);
    assert_eq!(
        s,
        Polynomial::new(vec![
            Monomial::new(Fp::new(1), [2, 0]),
            Monomial::new(Fp::new(4), [0, 1]),
        ])
    );
    assert_eq!(checked_s_poly(&g[0], &g[1]), Some(s));
}

#[test]
fn s_poly_reports_overflow() {
    let f: Polynomial<Fp, 2> = Polynomial::new(vec![
        Monomial::new(Fp::new(1), [1, 0]),
        Monomial::new(Fp::new(1), [0, u32::MAX]),
    ]);
    let g: Polynomial<Fp, 2> = Polynomial::new(vec![Monomial::new(Fp::new(1), [0, 1])]);
    assert_eq!(checked_s_poly(&f, &g), None);
    assert_eq!(buchberger(vec![f, g]), Err(ReductionError::ExponentOverflow));
}

#[test]
fn every_pair_of_the_closure_reduces_to_zero() {
    let basis = buchberger(generators()).unwrap();
    assert_eq!(&basis[..2], &generators()[..]);
    for f in basis.iter() {
        for g in basis.iter() {
            if f == g {
                continue;
            }
            let (_, r) = simplify(s_poly(f, g), &basis).unwrap();
            assert!(r.is_zero());
        }
    }
}

#[test]
fn no_leading_term_of_the_minimal_basis_divides_another() {
    let minimal = minimal_grobner(buchberger(generators()).unwrap());
    for (i, f) in minimal.iter().enumerate() {
        assert_eq!(f.monos[0].coef, Fp::new(1));
        for (j, g) in minimal.iter().enumerate() {
            if i != j {
                assert!(!f.monos[0].can_divide(&g.monos[0]));
            }
        }
    }
}

#[test]
fn minimal_basis_normalizes_what_it_keeps() {
    let basis: Vec<Polynomial<Fp, 2>> = vec![
        Polynomial::new(vec![
            Monomial::new(Fp::new(2), [1, 0]),
            Monomial::new(Fp::new(4), [0, 0]),
        ]),
        Polynomial::new(vec![Monomial::new(Fp::new(3), [1, 1])]),
    ];
    assert_eq!(
        minimal_grobner(basis),
        vec![Polynomial::new(vec![
            Monomial::new(Fp::new(1), [1, 0]),
            Monomial::new(Fp::new(2), [0, 0]),
        ])]
    );
}

#[test]
fn closure_of_a_single_generator_is_itself() {
    let one: Vec<Polynomial<Fp, 2>> = vec![Polynomial::new(vec![Monomial::new(Fp::new(1), [1, 0])])];
    assert_eq!(buchberger(one.clone()), Ok(one));
    let none: Vec<Polynomial<Fp, 2>> = vec![];
    assert_eq!(buchberger(none.clone()), Ok(none));
}

#[test]
fn closure_refuses_a_leading_coefficient_of_zero() {
    type Ring = fp::Fp<4>;
    let f: Polynomial<Ring, 2> = Polynomial::new(vec![Monomial::new(Ring::new(1), [2, 0])]);
    let g: Polynomial<Ring, 2> = Polynomial::new(vec![
        Monomial::new(Ring::new(2), [2, 0]),
        Monomial::new(Ring::new(2), [1, 1]),
    ]);
    assert_eq!(
        buchberger(vec![f, g]),
        Err(ReductionError::DegenerateCoefficient)
    );
}

#[test]
fn reduced_basis_reports_overflow() {
    let f: Polynomial<Fp, 2> = Polynomial::new(vec![Monomial::new(Fp::new(1), [1, u32::MAX])]);
    let g: Polynomial<Fp, 2> = Polynomial::new(vec![
        Monomial::new(Fp::new(1), [1, 0]),
        Monomial::new(Fp::new(1), [0, 1]),
    ]);
    assert_eq!(
        simplified_grobner(vec![f, g]),
        Err(ReductionError::ExponentOverflow)
    );
}

#[test]
fn reduction_leaves_the_own_position_out() {
    let basis: Vec<Polynomial<Fp, 2>> = vec![
        Polynomial::new(vec![
            Monomial::new(Fp::new(1), [2, 0]),
            Monomial::new(Fp::new(3), [0, 2]),
        ]),
        Polynomial::new(vec![
            Monomial::new(Fp::new(1), [0, 2]),
            Monomial::new(Fp::new(4), [0, 0]),
        ]),
    ];
    let kept = simplify_except_myself(basis[0].duplicate(), &basis, 0).unwrap();
    assert_eq!(
        kept,
        Polynomial::new(vec![
            Monomial::new(Fp::new(1), [2, 0]),
            Monomial::new(Fp::new(3), [0, 0]),
        ])
    );
    let gone = simplify_except_myself(basis[0].duplicate(), &basis, 1).unwrap();
    assert!(gone.is_zero());
}

#[test]
fn minimal_basis_keeps_both_copies_of_a_repeated_element() {
    let f: Polynomial<Fp, 2> = Polynomial::new(vec![Monomial::new(Fp::new(2), [1, 0])]);
    let kept = minimal_grobner(vec![f.duplicate(), f]);
    assert_eq!(kept.len(), 2);
    assert_eq!(kept[0], kept[1]);
    assert_eq!(kept[0].monos[0].coef, Fp::new(1));
}
