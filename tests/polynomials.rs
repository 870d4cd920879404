use groebner_rs::{Grevlex, Grlex, Lex, Monomial, MonomialOrder, Ordpol, Rational};

fn poly_shape<O: MonomialOrder>(p: &Ordpol<O>) -> Vec<(Vec<u32>, i64, i64)> {
    p.terms()
        .iter()
        .map(|(m, c)| (m.exponents(), c.numer(), c.denom()))
        .collect()
}

fn sum<O: MonomialOrder>(a: &Ordpol<O>, b: &Ordpol<O>) -> Ordpol<O> {
    a.add(b).unwrap()
}

fn prod<O: MonomialOrder>(a: &Ordpol<O>, b: &Ordpol<O>) -> Ordpol<O> {
    a.mul(b).unwrap()
}

#[test]
fn lead_term() {
    let x: &Ordpol<Grevlex> = &Ordpol::var(3, 0);
    let y: &Ordpol<Grevlex> = &Ordpol::var(3, 1);
    let z: &Ordpol<Grevlex> = &Ordpol::var(3, 2);
    let f = sum(
        &sum(&prod(&prod(&prod(x, y), y), z), &prod(&prod(&prod(x, x), z), z)),
        &prod(&prod(x, x), x),
    );
    let (m, c) = f.lead_term().unwrap();
    assert_eq!(m.exponents(), vec![1, 2, 1]);
    assert_eq!(*c, Rational::one());

    let x: &Ordpol<Lex> = &Ordpol::var(3, 0);
    let y: &Ordpol<Lex> = &Ordpol::var(3, 1);
    let z: &Ordpol<Lex> = &Ordpol::var(3, 2);
    let f = sum(
        &sum(&prod(&prod(&prod(x, y), y), z), &prod(&prod(&prod(x, x), z), z)),
        &prod(&prod(x, x), x),
    );
    let (m, c) = f.lead_term().unwrap();
    assert_eq!(m.exponents(), vec![3, 0, 0]);
    assert_eq!(*c, Rational::one());

    let x: &Ordpol<Grlex> = &Ordpol::var(3, 0);
    let y: &Ordpol<Grlex> = &Ordpol::var(3, 1);
    let z: &Ordpol<Grlex> = &Ordpol::var(3, 2);
    let f = sum(
        &sum(&prod(&prod(&prod(x, y), y), z), &prod(&prod(&prod(x, x), z), z)),
        &prod(&prod(x, x), x),
    );
    let (m, c) = f.lead_term().unwrap();
    assert_eq!(m.exponents(), vec![2, 0, 2]);
    assert_eq!(*c, Rational::one());
}

#[test]
fn one_variable_products() {
    let x: &Ordpol<Lex> = &Ordpol::var(1, 0);
    let one: &Ordpol<Lex> = &Ordpol::one(1);
    let xp1 = sum(x, one);
    let xm1 = x.sub(one).unwrap();
    let p = prod(&xp1, &xm1);
    assert_eq!(poly_shape(&p), vec![(vec![2], 1, 1), (vec![0], -1, 1)]);
    let q = prod(&xp1, &xp1);
    assert_eq!(
        poly_shape(&q),
        vec![(vec![2], 1, 1), (vec![1], 2, 1), (vec![0], 1, 1)]
    );
}

#[test]
fn sub_self_is_zero() {
    let x: &Ordpol<Grevlex> = &Ordpol::var(2, 0);
    let y: &Ordpol<Grevlex> = &Ordpol::var(2, 1);
    let p = sum(&prod(x, y), &Ordpol::from_int(2, 7));
    let d = p.sub(&p).unwrap();
    assert!(d.is_zero());
    assert_eq!(d.len(), 0);
}

#[test]
fn mul_by_zero_is_zero() {
    let x: &Ordpol<Lex> = &Ordpol::var(2, 0);
    let y: &Ordpol<Lex> = &Ordpol::var(2, 1);
    let p = sum(&prod(x, y), y);
    let zero: Ordpol<Lex> = Ordpol::zero(2);
    assert!(prod(&p, &zero).is_zero());
    assert!(prod(&zero, &p).is_zero());
}

#[test]
fn ring_axioms_on_values() {
    let x: &Ordpol<Grlex> = &Ordpol::var(2, 0);
    let y: &Ordpol<Grlex> = &Ordpol::var(2, 1);
    let one: &Ordpol<Grlex> = &Ordpol::one(2);
    let p = sum(x, one);
    let q = y.sub(&Ordpol::from_int(2, 3)).unwrap();
    let r = sum(&prod(x, y), x);
    assert_eq!(poly_shape(&sum(&p, &q)), poly_shape(&sum(&q, &p)));
    assert_eq!(poly_shape(&prod(&p, &q)), poly_shape(&prod(&q, &p)));
    assert_eq!(
        poly_shape(&prod(&prod(&p, &q), &r)),
        poly_shape(&prod(&p, &prod(&q, &r)))
    );
    assert_eq!(
        poly_shape(&prod(&p, &sum(&q, &r))),
        poly_shape(&sum(&prod(&p, &q), &prod(&p, &r)))
    );
    assert_eq!(poly_shape(&prod(&p, one)), poly_shape(&p));
    assert_eq!(poly_shape(&sum(&p, &Ordpol::zero(2))), poly_shape(&p));
}

#[test]
fn cancelled_terms_are_dropped() {
    let x: &Ordpol<Lex> = &Ordpol::var(2, 0);
    let y: &Ordpol<Lex> = &Ordpol::var(2, 1);
    let p = sum(x, y);
    let q = y.sub(x).unwrap();
    let s = sum(&p, &q);
    assert_eq!(poly_shape(&s), vec![(vec![0, 1], 2, 1)]);
    for (_, c) in s.terms() {
        assert!(!c.is_zero());
    }
    let half = Rational::new(1, 2).unwrap();
    let scaled = p.scale(&Rational::zero()).unwrap();
    assert!(scaled.is_zero());
    let h = p.scale(&half).unwrap();
    assert_eq!(poly_shape(&h), vec![(vec![1, 0], 1, 2), (vec![0, 1], 1, 2)]);
}

#[test]
fn pop_then_reinsert_is_identity() {
    let x: &Ordpol<Grevlex> = &Ordpol::var(2, 0);
    let y: &Ordpol<Grevlex> = &Ordpol::var(2, 1);
    let p = sum(&sum(&prod(x, x), &prod(x, y)), &Ordpol::from_int(2, -4));
    let before = poly_shape(&p);
    let (t, rest) = p.copy().split_lead_term();
    let (m, c) = t.unwrap();
    assert_eq!(m.exponents(), vec![2, 0]);
    assert_eq!(rest.len(), 2);
    let back = sum(&rest, &Ordpol::from_term(m, c));
    assert_eq!(poly_shape(&back), before);

    let mut q = p.copy();
    let (m, c) = q.pop_lead_term().unwrap();
    let back = sum(&q, &Ordpol::from_term(m, c));
    assert_eq!(poly_shape(&back), before);
}

#[test]
fn total_degree_and_constants() {
    let x: &Ordpol<Lex> = &Ordpol::var(3, 0);
    let z: &Ordpol<Lex> = &Ordpol::var(3, 2);
    let p = sum(&prod(&prod(z, z), z), x);
    assert_eq!(p.total_deg(), 3);
    assert_eq!(Ordpol::<Lex>::zero(3).total_deg(), 0);
    assert!(Ordpol::<Lex>::from_int(3, 0).is_zero());
    let five: Ordpol<Lex> = Ordpol::from_int(3, 5);
    assert_eq!(poly_shape(&five), vec![(vec![0, 0, 0], 5, 1)]);
    let m = Monomial::from_exponents(vec![1, 2, 0]);
    let p: Ordpol<Lex> = Ordpol::from_monomial(m);
    assert_eq!(poly_shape(&p), vec![(vec![1, 2, 0], 1, 1)]);
    assert_eq!(poly_shape(&p.neg()), vec![(vec![1, 2, 0], -1, 1)]);
}

#[test]
fn evaluation_at_a_point() {
    let x: &Ordpol<Lex> = &Ordpol::var(2, 0);
    let y: &Ordpol<Lex> = &Ordpol::var(2, 1);
    let p = sum(&prod(x, y), &Ordpol::from_int(2, 2));
    let pt = vec![Rational::from_int(3), Rational::new(1, 2).unwrap()];
    let v = p.eval(&pt).unwrap();
    assert_eq!((v.numer(), v.denom()), (7, 2));
    let q = prod(&prod(x, x), y);
    let v = q.eval(&vec![Rational::from_int(-2), Rational::from_int(5)]).unwrap();
    assert_eq!((v.numer(), v.denom()), (20, 1));
}

#[test]
fn terms_and_leading_parts() {
    let xy = Monomial::from_exponents(vec![1, 1]);
    let x = Monomial::from_exponents(vec![1, 0]);
    let p: Ordpol<Grlex> = Ordpol::from_terms(
        2,
        vec![
            (xy.copy(), Rational::one()),
            (x.copy(), Rational::from_int(2)),
            (xy.copy(), Rational::from_int(3)),
        ],
    )
    .unwrap();
    assert_eq!(poly_shape(&p), vec![(vec![1, 1], 4, 1), (vec![1, 0], 2, 1)]);
    assert_eq!(p.lead_monom().unwrap().exponents(), vec![1, 1]);
    assert_eq!(p.lead_coeff().unwrap(), Rational::from_int(4));
    assert!(Ordpol::<Grlex>::zero(2).lead_monom().is_none());
    assert!(Ordpol::<Grlex>::zero(2).lead_coeff().is_none());
}
