use groebner_rs::{Power, Rational, Unipol};

fn dense(p: &Unipol) -> Vec<(u32, i64, i64)> {
    p.iter()
        .iter()
        .map(|(e, c)| (e.0, c.numer(), c.denom()))
        .collect()
}

#[test]
fn univariate_scenario() {
    let x = Unipol::x();
    let one = Unipol::one();
    let xp1 = x.add(&one).unwrap();
    let xm1 = x.sub(&one).unwrap();
    let p = xp1.mul(&xm1).unwrap();
    assert_eq!(dense(&p), vec![(0, -1, 1), (1, 0, 1), (2, 1, 1)]);
    let q = xp1.mul(&xp1).unwrap();
    assert_eq!(dense(&q), vec![(0, 1, 1), (1, 2, 1), (2, 1, 1)]);
}

#[test]
fn univariate_terms_and_division() {
    let x = Unipol::x();
    let x3 = x.mul(&x).unwrap().mul(&x).unwrap();
    let p = x3.add(&Unipol::from_int(-2)).unwrap();
    let (e, c) = p.lead_term().unwrap();
    assert_eq!(e, Power(3));
    assert!(c.is_one());
    assert_eq!(dense(&p), vec![(0, -2, 1), (1, 0, 1), (2, 0, 1), (3, 1, 1)]);
    assert_eq!(p.coeff_at(1), Rational::zero());
    let g = x.sub(&Unipol::one()).unwrap();
    let (q, r) = p.div_mod(&g).unwrap();
    assert_eq!(dense(&q), vec![(0, 1, 1), (1, 1, 1), (2, 1, 1)]);
    assert_eq!(dense(&r), vec![(0, -1, 1)]);
    let mut t = p.add(&Unipol::zero()).unwrap();
    let (e, _) = t.pop_lead_term().unwrap();
    assert_eq!(e.0, 3);
    assert_eq!(dense(&t), vec![(0, -2, 1)]);
    assert!(Unipol::zero().iter().is_empty());
    assert!(p.sub(&p).unwrap().is_zero());
    assert_eq!(dense(&p.neg()), vec![(0, 2, 1), (1, 0, 1), (2, 0, 1), (3, -1, 1)]);
    let half = Rational::new(1, 2).unwrap();
    assert_eq!(dense(&Unipol::from_term(Power(2), half)), vec![(0, 0, 1), (1, 0, 1), (2, 1, 2)]);
}

#[test]
fn powers() {
    assert_eq!(Power(2).mul(&Power(5)), Some(Power(7)));
    assert_eq!(Power(u32::MAX).mul(&Power(1)), None);
    assert_eq!(Power(5).div(&Power(2)), Some(Power(3)));
    assert_eq!(Power(2).div(&Power(5)), None);
    assert_eq!(Power::one(), Power(0));
    assert_eq!(Power(4).to_monomial().exponents(), vec![4]);
}
