use groebner_rs::Rational;

fn q(n: i64, d: i64) -> Rational {
    Rational::new(n, d).unwrap()
}

#[test]
fn new_reduces_to_lowest_terms() {
    let r = q(6, -4);
    assert_eq!((r.numer(), r.denom()), (-3, 2));
    let z = q(0, -7);
    assert_eq!((z.numer(), z.denom()), (0, 1));
    assert!(Rational::new(1, 0).is_none());
    assert!(Rational::new(i64::MIN, 1).is_none());
}

#[test]
fn checked_arithmetic() {
    let s = q(1, 2).checked_add(&q(1, 3)).unwrap();
    assert_eq!((s.numer(), s.denom()), (5, 6));
    let d = q(1, 2).checked_sub(&q(1, 3)).unwrap();
    assert_eq!((d.numer(), d.denom()), (1, 6));
    let p = q(2, 3).checked_mul(&q(9, 4)).unwrap();
    assert_eq!((p.numer(), p.denom()), (3, 2));
    let v = q(2, 3).checked_div(&q(-4, 9)).unwrap();
    assert_eq!((v.numer(), v.denom()), (-3, 2));
    assert!(q(2, 3).checked_div(&Rational::zero()).is_none());
    let big = Rational::from_int(i64::MAX);
    assert!(big.checked_add(&Rational::one()).is_none());
    assert!(big.checked_mul(&Rational::from_int(2)).is_none());
    let n = q(5, 7).neg();
    assert_eq!((n.numer(), n.denom()), (-5, 7));
    assert!(q(3, 3).is_one());
    assert!(q(0, 3).is_zero());
}
