use groebner_rs::groebner::coprime;
use groebner_rs::{Grevlex, Grlex, Lex, Monomial, MonomialOrder};
use std::cmp::Ordering;

fn mono(e: &[u32]) -> Monomial {
    Monomial::from_exponents(e.to_vec())
}

fn samples() -> Vec<Monomial> {
    vec![
        mono(&[0, 0, 0]),
        mono(&[1, 0, 0]),
        mono(&[0, 2, 1]),
        mono(&[3, 1, 0]),
        mono(&[1, 1, 1]),
        mono(&[0, 0, 4]),
        mono(&[2, 0, 3]),
    ]
}

fn check_order_laws<O: MonomialOrder>() {
    let ms = samples();
    let one = Monomial::one(3);
    for a in &ms {
        assert!(O::compare(&one, a) != Ordering::Greater);
        for b in &ms {
            let ab = O::compare(a, b);
            assert_eq!(O::compare(b, a), ab.reverse());
            for c in &ms {
                let ac = a.mul(c);
                let bc = b.mul(c);
                assert_eq!(O::compare(&ac, &bc), ab);
            }
        }
    }
    let vars: Vec<Monomial> = (0..3).map(|v| Monomial::var(3, v)).collect();
    assert_eq!(O::compare(&vars[0], &vars[1]), Ordering::Greater);
    assert_eq!(O::compare(&vars[1], &vars[2]), Ordering::Greater);
    assert_eq!(O::compare(&vars[2], &one), Ordering::Greater);
}

#[test]
fn lex_order_laws() {
    check_order_laws::<Lex>();
}

#[test]
fn grlex_order_laws() {
    check_order_laws::<Grlex>();
}

#[test]
fn grevlex_order_laws() {
    check_order_laws::<Grevlex>();
}

#[test]
fn monoid_laws() {
    let ms = samples();
    let one = Monomial::one(3);
    for a in &ms {
        assert!(a.mul(&one).equals(a));
        assert!(one.mul(a).equals(a));
        for b in &ms {
            assert!(a.mul(b).equals(&b.mul(a)));
            for c in &ms {
                assert!(a.mul(b).mul(c).equals(&a.mul(&b.mul(c))));
            }
        }
    }
    assert_eq!(mono(&[1, 2, 3]).mul(&mono(&[4, 0, 1])).exponents(), vec![5, 2, 4]);
}

#[test]
fn lcm_is_least() {
    let ms = samples();
    for a in &ms {
        for b in &ms {
            let l = a.lcm(b);
            assert!(a.divides(&l) && b.divides(&l));
            let e = l.exponents();
            for i in 0..e.len() {
                if e[i] > 0 {
                    let mut d = e.clone();
                    d[i] -= 1;
                    let d = Monomial::from_exponents(d);
                    assert!(!(a.divides(&d) && b.divides(&d)));
                }
            }
        }
    }
    assert_eq!(mono(&[3, 1, 0]).lcm(&mono(&[0, 2, 1])).exponents(), vec![3, 2, 1]);
}

#[test]
fn degree_comes_first() {
    let a = mono(&[0, 0, 2]);
    let b = mono(&[1, 1, 1]);
    let c = mono(&[4, 0, 0]);
    assert_eq!(Grlex::compare(&a, &b), Ordering::Less);
    assert_eq!(Grevlex::compare(&a, &b), Ordering::Less);
    assert_eq!(Grlex::compare(&b, &c), Ordering::Less);
    assert_eq!(Grevlex::compare(&b, &c), Ordering::Less);
    assert_eq!(Lex::compare(&b, &a), Ordering::Greater);
    assert_eq!(Lex::compare(&c, &b), Ordering::Greater);
}

#[test]
fn grevlex_breaks_ties_from_the_last_variable() {
    let a = mono(&[1, 2, 1]);
    let b = mono(&[2, 0, 2]);
    assert_eq!(Grevlex::compare(&a, &b), Ordering::Greater);
    assert_eq!(Grlex::compare(&a, &b), Ordering::Less);
}

#[test]
fn division_and_degree() {
    let a = mono(&[3, 1, 2]);
    let b = mono(&[1, 1, 0]);
    assert_eq!(a.div(&b).unwrap().exponents(), vec![2, 0, 2]);
    assert!(b.div(&a).is_none());
    assert_eq!(a.total_deg(), 6);
    assert_eq!(Monomial::one(4).total_deg(), 0);
    assert!(Monomial::one(2).is_one());
    assert_eq!(a.exponent(2), 2);
    assert!(mono(&[u32::MAX, 0]).checked_mul(&mono(&[1, 0])).is_none());
    assert_eq!(mono(&[5, 0]).checked_mul(&mono(&[1, 2])).unwrap().exponents(), vec![6, 2]);
    assert!(coprime(&mono(&[2, 0, 1]), &mono(&[0, 3, 0])));
    assert!(!coprime(&mono(&[2, 0, 1]), &mono(&[0, 3, 1])));
}
