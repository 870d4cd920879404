use groebner_rs::{buchberger, buchberger_with, f5, signature_gb, sugar, Entry};
use groebner_rs::{Grevlex, Lex, MonomialOrder, Ordpol, Rational};

fn shape<O: MonomialOrder>(p: &Ordpol<O>) -> Vec<(Vec<u32>, i64, i64)> {
    p.terms()
        .iter()
        .map(|(m, c)| (m.exponents(), c.numer(), c.denom()))
        .collect()
}

fn sum<O: MonomialOrder>(a: &Ordpol<O>, b: &Ordpol<O>) -> Ordpol<O> {
    a.add(b).unwrap()
}

fn diff<O: MonomialOrder>(a: &Ordpol<O>, b: &Ordpol<O>) -> Ordpol<O> {
    a.sub(b).unwrap()
}

fn prod<O: MonomialOrder>(a: &Ordpol<O>, b: &Ordpol<O>) -> Ordpol<O> {
    a.mul(b).unwrap()
}

fn reduces_to_zero<O: MonomialOrder>(f: &Ordpol<O>, gs: &Vec<Ordpol<O>>) -> bool {
    f.div_mod_polys(gs).unwrap().1.is_zero()
}

fn lead_exps<O: MonomialOrder>(p: &Ordpol<O>) -> Vec<u32> {
    p.lead_term().unwrap().0.exponents()
}

fn is_groebner<O: MonomialOrder>(g: &Vec<Ordpol<O>>) -> bool {
    for i in 0..g.len() {
        for j in 0..i {
            let s = g[i].spol(&g[j]).unwrap();
            if !reduces_to_zero(&s, g) {
                return false;
            }
        }
    }
    true
}

fn copies<O: MonomialOrder>(v: &Vec<Ordpol<O>>) -> Vec<Ordpol<O>> {
    v.iter().map(|p| p.copy()).collect()
}

fn lex_pair() -> (Ordpol<Lex>, Ordpol<Lex>, Ordpol<Lex>) {
    (Ordpol::var(2, 0), Ordpol::var(2, 1), Ordpol::one(2))
}

fn grevlex_ideal() -> Vec<Ordpol<Grevlex>> {
    let x: Ordpol<Grevlex> = Ordpol::var(2, 0);
    let y: Ordpol<Grevlex> = Ordpol::var(2, 1);
    let one: Ordpol<Grevlex> = Ordpol::one(2);
    let f = diff(&prod(&prod(&x, &x), &y), &one);
    let g = diff(&diff(&prod(&prod(&x, &x), &x), &prod(&y, &y)), &x);
    vec![f, g]
}

#[test]
fn division_by_list_textbook_example() {
    let (x, y, one) = lex_pair();
    let f = sum(&sum(&prod(&prod(&x, &x), &y), &prod(&prod(&x, &y), &y)), &prod(&y, &y));
    let g1 = diff(&prod(&x, &y), &one);
    let g2 = diff(&prod(&y, &y), &one);
    let gs = vec![g1.copy(), g2.copy()];
    let (qs, r) = f.div_mod_polys(&gs).unwrap();
    assert_eq!(shape(&qs[0]), shape(&sum(&x, &y)));
    assert_eq!(shape(&qs[1]), shape(&one));
    assert_eq!(shape(&r), shape(&sum(&sum(&x, &y), &one)));
    let back = sum(&sum(&prod(&qs[0], &g1), &prod(&qs[1], &g2)), &r);
    assert_eq!(shape(&back), shape(&f));

    let swapped = vec![g2.copy(), g1.copy()];
    let (qs2, r2) = f.div_mod_polys(&swapped).unwrap();
    assert_eq!(shape(&qs2[0]), shape(&sum(&x, &one)));
    assert_eq!(shape(&qs2[1]), shape(&x));
    assert_eq!(shape(&r2), shape(&sum(&sum(&x, &x), &one)));
    let back2 = sum(&sum(&prod(&qs2[0], &g2), &prod(&qs2[1], &g1)), &r2);
    assert_eq!(shape(&back2), shape(&f));
}

#[test]
fn remainder_is_irreducible() {
    let (x, y, one) = lex_pair();
    let f = sum(&prod(&prod(&x, &x), &y), &sum(&prod(&y, &y), &x));
    let gs = vec![diff(&prod(&x, &y), &one), sum(&prod(&y, &y), &one)];
    let (_, r) = f.div_mod_polys(&gs).unwrap();
    for (m, _) in r.terms() {
        for g in &gs {
            assert!(!g.lead_term().unwrap().0.divides(&m));
        }
    }
    let (q, r1) = f.div_mod(&gs[0]).unwrap();
    for (m, _) in r1.terms() {
        assert!(!gs[0].lead_term().unwrap().0.divides(&m));
    }
    assert_eq!(shape(&sum(&prod(&q, &gs[0]), &r1)), shape(&f));
}

#[test]
fn s_polynomial_of_sum_and_difference() {
    let (x, y, _) = lex_pair();
    // lcm = x, so S(x - y, x + y) = (x - y) - (x + y) = -2y
    let s = diff(&x, &y).spol(&sum(&x, &y)).unwrap();
    assert_eq!(shape(&s), vec![(vec![0, 1], -2, 1)]);
    let s = sum(&x, &y).spol(&diff(&x, &y)).unwrap();
    assert_eq!(shape(&s), vec![(vec![0, 1], 2, 1)]);
    let xg: Ordpol<Grevlex> = Ordpol::var(2, 0);
    let yg: Ordpol<Grevlex> = Ordpol::var(2, 1);
    let s = diff(&xg, &yg).spol(&sum(&xg, &yg)).unwrap();
    assert_eq!(shape(&s), vec![(vec![0, 1], -2, 1)]);
}

#[test]
fn buchberger_lex_example() {
    let (x, y, one) = lex_pair();
    let ideal = vec![diff(&prod(&x, &y), &one), diff(&prod(&y, &y), &one)];
    let g = buchberger(copies(&ideal)).unwrap();
    assert!(g.len() >= 2);
    for k in 0..ideal.len() {
        assert_eq!(shape(&g[k]), shape(&ideal[k]));
    }
    assert!(g.iter().any(|p| lead_exps(p) == vec![1, 0]));
    assert!(g.iter().any(|p| lead_exps(p) == vec![0, 2]));
    assert!(is_groebner(&g));
    let target = vec![diff(&x, &y), diff(&prod(&y, &y), &one)];
    for p in &g {
        assert!(reduces_to_zero(p, &target));
    }
    for p in &target {
        assert!(reduces_to_zero(p, &g));
    }
}

#[test]
fn buchberger_grevlex_example() {
    let ideal = grevlex_ideal();
    let g = buchberger(copies(&ideal)).unwrap();
    for k in 0..ideal.len() {
        assert_eq!(shape(&g[k]), shape(&ideal[k]));
    }
    let leads: Vec<Vec<u32>> = g.iter().map(|p| lead_exps(p)).collect();
    assert!(leads.contains(&vec![2, 1]));
    assert!(leads.contains(&vec![3, 0]));
    assert!(leads.contains(&vec![0, 3]));
    assert!(is_groebner(&g));
    for k in ideal.len()..g.len() {
        for (m, _) in g[k].terms() {
            for l in 0..k {
                assert!(!g[l].lead_term().unwrap().0.divides(&m));
            }
        }
    }
}

#[test]
fn f5_matches_buchberger() {
    let ideal = grevlex_ideal();
    let gb = buchberger(copies(&ideal)).unwrap();
    let gf = f5(&ideal, 2).unwrap();
    assert!(!gf.is_empty());
    for p in &gf {
        assert!(!p.is_zero());
        assert!(p.lead_coeff().unwrap().is_one());
        assert!(reduces_to_zero(p, &gb));
    }
    for p in &gb {
        assert!(reduces_to_zero(p, &gf));
    }
    let pairs = signature_gb(&ideal, 2).unwrap();
    assert_eq!(pairs.len(), gf.len());
    for (v, p) in &pairs {
        assert_eq!(v.len(), ideal.len());
        let mut acc: Ordpol<Grevlex> = Ordpol::zero(2);
        for k in 0..v.len() {
            acc = sum(&acc, &prod(&ideal[k], &v[k]));
        }
        assert_eq!(shape(&acc), shape(p));
    }
}

#[test]
fn f5_of_zero_ideal_is_empty() {
    let ideal: Vec<Ordpol<Lex>> = vec![Ordpol::zero(2), Ordpol::zero(2)];
    assert!(f5(&ideal, 2).unwrap().is_empty());
    assert!(signature_gb(&ideal, 2).unwrap().is_empty());
}

#[test]
fn f5_lex_example() {
    let (x, y, one) = lex_pair();
    let ideal = vec![diff(&prod(&x, &y), &one), diff(&prod(&y, &y), &one)];
    let gf = f5(&ideal, 2).unwrap();
    let target = vec![diff(&x, &y), diff(&prod(&y, &y), &one)];
    for p in &gf {
        assert!(reduces_to_zero(p, &target));
    }
    for p in &target {
        assert!(reduces_to_zero(p, &gf));
    }
}

#[test]
fn sugar_weight() {
    let (x, y, one) = lex_pair();
    let f = diff(&prod(&x, &y), &one);
    let g = sum(&prod(&prod(&y, &y), &y), &x);
    // excess of g over its leading monomial x: 3 - 1; lcm(xy, x) = xy
    assert_eq!(sugar(&f, &g), 4);
    assert_eq!(sugar(&f, &f), 2);
}

#[test]
fn buchberger_with_other_weight() {
    let (x, y, one) = lex_pair();
    let ideal = vec![diff(&prod(&x, &y), &one), diff(&prod(&y, &y), &one)];
    let g = buchberger_with(|_f: &Ordpol<Lex>, _g: &Ordpol<Lex>| 0u128, copies(&ideal)).unwrap();
    assert!(is_groebner(&g));
}

#[test]
fn entries_compare_by_weight() {
    let a = Entry(3, (1usize, 0usize));
    let b = Entry(3, (2usize, 1usize));
    let c = Entry(5, (1usize, 0usize));
    assert!(a == b);
    assert!(a < c);
    assert!(c > b);
    let half = Rational::new(1, 2).unwrap();
    assert_eq!(half.denom(), 2);
}
