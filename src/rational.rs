//! Exact rational coefficients: an `i64` numerator and denominator kept in
//! lowest terms. The arithmetic itself is num-rational's checked arithmetic
//! on `Ratio<i64>`; a result that does not fit comes back as `None`.
use num_rational::Ratio;
use num_traits::{CheckedAdd, CheckedDiv, CheckedMul, CheckedSub};
use vstd::arithmetic::div_mod::{lemma_fundamental_div_mod, lemma_mod_multiples_basic};
use vstd::prelude::*;

verus! {

/// The fractions `a.0 / a.1` and `b.0 / b.1` are equal.
pub open spec fn same_value(a: (int, int), b: (int, int)) -> bool {
    a.0 * b.1 == b.0 * a.1
}

/// `a` is in lowest terms with a positive denominator: no fraction with a
/// smaller positive denominator has its value.
pub open spec fn lowest_terms(a: (int, int)) -> bool {
    &&& a.1 > 0
    &&& forall|b: (int, int)| 0 < b.1 < a.1 ==> !#[trigger] same_value(b, a)
}

/// The fraction in lowest terms whose value is `x.0 / x.1`.
pub open spec fn canon(x: (int, int)) -> (int, int) {
    choose|r: (int, int)| lowest_terms(r) && same_value(r, x)
}

pub open spec fn rat_zero() -> (int, int) {
    (0, 1)
}

pub open spec fn rat_one() -> (int, int) {
    (1, 1)
}

pub open spec fn rat_add(a: (int, int), b: (int, int)) -> (int, int) {
    canon((a.0 * b.1 + b.0 * a.1, a.1 * b.1))
}

pub open spec fn rat_sub(a: (int, int), b: (int, int)) -> (int, int) {
    canon((a.0 * b.1 - b.0 * a.1, a.1 * b.1))
}

pub open spec fn rat_mul(a: (int, int), b: (int, int)) -> (int, int) {
    canon((a.0 * b.0, a.1 * b.1))
}

pub open spec fn rat_div(a: (int, int), b: (int, int)) -> (int, int) {
    canon((a.0 * b.1, a.1 * b.0))
}

pub open spec fn rat_neg(a: (int, int)) -> (int, int) {
    (-a.0, a.1)
}

/// Two fractions in lowest terms with the same value are the same.
pub proof fn lemma_lowest_unique(a: (int, int), b: (int, int))
    requires
        lowest_terms(a),
        lowest_terms(b),
        same_value(a, b),
    ensures
        a == b,
{
    assert(same_value(b, a));
    if a.1 == b.1 {
        assert(a.0 == b.0) by (nonlinear_arith)
            requires
                a.0 * b.1 == b.0 * a.1,
                a.1 == b.1,
                a.1 > 0,
        ;
    }
}

/// A fraction in lowest terms with the value of `x` is `canon(x)`.
pub proof fn lemma_canon(r: (int, int), x: (int, int))
    requires
        lowest_terms(r),
        same_value(r, x),
        x.1 != 0,
    ensures
        canon(x) == r,
{
    let c = canon(x);
    assert(lowest_terms(c) && same_value(c, x));
    assert(same_value(r, c)) by (nonlinear_arith)
        requires
            r.0 * x.1 == x.0 * r.1,
            c.0 * x.1 == x.0 * c.1,
            x.1 != 0,
    {
        assert(r.0 * c.1 * x.1 == x.0 * r.1 * c.1);
        assert(c.0 * r.1 * x.1 == x.0 * c.1 * r.1);
    }
    lemma_lowest_unique(r, c);
}

/// A fraction in lowest terms other than `0 / 1` has a nonzero numerator.
pub proof fn lemma_nonzero_num(c: (int, int))
    requires
        lowest_terms(c),
        c != rat_zero(),
    ensures
        c.0 != 0,
{
    if c.0 == 0 {
        assert(same_value(c, rat_zero()));
        lemma_lowest_unique(c, rat_zero());
    }
}

/// A fraction of value zero in lowest terms is `0 / 1`.
pub proof fn lemma_canon_zero(d: int)
    requires
        d != 0,
    ensures
        canon((0, d)) == rat_zero(),
{
    lemma_canon(rat_zero(), (0, d));
}

/// Equal value is transitive through a fraction with a nonzero
/// denominator.
pub proof fn lemma_same_trans(a: (int, int), b: (int, int), c: (int, int))
    requires
        same_value(a, b),
        same_value(b, c),
        b.1 != 0,
    ensures
        same_value(a, c),
{
    assert(b.1 * (a.0 * c.1 - c.0 * a.1) == 0) by (nonlinear_arith)
        requires
            a.0 * b.1 == b.0 * a.1,
            b.0 * c.1 == c.0 * b.1,
    ;
    assert(a.0 * c.1 - c.0 * a.1 == 0) by (nonlinear_arith)
        requires
            b.1 * (a.0 * c.1 - c.0 * a.1) == 0,
            b.1 != 0,
    ;
}

/// `j` is a denominator that can carry the value `n / d`.
pub open spec fn den_works(n: int, d: int, j: int) -> bool {
    (n * j) % d == 0
}

/// The least denominator from `k` up to `d` that can carry `n / d`.
pub open spec fn first_den(n: int, d: int, k: int) -> int
    decreases d - k,
{
    if k >= d {
        d
    } else if den_works(n, d, k) {
        k
    } else {
        first_den(n, d, k + 1)
    }
}

proof fn lemma_first_den(n: int, d: int, k: int)
    requires
        d > 0,
        1 <= k <= d,
    ensures
        k <= first_den(n, d, k) <= d,
        den_works(n, d, first_den(n, d, k)),
        forall|j: int| k <= j < first_den(n, d, k) ==> !#[trigger] den_works(n, d, j),
    decreases d - k,
{
    if k >= d {
        lemma_mod_multiples_basic(n, d);
    } else if !den_works(n, d, k) {
        lemma_first_den(n, d, k + 1);
    }
}

/// Every fraction with a nonzero denominator has a form in lowest terms.
pub proof fn lemma_canon_exists(x: (int, int))
    requires
        x.1 != 0,
    ensures
        lowest_terms(canon(x)),
        same_value(canon(x), x),
{
    let nd: (int, int) = if x.1 > 0 {
        x
    } else {
        (-x.0, -x.1)
    };
    let n = nd.0;
    let d = nd.1;
    assert(same_value(nd, x)) by (nonlinear_arith)
        requires
            nd == x || nd == (-x.0, -x.1),
    ;
    lemma_first_den(n, d, 1);
    let k = first_den(n, d, 1);
    lemma_fundamental_div_mod(n * k, d);
    let m = (n * k) / d;
    assert(m * d == n * k) by (nonlinear_arith)
        requires
            n * k == d * m + (n * k) % d,
            (n * k) % d == 0,
    ;
    let r = (m, k);
    assert forall|b: (int, int)| 0 < b.1 < k implies !#[trigger] same_value(b, r) by {
        if same_value(b, r) {
            assert(k * (b.0 * d - n * b.1) == 0) by (nonlinear_arith)
                requires
                    b.0 * k == m * b.1,
                    m * d == n * k,
            ;
            assert(b.0 * d == n * b.1) by (nonlinear_arith)
                requires
                    k * (b.0 * d - n * b.1) == 0,
                    k > 0,
            ;
            lemma_mod_multiples_basic(b.0, d);
            assert(den_works(n, d, b.1));
        }
    }
    assert(lowest_terms(r));
    assert(same_value(r, nd));
    lemma_same_trans(r, nd, x);
    assert(lowest_terms(r) && same_value(r, x));
}

/// Fractions of equal value have the same form in lowest terms.
pub proof fn lemma_canon_same(x: (int, int), y: (int, int))
    requires
        x.1 != 0,
        y.1 != 0,
        same_value(x, y),
    ensures
        canon(x) == canon(y),
{
    lemma_canon_exists(x);
    lemma_same_trans(canon(x), x, y);
    lemma_canon(canon(x), y);
}

/// A fraction with a positive denominator: every value that the contracts
/// hand around is one.
pub open spec fn is_frac(a: (int, int)) -> bool {
    a.1 > 0
}

pub proof fn lemma_results_lowest(a: (int, int), b: (int, int))
    requires
        is_frac(a),
        is_frac(b),
    ensures
        lowest_terms(rat_add(a, b)),
        lowest_terms(rat_mul(a, b)),
        lowest_terms(rat_neg(a)) || !lowest_terms(a),
{
    assert(a.1 * b.1 > 0) by (nonlinear_arith)
        requires
            a.1 > 0,
            b.1 > 0,
    ;
    lemma_canon_exists((a.0 * b.1 + b.0 * a.1, a.1 * b.1));
    lemma_canon_exists((a.0 * b.0, a.1 * b.1));
    if lowest_terms(a) {
        assert forall|c: (int, int)| 0 < c.1 < a.1 implies !#[trigger] same_value(c, rat_neg(a)) by {
            assert(!same_value((-c.0, c.1), a));
            if same_value(c, rat_neg(a)) {
                assert((-c.0) * a.1 == a.0 * c.1) by (nonlinear_arith)
                    requires
                        c.0 * a.1 == (-a.0) * c.1,
                ;
            }
        }
    }
}

proof fn lemma_assoc_core(u0: int, u1: int, c0: int, c1: int, s: int, p: int)
    requires
        u0 * p == s * u1,
    ensures
        (u0 * c1 + c0 * u1) * (p * c1) == (s * c1 + c0 * p) * (u1 * c1),
{
    assert((u0 * c1 + c0 * u1) * (p * c1) == (u0 * c1) * (p * c1) + (c0 * u1) * (p * c1))
        by (nonlinear_arith);
    assert((u0 * c1) * (p * c1) == (u0 * p) * (c1 * c1)) by (nonlinear_arith);
    assert((c0 * u1) * (p * c1) == c0 * u1 * p * c1) by (nonlinear_arith);
    assert((s * c1 + c0 * p) * (u1 * c1) == (s * c1) * (u1 * c1) + (c0 * p) * (u1 * c1))
        by (nonlinear_arith);
    assert((s * c1) * (u1 * c1) == (s * u1) * (c1 * c1)) by (nonlinear_arith);
    assert((c0 * p) * (u1 * c1) == c0 * u1 * p * c1) by (nonlinear_arith);
}

proof fn lemma_scale_core(c0: int, c1: int, u0: int, u1: int, s: int, p: int)
    requires
        u0 * p == s * u1,
    ensures
        (c0 * u0) * (c1 * p) == (c0 * s) * (c1 * u1),
{
    assert((c0 * u0) * (c1 * p) == (c0 * c1) * (u0 * p)) by (nonlinear_arith);
    assert((c0 * s) * (c1 * u1) == (c0 * c1) * (s * u1)) by (nonlinear_arith);
}

proof fn lemma_distrib_core(
    x0: int,
    x1: int,
    y0: int,
    y1: int,
    c0: int,
    c1: int,
    a0: int,
    a1: int,
    b0: int,
    b1: int,
)
    requires
        x0 * (c1 * a1) == c0 * a0 * x1,
        y0 * (c1 * b1) == c0 * b0 * y1,
    ensures
        (x0 * y1 + y0 * x1) * (c1 * (a1 * b1)) == c0 * (a0 * b1 + b0 * a1) * (x1 * y1),
{
    let k = c1 * (a1 * b1);
    assert((x0 * y1 + y0 * x1) * k == (x0 * y1) * k + (y0 * x1) * k) by (nonlinear_arith);
    assert((x0 * y1) * k == (x0 * (c1 * a1)) * (y1 * b1)) by (nonlinear_arith)
        requires
            k == c1 * (a1 * b1),
    ;
    assert((y0 * x1) * k == (y0 * (c1 * b1)) * (x1 * a1)) by (nonlinear_arith)
        requires
            k == c1 * (a1 * b1),
    ;
    assert((c0 * a0 * x1) * (y1 * b1) == c0 * (a0 * b1) * (x1 * y1)) by (nonlinear_arith);
    assert((c0 * b0 * y1) * (x1 * a1) == c0 * (b0 * a1) * (x1 * y1)) by (nonlinear_arith);
    assert(c0 * (a0 * b1) * (x1 * y1) + c0 * (b0 * a1) * (x1 * y1) == c0 * (a0 * b1 + b0 * a1) * (
    x1 * y1)) by (nonlinear_arith);
}

/// Addition of fractions in lowest terms is associative.
pub proof fn lemma_rat_add_assoc(a: (int, int), b: (int, int), c: (int, int))
    requires
        is_frac(a),
        is_frac(b),
        is_frac(c),
    ensures
        rat_add(rat_add(a, b), c) == rat_add(a, rat_add(b, c)),
{
    let ab = (a.0 * b.1 + b.0 * a.1, a.1 * b.1);
    let bc = (b.0 * c.1 + c.0 * b.1, b.1 * c.1);
    assert(ab.1 > 0 && bc.1 > 0) by (nonlinear_arith)
        requires
            a.1 > 0,
            b.1 > 0,
            c.1 > 0,
            ab.1 == a.1 * b.1,
            bc.1 == b.1 * c.1,
    ;
    lemma_canon_exists(ab);
    lemma_canon_exists(bc);
    let u = canon(ab);
    let v = canon(bc);
    let t = (a.0 * b.1 * c.1 + b.0 * a.1 * c.1 + c.0 * a.1 * b.1, a.1 * b.1 * c.1);
    let l = (u.0 * c.1 + c.0 * u.1, u.1 * c.1);
    let r = (a.0 * v.1 + v.0 * a.1, a.1 * v.1);
    assert(t.1 > 0 && l.1 > 0 && r.1 > 0) by (nonlinear_arith)
        requires
            a.1 > 0,
            b.1 > 0,
            c.1 > 0,
            u.1 > 0,
            v.1 > 0,
            t.1 == a.1 * b.1 * c.1,
            l.1 == u.1 * c.1,
            r.1 == a.1 * v.1,
    ;
    let sab = a.0 * b.1 + b.0 * a.1;
    let pab = a.1 * b.1;
    let sbc = b.0 * c.1 + c.0 * b.1;
    let pbc = b.1 * c.1;
    assert(t == (sab * c.1 + c.0 * pab, pab * c.1)) by (nonlinear_arith)
        requires
            t == (a.0 * b.1 * c.1 + b.0 * a.1 * c.1 + c.0 * a.1 * b.1, a.1 * b.1 * c.1),
            sab == a.0 * b.1 + b.0 * a.1,
            pab == a.1 * b.1,
    ;
    lemma_assoc_core(u.0, u.1, c.0, c.1, sab, pab);
    assert(t == (a.0 * pbc + a.1 * sbc, a.1 * pbc)) by (nonlinear_arith)
        requires
            t == (a.0 * b.1 * c.1 + b.0 * a.1 * c.1 + c.0 * a.1 * b.1, a.1 * b.1 * c.1),
            sbc == b.0 * c.1 + c.0 * b.1,
            pbc == b.1 * c.1,
    ;
    lemma_assoc_core(v.0, v.1, a.0, a.1, sbc, pbc);
    assert((a.0 * v.1 + v.0 * a.1) * (a.1 * pbc) == (v.0 * a.1 + a.0 * v.1) * (pbc * a.1))
        by (nonlinear_arith);
    assert((a.0 * pbc + a.1 * sbc) * (a.1 * v.1) == (sbc * a.1 + a.0 * pbc) * (v.1 * a.1))
        by (nonlinear_arith);
    assert(same_value(l, t));
    assert(same_value(l, t));
    assert(same_value(r, t));
    lemma_canon_same(l, t);
    lemma_canon_same(r, t);
}

/// A fraction plus its negation is zero.
pub proof fn lemma_rat_add_neg(a: (int, int))
    requires
        is_frac(a),
    ensures
        rat_add(a, rat_neg(a)) == rat_zero(),
{
    assert(a.0 * a.1 + (-a.0) * a.1 == 0) by (nonlinear_arith);
    assert(a.1 * a.1 != 0) by (nonlinear_arith)
        requires
            a.1 > 0,
    ;
    lemma_canon_zero(a.1 * a.1);
}

/// Zero times anything is zero.
pub proof fn lemma_rat_mul_zero(c: (int, int))
    requires
        is_frac(c),
    ensures
        rat_mul(c, rat_zero()) == rat_zero(),
{
    assert(c.0 * 0 == 0) by (nonlinear_arith);
    lemma_canon_zero(c.1 * 1);
}

/// Multiplication distributes over addition.
pub proof fn lemma_rat_distrib(c: (int, int), a: (int, int), b: (int, int))
    requires
        is_frac(a),
        is_frac(b),
        is_frac(c),
    ensures
        rat_mul(c, rat_add(a, b)) == rat_add(rat_mul(c, a), rat_mul(c, b)),
{
    let ab = (a.0 * b.1 + b.0 * a.1, a.1 * b.1);
    let ca = (c.0 * a.0, c.1 * a.1);
    let cb = (c.0 * b.0, c.1 * b.1);
    assert(ab.1 > 0 && ca.1 > 0 && cb.1 > 0) by (nonlinear_arith)
        requires
            a.1 > 0,
            b.1 > 0,
            c.1 > 0,
            ab.1 == a.1 * b.1,
            ca.1 == c.1 * a.1,
            cb.1 == c.1 * b.1,
    ;
    lemma_canon_exists(ab);
    lemma_canon_exists(ca);
    lemma_canon_exists(cb);
    let u = canon(ab);
    let x = canon(ca);
    let y = canon(cb);
    let t = (c.0 * (a.0 * b.1 + b.0 * a.1), c.1 * a.1 * b.1);
    let l = (c.0 * u.0, c.1 * u.1);
    let r = (x.0 * y.1 + y.0 * x.1, x.1 * y.1);
    assert(t.1 > 0 && l.1 > 0 && r.1 > 0) by (nonlinear_arith)
        requires
            a.1 > 0,
            b.1 > 0,
            c.1 > 0,
            u.1 > 0,
            x.1 > 0,
            y.1 > 0,
            t.1 == c.1 * a.1 * b.1,
            l.1 == c.1 * u.1,
            r.1 == x.1 * y.1,
    ;
    lemma_scale_core(c.0, c.1, u.0, u.1, a.0 * b.1 + b.0 * a.1, a.1 * b.1);
    lemma_distrib_core(x.0, x.1, y.0, y.1, c.0, c.1, a.0, a.1, b.0, b.1);
    assert(t == (c.0 * (a.0 * b.1 + b.0 * a.1), c.1 * (a.1 * b.1))) by (nonlinear_arith)
        requires
            t == (c.0 * (a.0 * b.1 + b.0 * a.1), c.1 * a.1 * b.1),
    ;
    assert(same_value(r, t));
    lemma_canon_same(l, t);
    lemma_canon_same(r, t);
}

/// Negating the numerator negates the form in lowest terms.
pub proof fn lemma_canon_neg(x: (int, int))
    requires
        x.1 != 0,
    ensures
        canon((-x.0, x.1)) == rat_neg(canon(x)),
{
    lemma_canon_exists(x);
    let c = canon(x);
    lemma_results_lowest(c, c);
    assert(same_value(rat_neg(c), (-x.0, x.1))) by (nonlinear_arith)
        requires
            c.0 * x.1 == x.0 * c.1,
    ;
    lemma_canon(rat_neg(c), (-x.0, x.1));
}

/// Negation distributes over addition.
pub proof fn lemma_rat_neg_add(a: (int, int), b: (int, int))
    requires
        is_frac(a),
        is_frac(b),
    ensures
        rat_neg(rat_add(a, b)) == rat_add(rat_neg(a), rat_neg(b)),
{
    assert(a.1 * b.1 != 0) by (nonlinear_arith)
        requires
            a.1 > 0,
            b.1 > 0,
    ;
    lemma_canon_neg((a.0 * b.1 + b.0 * a.1, a.1 * b.1));
    assert((-a.0) * b.1 + (-b.0) * a.1 == -(a.0 * b.1 + b.0 * a.1)) by (nonlinear_arith);
}

/// A scalar factor commutes with negation.
pub proof fn lemma_rat_mul_neg(c: (int, int), a: (int, int))
    requires
        is_frac(c),
        is_frac(a),
    ensures
        rat_mul(c, rat_neg(a)) == rat_neg(rat_mul(c, a)),
{
    assert(c.1 * a.1 != 0) by (nonlinear_arith)
        requires
            c.1 > 0,
            a.1 > 0,
    ;
    assert(c.0 * (-a.0) == -(c.0 * a.0)) by (nonlinear_arith);
    lemma_canon_neg((c.0 * a.0, c.1 * a.1));
}

/// Two scalar factors may be applied in either order.
pub proof fn lemma_rat_mul_swap(c: (int, int), d: (int, int), a: (int, int))
    requires
        is_frac(c),
        is_frac(d),
        is_frac(a),
    ensures
        rat_mul(c, rat_mul(d, a)) == rat_mul(d, rat_mul(c, a)),
{
    let da = (d.0 * a.0, d.1 * a.1);
    let ca = (c.0 * a.0, c.1 * a.1);
    assert(da.1 > 0 && ca.1 > 0) by (nonlinear_arith)
        requires
            c.1 > 0,
            d.1 > 0,
            a.1 > 0,
            da.1 == d.1 * a.1,
            ca.1 == c.1 * a.1,
    ;
    lemma_canon_exists(da);
    lemma_canon_exists(ca);
    let u = canon(da);
    let v = canon(ca);
    let t = (c.0 * d.0 * a.0, c.1 * d.1 * a.1);
    let l = (c.0 * u.0, c.1 * u.1);
    let r = (d.0 * v.0, d.1 * v.1);
    assert(t.1 > 0 && l.1 > 0 && r.1 > 0) by (nonlinear_arith)
        requires
            c.1 > 0,
            d.1 > 0,
            a.1 > 0,
            u.1 > 0,
            v.1 > 0,
            t.1 == c.1 * d.1 * a.1,
            l.1 == c.1 * u.1,
            r.1 == d.1 * v.1,
    ;
    lemma_swap_core(c.0, c.1, d.0, d.1, a.0, a.1, u.0, u.1);
    lemma_swap_core(d.0, d.1, c.0, c.1, a.0, a.1, v.0, v.1);
    assert(t == (c.0 * (d.0 * a.0), c.1 * (d.1 * a.1))) by (nonlinear_arith)
        requires
            t == (c.0 * d.0 * a.0, c.1 * d.1 * a.1),
    ;
    assert(same_value(l, t));
    assert(d.0 * (c.0 * a.0) == c.0 * (d.0 * a.0)) by (nonlinear_arith);
    assert(d.1 * (c.1 * a.1) == c.1 * (d.1 * a.1)) by (nonlinear_arith);
    assert(same_value(r, t));
    lemma_canon_same(l, t);
    lemma_canon_same(r, t);
}

proof fn lemma_swap_core(c0: int, c1: int, d0: int, d1: int, a0: int, a1: int, u0: int, u1: int)
    requires
        u0 * (d1 * a1) == (d0 * a0) * u1,
    ensures
        (c0 * u0) * (c1 * (d1 * a1)) == (c0 * (d0 * a0)) * (c1 * u1),
{
    assert((c0 * u0) * (c1 * (d1 * a1)) == (c0 * c1) * (u0 * (d1 * a1))) by (nonlinear_arith);
    assert((c0 * (d0 * a0)) * (c1 * u1) == (c0 * c1) * ((d0 * a0) * u1)) by (nonlinear_arith);
}

/// A product of nonzero fractions is nonzero.
pub proof fn lemma_rat_mul_nonzero(a: (int, int), b: (int, int))
    requires
        lowest_terms(a),
        lowest_terms(b),
        a != rat_zero(),
        b != rat_zero(),
    ensures
        rat_mul(a, b) != rat_zero(),
{
    lemma_nonzero_num(a);
    lemma_nonzero_num(b);
    let x = (a.0 * b.0, a.1 * b.1);
    assert(x.0 != 0 && x.1 > 0) by (nonlinear_arith)
        requires
            a.0 != 0,
            b.0 != 0,
            a.1 > 0,
            b.1 > 0,
            x == (a.0 * b.0, a.1 * b.1),
    ;
    lemma_canon_exists(x);
    let r = canon(x);
    if r == rat_zero() {
        assert(r.0 * x.1 == x.0 * r.1);
        assert(x.0 * 1 == 0);
    }
}

/// A quotient of nonzero fractions is nonzero and in lowest terms.
pub proof fn lemma_rat_div_nonzero(a: (int, int), b: (int, int))
    requires
        lowest_terms(a),
        lowest_terms(b),
        a != rat_zero(),
        b != rat_zero(),
    ensures
        rat_div(a, b) != rat_zero(),
        lowest_terms(rat_div(a, b)),
{
    lemma_nonzero_num(a);
    lemma_nonzero_num(b);
    let x = (a.0 * b.1, a.1 * b.0);
    assert(x.0 != 0 && x.1 != 0) by (nonlinear_arith)
        requires
            a.0 != 0,
            b.0 != 0,
            a.1 > 0,
            b.1 > 0,
            x == (a.0 * b.1, a.1 * b.0),
    ;
    lemma_canon_exists(x);
    let r = canon(x);
    if r == rat_zero() {
        assert(r.0 * x.1 == x.0 * r.1);
        assert(x.0 * 1 == 0);
    }
}

/// A nonzero fraction times its reciprocal is one.
pub proof fn lemma_rat_recip(c: (int, int))
    requires
        lowest_terms(c),
        c != rat_zero(),
    ensures
        rat_mul(rat_div(rat_one(), c), c) == rat_one(),
        lowest_terms(rat_div(rat_one(), c)),
        rat_div(rat_one(), c) != rat_zero(),
{
    lemma_nonzero_num(c);
    let y = (1 * c.1, 1 * c.0);
    lemma_canon_exists(y);
    let inv = canon(y);
    assert(inv.0 * c.0 == inv.1 * c.1) by (nonlinear_arith)
        requires
            inv.0 * y.1 == y.0 * inv.1,
            y == (1 * c.1, 1 * c.0),
    ;
    let x = (inv.0 * c.0, inv.1 * c.1);
    assert(x.1 != 0) by (nonlinear_arith)
        requires
            inv.1 > 0,
            c.1 > 0,
            x.1 == inv.1 * c.1,
    ;
    assert(same_value(rat_one(), x));
    lemma_canon(rat_one(), x);
    if inv == rat_zero() {
        assert(0 * c.0 == c.1 * 1);
    }
}

/// `x` lies in the range of `i64` without its least value.
pub open spec fn fits(x: int) -> bool {
    -i64::MAX <= x <= i64::MAX
}

/// The unreduced sum `a + b` and its cross products fit.
pub open spec fn rat_add_fits(a: (int, int), b: (int, int)) -> bool {
    &&& fits(a.0 * b.1)
    &&& fits(b.0 * a.1)
    &&& fits(a.0 * b.1 + b.0 * a.1)
    &&& a.1 * b.1 <= i64::MAX
}

/// The unreduced difference `a − b` and its cross products fit.
pub open spec fn rat_sub_fits(a: (int, int), b: (int, int)) -> bool {
    &&& fits(a.0 * b.1)
    &&& fits(b.0 * a.1)
    &&& fits(a.0 * b.1 - b.0 * a.1)
    &&& a.1 * b.1 <= i64::MAX
}

/// The unreduced product `a · b` fits.
pub open spec fn rat_mul_fits(a: (int, int), b: (int, int)) -> bool {
    &&& fits(a.0 * b.0)
    &&& a.1 * b.1 <= i64::MAX
}

/// `b` is nonzero and the unreduced quotient `a / b` fits.
pub open spec fn rat_div_fits(a: (int, int), b: (int, int)) -> bool {
    &&& b.0 != 0
    &&& fits(a.0 * b.1)
    &&& fits(a.1 * b.0)
}

/// A numerator that fits stays in range when reduced to lowest terms.
pub proof fn lemma_lowest_fits(q: (int, int), x: (int, int))
    requires
        lowest_terms(q),
        same_value(q, x),
        x.1 != 0,
        fits(x.0),
    ensures
        fits(q.0),
{
    let y: (int, int) = if x.1 > 0 {
        x
    } else {
        (-x.0, -x.1)
    };
    assert(same_value(q, y)) by (nonlinear_arith)
        requires
            q.0 * x.1 == x.0 * q.1,
            y == x || y == (-x.0, -x.1),
    ;
    lemma_lowest_bounded(q, y);
}

/// The form in lowest terms is no larger than any other form.
pub proof fn lemma_lowest_bounded(q: (int, int), x: (int, int))
    requires
        lowest_terms(q),
        same_value(q, x),
        x.1 > 0,
    ensures
        q.1 <= x.1,
        fits(x.0) ==> fits(q.0),
{
    if q.1 > x.1 {
        assert(same_value(x, q));
    }
    if fits(x.0) {
        if q.0 >= 0 {
            assert(q.0 * x.1 <= x.0 * x.1 || x.0 < 0) by (nonlinear_arith)
                requires
                    q.0 * x.1 == x.0 * q.1,
                    q.1 <= x.1,
                    q.1 > 0,
                    q.0 >= 0,
            ;
            assert(q.0 <= x.0 || x.0 < 0) by (nonlinear_arith)
                requires
                    q.0 * x.1 <= x.0 * x.1 || x.0 < 0,
                    x.1 > 0,
            ;
            assert(q.0 <= -x.0 || x.0 >= 0) by (nonlinear_arith)
                requires
                    q.0 * x.1 == x.0 * q.1,
                    q.1 <= x.1,
                    q.1 > 0,
                    q.0 >= 0,
            ;
        } else {
            assert(-q.0 <= x.0 || -q.0 <= -x.0) by (nonlinear_arith)
                requires
                    q.0 * x.1 == x.0 * q.1,
                    q.1 <= x.1,
                    q.1 > 0,
                    x.1 > 0,
                    q.0 < 0,
            ;
        }
    }
}

/// Relies on num-rational: `Ratio::<i64>::new` reduces the fraction to
/// lowest terms with a positive denominator. It panics on a zero
/// denominator and, through the sign fix-up, on `i64::MIN`.
#[verifier::external_body]
fn ratio_new(n: i64, d: i64) -> (r: (i64, i64))
    requires
        d != 0,
        n > i64::MIN,
        d > i64::MIN,
    ensures
        lowest_terms((r.0 as int, r.1 as int)),
        same_value((r.0 as int, r.1 as int), (n as int, d as int)),
{
    Ratio::new(n, d).into_raw()
}

/// Relies on num-rational: `Ratio::<i64>::checked_add` returns the exact sum
/// in lowest terms with a positive denominator, or `None` where an
/// intermediate product or sum overflows; each intermediate is bounded by
/// the unreduced cross products and sum, so it succeeds where those fit.
#[verifier::external_body]
fn ratio_checked_add(an: i64, ad: i64, bn: i64, bd: i64) -> (r: Option<(i64, i64)>)
    requires
        ad > 0,
        bd > 0,
        an > i64::MIN,
        bn > i64::MIN,
    ensures
        rat_add_fits((an as int, ad as int), (bn as int, bd as int)) ==> r is Some,
        r matches Some(q) ==> lowest_terms((q.0 as int, q.1 as int)) && same_value(
            (q.0 as int, q.1 as int),
            (an * bd + bn * ad, ad * bd),
        ),
{
    Ratio::new_raw(an, ad).checked_add(&Ratio::new_raw(bn, bd)).map(|q| q.into_raw())
}

/// Relies on num-rational: `Ratio::<i64>::checked_sub` returns the exact
/// difference in lowest terms with a positive denominator, or `None` where
/// an intermediate product or difference overflows; it succeeds where the
/// unreduced cross products and difference fit.
#[verifier::external_body]
fn ratio_checked_sub(an: i64, ad: i64, bn: i64, bd: i64) -> (r: Option<(i64, i64)>)
    requires
        ad > 0,
        bd > 0,
        an > i64::MIN,
        bn > i64::MIN,
    ensures
        rat_sub_fits((an as int, ad as int), (bn as int, bd as int)) ==> r is Some,
        r matches Some(q) ==> lowest_terms((q.0 as int, q.1 as int)) && same_value(
            (q.0 as int, q.1 as int),
            (an * bd - bn * ad, ad * bd),
        ),
{
    Ratio::new_raw(an, ad).checked_sub(&Ratio::new_raw(bn, bd)).map(|q| q.into_raw())
}

/// Relies on num-rational: `Ratio::<i64>::checked_mul` returns the exact
/// product in lowest terms with a positive denominator, or `None` where a
/// product overflows; it succeeds where the unreduced products fit.
#[verifier::external_body]
fn ratio_checked_mul(an: i64, ad: i64, bn: i64, bd: i64) -> (r: Option<(i64, i64)>)
    requires
        ad > 0,
        bd > 0,
        an > i64::MIN,
        bn > i64::MIN,
    ensures
        rat_mul_fits((an as int, ad as int), (bn as int, bd as int)) ==> r is Some,
        r matches Some(q) ==> lowest_terms((q.0 as int, q.1 as int)) && same_value(
            (q.0 as int, q.1 as int),
            (an * bn, ad * bd),
        ),
{
    Ratio::new_raw(an, ad).checked_mul(&Ratio::new_raw(bn, bd)).map(|q| q.into_raw())
}

/// Relies on num-rational: `Ratio::<i64>::checked_div` returns `None` for a
/// zero divisor or on overflow, and otherwise the exact quotient in lowest
/// terms with a positive denominator; it succeeds for a nonzero divisor
/// where the unreduced cross products fit.
#[verifier::external_body]
fn ratio_checked_div(an: i64, ad: i64, bn: i64, bd: i64) -> (r: Option<(i64, i64)>)
    requires
        ad > 0,
        bd > 0,
        an > i64::MIN,
        bn > i64::MIN,
    ensures
        bn == 0 ==> r is None,
        rat_div_fits((an as int, ad as int), (bn as int, bd as int)) ==> r is Some,
        r matches Some(q) ==> lowest_terms((q.0 as int, q.1 as int)) && same_value(
            (q.0 as int, q.1 as int),
            (an * bd, ad * bn),
        ),
{
    Ratio::new_raw(an, ad).checked_div(&Ratio::new_raw(bn, bd)).map(|q| q.into_raw())
}

/// A rational number in lowest terms; the numerator is never `i64::MIN`, so
/// that negation stays in range.
#[derive(Clone, Copy, Debug, PartialEq, Eq, Structural)]
pub struct Rational {
    pub num: i64,
    pub den: i64,
}

impl View for Rational {
    type V = (int, int);

    open spec fn view(&self) -> (int, int) {
        (self.num as int, self.den as int)
    }
}

impl Rational {
    pub open spec fn wf(&self) -> bool {
        &&& lowest_terms(self@)
        &&& self.num > i64::MIN
    }

    fn from_parts(q: (i64, i64), x: Ghost<(int, int)>) -> (r: Option<Rational>)
        requires
            lowest_terms((q.0 as int, q.1 as int)),
            same_value((q.0 as int, q.1 as int), x@),
            x@.1 != 0,
        ensures
            r matches Some(c) ==> c.wf() && c@ == canon(x@),
            fits(x@.0) ==> r is Some,
    {
        proof {
            if fits(x@.0) {
                lemma_lowest_fits((q.0 as int, q.1 as int), x@);
            }
        }
        if q.0 == i64::MIN {
            None
        } else {
            let c = Rational { num: q.0, den: q.1 };
            proof {
                lemma_canon(c@, x@);
            }
            Some(c)
        }
    }

    pub fn zero() -> (r: Rational)
        ensures
            r.wf(),
            r@ == rat_zero(),
    {
        Rational { num: 0, den: 1 }
    }

    pub fn one() -> (r: Rational)
        ensures
            r.wf(),
            r@ == rat_one(),
    {
        Rational { num: 1, den: 1 }
    }

    /// The integer `n`.
    pub fn from_int(n: i64) -> (r: Rational)
        requires
            n > i64::MIN,
        ensures
            r.wf(),
            r@ == (n as int, 1int),
    {
        Rational { num: n, den: 1 }
    }

    /// The fraction `n / d` in lowest terms; `None` for a zero denominator or
    /// an `i64::MIN` part.
    pub fn new(n: i64, d: i64) -> (r: Option<Rational>)
        ensures
            (d == 0 || n == i64::MIN || d == i64::MIN) <==> r is None,
            r matches Some(c) ==> c.wf() && c@ == canon((n as int, d as int)),
    {
        if d == 0 || n == i64::MIN || d == i64::MIN {
            return None;
        }
        let q = ratio_new(n, d);
        Self::from_parts(q, Ghost((n as int, d as int)))
    }

    pub fn numer(&self) -> (r: i64)
        ensures
            r == self.num,
    {
        self.num
    }

    pub fn denom(&self) -> (r: i64)
        ensures
            r == self.den,
    {
        self.den
    }

    pub fn is_zero(&self) -> (r: bool)
        requires
            self.wf(),
        ensures
            r == (self@ == rat_zero()),
    {
        proof {
            if self.num == 0 {
                assert(same_value(self@, rat_zero())) by (nonlinear_arith)
                    requires
                        self@.0 == 0,
                ;
                lemma_lowest_unique(self@, rat_zero());
            }
        }
        self.num == 0
    }

    pub fn is_one(&self) -> (r: bool)
        requires
            self.wf(),
        ensures
            r == (self@ == rat_one()),
    {
        proof {
            if self.num == self.den {
                lemma_lowest_unique(self@, rat_one());
            }
        }
        self.num == self.den
    }

    pub fn neg(&self) -> (r: Rational)
        requires
            self.wf(),
        ensures
            r.wf(),
            r@ == rat_neg(self@),
    {
        let r = Rational { num: -self.num, den: self.den };
        assert forall|b: (int, int)| 0 < b.1 < r@.1 implies !#[trigger] same_value(b, r@) by {
            assert(!same_value((-b.0, b.1), self@));
            if same_value(b, r@) {
                assert((-b.0) * self@.1 == self@.0 * b.1) by (nonlinear_arith)
                    requires
                        b.0 * self@.1 == (-self@.0) * b.1,
                ;
            }
        }
        r
    }

    /// Exact sum, or `None` where it leaves the range of `i64`.
    pub fn checked_add(&self, o: &Rational) -> (r: Option<Rational>)
        requires
            self.wf(),
            o.wf(),
        ensures
            rat_add_fits(self@, o@) ==> r is Some,
            r matches Some(c) ==> c.wf() && c@ == rat_add(self@, o@),
    {
        match ratio_checked_add(self.num, self.den, o.num, o.den) {
            None => None,
            Some(q) => {
                proof {
                    assert(self.den * o.den > 0) by (nonlinear_arith)
                        requires
                            self.den > 0,
                            o.den > 0,
                    ;
                }
                Self::from_parts(
                    q,
                    Ghost((self.num * o.den + o.num * self.den, self.den * o.den)),
                )
            },
        }
    }

    /// Exact difference, or `None` where it leaves the range of `i64`.
    pub fn checked_sub(&self, o: &Rational) -> (r: Option<Rational>)
        requires
            self.wf(),
            o.wf(),
        ensures
            rat_sub_fits(self@, o@) ==> r is Some,
            r matches Some(c) ==> c.wf() && c@ == rat_sub(self@, o@),
    {
        match ratio_checked_sub(self.num, self.den, o.num, o.den) {
            None => None,
            Some(q) => {
                proof {
                    assert(self.den * o.den > 0) by (nonlinear_arith)
                        requires
                            self.den > 0,
                            o.den > 0,
                    ;
                }
                Self::from_parts(
                    q,
                    Ghost((self.num * o.den - o.num * self.den, self.den * o.den)),
                )
            },
        }
    }

    /// Exact product, or `None` where it leaves the range of `i64`.
    pub fn checked_mul(&self, o: &Rational) -> (r: Option<Rational>)
        requires
            self.wf(),
            o.wf(),
        ensures
            rat_mul_fits(self@, o@) ==> r is Some,
            r matches Some(c) ==> c.wf() && c@ == rat_mul(self@, o@),
    {
        match ratio_checked_mul(self.num, self.den, o.num, o.den) {
            None => None,
            Some(q) => {
                proof {
                    assert(self.den * o.den > 0) by (nonlinear_arith)
                        requires
                            self.den > 0,
                            o.den > 0,
                    ;
                }
                Self::from_parts(q, Ghost((self.num * o.num, self.den * o.den)))
            },
        }
    }

    /// Exact quotient; `None` for a zero divisor or where the quotient
    /// leaves the range of `i64`.
    pub fn checked_div(&self, o: &Rational) -> (r: Option<Rational>)
        requires
            self.wf(),
            o.wf(),
        ensures
            o@ == rat_zero() ==> r is None,
            rat_div_fits(self@, o@) ==> r is Some,
            r matches Some(c) ==> c.wf() && c@ == rat_div(self@, o@),
    {
        match ratio_checked_div(self.num, self.den, o.num, o.den) {
            None => None,
            Some(q) => {
                proof {
                    assert(self.den * o.num != 0) by (nonlinear_arith)
                        requires
                            self.den > 0,
                            o.num != 0,
                    ;
                }
                Self::from_parts(q, Ghost((self.num * o.den, self.den * o.num)))
            },
        }
    }
}

} // verus!
