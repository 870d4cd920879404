//! Monomial orderings. Each ordering is a type of its own so that the
//! ordering of a polynomial ring is fixed when the ring's type is.
use crate::monomial::{
    degree, lemma_degree_mul, lemma_degree_one, lemma_degree_var, lemma_degree_zero, mono_mul,
    mono_one, mono_var, Monomial,
};
use core::cmp::Ordering;
use vstd::prelude::*;

verus! {

/// Lexicographic comparison of the exponents from index `i` on:
/// `-1` where `a` is smaller, `1` where greater, `0` where they agree.
pub open spec fn lex_from(a: Seq<nat>, b: Seq<nat>, i: int) -> int
    decreases a.len() - i,
{
    if i < 0 || i >= a.len() {
        0
    } else if a[i] < b[i] {
        -1
    } else if a[i] > b[i] {
        1
    } else {
        lex_from(a, b, i + 1)
    }
}

/// Reverse-lexicographic comparison of the exponents below index `i`,
/// looking from the last variable: the monomial with the larger exponent at
/// the last difference is the smaller one.
pub open spec fn rev_from(a: Seq<nat>, b: Seq<nat>, i: int) -> int
    decreases i,
{
    if i <= 0 {
        0
    } else if a[i - 1] > b[i - 1] {
        -1
    } else if a[i - 1] < b[i - 1] {
        1
    } else {
        rev_from(a, b, i - 1)
    }
}

/// Comparison of two integers as `-1`, `0` or `1`.
pub open spec fn int_cmp(x: int, y: int) -> int {
    if x < y {
        -1
    } else if x > y {
        1
    } else {
        0
    }
}

pub open spec fn ordering_of(c: int) -> Ordering {
    if c < 0 {
        Ordering::Less
    } else if c > 0 {
        Ordering::Greater
    } else {
        Ordering::Equal
    }
}

/// A monomial ordering: total, compatible with multiplication, with the unit
/// monomial least.
pub trait MonomialOrder: Sized {
    /// `-1`, `0` or `1` as `a` is below, equal to or above `b`.
    spec fn cmp(a: Seq<nat>, b: Seq<nat>) -> int;

    proof fn lemma_antisymmetric(a: Seq<nat>, b: Seq<nat>)
        requires
            a.len() == b.len(),
        ensures
            Self::cmp(a, b) == -Self::cmp(b, a),
            -1 <= Self::cmp(a, b) <= 1,
            Self::cmp(a, b) == 0 <==> a == b,
    ;

    proof fn lemma_transitive(a: Seq<nat>, b: Seq<nat>, c: Seq<nat>)
        requires
            a.len() == b.len(),
            b.len() == c.len(),
            Self::cmp(a, b) < 0,
            Self::cmp(b, c) < 0,
        ensures
            Self::cmp(a, c) < 0,
    ;

    proof fn lemma_mul_compatible(a: Seq<nat>, b: Seq<nat>, c: Seq<nat>)
        requires
            a.len() == b.len(),
            b.len() == c.len(),
        ensures
            Self::cmp(mono_mul(a, c), mono_mul(b, c)) == Self::cmp(a, b),
    ;

    proof fn lemma_one_least(a: Seq<nat>)
        ensures
            Self::cmp(mono_one(a.len()), a) <= 0,
    ;

    proof fn lemma_vars_decreasing(n: nat, v: int)
        requires
            0 <= v,
            v + 1 < n,
        ensures
            Self::cmp(mono_var(n, v + 1), mono_var(n, v)) < 0,
    ;

    fn compare(a: &Monomial, b: &Monomial) -> (r: Ordering)
        requires
            a.wf(),
            b.wf(),
            a@.len() == b@.len(),
        ensures
            r == ordering_of(Self::cmp(a@, b@)),
    ;
}

pub proof fn lemma_lex_antisymmetric(a: Seq<nat>, b: Seq<nat>, i: int)
    requires
        a.len() == b.len(),
        0 <= i,
    ensures
        lex_from(a, b, i) == -lex_from(b, a, i),
        -1 <= lex_from(a, b, i) <= 1,
        lex_from(a, b, i) == 0 <==> forall|j: int| i <= j < a.len() ==> a[j] == b[j],
    decreases a.len() - i,
{
    if i < a.len() {
        lemma_lex_antisymmetric(a, b, i + 1);
        if a[i] == b[i] {
            assert forall|j: int| i <= j < a.len() && lex_from(a, b, i + 1) == 0 implies a[j]
                == b[j] by {
                if j > i {
                }
            }
        }
    }
}

pub proof fn lemma_lex_transitive(a: Seq<nat>, b: Seq<nat>, c: Seq<nat>, i: int)
    requires
        a.len() == b.len(),
        b.len() == c.len(),
        0 <= i,
        lex_from(a, b, i) < 0,
        lex_from(b, c, i) < 0,
    ensures
        lex_from(a, c, i) < 0,
    decreases a.len() - i,
{
    if i < a.len() && a[i] == b[i] && b[i] == c[i] {
        lemma_lex_transitive(a, b, c, i + 1);
    }
}

pub proof fn lemma_lex_mul(a: Seq<nat>, b: Seq<nat>, c: Seq<nat>, i: int)
    requires
        a.len() == b.len(),
        b.len() == c.len(),
        0 <= i,
    ensures
        lex_from(mono_mul(a, c), mono_mul(b, c), i) == lex_from(a, b, i),
    decreases a.len() - i,
{
    if i < a.len() {
        lemma_lex_mul(a, b, c, i + 1);
    }
}

pub proof fn lemma_lex_one(a: Seq<nat>, i: int)
    requires
        0 <= i,
    ensures
        lex_from(mono_one(a.len()), a, i) <= 0,
    decreases a.len() - i,
{
    if i < a.len() {
        lemma_lex_one(a, i + 1);
    }
}

/// Positions where two monomials agree do not change the comparison.
pub proof fn lemma_lex_skip(a: Seq<nat>, b: Seq<nat>, k: int, i: int)
    requires
        0 <= k <= i <= a.len(),
        forall|j: int| k <= j < i ==> a[j] == b[j],
    ensures
        lex_from(a, b, k) == lex_from(a, b, i),
    decreases i - k,
{
    if k < i {
        lemma_lex_skip(a, b, k + 1, i);
    }
}

pub proof fn lemma_rev_antisymmetric(a: Seq<nat>, b: Seq<nat>, i: int)
    requires
        a.len() == b.len(),
        i <= a.len(),
    ensures
        rev_from(a, b, i) == -rev_from(b, a, i),
        -1 <= rev_from(a, b, i) <= 1,
        rev_from(a, b, i) == 0 <==> forall|j: int| 0 <= j < i ==> a[j] == b[j],
    decreases i,
{
    if i > 0 {
        lemma_rev_antisymmetric(a, b, i - 1);
        if a[i - 1] == b[i - 1] {
            assert forall|j: int| 0 <= j < i && rev_from(a, b, i - 1) == 0 implies a[j]
                == b[j] by {
                if j < i - 1 {
                }
            }
        }
    }
}

pub proof fn lemma_rev_transitive(a: Seq<nat>, b: Seq<nat>, c: Seq<nat>, i: int)
    requires
        a.len() == b.len(),
        b.len() == c.len(),
        i <= a.len(),
        rev_from(a, b, i) < 0,
        rev_from(b, c, i) < 0,
    ensures
        rev_from(a, c, i) < 0,
    decreases i,
{
    if i > 0 && a[i - 1] == b[i - 1] && b[i - 1] == c[i - 1] {
        lemma_rev_transitive(a, b, c, i - 1);
    }
}

pub proof fn lemma_rev_mul(a: Seq<nat>, b: Seq<nat>, c: Seq<nat>, i: int)
    requires
        a.len() == b.len(),
        b.len() == c.len(),
        i <= a.len(),
    ensures
        rev_from(mono_mul(a, c), mono_mul(b, c), i) == rev_from(a, b, i),
    decreases i,
{
    if i > 0 {
        lemma_rev_mul(a, b, c, i - 1);
    }
}

pub proof fn lemma_rev_skip(a: Seq<nat>, b: Seq<nat>, k: int, i: int)
    requires
        0 <= k <= i <= a.len(),
        forall|j: int| k <= j < i ==> a[j] == b[j],
    ensures
        rev_from(a, b, i) == rev_from(a, b, k),
    decreases i - k,
{
    if k < i {
        lemma_rev_skip(a, b, k, i - 1);
    }
}

/// Exponents compared lexicographically, variable `0` most significant.
#[derive(Clone, Copy, Debug)]
pub struct Lex;

/// Total degree first, ties broken lexicographically.
#[derive(Clone, Copy, Debug)]
pub struct Grlex;

/// Total degree first, ties broken reverse-lexicographically.
#[derive(Clone, Copy, Debug)]
pub struct Grevlex;

fn lex_compare(a: &Monomial, b: &Monomial) -> (r: Ordering)
    requires
        a@.len() == b@.len(),
    ensures
        r == ordering_of(lex_from(a@, b@, 0)),
{
    let mut i: usize = 0;
    while i < a.exps.len()
        invariant
            a@.len() == b@.len(),
            i <= a@.len(),
            lex_from(a@, b@, 0) == lex_from(a@, b@, i as int),
        decreases a@.len() - i,
    {
        if a.exps[i] < b.exps[i] {
            return Ordering::Less;
        } else if a.exps[i] > b.exps[i] {
            return Ordering::Greater;
        }
        i = i + 1;
    }
    Ordering::Equal
}

fn rev_compare(a: &Monomial, b: &Monomial) -> (r: Ordering)
    requires
        a@.len() == b@.len(),
    ensures
        r == ordering_of(rev_from(a@, b@, a@.len() as int)),
{
    let mut i: usize = a.exps.len();
    while i > 0
        invariant
            a@.len() == b@.len(),
            i <= a@.len(),
            rev_from(a@, b@, a@.len() as int) == rev_from(a@, b@, i as int),
        decreases i,
    {
        if a.exps[i - 1] > b.exps[i - 1] {
            return Ordering::Less;
        } else if a.exps[i - 1] < b.exps[i - 1] {
            return Ordering::Greater;
        }
        i = i - 1;
    }
    Ordering::Equal
}

fn degree_then(a: &Monomial, b: &Monomial, tie: Ordering) -> (r: Ordering)
    requires
        a.wf(),
        b.wf(),
    ensures
        r == (if degree(a@) < degree(b@) {
            Ordering::Less
        } else if degree(a@) > degree(b@) {
            Ordering::Greater
        } else {
            tie
        }),
{
    let da = a.total_deg();
    let db = b.total_deg();
    if da < db {
        Ordering::Less
    } else if da > db {
        Ordering::Greater
    } else {
        tie
    }
}

impl MonomialOrder for Lex {
    open spec fn cmp(a: Seq<nat>, b: Seq<nat>) -> int {
        lex_from(a, b, 0)
    }

    proof fn lemma_antisymmetric(a: Seq<nat>, b: Seq<nat>) {
        lemma_lex_antisymmetric(a, b, 0);
        if lex_from(a, b, 0) == 0 {
            assert(a =~= b);
        }
    }

    proof fn lemma_transitive(a: Seq<nat>, b: Seq<nat>, c: Seq<nat>) {
        lemma_lex_transitive(a, b, c, 0);
    }

    proof fn lemma_mul_compatible(a: Seq<nat>, b: Seq<nat>, c: Seq<nat>) {
        lemma_lex_mul(a, b, c, 0);
    }

    proof fn lemma_one_least(a: Seq<nat>) {
        lemma_lex_one(a, 0);
    }

    proof fn lemma_vars_decreasing(n: nat, v: int) {
        let x = mono_var(n, v + 1);
        let y = mono_var(n, v);
        lemma_lex_skip(x, y, 0, v);
    }

    fn compare(a: &Monomial, b: &Monomial) -> (r: Ordering) {
        lex_compare(a, b)
    }
}

impl MonomialOrder for Grlex {
    open spec fn cmp(a: Seq<nat>, b: Seq<nat>) -> int {
        if degree(a) != degree(b) {
            int_cmp(degree(a) as int, degree(b) as int)
        } else {
            lex_from(a, b, 0)
        }
    }

    proof fn lemma_antisymmetric(a: Seq<nat>, b: Seq<nat>) {
        lemma_lex_antisymmetric(a, b, 0);
        if lex_from(a, b, 0) == 0 {
            assert(a =~= b);
        }
    }

    proof fn lemma_transitive(a: Seq<nat>, b: Seq<nat>, c: Seq<nat>) {
        if degree(a) == degree(b) && degree(b) == degree(c) {
            lemma_lex_transitive(a, b, c, 0);
        }
    }

    proof fn lemma_mul_compatible(a: Seq<nat>, b: Seq<nat>, c: Seq<nat>) {
        lemma_lex_mul(a, b, c, 0);
        lemma_degree_mul(a, c);
        lemma_degree_mul(b, c);
    }

    proof fn lemma_one_least(a: Seq<nat>) {
        lemma_lex_one(a, 0);
        lemma_degree_one(a.len());
    }

    proof fn lemma_vars_decreasing(n: nat, v: int) {
        let x = mono_var(n, v + 1);
        let y = mono_var(n, v);
        lemma_lex_skip(x, y, 0, v);
        lemma_degree_var(n, v);
        lemma_degree_var(n, v + 1);
    }

    fn compare(a: &Monomial, b: &Monomial) -> (r: Ordering) {
        let tie = lex_compare(a, b);
        degree_then(a, b, tie)
    }
}

impl MonomialOrder for Grevlex {
    open spec fn cmp(a: Seq<nat>, b: Seq<nat>) -> int {
        if degree(a) != degree(b) {
            int_cmp(degree(a) as int, degree(b) as int)
        } else {
            rev_from(a, b, a.len() as int)
        }
    }

    proof fn lemma_antisymmetric(a: Seq<nat>, b: Seq<nat>) {
        lemma_rev_antisymmetric(a, b, a.len() as int);
        if rev_from(a, b, a.len() as int) == 0 {
            assert(a =~= b);
        }
    }

    proof fn lemma_transitive(a: Seq<nat>, b: Seq<nat>, c: Seq<nat>) {
        if degree(a) == degree(b) && degree(b) == degree(c) {
            lemma_rev_transitive(a, b, c, a.len() as int);
        }
    }

    proof fn lemma_mul_compatible(a: Seq<nat>, b: Seq<nat>, c: Seq<nat>) {
        lemma_rev_mul(a, b, c, a.len() as int);
        lemma_degree_mul(a, c);
        lemma_degree_mul(b, c);
    }

    proof fn lemma_one_least(a: Seq<nat>) {
        lemma_degree_one(a.len());
        if degree(a) == 0 {
            lemma_degree_zero(a);
            lemma_rev_antisymmetric(a, a, a.len() as int);
        }
    }

    proof fn lemma_vars_decreasing(n: nat, v: int) {
        let x = mono_var(n, v + 1);
        let y = mono_var(n, v);
        lemma_rev_skip(x, y, v + 2, n as int);
        lemma_degree_var(n, v);
        lemma_degree_var(n, v + 1);
    }

    fn compare(a: &Monomial, b: &Monomial) -> (r: Ordering) {
        let tie = rev_compare(a, b);
        degree_then(a, b, tie)
    }
}

/// Multiplying both sides by the same monomial keeps their order: `a < b`
/// gives `a·c < b·c`, `a = b` gives `a·c = b·c`.
pub proof fn lemma_order_respects_mul<O: MonomialOrder>(a: Seq<nat>, b: Seq<nat>, c: Seq<nat>)
    requires
        a.len() == b.len(),
        b.len() == c.len(),
    ensures
        O::cmp(mono_mul(a, c), mono_mul(b, c)) == O::cmp(a, b),
        O::cmp(a, b) <= 0 ==> O::cmp(mono_mul(a, c), mono_mul(b, c)) <= 0,
        O::cmp(a, b) < 0 ==> O::cmp(mono_mul(a, c), mono_mul(b, c)) < 0,
{
    O::lemma_mul_compatible(a, b, c);
}

/// Every monomial is at least the unit monomial.
pub proof fn lemma_unit_is_least<O: MonomialOrder>(a: Seq<nat>)
    ensures
        O::cmp(mono_one(a.len()), a) <= 0,
        O::cmp(a, mono_one(a.len())) >= 0,
{
    O::lemma_one_least(a);
    O::lemma_antisymmetric(a, mono_one(a.len()));
}

/// The variables, listed from the first, are strictly decreasing, and the
/// last one is above the unit monomial.
pub proof fn lemma_variables_decreasing<O: MonomialOrder>(n: nat)
    requires
        n > 0,
    ensures
        forall|v: int|
            0 <= v && v + 1 < n ==> O::cmp(#[trigger] mono_var(n, v + 1), mono_var(n, v)) < 0,
        O::cmp(mono_one(n), mono_var(n, n - 1)) < 0,
{
    assert forall|v: int| 0 <= v && v + 1 < n implies O::cmp(
        #[trigger] mono_var(n, v + 1),
        mono_var(n, v),
    ) < 0 by {
        O::lemma_vars_decreasing(n, v);
    }
    let x = mono_var(n, n - 1);
    O::lemma_one_least(x);
    O::lemma_antisymmetric(mono_one(n), x);
    assert(mono_one(n)[n - 1] != x[n - 1]);
}

/// Under grlex a monomial of smaller total degree is smaller.
pub proof fn lemma_grlex_degree_first(a: Seq<nat>, b: Seq<nat>)
    requires
        degree(a) < degree(b),
    ensures
        Grlex::cmp(a, b) < 0,
{
}

/// Under grevlex a monomial of smaller total degree is smaller.
pub proof fn lemma_grevlex_degree_first(a: Seq<nat>, b: Seq<nat>)
    requires
        degree(a) < degree(b),
    ensures
        Grevlex::cmp(a, b) < 0,
{
}

} // verus!
