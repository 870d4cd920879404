//! Sparse multivariate polynomials over the rationals. Terms are kept in a
//! vector sorted increasingly by the ring's monomial ordering, so the leading
//! term is the last one; no stored coefficient is zero.
use crate::monomial::{degree, mono_div, mono_divides, mono_mul, mono_one, mono_var, Monomial};
use crate::order::MonomialOrder;
use crate::rational::{
    is_frac, lemma_canon, lemma_canon_zero, lemma_nonzero_num,
    lemma_rat_add_assoc, lemma_rat_add_neg, lemma_rat_distrib, lemma_rat_mul_neg,
    lemma_rat_mul_nonzero, lemma_rat_mul_swap, lemma_rat_mul_zero, lemma_rat_neg_add,
    lemma_results_lowest, lowest_terms, rat_add, rat_add_fits, rat_mul, rat_mul_fits, rat_neg,
    rat_one, rat_zero, same_value, Rational,
};
use core::cmp::Ordering;
use core::marker::PhantomData;
use vstd::prelude::*;

verus! {

/// A term as the contracts see it: exponent vector and coefficient.
pub type TermView = (Seq<nat>, (int, int));

/// The coefficient map of a sequence of terms; a later term wins.
pub open spec fn to_map(s: Seq<TermView>) -> Map<Seq<nat>, (int, int)>
    decreases s.len(),
{
    if s.len() == 0 {
        Map::empty()
    } else {
        to_map(s.drop_last()).insert(s.last().0, s.last().1)
    }
}

/// The coefficient of `m` in `p`, zero where `m` is absent.
pub open spec fn coef(p: Map<Seq<nat>, (int, int)>, m: Seq<nat>) -> (int, int) {
    if p.contains_key(m) {
        p[m]
    } else {
        rat_zero()
    }
}

/// Sum of polynomials: coefficients add, zero sums are dropped.
pub open spec fn poly_add(p: Map<Seq<nat>, (int, int)>, q: Map<Seq<nat>, (int, int)>) -> Map<
    Seq<nat>,
    (int, int),
> {
    Map::new(
        |m: Seq<nat>|
            (p.contains_key(m) || q.contains_key(m)) && rat_add(coef(p, m), coef(q, m))
                != rat_zero(),
        |m: Seq<nat>| rat_add(coef(p, m), coef(q, m)),
    )
}

/// Negation: every coefficient negated.
pub open spec fn poly_neg(p: Map<Seq<nat>, (int, int)>) -> Map<Seq<nat>, (int, int)> {
    Map::new(|m: Seq<nat>| p.contains_key(m), |m: Seq<nat>| rat_neg(p[m]))
}

/// The product of the term `c·t` with `p`.
pub open spec fn poly_mul_term(t: Seq<nat>, c: (int, int), p: Map<Seq<nat>, (int, int)>) -> Map<
    Seq<nat>,
    (int, int),
> {
    Map::new(
        |m: Seq<nat>|
            m.len() == t.len() && mono_divides(t, m) && p.contains_key(mono_div(m, t))
                && rat_mul(c, p[mono_div(m, t)]) != rat_zero(),
        |m: Seq<nat>| rat_mul(c, p[mono_div(m, t)]),
    )
}

/// The product of the terms `s` with `q`, summed term by term in order.
pub open spec fn poly_mul_seq(s: Seq<TermView>, q: Map<Seq<nat>, (int, int)>) -> Map<
    Seq<nat>,
    (int, int),
>
    decreases s.len(),
{
    if s.len() == 0 {
        Map::empty()
    } else {
        poly_add(poly_mul_seq(s.drop_last(), q), poly_mul_term(s.last().0, s.last().1, q))
    }
}

/// Every coefficient sum of `p + q` fits in the range of `i64` before
/// reduction.
pub open spec fn add_fits(p: Map<Seq<nat>, (int, int)>, q: Map<Seq<nat>, (int, int)>) -> bool {
    forall|m: Seq<nat>|
        #[trigger] p.contains_key(m) && q.contains_key(m) ==> rat_add_fits(p[m], q[m])
}

/// Every exponent and coefficient of `c·t·p` fits before reduction.
pub open spec fn mul_term_fits(t: Seq<nat>, c: (int, int), p: Map<Seq<nat>, (int, int)>) -> bool {
    forall|m: Seq<nat>|
        #[trigger] p.contains_key(m) ==> crate::monomial::mul_fits(m, t) && rat_mul_fits(c, p[m])
}

/// Every step of the product of `s` with `q`, term by term, stays in range:
/// each term times `q`, and each partial sum.
pub open spec fn mul_fits_seq(s: Seq<TermView>, q: Map<Seq<nat>, (int, int)>) -> bool
    decreases s.len(),
{
    if s.len() == 0 {
        true
    } else {
        &&& mul_fits_seq(s.drop_last(), q)
        &&& mul_term_fits(s.last().0, s.last().1, q)
        &&& add_fits(
            poly_mul_seq(s.drop_last(), q),
            poly_mul_term(s.last().0, s.last().1, q),
        )
    }
}

pub proof fn lemma_mul_fits_prefix(s: Seq<TermView>, q: Map<Seq<nat>, (int, int)>, k: int)
    requires
        mul_fits_seq(s, q),
        0 <= k <= s.len(),
    ensures
        mul_fits_seq(s.subrange(0, k), q),
    decreases s.len(),
{
    if k == s.len() {
        assert(s.subrange(0, k) =~= s);
    } else {
        lemma_mul_fits_prefix(s.drop_last(), q, k);
        assert(s.drop_last().subrange(0, k) =~= s.subrange(0, k));
    }
}

/// Monomials of the sequence strictly increase under `O`.
pub open spec fn sorted_by<O: MonomialOrder>(s: Seq<TermView>) -> bool {
    forall|i: int, j: int| 0 <= i < j < s.len() ==> O::cmp(#[trigger] s[i].0, #[trigger] s[j].0) < 0
}

pub proof fn lemma_to_map_absent(s: Seq<TermView>, m: Seq<nat>)
    requires
        forall|k: int| 0 <= k < s.len() ==> s[k].0 != m,
    ensures
        !to_map(s).contains_key(m),
    decreases s.len(),
{
    if s.len() > 0 {
        lemma_to_map_absent(s.drop_last(), m);
    }
}

pub proof fn lemma_to_map_present(s: Seq<TermView>, m: Seq<nat>)
    requires
        to_map(s).contains_key(m),
    ensures
        exists|k: int| 0 <= k < s.len() && s[k].0 == m,
    decreases s.len(),
{
    if s.len() > 0 && s.last().0 != m {
        lemma_to_map_present(s.drop_last(), m);
        let k = choose|k: int| 0 <= k < s.drop_last().len() && s.drop_last()[k].0 == m;
        assert(s[k].0 == m);
    }
}

pub proof fn lemma_sorted_distinct<O: MonomialOrder>(s: Seq<TermView>, i: int, j: int)
    requires
        sorted_by::<O>(s),
        0 <= i < s.len(),
        0 <= j < s.len(),
        i != j,
        s[i].0.len() == s[j].0.len(),
    ensures
        s[i].0 != s[j].0,
{
    O::lemma_antisymmetric(s[i].0, s[j].0);
}

/// Every term of a sorted sequence is found in its map.
pub proof fn lemma_to_map_get<O: MonomialOrder>(s: Seq<TermView>, n: nat, k: int)
    requires
        sorted_by::<O>(s),
        forall|a: int| 0 <= a < s.len() ==> (#[trigger] s[a]).0.len() == n,
        0 <= k < s.len(),
    ensures
        to_map(s).contains_key(s[k].0),
        to_map(s)[s[k].0] == s[k].1,
    decreases s.len(),
{
    if k < s.len() - 1 {
        let t = s.drop_last();
        assert(sorted_by::<O>(t));
        lemma_to_map_get::<O>(t, n, k);
        lemma_sorted_distinct::<O>(s, k, s.len() - 1);
    }
}

/// A sum with a coefficient zero on one side keeps the other.
pub proof fn lemma_add_zero(c: (int, int))
    requires
        lowest_terms(c),
    ensures
        rat_add(c, rat_zero()) == c,
        rat_add(rat_zero(), c) == c,
{
    assert(same_value(c, (c.0 * 1 + 0 * c.1, c.1 * 1)));
    lemma_canon(c, (c.0 * 1 + 0 * c.1, c.1 * 1));
    assert(same_value(c, (0 * c.1 + c.0 * 1, 1 * c.1)));
    lemma_canon(c, (0 * c.1 + c.0 * 1, 1 * c.1));
}

pub proof fn lemma_add_zero_zero()
    ensures
        rat_add(rat_zero(), rat_zero()) == rat_zero(),
{
    lemma_canon_zero(1);
}

/// A term is well formed in a ring of `n` variables.
pub open spec fn term_wf(t: (Monomial, Rational), n: nat) -> bool {
    &&& t.0.wf()
    &&& t.0@.len() == n
    &&& t.1.wf()
    &&& t.1@ != rat_zero()
}

pub open spec fn term_view(t: (Monomial, Rational)) -> TermView {
    (t.0@, t.1@)
}

/// A polynomial with rational coefficients in `nvars` variables, its terms
/// ordered by `O`.
pub struct Ordpol<O: MonomialOrder> {
    pub nvars: usize,
    pub terms: Vec<(Monomial, Rational)>,
    pub order: PhantomData<O>,
}

impl<O: MonomialOrder> View for Ordpol<O> {
    type V = Map<Seq<nat>, (int, int)>;

    open spec fn view(&self) -> Map<Seq<nat>, (int, int)> {
        to_map(self.tseq())
    }
}

impl<O: MonomialOrder> Ordpol<O> {
    /// The terms, increasing under `O`.
    pub open spec fn tseq(&self) -> Seq<TermView> {
        self.terms@.map_values(|t: (Monomial, Rational)| term_view(t))
    }

    pub open spec fn wf(&self) -> bool {
        &&& self.nvars <= u32::MAX
        &&& forall|i: int|
            0 <= i < self.terms@.len() ==> term_wf(#[trigger] self.terms@[i], self.nvars as nat)
        &&& sorted_by::<O>(self.tseq())
    }

    proof fn lemma_tseq_lens(&self)
        requires
            self.wf(),
        ensures
            forall|a: int|
                0 <= a < self.tseq().len() ==> (#[trigger] self.tseq()[a]).0.len()
                    == self.nvars,
            self.tseq().len() == self.terms@.len(),
    {
        assert forall|a: int| 0 <= a < self.tseq().len() implies (
        #[trigger] self.tseq()[a]).0.len() == self.nvars by {
            assert(term_wf(self.terms@[a], self.nvars as nat));
        }
    }

    /// Facts about the map view of a well-formed polynomial.
    pub proof fn lemma_view(&self)
        requires
            self.wf(),
        ensures
            forall|k: int|
                0 <= k < self.terms@.len() ==> #[trigger] self@.contains_key(self.terms@[k].0@)
                    && self@[self.terms@[k].0@] == self.terms@[k].1@,
            forall|m: Seq<nat>| #[trigger]
                self@.contains_key(m) ==> m.len() == self.nvars && self@[m] != rat_zero()
                    && lowest_terms(self@[m]),
            self.terms@.len() == 0 <==> self@ == Map::<Seq<nat>, (int, int)>::empty(),
    {
        self.lemma_tseq_lens();
        assert forall|k: int| 0 <= k < self.terms@.len() implies #[trigger] self@.contains_key(
            self.terms@[k].0@,
        ) && self@[self.terms@[k].0@] == self.terms@[k].1@ by {
            lemma_to_map_get::<O>(self.tseq(), self.nvars as nat, k);
        }
        assert forall|m: Seq<nat>| #[trigger]
            self@.contains_key(m) implies m.len() == self.nvars && self@[m] != rat_zero()
            && lowest_terms(self@[m]) by {
            lemma_to_map_present(self.tseq(), m);
            let k = choose|k: int| 0 <= k < self.tseq().len() && self.tseq()[k].0 == m;
            lemma_to_map_get::<O>(self.tseq(), self.nvars as nat, k);
            assert(term_wf(self.terms@[k], self.nvars as nat));
        }
        if self.terms@.len() > 0 {
            lemma_to_map_get::<O>(self.tseq(), self.nvars as nat, 0);
        }
    }

    /// The zero polynomial in `n` variables.
    pub fn zero(n: usize) -> (r: Ordpol<O>)
        requires
            n <= u32::MAX,
        ensures
            r.wf(),
            r.nvars == n,
            r@ == Map::<Seq<nat>, (int, int)>::empty(),
    {
        let r = Ordpol { nvars: n, terms: Vec::new(), order: PhantomData };
        assert(r.tseq() =~= Seq::<TermView>::empty());
        r
    }

    /// The single term `c·m`; zero where `c` is zero.
    pub fn from_term(m: Monomial, c: Rational) -> (r: Ordpol<O>)
        requires
            m.wf(),
            c.wf(),
        ensures
            r.wf(),
            r.nvars == m@.len(),
            c@ == rat_zero() ==> r@ == Map::<Seq<nat>, (int, int)>::empty(),
            c@ != rat_zero() ==> r@ == Map::<Seq<nat>, (int, int)>::empty().insert(m@, c@),
    {
        let n = m.len();
        if c.is_zero() {
            return Self::zero(n);
        }
        let ghost mv = m@;
        let mut terms: Vec<(Monomial, Rational)> = Vec::new();
        terms.push((m, c));
        let r = Ordpol { nvars: n, terms, order: PhantomData };
        assert(r.tseq().drop_last() =~= Seq::<TermView>::empty());
        assert(to_map(r.tseq().drop_last()) == Map::<Seq<nat>, (int, int)>::empty());
        assert(r.tseq().last() == (mv, c@));
        r
    }

    /// The monomial `m` with coefficient one.
    pub fn from_monomial(m: Monomial) -> (r: Ordpol<O>)
        requires
            m.wf(),
        ensures
            r.wf(),
            r.nvars == m@.len(),
            r@ == Map::<Seq<nat>, (int, int)>::empty().insert(m@, rat_one()),
    {
        Self::from_term(m, Rational::one())
    }

    /// The constant one in `n` variables.
    pub fn one(n: usize) -> (r: Ordpol<O>)
        requires
            n <= u32::MAX,
        ensures
            r.wf(),
            r.nvars == n,
            r@ == Map::<Seq<nat>, (int, int)>::empty().insert(mono_one(n as nat), rat_one()),
    {
        Self::from_monomial(Monomial::one(n))
    }

    /// The variable `v` among `n`.
    pub fn var(n: usize, v: usize) -> (r: Ordpol<O>)
        requires
            n <= u32::MAX,
            v < n,
        ensures
            r.wf(),
            r.nvars == n,
            r@ == Map::<Seq<nat>, (int, int)>::empty().insert(mono_var(n as nat, v as int), rat_one()),
    {
        Self::from_monomial(Monomial::var(n, v))
    }

    /// The constant `c` in `n` variables.
    pub fn from_coeff(n: usize, c: Rational) -> (r: Ordpol<O>)
        requires
            n <= u32::MAX,
            c.wf(),
        ensures
            r.wf(),
            r.nvars == n,
            c@ == rat_zero() ==> r@ == Map::<Seq<nat>, (int, int)>::empty(),
            c@ != rat_zero() ==> r@ == Map::<Seq<nat>, (int, int)>::empty().insert(
                mono_one(n as nat),
                c@,
            ),
    {
        Self::from_term(Monomial::one(n), c)
    }

    /// The integer constant `i` in `n` variables.
    pub fn from_int(n: usize, i: i64) -> (r: Ordpol<O>)
        requires
            n <= u32::MAX,
            i > i64::MIN,
        ensures
            r.wf(),
            r.nvars == n,
            i == 0 ==> r@ == Map::<Seq<nat>, (int, int)>::empty(),
            i != 0 ==> r@ == Map::<Seq<nat>, (int, int)>::empty().insert(
                mono_one(n as nat),
                (i as int, 1int),
            ),
    {
        Self::from_coeff(n, Rational::from_int(i))
    }

    pub fn is_zero(&self) -> (r: bool)
        requires
            self.wf(),
        ensures
            r == (self@ == Map::<Seq<nat>, (int, int)>::empty()),
    {
        proof {
            self.lemma_view();
        }
        self.terms.len() == 0
    }

    /// Number of stored terms.
    pub fn len(&self) -> (r: usize)
        ensures
            r == self.terms@.len(),
    {
        self.terms.len()
    }

    /// A copy with the same terms.
    pub fn copy(&self) -> (r: Ordpol<O>)
        requires
            self.wf(),
        ensures
            r.wf(),
            r.nvars == self.nvars,
            r.tseq() == self.tseq(),
            r@ == self@,
    {
        let mut terms: Vec<(Monomial, Rational)> = Vec::new();
        let mut i: usize = 0;
        while i < self.terms.len()
            invariant
                self.wf(),
                i <= self.terms@.len(),
                terms@.len() == i,
                forall|k: int| 0 <= k < i ==> #[trigger] term_view(terms@[k]) == term_view(self.terms@[k]),
                forall|k: int| 0 <= k < i ==> term_wf(#[trigger] terms@[k], self.nvars as nat),
            decreases self.terms@.len() - i,
        {
            assert(term_wf(self.terms@[i as int], self.nvars as nat));
            let m = self.terms[i].0.copy();
            let c = self.terms[i].1;
            terms.push((m, c));
            i = i + 1;
        }
        let r = Ordpol { nvars: self.nvars, terms, order: PhantomData };
        assert(r.tseq() =~= self.tseq()) by {
            assert forall|k: int| 0 <= k < r.tseq().len() implies r.tseq()[k] == self.tseq()[k] by {
                assert(term_view(r.terms@[k]) == term_view(self.terms@[k]));
            }
        }
        r
    }

    /// Leading monomial and coefficient, `None` for zero.
    pub fn lead_term(&self) -> (r: Option<(&Monomial, &Rational)>)
        requires
            self.wf(),
        ensures
            self.terms@.len() == 0 <==> r is None,
            r matches Some(t) ==> (t.0@, t.1@) == self.tseq().last() && *t.0 == self.terms@.last().0
                && *t.1 == self.terms@.last().1,
    {
        let n = self.terms.len();
        if n == 0 {
            None
        } else {
            let t = &self.terms[n - 1];
            Some((&t.0, &t.1))
        }
    }

    /// Removes and returns the leading term.
    pub fn pop_lead_term(&mut self) -> (r: Option<(Monomial, Rational)>)
        requires
            old(self).wf(),
        ensures
            final(self).wf(),
            final(self).nvars == old(self).nvars,
            old(self).terms@.len() == 0 ==> r is None && final(self)@ == old(self)@,
            old(self).terms@.len() > 0 ==> r is Some,
            r matches Some(t) ==> {
                &&& term_view(t) == old(self).tseq().last()
                &&& term_wf(t, old(self).nvars as nat)
                &&& final(self).tseq() == old(self).tseq().drop_last()
                &&& old(self)@ == final(self)@.insert(t.0@, t.1@)
            },
    {
        let r = self.terms.pop();
        proof {
            if old(self).terms@.len() > 0 {
                assert(self.tseq() =~= old(self).tseq().drop_last());
                assert(term_wf(old(self).terms@.last(), old(self).nvars as nat));
            }
        }
        r
    }

    /// The leading term, split off from the rest.
    pub fn split_lead_term(self) -> (r: (Option<(Monomial, Rational)>, Ordpol<O>))
        requires
            self.wf(),
        ensures
            r.1.wf(),
            r.1.nvars == self.nvars,
            self.terms@.len() == 0 ==> r.0 is None && r.1@ == self@,
            self.terms@.len() > 0 ==> r.0 is Some,
            r.0 matches Some(t) ==> {
                &&& term_view(t) == self.tseq().last()
                &&& term_wf(t, self.nvars as nat)
                &&& r.1.tseq() == self.tseq().drop_last()
                &&& self@ == r.1@.insert(t.0@, t.1@)
            },
    {
        let mut p = self;
        let t = p.pop_lead_term();
        (t, p)
    }
}

/// All monomials of `s` have `n` variables.
pub open spec fn lens_eq(s: Seq<TermView>, n: nat) -> bool {
    forall|k: int| 0 <= k < s.len() ==> (#[trigger] s[k]).0.len() == n
}

/// All monomials of `s` are below `m`.
pub open spec fn all_below<O: MonomialOrder>(s: Seq<TermView>, m: Seq<nat>) -> bool {
    forall|k: int| 0 <= k < s.len() ==> O::cmp((#[trigger] s[k]).0, m) < 0
}

pub open spec fn seq_view(v: Seq<(Monomial, Rational)>) -> Seq<TermView> {
    v.map_values(|t: (Monomial, Rational)| term_view(t))
}

pub proof fn lemma_below_trans<O: MonomialOrder>(s: Seq<TermView>, m: Seq<nat>, m2: Seq<nat>)
    requires
        all_below::<O>(s, m),
        O::cmp(m, m2) < 0,
        lens_eq(s, m.len()),
        m2.len() == m.len(),
    ensures
        all_below::<O>(s, m2),
{
    assert forall|k: int| 0 <= k < s.len() implies O::cmp((#[trigger] s[k]).0, m2) < 0 by {
        O::lemma_transitive(s[k].0, m, m2);
    }
}

pub proof fn lemma_below_absent<O: MonomialOrder>(s: Seq<TermView>, m: Seq<nat>)
    requires
        all_below::<O>(s, m),
        lens_eq(s, m.len()),
    ensures
        !to_map(s).contains_key(m),
{
    assert forall|k: int| 0 <= k < s.len() implies s[k].0 != m by {
        O::lemma_antisymmetric(s[k].0, m);
    }
    lemma_to_map_absent(s, m);
}

/// The prefix before a position of a sorted sequence lies below it.
pub proof fn lemma_prefix_below<O: MonomialOrder>(s: Seq<TermView>, i: int)
    requires
        sorted_by::<O>(s),
        0 <= i < s.len(),
    ensures
        all_below::<O>(s.subrange(0, i), s[i].0),
{
    assert forall|k: int| 0 <= k < i implies O::cmp((#[trigger] s.subrange(0, i)[k]).0, s[i].0)
        < 0 by {
        assert(s.subrange(0, i)[k] == s[k]);
    }
}

pub proof fn lemma_to_map_push(s: Seq<TermView>, t: TermView)
    ensures
        to_map(s.push(t)) == to_map(s).insert(t.0, t.1),
{
    assert(s.push(t).drop_last() =~= s);
}

pub proof fn lemma_to_map_prefix(s: Seq<TermView>, i: int)
    requires
        0 <= i < s.len(),
    ensures
        to_map(s.subrange(0, i + 1)) == to_map(s.subrange(0, i)).insert(s[i].0, s[i].1),
{
    assert(s.subrange(0, i + 1) =~= s.subrange(0, i).push(s[i]));
    lemma_to_map_push(s.subrange(0, i), s[i]);
}

pub proof fn lemma_add_insert_left(
    p: Map<Seq<nat>, (int, int)>,
    q: Map<Seq<nat>, (int, int)>,
    m: Seq<nat>,
    c: (int, int),
)
    requires
        !p.contains_key(m),
        !q.contains_key(m),
        lowest_terms(c),
        c != rat_zero(),
    ensures
        poly_add(p.insert(m, c), q) == poly_add(p, q).insert(m, c),
        poly_add(q, p.insert(m, c)) == poly_add(q, p).insert(m, c),
{
    lemma_add_zero(c);
    assert(poly_add(p.insert(m, c), q) =~= poly_add(p, q).insert(m, c));
    assert(poly_add(q, p.insert(m, c)) =~= poly_add(q, p).insert(m, c));
}

pub proof fn lemma_add_insert_both(
    p: Map<Seq<nat>, (int, int)>,
    q: Map<Seq<nat>, (int, int)>,
    m: Seq<nat>,
    a: (int, int),
    b: (int, int),
)
    requires
        !p.contains_key(m),
        !q.contains_key(m),
    ensures
        rat_add(a, b) != rat_zero() ==> poly_add(p.insert(m, a), q.insert(m, b)) == poly_add(
            p,
            q,
        ).insert(m, rat_add(a, b)),
        rat_add(a, b) == rat_zero() ==> poly_add(p.insert(m, a), q.insert(m, b)) == poly_add(
            p,
            q,
        ),
{
    lemma_add_zero_zero();
    if rat_add(a, b) != rat_zero() {
        assert(poly_add(p.insert(m, a), q.insert(m, b)) =~= poly_add(p, q).insert(
            m,
            rat_add(a, b),
        ));
    } else {
        assert(poly_add(p.insert(m, a), q.insert(m, b)) =~= poly_add(p, q));
    }
}

impl<O: MonomialOrder> Ordpol<O> {
    /// Sum, or `None` where a coefficient leaves the range of `i64`.
    pub fn add(&self, other: &Ordpol<O>) -> (r: Option<Ordpol<O>>)
        requires
            self.wf(),
            other.wf(),
            self.nvars == other.nvars,
        ensures
            add_fits(self@, other@) ==> r is Some,
            r matches Some(s) ==> s.wf() && s.nvars == self.nvars && s@ == poly_add(self@, other@),
    {
        let ghost ps = self.tseq();
        let ghost qs = other.tseq();
        let ghost n = self.nvars as nat;
        proof {
            self.lemma_tseq_lens();
            other.lemma_tseq_lens();
            assert(ps.subrange(0, 0) =~= Seq::<TermView>::empty());
            assert(qs.subrange(0, 0) =~= Seq::<TermView>::empty());
            assert(poly_add(to_map(ps.subrange(0, 0)), to_map(qs.subrange(0, 0))) =~= to_map(
                Seq::<TermView>::empty(),
            ));
        }
        let mut out: Vec<(Monomial, Rational)> = Vec::new();
        let mut i: usize = 0;
        let mut j: usize = 0;
        assert(seq_view(out@) =~= Seq::<TermView>::empty());
        while i < self.terms.len() || j < other.terms.len()
            invariant
                self.wf(),
                other.wf(),
                n == self.nvars,
                n == other.nvars,
                ps == self.tseq(),
                qs == other.tseq(),
                lens_eq(ps, n),
                lens_eq(qs, n),
                ps.len() == self.terms@.len(),
                qs.len() == other.terms@.len(),
                i <= ps.len(),
                j <= qs.len(),
                forall|k: int| 0 <= k < out@.len() ==> term_wf(#[trigger] out@[k], n),
                sorted_by::<O>(seq_view(out@)),
                i < ps.len() ==> all_below::<O>(seq_view(out@), ps[i as int].0),
                j < qs.len() ==> all_below::<O>(seq_view(out@), qs[j as int].0),
                i < ps.len() ==> all_below::<O>(qs.subrange(0, j as int), ps[i as int].0),
                j < qs.len() ==> all_below::<O>(ps.subrange(0, i as int), qs[j as int].0),
                to_map(seq_view(out@)) == poly_add(
                    to_map(ps.subrange(0, i as int)),
                    to_map(qs.subrange(0, j as int)),
                ),
            decreases ps.len() - i + qs.len() - j,
        {
            let ghost os = seq_view(out@);
            proof {
                assert(lens_eq(os, n)) by {
                    assert forall|k: int| 0 <= k < os.len() implies (#[trigger] os[k]).0.len()
                        == n by {
                        assert(term_wf(out@[k], n));
                    }
                }
                if i < ps.len() {
                    assert(term_wf(self.terms@[i as int], n));
                    lemma_prefix_below::<O>(ps, i as int);
                }
                if j < qs.len() {
                    assert(term_wf(other.terms@[j as int], n));
                    lemma_prefix_below::<O>(qs, j as int);
                }
            }
            let c: Ordering = if i == self.terms.len() {
                Ordering::Greater
            } else if j == other.terms.len() {
                Ordering::Less
            } else {
                O::compare(&self.terms[i].0, &other.terms[j].0)
            };
            proof {
                if i < ps.len() && j < qs.len() {
                    O::lemma_antisymmetric(ps[i as int].0, qs[j as int].0);
                }
            }
            match c {
                Ordering::Less => {
                    let t = (self.terms[i].0.copy(), self.terms[i].1);
                    out.push(t);
                    proof {
                        let m = ps[i as int].0;
                        assert(seq_view(out@) =~= os.push(ps[i as int]));
                        lemma_to_map_push(os, ps[i as int]);
                        lemma_to_map_prefix(ps, i as int);
                        lemma_below_absent::<O>(ps.subrange(0, i as int), m);
                        lemma_below_absent::<O>(qs.subrange(0, j as int), m);
                        lemma_add_insert_left(
                            to_map(ps.subrange(0, i as int)),
                            to_map(qs.subrange(0, j as int)),
                            m,
                            ps[i as int].1,
                        );
                        if i + 1 < ps.len() {
                            let m2 = ps[i + 1].0;
                            lemma_below_trans::<O>(os, m, m2);
                            lemma_below_trans::<O>(qs.subrange(0, j as int), m, m2);
                        }
                        if j < qs.len() {
                            assert(ps.subrange(0, i + 1) =~= ps.subrange(0, i as int).push(
                                ps[i as int],
                            ));
                        }
                    }
                    i = i + 1;
                },
                Ordering::Greater => {
                    let t = (other.terms[j].0.copy(), other.terms[j].1);
                    out.push(t);
                    proof {
                        let m = qs[j as int].0;
                        assert(seq_view(out@) =~= os.push(qs[j as int]));
                        lemma_to_map_push(os, qs[j as int]);
                        lemma_to_map_prefix(qs, j as int);
                        lemma_below_absent::<O>(ps.subrange(0, i as int), m);
                        lemma_below_absent::<O>(qs.subrange(0, j as int), m);
                        lemma_add_insert_left(
                            to_map(qs.subrange(0, j as int)),
                            to_map(ps.subrange(0, i as int)),
                            m,
                            qs[j as int].1,
                        );
                        if j + 1 < qs.len() {
                            let m2 = qs[j + 1].0;
                            lemma_below_trans::<O>(os, m, m2);
                            lemma_below_trans::<O>(ps.subrange(0, i as int), m, m2);
                        }
                        if i < ps.len() {
                            assert(qs.subrange(0, j + 1) =~= qs.subrange(0, j as int).push(
                                qs[j as int],
                            ));
                        }
                    }
                    j = j + 1;
                },
                Ordering::Equal => {
                    proof {
                        self.lemma_view();
                        other.lemma_view();
                        assert(self@.contains_key(self.terms@[i as int].0@));
                        assert(other@.contains_key(other.terms@[j as int].0@));
                    }
                    let s = match self.terms[i].1.checked_add(&other.terms[j].1) {
                        None => {
                            return None;
                        },
                        Some(s) => s,
                    };
                    let nz = !s.is_zero();
                    if nz {
                        let t = (self.terms[i].0.copy(), s);
                        out.push(t);
                    }
                    proof {
                        let m = ps[i as int].0;
                        lemma_to_map_prefix(ps, i as int);
                        lemma_to_map_prefix(qs, j as int);
                        lemma_below_absent::<O>(ps.subrange(0, i as int), m);
                        lemma_below_absent::<O>(qs.subrange(0, j as int), m);
                        lemma_add_insert_both(
                            to_map(ps.subrange(0, i as int)),
                            to_map(qs.subrange(0, j as int)),
                            m,
                            ps[i as int].1,
                            qs[j as int].1,
                        );
                        if nz {
                            assert(seq_view(out@) =~= os.push((m, s@)));
                            lemma_to_map_push(os, (m, s@));
                        } else {
                            assert(seq_view(out@) =~= os);
                        }
                        if i + 1 < ps.len() {
                            let m2 = ps[i + 1].0;
                            lemma_below_trans::<O>(os, m, m2);
                            lemma_below_trans::<O>(qs.subrange(0, j as int), m, m2);
                            assert(qs.subrange(0, j + 1) =~= qs.subrange(0, j as int).push(
                                qs[j as int],
                            ));
                        }
                        if j + 1 < qs.len() {
                            let m2 = qs[j + 1].0;
                            lemma_below_trans::<O>(os, m, m2);
                            lemma_below_trans::<O>(ps.subrange(0, i as int), m, m2);
                            assert(ps.subrange(0, i + 1) =~= ps.subrange(0, i as int).push(
                                ps[i as int],
                            ));
                        }
                    }
                    i = i + 1;
                    j = j + 1;
                },
            }
        }
        let r = Ordpol { nvars: self.nvars, terms: out, order: PhantomData };
        proof {
            assert(ps.subrange(0, ps.len() as int) =~= ps);
            assert(qs.subrange(0, qs.len() as int) =~= qs);
            assert(r.tseq() =~= seq_view(r.terms@));
        }
        Some(r)
    }
}

pub proof fn lemma_div_mul_cancel(k: Seq<nat>, t: Seq<nat>)
    requires
        k.len() == t.len(),
    ensures
        mono_divides(t, mono_mul(k, t)),
        mono_div(mono_mul(k, t), t) == k,
{
    assert(mono_div(mono_mul(k, t), t) =~= k);
}

pub proof fn lemma_mul_div_cancel(x: Seq<nat>, t: Seq<nat>)
    requires
        x.len() == t.len(),
        mono_divides(t, x),
    ensures
        mono_mul(mono_div(x, t), t) == x,
{
    assert(mono_mul(mono_div(x, t), t) =~= x);
}

pub proof fn lemma_mul_term_insert(
    t: Seq<nat>,
    c: (int, int),
    p: Map<Seq<nat>, (int, int)>,
    k: Seq<nat>,
    v: (int, int),
)
    requires
        !p.contains_key(k),
        k.len() == t.len(),
    ensures
        rat_mul(c, v) != rat_zero() ==> poly_mul_term(t, c, p.insert(k, v)) == poly_mul_term(
            t,
            c,
            p,
        ).insert(mono_mul(k, t), rat_mul(c, v)),
        rat_mul(c, v) == rat_zero() ==> poly_mul_term(t, c, p.insert(k, v)) == poly_mul_term(
            t,
            c,
            p,
        ),
{
    lemma_div_mul_cancel(k, t);
    let kt = mono_mul(k, t);
    assert forall|x: Seq<nat>|
        x.len() == t.len() && mono_divides(t, x) && mono_div(x, t) == k implies x == kt by {
        lemma_mul_div_cancel(x, t);
    }
    if rat_mul(c, v) != rat_zero() {
        assert(poly_mul_term(t, c, p.insert(k, v)) =~= poly_mul_term(t, c, p).insert(
            kt,
            rat_mul(c, v),
        ));
    } else {
        assert(poly_mul_term(t, c, p.insert(k, v)) =~= poly_mul_term(t, c, p));
    }
}

pub proof fn lemma_neg_insert(p: Map<Seq<nat>, (int, int)>, k: Seq<nat>, v: (int, int))
    ensures
        poly_neg(p.insert(k, v)) == poly_neg(p).insert(k, rat_neg(v)),
{
    assert(poly_neg(p.insert(k, v)) =~= poly_neg(p).insert(k, rat_neg(v)));
}

impl<O: MonomialOrder> Ordpol<O> {
    proof fn lemma_wf_facts(&self, i: int)
        requires
            self.wf(),
            0 <= i < self.terms@.len(),
        ensures
            term_wf(self.terms@[i], self.nvars as nat),
            self.tseq()[i] == term_view(self.terms@[i]),
            all_below::<O>(self.tseq().subrange(0, i), self.tseq()[i].0),
            i + 1 < self.terms@.len() ==> O::cmp(self.tseq()[i].0, self.tseq()[i + 1].0) < 0,
    {
        lemma_prefix_below::<O>(self.tseq(), i);
    }

    /// Negation: every coefficient negated.
    pub fn neg(&self) -> (r: Ordpol<O>)
        requires
            self.wf(),
        ensures
            r.wf(),
            r.nvars == self.nvars,
            r@ == poly_neg(self@),
    {
        let ghost ps = self.tseq();
        let ghost n = self.nvars as nat;
        let mut out: Vec<(Monomial, Rational)> = Vec::new();
        let mut i: usize = 0;
        proof {
            self.lemma_tseq_lens();
            assert(ps.subrange(0, 0) =~= Seq::<TermView>::empty());
            assert(seq_view(out@) =~= Seq::<TermView>::empty());
            assert(poly_neg(to_map(ps.subrange(0, 0))) =~= to_map(Seq::<TermView>::empty()));
        }
        while i < self.terms.len()
            invariant
                self.wf(),
                n == self.nvars,
                ps == self.tseq(),
                lens_eq(ps, n),
                ps.len() == self.terms@.len(),
                i <= ps.len(),
                out@.len() == i,
                forall|k: int| 0 <= k < out@.len() ==> term_wf(#[trigger] out@[k], n),
                forall|k: int| 0 <= k < out@.len() ==> (#[trigger] seq_view(out@)[k]).0 == ps[k].0,
                to_map(seq_view(out@)) == poly_neg(to_map(ps.subrange(0, i as int))),
            decreases ps.len() - i,
        {
            let ghost os = seq_view(out@);
            proof {
                self.lemma_wf_facts(i as int);
                lemma_nonzero_num(ps[i as int].1);
            }
            let t = (self.terms[i].0.copy(), self.terms[i].1.neg());
            out.push(t);
            proof {
                assert(seq_view(out@) =~= os.push((ps[i as int].0, rat_neg(ps[i as int].1))));
                lemma_to_map_push(os, (ps[i as int].0, rat_neg(ps[i as int].1)));
                lemma_to_map_prefix(ps, i as int);
                lemma_neg_insert(to_map(ps.subrange(0, i as int)), ps[i as int].0, ps[i as int].1);
            }
            i = i + 1;
        }
        let r = Ordpol { nvars: self.nvars, terms: out, order: PhantomData };
        proof {
            assert(ps.subrange(0, ps.len() as int) =~= ps);
            assert(r.tseq() =~= seq_view(r.terms@));
            assert(sorted_by::<O>(r.tseq())) by {
                assert forall|a: int, b: int| 0 <= a < b < r.tseq().len() implies O::cmp(
                    #[trigger] r.tseq()[a].0,
                    #[trigger] r.tseq()[b].0,
                ) < 0 by {
                    assert(r.tseq()[a].0 == ps[a].0);
                    assert(r.tseq()[b].0 == ps[b].0);
                }
            }
        }
        r
    }

    /// Difference, computed as the sum with the negation; `None` where a
    /// coefficient leaves the range of `i64`.
    pub fn sub(&self, other: &Ordpol<O>) -> (r: Option<Ordpol<O>>)
        requires
            self.wf(),
            other.wf(),
            self.nvars == other.nvars,
        ensures
            add_fits(self@, poly_neg(other@)) ==> r is Some,
            r matches Some(s) ==> s.wf() && s.nvars == self.nvars && s@ == poly_add(
                self@,
                poly_neg(other@),
            ),
    {
        let m = other.neg();
        self.add(&m)
    }

    /// The product of the term `c·t` with `self`; `None` where an exponent
    /// or a coefficient leaves its range.
    pub fn mul_term(&self, t: &Monomial, c: &Rational) -> (r: Option<Ordpol<O>>)
        requires
            self.wf(),
            t.wf(),
            c.wf(),
            t@.len() == self.nvars,
        ensures
            r matches Some(s) ==> s.wf() && s.nvars == self.nvars && s@ == poly_mul_term(
                t@,
                c@,
                self@,
            ),
            mul_term_fits(t@, c@, self@) ==> r is Some,
            r matches Some(s) ==> c@ != rat_zero() ==> s.tseq().len() == self.tseq().len()
                && forall|k: int|
                0 <= k < s.tseq().len() ==> #[trigger] s.tseq()[k] == (
                    mono_mul(self.tseq()[k].0, t@),
                    rat_mul(c@, self.tseq()[k].1),
                ),
    {
        let ghost ps = self.tseq();
        let ghost n = self.nvars as nat;
        let mut out: Vec<(Monomial, Rational)> = Vec::new();
        let mut i: usize = 0;
        proof {
            self.lemma_tseq_lens();
            assert(ps.subrange(0, 0) =~= Seq::<TermView>::empty());
            assert(seq_view(out@) =~= Seq::<TermView>::empty());
            assert(poly_mul_term(t@, c@, to_map(ps.subrange(0, 0))) =~= to_map(
                Seq::<TermView>::empty(),
            ));
        }
        while i < self.terms.len()
            invariant
                self.wf(),
                t.wf(),
                c.wf(),
                t@.len() == n,
                n == self.nvars,
                ps == self.tseq(),
                lens_eq(ps, n),
                ps.len() == self.terms@.len(),
                i <= ps.len(),
                forall|k: int| 0 <= k < out@.len() ==> term_wf(#[trigger] out@[k], n),
                sorted_by::<O>(seq_view(out@)),
                i < ps.len() ==> all_below::<O>(seq_view(out@), mono_mul(ps[i as int].0, t@)),
                to_map(seq_view(out@)) == poly_mul_term(t@, c@, to_map(ps.subrange(0, i as int))),
                c@ != rat_zero() ==> out@.len() == i && forall|k: int|
                    0 <= k < i ==> #[trigger] seq_view(out@)[k] == (
                        mono_mul(ps[k].0, t@),
                        rat_mul(c@, ps[k].1),
                    ),
            decreases ps.len() - i,
        {
            let ghost os = seq_view(out@);
            proof {
                self.lemma_wf_facts(i as int);
                if c@ != rat_zero() {
                    lemma_rat_mul_nonzero(c@, ps[i as int].1);
                }
                lemma_below_absent::<O>(ps.subrange(0, i as int), ps[i as int].0);
                lemma_to_map_prefix(ps, i as int);
                lemma_mul_term_insert(
                    t@,
                    c@,
                    to_map(ps.subrange(0, i as int)),
                    ps[i as int].0,
                    ps[i as int].1,
                );
                if i + 1 < ps.len() {
                    O::lemma_mul_compatible(ps[i as int].0, ps[i + 1].0, t@);
                }
            }
            proof {
                self.lemma_view();
                assert(self@.contains_key(self.terms@[i as int].0@));
            }
            let m = match self.terms[i].0.checked_mul(t) {
                None => {
                    return None;
                },
                Some(m) => m,
            };
            let d = match c.checked_mul(&self.terms[i].1) {
                None => {
                    return None;
                },
                Some(d) => d,
            };
            if !d.is_zero() {
                out.push((m, d));
                proof {
                    let x = (mono_mul(ps[i as int].0, t@), d@);
                    assert(seq_view(out@) =~= os.push(x));
                    if c@ != rat_zero() {
                        assert forall|k: int| 0 <= k < i + 1 implies #[trigger] seq_view(out@)[k] == (
                            mono_mul(ps[k].0, t@),
                            rat_mul(c@, ps[k].1),
                        ) by {
                            if k < i {
                                assert(seq_view(out@)[k] == os[k]);
                            }
                        }
                    }
                    lemma_to_map_push(os, x);
                    if i + 1 < ps.len() {
                        lemma_below_trans::<O>(
                            os,
                            mono_mul(ps[i as int].0, t@),
                            mono_mul(ps[i + 1].0, t@),
                        );
                    }
                }
            } else {
                proof {
                    if i + 1 < ps.len() {
                        assert(lens_eq(os, n)) by {
                            assert forall|k: int| 0 <= k < os.len() implies (
                            #[trigger] os[k]).0.len() == n by {
                                assert(term_wf(out@[k], n));
                            }
                        }
                        lemma_below_trans::<O>(
                            os,
                            mono_mul(ps[i as int].0, t@),
                            mono_mul(ps[i + 1].0, t@),
                        );
                    }
                }
            }
            i = i + 1;
        }
        let r = Ordpol { nvars: self.nvars, terms: out, order: PhantomData };
        proof {
            assert(ps.subrange(0, ps.len() as int) =~= ps);
            assert(r.tseq() =~= seq_view(r.terms@));
        }
        Some(r)
    }

    /// Product with a scalar; `None` where a coefficient leaves the range of
    /// `i64`.
    pub fn scale(&self, c: &Rational) -> (r: Option<Ordpol<O>>)
        requires
            self.wf(),
            c.wf(),
        ensures
            (forall|m: Seq<nat>| #[trigger] self@.contains_key(m) ==> rat_mul_fits(c@, self@[m]))
                ==> r is Some,
            r matches Some(s) ==> s.wf() && s.nvars == self.nvars && s@ == poly_mul_term(
                mono_one(self.nvars as nat),
                c@,
                self@,
            ),
    {
        let one = Monomial::one(self.nvars);
        proof {
            self.lemma_view();
            self.lemma_tseq_lens();
            assert forall|m: Seq<nat>| #[trigger]
                self@.contains_key(m) implies crate::monomial::mul_fits(m, one@) by {
                lemma_to_map_present(self.tseq(), m);
                let k = choose|k: int| 0 <= k < self.tseq().len() && self.tseq()[k].0 == m;
                assert(m == self.terms@[k].0@);
                assert forall|i: int| 0 <= i < m.len() implies mono_mul(m, one@)[i] <= u32::MAX by {
                    assert(m[i] == self.terms@[k].0.exps@[i] as nat);
                }
            }
        }
        self.mul_term(&one, c)
    }

    /// Product, summed term by term over `self`; `None` where an exponent or
    /// a coefficient leaves its range.
    pub fn mul(&self, other: &Ordpol<O>) -> (r: Option<Ordpol<O>>)
        requires
            self.wf(),
            other.wf(),
            self.nvars == other.nvars,
        ensures
            mul_fits_seq(self.tseq(), other@) ==> r is Some,
            r matches Some(s) ==> s.wf() && s.nvars == self.nvars && s@ == poly_mul_seq(
                self.tseq(),
                other@,
            ),
    {
        let ghost ps = self.tseq();
        let mut acc = Self::zero(self.nvars);
        let mut i: usize = 0;
        proof {
            self.lemma_tseq_lens();
            assert(ps.subrange(0, 0) =~= Seq::<TermView>::empty());
        }
        while i < self.terms.len()
            invariant
                self.wf(),
                other.wf(),
                self.nvars == other.nvars,
                ps == self.tseq(),
                ps.len() == self.terms@.len(),
                i <= ps.len(),
                acc.wf(),
                acc.nvars == self.nvars,
                acc@ == poly_mul_seq(ps.subrange(0, i as int), other@),
                mul_fits_seq(ps, other@) ==> mul_fits_seq(ps.subrange(0, i as int), other@),
            decreases ps.len() - i,
        {
            proof {
                self.lemma_wf_facts(i as int);
                assert(ps.subrange(0, i + 1).drop_last() =~= ps.subrange(0, i as int));
                if mul_fits_seq(ps, other@) {
                    lemma_mul_fits_prefix(ps, other@, i + 1);
                }
            }
            let t = match other.mul_term(&self.terms[i].0, &self.terms[i].1) {
                None => {
                    return None;
                },
                Some(t) => t,
            };
            acc = match acc.add(&t) {
                None => {
                    return None;
                },
                Some(a) => a,
            };
            i = i + 1;
        }
        proof {
            assert(ps.subrange(0, ps.len() as int) =~= ps);
        }
        Some(acc)
    }
}

/// The largest total degree among the terms; zero for no terms.
pub open spec fn max_degree(s: Seq<TermView>) -> nat
    decreases s.len(),
{
    if s.len() == 0 {
        0
    } else {
        let d = degree(s.last().0);
        let e = max_degree(s.drop_last());
        if d > e {
            d
        } else {
            e
        }
    }
}

impl<O: MonomialOrder> Ordpol<O> {
    /// The largest total degree of a term; zero for the zero polynomial.
    pub fn total_deg(&self) -> (r: u64)
        requires
            self.wf(),
        ensures
            r == max_degree(self.tseq()),
    {
        let ghost ps = self.tseq();
        let mut best: u64 = 0;
        let mut i: usize = 0;
        proof {
            assert(ps.subrange(0, 0) =~= Seq::<TermView>::empty());
        }
        while i < self.terms.len()
            invariant
                self.wf(),
                ps == self.tseq(),
                i <= self.terms@.len(),
                best == max_degree(ps.subrange(0, i as int)),
            decreases self.terms@.len() - i,
        {
            proof {
                self.lemma_wf_facts(i as int);
                assert(ps.subrange(0, i + 1).drop_last() =~= ps.subrange(0, i as int));
            }
            let d = self.terms[i].0.total_deg();
            if d > best {
                best = d;
            }
            i = i + 1;
        }
        proof {
            assert(ps.subrange(0, ps.len() as int) =~= ps);
        }
        best
    }

    /// The terms, leading term first.
    pub fn terms(&self) -> (r: Vec<(Monomial, Rational)>)
        requires
            self.wf(),
        ensures
            r@.len() == self.terms@.len(),
            forall|k: int|
                0 <= k < r@.len() ==> term_view(#[trigger] r@[k]) == self.tseq()[self.terms@.len()
                    - 1 - k],
    {
        let mut out: Vec<(Monomial, Rational)> = Vec::new();
        let mut i: usize = self.terms.len();
        while i > 0
            invariant
                self.wf(),
                i <= self.terms@.len(),
                out@.len() == self.terms@.len() - i,
                forall|k: int|
                    0 <= k < out@.len() ==> term_view(#[trigger] out@[k])
                        == self.tseq()[self.terms@.len() - 1 - k],
            decreases i,
        {
            let t = (self.terms[i - 1].0.copy(), self.terms[i - 1].1);
            out.push(t);
            i = i - 1;
        }
        out
    }
}

/// Multiplying by zero gives zero, on either side.
pub proof fn lemma_mul_zero(s: Seq<TermView>)
    ensures
        poly_mul_seq(s, Map::<Seq<nat>, (int, int)>::empty()) == Map::<Seq<nat>, (int, int)>::empty(),
        poly_mul_seq(Seq::<TermView>::empty(), to_map(s)) == Map::<Seq<nat>, (int, int)>::empty(),
    decreases s.len(),
{
    if s.len() > 0 {
        lemma_mul_zero(s.drop_last());
        let e = Map::<Seq<nat>, (int, int)>::empty();
        assert(poly_mul_term(s.last().0, s.last().1, e) =~= e);
        lemma_add_zero_zero();
        assert(poly_add(e, e) =~= e);
    }
}

/// Addition is commutative.
pub proof fn lemma_add_commutative(p: Map<Seq<nat>, (int, int)>, q: Map<Seq<nat>, (int, int)>)
    ensures
        poly_add(p, q) == poly_add(q, p),
{
    assert forall|m: Seq<nat>| #[trigger]
        rat_add(coef(p, m), coef(q, m)) == rat_add(coef(q, m), coef(p, m)) by {
        let a = coef(p, m);
        let b = coef(q, m);
        assert(a.0 * b.1 + b.0 * a.1 == b.0 * a.1 + a.0 * b.1);
        assert(a.1 * b.1 == b.1 * a.1) by (nonlinear_arith);
    }
    assert(poly_add(p, q) =~= poly_add(q, p));
}

/// Zero is the identity of addition.
pub proof fn lemma_add_zero_right(p: Map<Seq<nat>, (int, int)>)
    requires
        forall|m: Seq<nat>| #[trigger] p.contains_key(m) ==> lowest_terms(p[m]) && p[m] != rat_zero(),
    ensures
        poly_add(p, Map::<Seq<nat>, (int, int)>::empty()) == p,
{
    assert forall|m: Seq<nat>| p.contains_key(m) implies rat_add(coef(p, m), rat_zero()) == p[m] by {
        lemma_add_zero(p[m]);
    }
    lemma_add_zero_zero();
    assert(poly_add(p, Map::<Seq<nat>, (int, int)>::empty()) =~= p);
}

/// Taking off the leading term and adding it back gives the polynomial
/// again.
pub proof fn lemma_pop_reinsert<O: MonomialOrder>(p: Ordpol<O>)
    requires
        p.wf(),
        p.terms@.len() > 0,
    ensures
        poly_add(
            to_map(p.tseq().drop_last()),
            Map::<Seq<nat>, (int, int)>::empty().insert(p.tseq().last().0, p.tseq().last().1),
        ) == p@,
{
    let s = p.tseq();
    let k = s.len() - 1;
    let rest = to_map(s.drop_last());
    let m = s.last().0;
    let c = s.last().1;
    p.lemma_wf_facts(k);
    p.lemma_tseq_lens();
    p.lemma_view();
    assert(s.subrange(0, k) =~= s.drop_last());
    lemma_below_absent::<O>(s.drop_last(), m);
    assert(p@ == rest.insert(m, c));
    assert forall|x: Seq<nat>| #[trigger] rest.contains_key(x) implies lowest_terms(rest[x])
        && rest[x] != rat_zero() by {
        assert(p@.contains_key(x) && p@[x] == rest[x]);
    }
    let e = Map::<Seq<nat>, (int, int)>::empty();
    lemma_add_insert_left(e, rest, m, c);
    lemma_add_zero_right(rest);
}

/// Every coefficient is nonzero and in lowest terms, as in the view of a
/// well-formed polynomial.
pub open spec fn canonical(p: Map<Seq<nat>, (int, int)>) -> bool {
    forall|m: Seq<nat>| #[trigger] p.contains_key(m) ==> lowest_terms(p[m]) && p[m] != rat_zero()
}

pub proof fn lemma_coef_lowest(p: Map<Seq<nat>, (int, int)>, m: Seq<nat>)
    requires
        canonical(p),
    ensures
        lowest_terms(coef(p, m)),
        is_frac(coef(p, m)),
{
}

/// Two canonical maps with the same coefficients everywhere are equal.
pub proof fn lemma_map_ext(a: Map<Seq<nat>, (int, int)>, b: Map<Seq<nat>, (int, int)>)
    requires
        canonical(a),
        canonical(b),
        forall|m: Seq<nat>| coef(a, m) == coef(b, m),
    ensures
        a == b,
{
    assert forall|m: Seq<nat>| a.contains_key(m) <==> b.contains_key(m) by {
        assert(coef(a, m) == coef(b, m));
    }
    assert forall|m: Seq<nat>| a.contains_key(m) implies a[m] == b[m] by {
        assert(coef(a, m) == coef(b, m));
    }
    assert(a =~= b);
}

pub proof fn lemma_add_coef(p: Map<Seq<nat>, (int, int)>, q: Map<Seq<nat>, (int, int)>)
    requires
        canonical(p),
        canonical(q),
    ensures
        canonical(poly_add(p, q)),
        forall|m: Seq<nat>| #[trigger] coef(poly_add(p, q), m) == rat_add(coef(p, m), coef(q, m)),
{
    lemma_add_zero_zero();
    assert forall|m: Seq<nat>| #[trigger] poly_add(p, q).contains_key(m) implies lowest_terms(
        poly_add(p, q)[m],
    ) && poly_add(p, q)[m] != rat_zero() by {
        lemma_results_lowest(coef(p, m), coef(q, m));
    }
}

pub proof fn lemma_neg_coef(p: Map<Seq<nat>, (int, int)>)
    requires
        canonical(p),
    ensures
        canonical(poly_neg(p)),
        forall|m: Seq<nat>| #[trigger] coef(poly_neg(p), m) == rat_neg(coef(p, m)),
{
    assert forall|m: Seq<nat>| #[trigger] poly_neg(p).contains_key(m) implies lowest_terms(
        poly_neg(p)[m],
    ) && poly_neg(p)[m] != rat_zero() by {
        lemma_results_lowest(p[m], p[m]);
        lemma_nonzero_num(p[m]);
    }
}

/// Addition of canonical maps is associative.
pub proof fn lemma_add_assoc(
    p: Map<Seq<nat>, (int, int)>,
    q: Map<Seq<nat>, (int, int)>,
    r: Map<Seq<nat>, (int, int)>,
)
    requires
        canonical(p),
        canonical(q),
        canonical(r),
    ensures
        poly_add(poly_add(p, q), r) == poly_add(p, poly_add(q, r)),
{
    lemma_add_coef(p, q);
    lemma_add_coef(q, r);
    lemma_add_coef(poly_add(p, q), r);
    lemma_add_coef(p, poly_add(q, r));
    assert forall|m: Seq<nat>|
        coef(poly_add(poly_add(p, q), r), m) == coef(poly_add(p, poly_add(q, r)), m) by {
        lemma_rat_add_assoc(coef(p, m), coef(q, m), coef(r, m));
    }
    lemma_map_ext(poly_add(poly_add(p, q), r), poly_add(p, poly_add(q, r)));
}

/// `(a + b) + (c + d) = (a + c) + (b + d)` for canonical maps.
pub proof fn lemma_add_swap(
    a: Map<Seq<nat>, (int, int)>,
    b: Map<Seq<nat>, (int, int)>,
    c: Map<Seq<nat>, (int, int)>,
    d: Map<Seq<nat>, (int, int)>,
)
    requires
        canonical(a),
        canonical(b),
        canonical(c),
        canonical(d),
    ensures
        poly_add(poly_add(a, b), poly_add(c, d)) == poly_add(poly_add(a, c), poly_add(b, d)),
{
    lemma_add_coef(a, b);
    lemma_add_coef(c, d);
    lemma_add_coef(b, d);
    lemma_add_coef(a, c);
    lemma_add_coef(b, poly_add(c, d));
    lemma_add_coef(c, poly_add(b, d));
    lemma_add_assoc(a, b, poly_add(c, d));
    lemma_add_assoc(b, c, d);
    lemma_add_commutative(b, c);
    lemma_add_assoc(c, b, d);
    lemma_add_assoc(a, c, poly_add(b, d));
}

/// A canonical map plus its negation is zero.
pub proof fn lemma_add_neg_map(p: Map<Seq<nat>, (int, int)>)
    requires
        canonical(p),
    ensures
        poly_add(p, poly_neg(p)) == Map::<Seq<nat>, (int, int)>::empty(),
{
    lemma_neg_coef(p);
    lemma_add_coef(p, poly_neg(p));
    assert forall|m: Seq<nat>|
        coef(poly_add(p, poly_neg(p)), m) == coef(Map::<Seq<nat>, (int, int)>::empty(), m) by {
        lemma_rat_add_neg(coef(p, m));
    }
    lemma_map_ext(poly_add(p, poly_neg(p)), Map::<Seq<nat>, (int, int)>::empty());
}

pub proof fn lemma_add_zero_left(p: Map<Seq<nat>, (int, int)>)
    requires
        canonical(p),
    ensures
        poly_add(Map::<Seq<nat>, (int, int)>::empty(), p) == p,
        poly_add(p, Map::<Seq<nat>, (int, int)>::empty()) == p,
{
    lemma_add_zero_right(p);
    lemma_add_commutative(Map::<Seq<nat>, (int, int)>::empty(), p);
}

pub proof fn lemma_mul_term_coef(t: Seq<nat>, c: (int, int), p: Map<Seq<nat>, (int, int)>)
    requires
        canonical(p),
        lowest_terms(c),
    ensures
        canonical(poly_mul_term(t, c, p)),
        forall|x: Seq<nat>| #[trigger]
            coef(poly_mul_term(t, c, p), x) == (if x.len() == t.len() && mono_divides(t, x) {
                rat_mul(c, coef(p, mono_div(x, t)))
            } else {
                rat_zero()
            }),
{
    lemma_rat_mul_zero(c);
    assert forall|x: Seq<nat>| #[trigger] poly_mul_term(t, c, p).contains_key(x) implies lowest_terms(
        poly_mul_term(t, c, p)[x],
    ) && poly_mul_term(t, c, p)[x] != rat_zero() by {
        lemma_results_lowest(c, p[mono_div(x, t)]);
    }
}

/// Multiplying by a term distributes over a sum.
pub proof fn lemma_mul_term_distrib(
    t: Seq<nat>,
    c: (int, int),
    p: Map<Seq<nat>, (int, int)>,
    q: Map<Seq<nat>, (int, int)>,
)
    requires
        canonical(p),
        canonical(q),
        lowest_terms(c),
    ensures
        poly_mul_term(t, c, poly_add(p, q)) == poly_add(
            poly_mul_term(t, c, p),
            poly_mul_term(t, c, q),
        ),
{
    lemma_add_coef(p, q);
    lemma_mul_term_coef(t, c, p);
    lemma_mul_term_coef(t, c, q);
    lemma_mul_term_coef(t, c, poly_add(p, q));
    lemma_add_coef(poly_mul_term(t, c, p), poly_mul_term(t, c, q));
    lemma_add_zero_zero();
    assert forall|x: Seq<nat>|
        coef(poly_mul_term(t, c, poly_add(p, q)), x) == coef(
            poly_add(poly_mul_term(t, c, p), poly_mul_term(t, c, q)),
            x,
        ) by {
        if x.len() == t.len() && mono_divides(t, x) {
            lemma_rat_distrib(c, coef(p, mono_div(x, t)), coef(q, mono_div(x, t)));
        }
    }
    lemma_map_ext(
        poly_mul_term(t, c, poly_add(p, q)),
        poly_add(poly_mul_term(t, c, p), poly_mul_term(t, c, q)),
    );
}

pub open spec fn lowest_coeffs(s: Seq<TermView>) -> bool {
    forall|k: int| 0 <= k < s.len() ==> lowest_terms(#[trigger] s[k].1)
}

pub proof fn lemma_mul_seq_canonical(s: Seq<TermView>, q: Map<Seq<nat>, (int, int)>)
    requires
        lowest_coeffs(s),
        canonical(q),
    ensures
        canonical(poly_mul_seq(s, q)),
    decreases s.len(),
{
    if s.len() > 0 {
        lemma_mul_seq_canonical(s.drop_last(), q);
        lemma_mul_term_coef(s.last().0, s.last().1, q);
        lemma_add_coef(poly_mul_seq(s.drop_last(), q), poly_mul_term(s.last().0, s.last().1, q));
    }
}

/// The product distributes over a sum in its right factor.
pub proof fn lemma_mul_seq_distrib(
    s: Seq<TermView>,
    p: Map<Seq<nat>, (int, int)>,
    q: Map<Seq<nat>, (int, int)>,
)
    requires
        lowest_coeffs(s),
        canonical(p),
        canonical(q),
    ensures
        poly_mul_seq(s, poly_add(p, q)) == poly_add(poly_mul_seq(s, p), poly_mul_seq(s, q)),
    decreases s.len(),
{
    let e = Map::<Seq<nat>, (int, int)>::empty();
    if s.len() == 0 {
        lemma_add_zero_zero();
        assert(poly_add(e, e) =~= e);
    } else {
        let s0 = s.drop_last();
        let (t, c) = s.last();
        lemma_mul_seq_distrib(s0, p, q);
        lemma_add_coef(p, q);
        lemma_mul_term_distrib(t, c, p, q);
        lemma_mul_seq_canonical(s0, p);
        lemma_mul_seq_canonical(s0, q);
        lemma_mul_term_coef(t, c, p);
        lemma_mul_term_coef(t, c, q);
        lemma_add_swap(
            poly_mul_seq(s0, p),
            poly_mul_seq(s0, q),
            poly_mul_term(t, c, p),
            poly_mul_term(t, c, q),
        );
    }
}

impl<O: MonomialOrder> Ordpol<O> {
    pub proof fn lemma_canonical(&self)
        requires
            self.wf(),
        ensures
            canonical(self@),
            lowest_coeffs(self.tseq()),
    {
        self.lemma_view();
        assert forall|k: int| 0 <= k < self.tseq().len() implies lowest_terms(
            #[trigger] self.tseq()[k].1,
        ) by {
            assert(term_wf(self.terms@[k], self.nvars as nat));
        }
    }
}

/// The ring laws that hold of the polynomial operations: addition is
/// commutative and associative with zero as identity, `p − p = 0`,
/// `p·0 = 0 = 0·p`, and the product distributes over a sum in its right
/// factor.
pub proof fn lemma_ring_laws<O: MonomialOrder>(p: Ordpol<O>, q: Ordpol<O>, r: Ordpol<O>)
    requires
        p.wf(),
        q.wf(),
        r.wf(),
    ensures
        poly_add(p@, q@) == poly_add(q@, p@),
        poly_add(poly_add(p@, q@), r@) == poly_add(p@, poly_add(q@, r@)),
        poly_add(p@, Map::<Seq<nat>, (int, int)>::empty()) == p@,
        poly_add(p@, poly_neg(p@)) == Map::<Seq<nat>, (int, int)>::empty(),
        poly_mul_seq(p.tseq(), Map::<Seq<nat>, (int, int)>::empty()) == Map::<
            Seq<nat>,
            (int, int),
        >::empty(),
        poly_mul_seq(Seq::<TermView>::empty(), p@) == Map::<Seq<nat>, (int, int)>::empty(),
        poly_mul_seq(p.tseq(), poly_add(q@, r@)) == poly_add(
            poly_mul_seq(p.tseq(), q@),
            poly_mul_seq(p.tseq(), r@),
        ),
{
    p.lemma_canonical();
    q.lemma_canonical();
    r.lemma_canonical();
    lemma_add_commutative(p@, q@);
    lemma_add_assoc(p@, q@, r@);
    lemma_add_zero_left(p@);
    lemma_add_neg_map(p@);
    lemma_mul_zero(p.tseq());
    lemma_mul_seq_distrib(p.tseq(), q@, r@);
}

/// Negation distributes over a sum.
pub proof fn lemma_neg_add(p: Map<Seq<nat>, (int, int)>, q: Map<Seq<nat>, (int, int)>)
    requires
        canonical(p),
        canonical(q),
    ensures
        poly_neg(poly_add(p, q)) == poly_add(poly_neg(p), poly_neg(q)),
{
    lemma_add_coef(p, q);
    lemma_neg_coef(p);
    lemma_neg_coef(q);
    lemma_neg_coef(poly_add(p, q));
    lemma_add_coef(poly_neg(p), poly_neg(q));
    assert forall|m: Seq<nat>|
        coef(poly_neg(poly_add(p, q)), m) == coef(poly_add(poly_neg(p), poly_neg(q)), m) by {
        lemma_rat_neg_add(coef(p, m), coef(q, m));
    }
    lemma_map_ext(poly_neg(poly_add(p, q)), poly_add(poly_neg(p), poly_neg(q)));
}

/// A term factor commutes with negation.
pub proof fn lemma_mul_term_neg(t: Seq<nat>, c: (int, int), p: Map<Seq<nat>, (int, int)>)
    requires
        canonical(p),
        lowest_terms(c),
    ensures
        poly_mul_term(t, c, poly_neg(p)) == poly_neg(poly_mul_term(t, c, p)),
{
    lemma_neg_coef(p);
    lemma_mul_term_coef(t, c, p);
    lemma_mul_term_coef(t, c, poly_neg(p));
    lemma_neg_coef(poly_mul_term(t, c, p));
    assert forall|x: Seq<nat>|
        coef(poly_mul_term(t, c, poly_neg(p)), x) == coef(poly_neg(poly_mul_term(t, c, p)), x) by {
        if x.len() == t.len() && mono_divides(t, x) {
            lemma_rat_mul_neg(c, coef(p, mono_div(x, t)));
        }
    }
    lemma_map_ext(poly_mul_term(t, c, poly_neg(p)), poly_neg(poly_mul_term(t, c, p)));
}

/// Two term factors may be applied in either order.
pub proof fn lemma_mul_term_swap(
    t1: Seq<nat>,
    c1: (int, int),
    t2: Seq<nat>,
    c2: (int, int),
    p: Map<Seq<nat>, (int, int)>,
)
    requires
        canonical(p),
        lowest_terms(c1),
        lowest_terms(c2),
        t1.len() == t2.len(),
    ensures
        poly_mul_term(t1, c1, poly_mul_term(t2, c2, p)) == poly_mul_term(
            t2,
            c2,
            poly_mul_term(t1, c1, p),
        ),
{
    lemma_mul_term_coef(t2, c2, p);
    lemma_mul_term_coef(t1, c1, p);
    lemma_mul_term_coef(t1, c1, poly_mul_term(t2, c2, p));
    lemma_mul_term_coef(t2, c2, poly_mul_term(t1, c1, p));
    lemma_rat_mul_zero(c1);
    lemma_rat_mul_zero(c2);
    assert forall|x: Seq<nat>|
        coef(poly_mul_term(t1, c1, poly_mul_term(t2, c2, p)), x) == coef(
            poly_mul_term(t2, c2, poly_mul_term(t1, c1, p)),
            x,
        ) by {
        if x.len() == t1.len() {
            let l = mono_divides(t1, x) && mono_divides(t2, mono_div(x, t1));
            let r = mono_divides(t2, x) && mono_divides(t1, mono_div(x, t2));
            assert(l == r) by {
                if l {
                    assert forall|i: int| 0 <= i < t2.len() implies t2[i] <= x[i] by {
                        assert(t2[i] <= mono_div(x, t1)[i]);
                    }
                    assert forall|i: int| 0 <= i < t1.len() implies t1[i] <= mono_div(x, t2)[i] by {
                        assert(t2[i] <= mono_div(x, t1)[i]);
                    }
                }
                if r {
                    assert forall|i: int| 0 <= i < t1.len() implies t1[i] <= x[i] by {
                        assert(t1[i] <= mono_div(x, t2)[i]);
                    }
                    assert forall|i: int| 0 <= i < t2.len() implies t2[i] <= mono_div(x, t1)[i] by {
                        assert(t1[i] <= mono_div(x, t2)[i]);
                    }
                }
            }
            if l {
                assert(mono_div(mono_div(x, t1), t2) =~= mono_div(mono_div(x, t2), t1));
                lemma_coef_lowest(p, mono_div(mono_div(x, t1), t2));
                lemma_rat_mul_swap(c1, c2, coef(p, mono_div(mono_div(x, t1), t2)));
            }
        }
    }
    lemma_map_ext(
        poly_mul_term(t1, c1, poly_mul_term(t2, c2, p)),
        poly_mul_term(t2, c2, poly_mul_term(t1, c1, p)),
    );
}

/// The product commutes with negation of its right factor.
pub proof fn lemma_mul_seq_neg(s: Seq<TermView>, q: Map<Seq<nat>, (int, int)>)
    requires
        lowest_coeffs(s),
        canonical(q),
    ensures
        poly_mul_seq(s, poly_neg(q)) == poly_neg(poly_mul_seq(s, q)),
    decreases s.len(),
{
    if s.len() == 0 {
        assert(poly_neg(Map::<Seq<nat>, (int, int)>::empty()) =~= Map::<Seq<nat>, (int, int)>::empty());
    } else {
        let s0 = s.drop_last();
        let (t, c) = s.last();
        lemma_mul_seq_neg(s0, q);
        lemma_mul_term_neg(t, c, q);
        lemma_mul_seq_canonical(s0, q);
        lemma_mul_term_coef(t, c, q);
        lemma_neg_add(poly_mul_seq(s0, q), poly_mul_term(t, c, q));
    }
}

/// A term factor on the right factor moves out of the product.
pub proof fn lemma_mul_seq_term(
    s: Seq<TermView>,
    t: Seq<nat>,
    c: (int, int),
    q: Map<Seq<nat>, (int, int)>,
)
    requires
        lowest_coeffs(s),
        canonical(q),
        lowest_terms(c),
        forall|k: int| 0 <= k < s.len() ==> (#[trigger] s[k]).0.len() == t.len(),
    ensures
        poly_mul_seq(s, poly_mul_term(t, c, q)) == poly_mul_term(t, c, poly_mul_seq(s, q)),
    decreases s.len(),
{
    if s.len() == 0 {
        assert(poly_mul_term(t, c, Map::<Seq<nat>, (int, int)>::empty()) =~= Map::<
            Seq<nat>,
            (int, int),
        >::empty());
    } else {
        let s0 = s.drop_last();
        let (t1, c1) = s.last();
        assert(s[s.len() - 1].0.len() == t.len());
        lemma_mul_seq_term(s0, t, c, q);
        lemma_mul_term_swap(t1, c1, t, c, q);
        lemma_mul_seq_canonical(s0, q);
        lemma_mul_term_coef(t1, c1, q);
        lemma_mul_term_distrib(t, c, poly_mul_seq(s0, q), poly_mul_term(t1, c1, q));
    }
}

/// The unit polynomial in `n` variables.
pub open spec fn unit_map(n: nat) -> Map<Seq<nat>, (int, int)> {
    Map::<Seq<nat>, (int, int)>::empty().insert(mono_one(n), rat_one())
}

/// Coefficients of the sequence are nonzero and in lowest terms.
pub open spec fn good_coeffs(s: Seq<TermView>) -> bool {
    forall|k: int| 0 <= k < s.len() ==> lowest_terms(#[trigger] s[k].1) && s[k].1 != rat_zero()
}

pub proof fn lemma_rat_mul_one(c: (int, int))
    requires
        lowest_terms(c),
    ensures
        rat_mul(c, rat_one()) == c,
        rat_mul(rat_one(), c) == c,
{
    assert(same_value(c, (c.0 * 1, c.1 * 1)));
    lemma_canon(c, (c.0 * 1, c.1 * 1));
    assert(same_value(c, (1 * c.0, 1 * c.1)));
    lemma_canon(c, (1 * c.0, 1 * c.1));
}

/// A term times the unit is the term.
pub proof fn lemma_mul_term_unit(t: Seq<nat>, c: (int, int))
    requires
        lowest_terms(c),
        c != rat_zero(),
    ensures
        poly_mul_term(t, c, unit_map(t.len())) == Map::<Seq<nat>, (int, int)>::empty().insert(t, c),
{
    lemma_rat_mul_one(c);
    let n = t.len();
    assert forall|x: Seq<nat>|
        x.len() == t.len() && mono_divides(t, x) && mono_div(x, t) == mono_one(n) implies x == t by {
        assert(x =~= t) by {
            assert forall|i: int| 0 <= i < x.len() implies x[i] == t[i] by {
                assert(mono_div(x, t)[i] == 0);
            }
        }
    }
    assert(mono_divides(t, t));
    assert(mono_div(t, t) =~= mono_one(n));
    assert(poly_mul_term(t, c, unit_map(n)) =~= Map::<Seq<nat>, (int, int)>::empty().insert(t, c));
}

/// The unit term times a polynomial is the polynomial.
pub proof fn lemma_unit_mul_term(p: Map<Seq<nat>, (int, int)>, n: nat)
    requires
        canonical(p),
        forall|m: Seq<nat>| #[trigger] p.contains_key(m) ==> m.len() == n,
    ensures
        poly_mul_term(mono_one(n), rat_one(), p) == p,
{
    assert forall|x: Seq<nat>| x.len() == n implies mono_divides(mono_one(n), x) && mono_div(
        x,
        mono_one(n),
    ) == x by {
        assert(mono_div(x, mono_one(n)) =~= x);
    }
    assert forall|x: Seq<nat>| #[trigger] p.contains_key(x) implies rat_mul(rat_one(), p[x])
        == p[x] by {
        lemma_rat_mul_one(p[x]);
    }
    assert(poly_mul_term(mono_one(n), rat_one(), p) =~= p);
}

pub proof fn lemma_to_map_canonical(s: Seq<TermView>)
    requires
        good_coeffs(s),
    ensures
        canonical(to_map(s)),
    decreases s.len(),
{
    if s.len() > 0 {
        lemma_to_map_canonical(s.drop_last());
    }
}

/// A sorted sequence times the unit is its own map.
pub proof fn lemma_mul_seq_unit<O: MonomialOrder>(s: Seq<TermView>, n: nat)
    requires
        sorted_by::<O>(s),
        good_coeffs(s),
        lens_eq(s, n),
    ensures
        poly_mul_seq(s, unit_map(n)) == to_map(s),
    decreases s.len(),
{
    if s.len() > 0 {
        let s0 = s.drop_last();
        let (t, c) = s.last();
        assert(sorted_by::<O>(s0));
        lemma_mul_seq_unit::<O>(s0, n);
        assert(s[s.len() - 1].0.len() == n);
        lemma_mul_term_unit(t, c);
        lemma_prefix_below::<O>(s, s.len() - 1);
        assert(s.subrange(0, s.len() - 1) =~= s0);
        lemma_below_absent::<O>(s0, t);
        lemma_to_map_canonical(s0);
        let e = Map::<Seq<nat>, (int, int)>::empty();
        lemma_add_insert_left(e, to_map(s0), t, c);
        lemma_add_zero_left(to_map(s0));
    }
}

/// Multiplication of polynomial views is commutative.
pub proof fn lemma_mul_seq_comm<O: MonomialOrder>(s: Seq<TermView>, u: Seq<TermView>, n: nat)
    requires
        sorted_by::<O>(s),
        sorted_by::<O>(u),
        good_coeffs(s),
        good_coeffs(u),
        lens_eq(s, n),
        lens_eq(u, n),
    ensures
        poly_mul_seq(s, to_map(u)) == poly_mul_seq(u, to_map(s)),
    decreases u.len(),
{
    let e = Map::<Seq<nat>, (int, int)>::empty();
    if u.len() == 0 {
        lemma_mul_zero(s);
    } else {
        let u0 = u.drop_last();
        let (t, c) = u.last();
        assert(sorted_by::<O>(u0));
        lemma_mul_seq_comm::<O>(s, u0, n);
        assert(u[u.len() - 1].0.len() == n);
        lemma_prefix_below::<O>(u, u.len() - 1);
        assert(u.subrange(0, u.len() - 1) =~= u0);
        lemma_below_absent::<O>(u0, t);
        lemma_to_map_canonical(u0);
        lemma_to_map_canonical(s);
        lemma_add_insert_left(e, to_map(u0), t, c);
        lemma_add_zero_left(to_map(u0));
        let single = e.insert(t, c);
        assert(canonical(single));
        assert(lowest_coeffs(s));
        lemma_mul_seq_distrib(s, to_map(u0), single);
        lemma_mul_term_unit(t, c);
        assert(canonical(unit_map(n)));
        lemma_mul_seq_term(s, t, c, unit_map(n));
        lemma_mul_seq_unit::<O>(s, n);
    }
}

/// Left multiplications commute: `r·(p·q) = p·(r·q)`.
pub proof fn lemma_mul_seq_left_comm(r: Seq<TermView>, p: Seq<TermView>, q: Map<Seq<nat>, (int, int)>, n: nat)
    requires
        lowest_coeffs(r),
        lowest_coeffs(p),
        canonical(q),
        lens_eq(r, n),
        lens_eq(p, n),
    ensures
        poly_mul_seq(r, poly_mul_seq(p, q)) == poly_mul_seq(p, poly_mul_seq(r, q)),
    decreases r.len(),
{
    if r.len() == 0 {
        lemma_mul_seq_canonical(p, q);
        lemma_mul_zero(p);
    } else {
        let r0 = r.drop_last();
        let (t, c) = r.last();
        assert(r[r.len() - 1].0.len() == n);
        lemma_mul_seq_left_comm(r0, p, q, n);
        lemma_mul_seq_term(p, t, c, q);
        lemma_mul_seq_canonical(r0, q);
        lemma_mul_term_coef(t, c, q);
        lemma_mul_seq_distrib(p, poly_mul_seq(r0, q), poly_mul_term(t, c, q));
    }
}

impl<O: MonomialOrder> Ordpol<O> {
    pub proof fn lemma_seq_facts(&self)
        requires
            self.wf(),
        ensures
            sorted_by::<O>(self.tseq()),
            good_coeffs(self.tseq()),
            lowest_coeffs(self.tseq()),
            lens_eq(self.tseq(), self.nvars as nat),
            canonical(self@),
            self@ == to_map(self.tseq()),
            forall|m: Seq<nat>| #[trigger] self@.contains_key(m) ==> m.len() == self.nvars,
    {
        self.lemma_tseq_lens();
        self.lemma_canonical();
        self.lemma_view();
        assert forall|k: int| 0 <= k < self.tseq().len() implies lowest_terms(
            #[trigger] self.tseq()[k].1,
        ) && self.tseq()[k].1 != rat_zero() by {
            assert(term_wf(self.terms@[k], self.nvars as nat));
        }
    }
}

/// The multiplicative laws: the product is commutative and associative,
/// with the unit polynomial as identity on either side. Associativity is
/// stated for any well-formed `pq` that holds the product of `p` and `q`.
pub proof fn lemma_mul_laws<O: MonomialOrder>(p: Ordpol<O>, q: Ordpol<O>, r: Ordpol<O>, pq: Ordpol<O>)
    requires
        p.wf(),
        q.wf(),
        r.wf(),
        pq.wf(),
        p.nvars == q.nvars,
        q.nvars == r.nvars,
        pq.nvars == p.nvars,
        pq@ == poly_mul_seq(p.tseq(), q@),
    ensures
        poly_mul_seq(p.tseq(), q@) == poly_mul_seq(q.tseq(), p@),
        poly_mul_seq(pq.tseq(), r@) == poly_mul_seq(p.tseq(), poly_mul_seq(q.tseq(), r@)),
        poly_mul_seq(p.tseq(), unit_map(p.nvars as nat)) == p@,
        poly_mul_seq(seq![(mono_one(p.nvars as nat), rat_one())], p@) == p@,
{
    let n = p.nvars as nat;
    p.lemma_seq_facts();
    q.lemma_seq_facts();
    r.lemma_seq_facts();
    pq.lemma_seq_facts();
    lemma_mul_seq_comm::<O>(p.tseq(), q.tseq(), n);
    lemma_mul_seq_comm::<O>(pq.tseq(), r.tseq(), n);
    lemma_mul_seq_left_comm(r.tseq(), p.tseq(), q@, n);
    lemma_mul_seq_comm::<O>(r.tseq(), q.tseq(), n);
    lemma_mul_seq_unit::<O>(p.tseq(), n);
    let one_seq = seq![(mono_one(n), rat_one())];
    assert(one_seq.drop_last() =~= Seq::<TermView>::empty());
    assert(poly_mul_seq(one_seq.drop_last(), p@) == Map::<Seq<nat>, (int, int)>::empty());
    assert(one_seq.last() == (mono_one(n), rat_one()));
    assert(poly_mul_seq(one_seq, p@) == poly_add(
        poly_mul_seq(one_seq.drop_last(), p@),
        poly_mul_term(mono_one(n), rat_one(), p@),
    ));
    lemma_unit_mul_term(p@, n);
    lemma_add_zero_left(p@);
}

/// `x^e`.
pub open spec fn rat_pow(x: (int, int), e: nat) -> (int, int)
    decreases e,
{
    if e == 0 {
        rat_one()
    } else {
        rat_mul(rat_pow(x, (e - 1) as nat), x)
    }
}

/// The value of the monomial `m` at the point `pt`, over its first `i`
/// variables.
pub open spec fn mono_eval(m: Seq<nat>, pt: Seq<(int, int)>, i: int) -> (int, int)
    decreases i,
{
    if i <= 0 {
        rat_one()
    } else {
        rat_mul(mono_eval(m, pt, i - 1), rat_pow(pt[i - 1], m[i - 1]))
    }
}

/// The value of the sum of terms `s` at the point `pt`.
pub open spec fn poly_eval(s: Seq<TermView>, pt: Seq<(int, int)>) -> (int, int)
    decreases s.len(),
{
    if s.len() == 0 {
        rat_zero()
    } else {
        rat_add(
            poly_eval(s.drop_last(), pt),
            rat_mul(s.last().1, mono_eval(s.last().0, pt, s.last().0.len() as int)),
        )
    }
}

impl<O: MonomialOrder> Ordpol<O> {
    /// The value at the point `pt`, one rational per variable; `None` where a
    /// coefficient leaves the range of `i64`.
    pub fn eval(&self, pt: &Vec<Rational>) -> (r: Option<Rational>)
        requires
            self.wf(),
            pt@.len() == self.nvars,
            forall|i: int| 0 <= i < pt@.len() ==> (#[trigger] pt@[i]).wf(),
        ensures
            r matches Some(v) ==> v.wf() && v@ == poly_eval(
                self.tseq(),
                pt@.map_values(|q: Rational| q@),
            ),
    {
        let ghost pv = pt@.map_values(|q: Rational| q@);
        let ghost s = self.tseq();
        let mut acc = Rational::zero();
        let mut k: usize = 0;
        proof {
            assert(s.subrange(0, 0) =~= Seq::<TermView>::empty());
        }
        while k < self.terms.len()
            invariant
                self.wf(),
                s == self.tseq(),
                pv == pt@.map_values(|q: Rational| q@),
                pt@.len() == self.nvars,
                forall|i: int| 0 <= i < pt@.len() ==> (#[trigger] pt@[i]).wf(),
                k <= self.terms@.len(),
                acc.wf(),
                acc@ == poly_eval(s.subrange(0, k as int), pv),
            decreases self.terms@.len() - k,
        {
            assert(term_wf(self.terms@[k as int], self.nvars as nat));
            let m = &self.terms[k].0;
            let mut mv = Rational::one();
            let mut i: usize = 0;
            while i < m.len()
                invariant
                    m.wf(),
                    m@.len() == pt@.len(),
                    pv == pt@.map_values(|q: Rational| q@),
                    forall|j: int| 0 <= j < pt@.len() ==> (#[trigger] pt@[j]).wf(),
                    i <= m@.len(),
                    mv.wf(),
                    mv@ == mono_eval(m@, pv, i as int),
                decreases m@.len() - i,
            {
                let x = pt[i];
                let e = m.exponent(i);
                let mut pw = Rational::one();
                let mut j: u32 = 0;
                while j < e
                    invariant
                        x.wf(),
                        j <= e,
                        pw.wf(),
                        pw@ == rat_pow(x@, j as nat),
                    decreases e - j,
                {
                    pw = match pw.checked_mul(&x) {
                        None => {
                            return None;
                        },
                        Some(v) => v,
                    };
                    j = j + 1;
                }
                assert(pv[i as int] == x@);
                mv = match mv.checked_mul(&pw) {
                    None => {
                        return None;
                    },
                    Some(v) => v,
                };
                i = i + 1;
            }
            let c = self.terms[k].1;
            let tv = match c.checked_mul(&mv) {
                None => {
                    return None;
                },
                Some(v) => v,
            };
            proof {
                assert(s.subrange(0, k + 1).drop_last() =~= s.subrange(0, k as int));
                assert(s.subrange(0, k + 1).last() == s[k as int]);
            }
            acc = match acc.checked_add(&tv) {
                None => {
                    return None;
                },
                Some(v) => v,
            };
            k = k + 1;
        }
        proof {
            assert(s.subrange(0, s.len() as int) =~= s);
        }
        Some(acc)
    }
}

} // verus!
