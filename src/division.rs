//! Division with remainder by a list of polynomials, and S-polynomials.
use crate::monomial::{mono_div, mono_divides, mono_lcm, mono_mul, Monomial};
use crate::order::MonomialOrder;
use crate::ordpol::{
    canonical, lemma_add_assoc, lemma_add_coef, lemma_add_commutative, lemma_add_neg_map,
    lemma_add_swap, lemma_add_zero_left, lemma_mul_seq_canonical, lemma_mul_seq_distrib,
    lemma_mul_zero, lemma_neg_coef, lemma_pop_reinsert, poly_add, poly_mul_seq, poly_mul_term,
    poly_neg, term_view, term_wf, to_map, Ordpol, TermView, coef, add_fits, mul_term_fits,
    mul_fits_seq,
};
use crate::rational::{lowest_terms, rat_div, rat_div_fits, rat_one, rat_zero, Rational};
use vstd::prelude::*;

verus! {

/// The number of reduction steps after which the engines give up.
pub const MAX_STEPS: u64 = 0xFFFF_FFFF_FFFF_FFFF;

/// The leading term of a nonzero polynomial.
pub open spec fn lead<O: MonomialOrder>(p: Ordpol<O>) -> TermView {
    p.tseq().last()
}

/// The single term `t` as a polynomial; zero where its coefficient is.
pub open spec fn single(t: TermView) -> Map<Seq<nat>, (int, int)> {
    if t.1 == rat_zero() {
        Map::empty()
    } else {
        Map::empty().insert(t.0, t.1)
    }
}

/// The sum of a sequence of terms.
pub open spec fn sum_terms(s: Seq<TermView>) -> Map<Seq<nat>, (int, int)>
    decreases s.len(),
{
    if s.len() == 0 {
        Map::empty()
    } else {
        poly_add(sum_terms(s.drop_last()), single(s.last()))
    }
}

/// Every partial sum of the terms `s` stays in range.
pub open spec fn sum_fits(s: Seq<TermView>) -> bool
    decreases s.len(),
{
    if s.len() == 0 {
        true
    } else {
        sum_fits(s.drop_last()) && add_fits(sum_terms(s.drop_last()), single(s.last()))
    }
}

pub proof fn lemma_sum_fits_prefix(s: Seq<TermView>, k: int)
    requires
        sum_fits(s),
        0 <= k <= s.len(),
    ensures
        sum_fits(s.subrange(0, k)),
    decreases s.len(),
{
    if k == s.len() {
        assert(s.subrange(0, k) =~= s);
    } else {
        lemma_sum_fits_prefix(s.drop_last(), k);
        assert(s.drop_last().subrange(0, k) =~= s.subrange(0, k));
    }
}

/// The S-polynomial's two scaled terms and their difference stay in range.
pub open spec fn spol_fits<O: MonomialOrder>(f: Ordpol<O>, g: Ordpol<O>) -> bool {
    let l = mono_lcm(lead(f).0, lead(g).0);
    let a = poly_mul_term(mono_div(l, lead(f).0), rat_div(rat_one(), lead(f).1), f@);
    let b = poly_mul_term(mono_div(l, lead(g).0), rat_div(rat_one(), lead(g).1), g@);
    &&& mul_term_fits(mono_div(l, lead(f).0), rat_div(rat_one(), lead(f).1), f@)
    &&& mul_term_fits(mono_div(l, lead(g).0), rat_div(rat_one(), lead(g).1), g@)
    &&& add_fits(a, poly_neg(b))
}

/// The polynomials of `gs` are well formed, nonzero, in `n` variables.
pub open spec fn divisors_wf<O: MonomialOrder>(gs: Seq<Ordpol<O>>, n: nat) -> bool {
    forall|i: int|
        0 <= i < gs.len() ==> (#[trigger] gs[i]).wf() && gs[i].nvars == n && gs[i].terms@.len()
            > 0
}

/// No leading monomial of `gs` divides `m`.
pub open spec fn irreducible<O: MonomialOrder>(m: Seq<nat>, gs: Seq<Ordpol<O>>) -> bool {
    forall|i: int| 0 <= i < gs.len() ==> !mono_divides(lead(#[trigger] gs[i]).0, m)
}

/// The S-polynomial of two nonzero polynomials with leading terms `a·m_f`
/// and `b·m_g`: with `L = lcm(m_f, m_g)`, `(1/a)(L/m_f)·f − (1/b)(L/m_g)·g`.
pub open spec fn spoly<O: MonomialOrder>(f: Ordpol<O>, g: Ordpol<O>) -> Map<Seq<nat>, (int, int)> {
    let l = mono_lcm(lead(f).0, lead(g).0);
    poly_add(
        poly_mul_term(mono_div(l, lead(f).0), rat_div(rat_one(), lead(f).1), f@),
        poly_neg(poly_mul_term(mono_div(l, lead(g).0), rat_div(rat_one(), lead(g).1), g@)),
    )
}

/// The views of a list of polynomials.
pub open spec fn views<O: MonomialOrder>(qs: Seq<Ordpol<O>>) -> Seq<Map<Seq<nat>, (int, int)>> {
    qs.map_values(|q: Ordpol<O>| q@)
}

/// `Σ gs[i]·qs[i]` over the first `k` positions.
pub open spec fn combo<O: MonomialOrder>(
    qs: Seq<Map<Seq<nat>, (int, int)>>,
    gs: Seq<Ordpol<O>>,
    k: int,
) -> Map<Seq<nat>, (int, int)>
    decreases k,
{
    if k <= 0 {
        Map::empty()
    } else {
        poly_add(combo(qs, gs, k - 1), poly_mul_seq(gs[k - 1].tseq(), qs[k - 1]))
    }
}

/// Every map of `qs` is canonical.
pub open spec fn all_canonical(qs: Seq<Map<Seq<nat>, (int, int)>>) -> bool {
    forall|i: int| 0 <= i < qs.len() ==> canonical(#[trigger] qs[i])
}

pub proof fn lemma_divisors_canonical<O: MonomialOrder>(gs: Seq<Ordpol<O>>, n: nat, i: int)
    requires
        divisors_wf(gs, n),
        0 <= i < gs.len(),
    ensures
        canonical(gs[i]@),
        crate::ordpol::lowest_coeffs(gs[i].tseq()),
{
    gs[i].lemma_canonical();
}

pub proof fn lemma_combo_canonical<O: MonomialOrder>(
    qs: Seq<Map<Seq<nat>, (int, int)>>,
    gs: Seq<Ordpol<O>>,
    n: nat,
    k: int,
)
    requires
        divisors_wf(gs, n),
        all_canonical(qs),
        k <= gs.len(),
        k <= qs.len(),
    ensures
        canonical(combo(qs, gs, k)),
    decreases k,
{
    if k > 0 {
        lemma_combo_canonical(qs, gs, n, k - 1);
        lemma_divisors_canonical(gs, n, k - 1);
        lemma_mul_seq_canonical(gs[k - 1].tseq(), qs[k - 1]);
        lemma_add_coef(combo(qs, gs, k - 1), poly_mul_seq(gs[k - 1].tseq(), qs[k - 1]));
    }
}

pub proof fn lemma_combo_zero<O: MonomialOrder>(
    qs: Seq<Map<Seq<nat>, (int, int)>>,
    gs: Seq<Ordpol<O>>,
    k: int,
)
    requires
        k <= qs.len(),
        forall|i: int| 0 <= i < qs.len() ==> #[trigger] qs[i] == Map::<Seq<nat>, (int, int)>::empty(),
    ensures
        combo(qs, gs, k) == Map::<Seq<nat>, (int, int)>::empty(),
    decreases k,
{
    if k > 0 {
        lemma_combo_zero(qs, gs, k - 1);
        lemma_mul_zero(gs[k - 1].tseq());
        lemma_add_zero_left(Map::<Seq<nat>, (int, int)>::empty());
    }
}

pub proof fn lemma_combo_unchanged<O: MonomialOrder>(
    qs: Seq<Map<Seq<nat>, (int, int)>>,
    gs: Seq<Ordpol<O>>,
    idx: int,
    v: Map<Seq<nat>, (int, int)>,
    k: int,
)
    requires
        0 <= idx < qs.len(),
        k <= idx,
    ensures
        combo(qs.update(idx, v), gs, k) == combo(qs, gs, k),
    decreases k,
{
    if k > 0 {
        lemma_combo_unchanged(qs, gs, idx, v, k - 1);
    }
}

/// Adding `t` to the `idx`-th coefficient adds `gs[idx]·t` to the
/// combination.
pub proof fn lemma_combo_update<O: MonomialOrder>(
    qs: Seq<Map<Seq<nat>, (int, int)>>,
    gs: Seq<Ordpol<O>>,
    n: nat,
    idx: int,
    t: Map<Seq<nat>, (int, int)>,
    k: int,
)
    requires
        divisors_wf(gs, n),
        all_canonical(qs),
        canonical(t),
        qs.len() == gs.len(),
        0 <= idx < k <= gs.len(),
    ensures
        combo(qs.update(idx, poly_add(qs[idx], t)), gs, k) == poly_add(
            combo(qs, gs, k),
            poly_mul_seq(gs[idx].tseq(), t),
        ),
    decreases k,
{
    let nq = qs.update(idx, poly_add(qs[idx], t));
    let g = gs[k - 1].tseq();
    lemma_divisors_canonical(gs, n, k - 1);
    lemma_divisors_canonical(gs, n, idx);
    lemma_combo_canonical(qs, gs, n, k - 1);
    lemma_mul_seq_canonical(gs[idx].tseq(), t);
    lemma_mul_seq_canonical(g, qs[k - 1]);
    if k - 1 == idx {
        lemma_combo_unchanged(qs, gs, idx, poly_add(qs[idx], t), k - 1);
        lemma_mul_seq_distrib(g, qs[idx], t);
        lemma_add_assoc(combo(qs, gs, k - 1), poly_mul_seq(g, qs[idx]), poly_mul_seq(g, t));
    } else {
        lemma_combo_update(qs, gs, n, idx, t, k - 1);
        let a = combo(qs, gs, k - 1);
        let m = poly_mul_seq(gs[idx].tseq(), t);
        let x = poly_mul_seq(g, qs[k - 1]);
        lemma_add_assoc(a, m, x);
        lemma_add_commutative(m, x);
        lemma_add_assoc(a, x, m);
    }
}

/// The leading monomial of a polynomial view: the key above all others.
pub open spec fn lead_mono<O: MonomialOrder>(p: Map<Seq<nat>, (int, int)>) -> Seq<nat> {
    choose|m: Seq<nat>|
        p.contains_key(m) && forall|k: Seq<nat>|
            #[trigger] p.contains_key(k) && k != m ==> O::cmp(k, m) < 0
}

/// The position of the first divisor, from `j` on, whose leading monomial
/// divides `m`; `gs.len()` where there is none.
pub open spec fn first_divisor<O: MonomialOrder>(gs: Seq<Ordpol<O>>, m: Seq<nat>, j: int) -> int
    decreases gs.len() - j,
{
    if j < 0 || j >= gs.len() {
        gs.len() as int
    } else if mono_divides(lead(gs[j]).0, m) {
        j
    } else {
        first_divisor(gs, m, j + 1)
    }
}

/// Division of `f` by `gs`, step by step, with quotients `qs` and remainder
/// `r` so far: the leading term `c·m` of what is left is cancelled with the
/// first divisor `g` whose leading monomial divides `m` (adding the term
/// `(c / lc(g))·(m / lm(g))` to its quotient), or else moved to the
/// remainder. `None` where `fuel` steps do not finish.
pub open spec fn div_spec<O: MonomialOrder>(
    f: Map<Seq<nat>, (int, int)>,
    qs: Seq<Map<Seq<nat>, (int, int)>>,
    r: Map<Seq<nat>, (int, int)>,
    gs: Seq<Ordpol<O>>,
    fuel: nat,
) -> Option<(Seq<Map<Seq<nat>, (int, int)>>, Map<Seq<nat>, (int, int)>)>
    decreases fuel,
{
    if f == Map::<Seq<nat>, (int, int)>::empty() {
        Some((qs, r))
    } else if fuel == 0 {
        None
    } else {
        let m = lead_mono::<O>(f);
        let c = f[m];
        let i = first_divisor(gs, m, 0);
        if i < gs.len() {
            let tk = single((mono_div(m, lead(gs[i]).0), rat_div(c, lead(gs[i]).1)));
            div_spec(
                poly_add(f, poly_neg(poly_mul_seq(gs[i].tseq(), tk))),
                qs.update(i, poly_add(qs[i], tk)),
                r,
                gs,
                (fuel - 1) as nat,
            )
        } else {
            div_spec(f.remove(m), qs, poly_add(r, single((m, c))), gs, (fuel - 1) as nat)
        }
    }
}

/// Every step of [`div_spec`] stays in range and the division finishes
/// within `fuel` steps.
pub open spec fn div_ok<O: MonomialOrder>(
    f: Map<Seq<nat>, (int, int)>,
    qs: Seq<Map<Seq<nat>, (int, int)>>,
    r: Map<Seq<nat>, (int, int)>,
    gs: Seq<Ordpol<O>>,
    fuel: nat,
) -> bool
    decreases fuel,
{
    if f == Map::<Seq<nat>, (int, int)>::empty() {
        true
    } else if fuel == 0 {
        false
    } else {
        let m = lead_mono::<O>(f);
        let c = f[m];
        let i = first_divisor(gs, m, 0);
        if i < gs.len() {
            let tk = single((mono_div(m, lead(gs[i]).0), rat_div(c, lead(gs[i]).1)));
            let sg = poly_mul_seq(gs[i].tseq(), tk);
            &&& rat_div_fits(c, lead(gs[i]).1)
            &&& add_fits(qs[i], tk)
            &&& mul_fits_seq(gs[i].tseq(), tk)
            &&& add_fits(f, poly_neg(sg))
            &&& div_ok(
                poly_add(f, poly_neg(sg)),
                qs.update(i, poly_add(qs[i], tk)),
                r,
                gs,
                (fuel - 1) as nat,
            )
        } else {
            &&& add_fits(r, single((m, c)))
            &&& div_ok(f.remove(m), qs, poly_add(r, single((m, c))), gs, (fuel - 1) as nat)
        }
    }
}

/// `n` zero quotients.
pub open spec fn zero_quotients(n: nat) -> Seq<Map<Seq<nat>, (int, int)>> {
    Seq::new(n, |i: int| Map::<Seq<nat>, (int, int)>::empty())
}

/// `m` is a key of `p` above all its other keys.
pub open spec fn is_lead<O: MonomialOrder>(p: Map<Seq<nat>, (int, int)>, m: Seq<nat>) -> bool {
    &&& p.contains_key(m)
    &&& forall|k: Seq<nat>| #[trigger] p.contains_key(k) && k != m ==> O::cmp(k, m) < 0
}

pub proof fn lemma_is_lead_unique<O: MonomialOrder>(p: Map<Seq<nat>, (int, int)>, m: Seq<nat>, n: nat)
    requires
        is_lead::<O>(p, m),
        forall|k: Seq<nat>| #[trigger] p.contains_key(k) ==> k.len() == n,
    ensures
        lead_mono::<O>(p) == m,
{
    let c = lead_mono::<O>(p);
    assert(is_lead::<O>(p, c));
    if c != m {
        assert(O::cmp(c, m) < 0);
        assert(O::cmp(m, c) < 0);
        O::lemma_antisymmetric(c, m);
    }
}

/// Subtracting a polynomial whose monomials all lie below the leading
/// monomial of `a` keeps that leading monomial.
pub proof fn lemma_lead_sub_lower<O: MonomialOrder>(
    a: Map<Seq<nat>, (int, int)>,
    b: Map<Seq<nat>, (int, int)>,
    m: Seq<nat>,
    n: nat,
)
    requires
        canonical(a),
        canonical(b),
        is_lead::<O>(a, m),
        forall|k: Seq<nat>| #[trigger] a.contains_key(k) ==> k.len() == n,
        forall|k: Seq<nat>| #[trigger] b.contains_key(k) ==> k.len() == n && O::cmp(k, m) < 0,
    ensures
        is_lead::<O>(poly_add(a, poly_neg(b)), m),
        lead_mono::<O>(poly_add(a, poly_neg(b))) == m,
        forall|k: Seq<nat>| #[trigger] poly_add(a, poly_neg(b)).contains_key(k) ==> k.len() == n,
{
    let c = poly_add(a, poly_neg(b));
    lemma_neg_coef(b);
    lemma_add_coef(a, poly_neg(b));
    O::lemma_antisymmetric(m, m);
    assert(!b.contains_key(m));
    crate::ordpol::lemma_add_zero(a[m]);
    assert(coef(c, m) == a[m]);
    assert(c.contains_key(m));
    lemma_is_lead_unique::<O>(c, m, n);
}

/// The leading monomial of a nonzero polynomial's view is its last term.
pub proof fn lemma_lead_mono<O: MonomialOrder>(p: Ordpol<O>)
    requires
        p.wf(),
        p.terms@.len() > 0,
    ensures
        lead_mono::<O>(p@) == lead(p).0,
        p@.contains_key(lead(p).0),
        p@[lead(p).0] == lead(p).1,
        is_lead::<O>(p@, lead(p).0),
        forall|k: Seq<nat>| #[trigger] p@.contains_key(k) ==> k.len() == p.nvars,
{
    let s = p.tseq();
    let last = s.len() - 1;
    p.lemma_view();
    p.lemma_seq_facts();
    assert(p@.contains_key(p.terms@[last].0@));
    let lm = lead(p).0;
    assert forall|k: Seq<nat>| #[trigger] p@.contains_key(k) && k != lm implies O::cmp(k, lm) < 0 by {
        crate::ordpol::lemma_to_map_present(s, k);
        let j = choose|j: int| 0 <= j < s.len() && s[j].0 == k;
        assert(j != last);
        assert(O::cmp(s[j].0, s[last].0) < 0);
    }
    let c = lead_mono::<O>(p@);
    assert(p@.contains_key(c) && forall|k: Seq<nat>|
        #[trigger] p@.contains_key(k) && k != c ==> O::cmp(k, c) < 0);
    if c != lm {
        assert(O::cmp(c, lm) < 0);
        assert(O::cmp(lm, c) < 0);
        O::lemma_antisymmetric(c, lm);
    }
}

/// The monomials of `c·t·p` lie at or below `lm·t`, where `lm` leads `p`,
/// with `lm·t` itself carrying `c` times the leading coefficient.
proof fn lemma_scaled_below<O: MonomialOrder>(p: Ordpol<O>, t: Seq<nat>, c: (int, int))
    requires
        p.wf(),
        p.terms@.len() > 0,
        t.len() == p.nvars,
        lowest_terms(c),
    ensures
        forall|x: Seq<nat>|
            #[trigger] poly_mul_term(t, c, p@).contains_key(x) ==> x == mono_mul(lead(p).0, t)
                || O::cmp(x, mono_mul(lead(p).0, t)) < 0,
        crate::rational::rat_mul(c, lead(p).1) != rat_zero() ==> poly_mul_term(
            t,
            c,
            p@,
        ).contains_key(mono_mul(lead(p).0, t)) && poly_mul_term(t, c, p@)[mono_mul(lead(p).0, t)]
            == crate::rational::rat_mul(c, lead(p).1),
{
    lemma_lead_mono(p);
    let lm = lead(p).0;
    crate::ordpol::lemma_div_mul_cancel(lm, t);
    assert forall|x: Seq<nat>|
        #[trigger] poly_mul_term(t, c, p@).contains_key(x) implies x == mono_mul(lm, t) || O::cmp(
        x,
        mono_mul(lm, t),
    ) < 0 by {
        let k = mono_div(x, t);
        crate::ordpol::lemma_mul_div_cancel(x, t);
        if k != lm {
            O::lemma_mul_compatible(k, lm, t);
        }
    }
}

/// The S-polynomial cancels the leading terms: all its monomials lie
/// strictly below the lcm of the two leading monomials.
pub proof fn lemma_spoly_below<O: MonomialOrder>(f: Ordpol<O>, g: Ordpol<O>)
    requires
        f.wf(),
        g.wf(),
        f.nvars == g.nvars,
        f.terms@.len() > 0,
        g.terms@.len() > 0,
    ensures
        forall|x: Seq<nat>|
            #[trigger] spoly(f, g).contains_key(x) ==> O::cmp(
                x,
                mono_lcm(lead(f).0, lead(g).0),
            ) < 0,
{
    let l = mono_lcm(lead(f).0, lead(g).0);
    lemma_lead_mono(f);
    lemma_lead_mono(g);
    f.lemma_seq_facts();
    g.lemma_seq_facts();
    crate::monomial::lemma_lcm_least(lead(f).0, lead(g).0);
    let uf = mono_div(l, lead(f).0);
    let ug = mono_div(l, lead(g).0);
    crate::ordpol::lemma_mul_div_cancel(l, lead(f).0);
    crate::ordpol::lemma_mul_div_cancel(l, lead(g).0);
    assert(mono_mul(lead(f).0, uf) =~= l);
    assert(mono_mul(lead(g).0, ug) =~= l);
    let cf = rat_div(rat_one(), lead(f).1);
    let cg = rat_div(rat_one(), lead(g).1);
    crate::rational::lemma_rat_recip(lead(f).1);
    crate::rational::lemma_rat_recip(lead(g).1);
    lemma_scaled_below(f, uf, cf);
    lemma_scaled_below(g, ug, cg);
    let a = poly_mul_term(uf, cf, f@);
    let b = poly_mul_term(ug, cg, g@);
    crate::ordpol::lemma_mul_term_coef(uf, cf, f@);
    crate::ordpol::lemma_mul_term_coef(ug, cg, g@);
    lemma_neg_coef(b);
    lemma_add_coef(a, poly_neg(b));
    crate::rational::lemma_rat_add_neg(rat_one());
    assert(coef(spoly(f, g), l) == rat_zero());
    assert forall|x: Seq<nat>| #[trigger] spoly(f, g).contains_key(x) implies O::cmp(x, l) < 0 by {
        assert(a.contains_key(x) || b.contains_key(x));
        if x == l {
            assert(coef(spoly(f, g), x) == rat_zero());
        }
    }
}

proof fn lemma_first_divisor_range<O: MonomialOrder>(gs: Seq<Ordpol<O>>, m: Seq<nat>, j: int)
    requires
        0 <= j,
    ensures
        j <= first_divisor(gs, m, j) <= gs.len() || j > gs.len(),
    decreases gs.len() - j,
{
    if j < gs.len() {
        lemma_first_divisor_range(gs, m, j + 1);
    }
}

/// Divisors with the same terms give the same first divisor.
proof fn lemma_first_divisor_congr<O: MonomialOrder>(
    a: Seq<Ordpol<O>>,
    b: Seq<Ordpol<O>>,
    m: Seq<nat>,
    j: int,
)
    requires
        a.len() == b.len(),
        forall|i: int| 0 <= i < a.len() ==> (#[trigger] a[i]).tseq() == b[i].tseq(),
    ensures
        first_divisor(a, m, j) == first_divisor(b, m, j),
    decreases a.len() - j,
{
    if 0 <= j < a.len() {
        assert(a[j].tseq() == b[j].tseq());
        lemma_first_divisor_congr(a, b, m, j + 1);
    }
}

/// Division depends on the divisors only through their terms.
pub proof fn lemma_div_spec_congr<O: MonomialOrder>(
    f: Map<Seq<nat>, (int, int)>,
    qs: Seq<Map<Seq<nat>, (int, int)>>,
    r: Map<Seq<nat>, (int, int)>,
    a: Seq<Ordpol<O>>,
    b: Seq<Ordpol<O>>,
    fuel: nat,
)
    requires
        a.len() == b.len(),
        forall|i: int| 0 <= i < a.len() ==> (#[trigger] a[i]).tseq() == b[i].tseq(),
    ensures
        div_spec(f, qs, r, a, fuel) == div_spec(f, qs, r, b, fuel),
        div_ok(f, qs, r, a, fuel) == div_ok(f, qs, r, b, fuel),
    decreases fuel,
{
    if f != Map::<Seq<nat>, (int, int)>::empty() && fuel > 0 {
        let m = lead_mono::<O>(f);
        let c = f[m];
        lemma_first_divisor_congr(a, b, m, 0);
        lemma_first_divisor_range(a, m, 0);
        let i = first_divisor(a, m, 0);
        if i < a.len() {
            assert(a[i].tseq() == b[i].tseq());
            let tk = single((mono_div(m, lead(a[i]).0), rat_div(c, lead(a[i]).1)));
            lemma_div_spec_congr(
                poly_add(f, poly_neg(poly_mul_seq(a[i].tseq(), tk))),
                qs.update(i, poly_add(qs[i], tk)),
                r,
                a,
                b,
                (fuel - 1) as nat,
            );
        } else {
            lemma_div_spec_congr(f.remove(m), qs, poly_add(r, single((m, c))), a, b, (fuel - 1) as nat);
        }
    }
}

pub proof fn lemma_first_divisor<O: MonomialOrder>(gs: Seq<Ordpol<O>>, m: Seq<nat>, j: int, idx: int)
    requires
        0 <= j <= idx <= gs.len(),
        forall|k: int| j <= k < idx ==> !mono_divides(lead(#[trigger] gs[k]).0, m),
        idx < gs.len() ==> mono_divides(lead(gs[idx]).0, m),
    ensures
        first_divisor(gs, m, j) == idx,
    decreases idx - j,
{
    if j < idx {
        lemma_first_divisor(gs, m, j + 1, idx);
    }
}

impl<O: MonomialOrder> Ordpol<O> {
    /// Leading monomial and coefficient of a nonzero polynomial, copied.
    pub fn lead_parts(&self) -> (r: (Monomial, Rational))
        requires
            self.wf(),
            self.terms@.len() > 0,
        ensures
            term_view(r) == lead(*self),
            term_wf(r, self.nvars as nat),
    {
        let k = self.terms.len() - 1;
        assert(term_wf(self.terms@[k as int], self.nvars as nat));
        (self.terms[k].0.copy(), self.terms[k].1)
    }

    /// The leading monomial; `None` for zero.
    pub fn lead_monom(&self) -> (r: Option<Monomial>)
        requires
            self.wf(),
        ensures
            self.terms@.len() == 0 <==> r is None,
            r matches Some(m) ==> m.wf() && m@ == lead(*self).0,
    {
        if self.len() == 0 {
            None
        } else {
            Some(self.lead_parts().0)
        }
    }

    /// The leading coefficient; `None` for zero.
    pub fn lead_coeff(&self) -> (r: Option<Rational>)
        requires
            self.wf(),
        ensures
            self.terms@.len() == 0 <==> r is None,
            r matches Some(c) ==> c.wf() && c@ == lead(*self).1,
    {
        if self.len() == 0 {
            None
        } else {
            Some(self.lead_parts().1)
        }
    }

    /// The sum of the given terms, in any order and with repeats; `None`
    /// where a coefficient leaves the range of `i64`.
    pub fn from_terms(n: usize, terms: Vec<(Monomial, Rational)>) -> (r: Option<Ordpol<O>>)
        requires
            n <= u32::MAX,
            forall|k: int|
                0 <= k < terms@.len() ==> (#[trigger] terms@[k]).0.wf() && terms@[k].0@.len() == n
                    && terms@[k].1.wf(),
        ensures
            sum_fits(terms@.map_values(|t: (Monomial, Rational)| term_view(t))) ==> r is Some,
            r matches Some(p) ==> p.wf() && p.nvars == n && p@ == sum_terms(
                terms@.map_values(|t: (Monomial, Rational)| term_view(t)),
            ),
    {
        let ghost tv = terms@.map_values(|t: (Monomial, Rational)| term_view(t));
        let mut acc = Self::zero(n);
        let mut k: usize = 0;
        proof {
            assert(tv.subrange(0, 0) =~= Seq::<TermView>::empty());
        }
        while k < terms.len()
            invariant
                n <= u32::MAX,
                tv == terms@.map_values(|t: (Monomial, Rational)| term_view(t)),
                forall|j: int|
                    0 <= j < terms@.len() ==> (#[trigger] terms@[j]).0.wf() && terms@[j].0@.len()
                        == n && terms@[j].1.wf(),
                k <= terms@.len(),
                acc.wf(),
                acc.nvars == n,
                acc@ == sum_terms(tv.subrange(0, k as int)),
            decreases terms@.len() - k,
        {
            assert(terms@[k as int].0.wf());
            let t = Self::from_term(terms[k].0.copy(), terms[k].1);
            proof {
                assert(tv.subrange(0, k + 1).drop_last() =~= tv.subrange(0, k as int));
                assert(tv.subrange(0, k + 1).last() == term_view(terms@[k as int]));
                if sum_fits(tv) {
                    lemma_sum_fits_prefix(tv, k + 1);
                }
            }
            acc = match acc.add(&t) {
                None => {
                    return None;
                },
                Some(a) => a,
            };
            k = k + 1;
        }
        proof {
            assert(tv.subrange(0, terms@.len() as int) =~= tv);
        }
        Some(acc)
    }

    /// Division by `gs`: at each step the leading term of what is left is
    /// cancelled with the first divisor whose leading monomial divides it,
    /// or else moved to the remainder. Returns the quotients, one per
    /// divisor, and the remainder, none of whose monomials is divisible by a
    /// leading monomial of `gs`. `None` where an exponent or coefficient
    /// leaves its range.
    pub fn div_mod_polys(&self, gs: &Vec<Ordpol<O>>) -> (r: Option<(Vec<Ordpol<O>>, Ordpol<O>)>)
        requires
            self.wf(),
            divisors_wf(gs@, self.nvars as nat),
        ensures
            r matches Some(res) ==> {
                &&& res.0@.len() == gs@.len()
                &&& forall|i: int|
                    0 <= i < res.0@.len() ==> (#[trigger] res.0@[i]).wf() && res.0@[i].nvars
                        == self.nvars
                &&& res.1.wf()
                &&& res.1.nvars == self.nvars
                &&& forall|m: Seq<nat>| #[trigger] res.1@.contains_key(m) ==> irreducible(m, gs@)
                &&& self@ == poly_add(combo(views(res.0@), gs@, gs@.len() as int), res.1@)
                &&& div_spec(
                    self@,
                    zero_quotients(gs@.len()),
                    Map::<Seq<nat>, (int, int)>::empty(),
                    gs@,
                    MAX_STEPS as nat,
                ) == Some((views(res.0@), res.1@))
            },
            div_ok(
                self@,
                zero_quotients(gs@.len()),
                Map::<Seq<nat>, (int, int)>::empty(),
                gs@,
                MAX_STEPS as nat,
            ) ==> r is Some,
    {
        let n = self.nvars;
        let mut qs: Vec<Ordpol<O>> = Vec::new();
        let mut i: usize = 0;
        while i < gs.len()
            invariant
                i <= gs@.len(),
                n == self.nvars,
                n <= u32::MAX,
                qs@.len() == i,
                forall|k: int| 0 <= k < qs@.len() ==> (#[trigger] qs@[k]).wf() && qs@[k].nvars == n,
                forall|k: int| 0 <= k < qs@.len() ==> (#[trigger] qs@[k])@ == Map::<Seq<nat>, (int, int)>::empty(),
            decreases gs@.len() - i,
        {
            qs.push(Self::zero(n));
            i = i + 1;
        }
        proof {
            assert forall|k: int| 0 <= k < views(qs@).len() implies #[trigger] views(qs@)[k] == Map::<
                Seq<nat>,
                (int, int),
            >::empty() by {
                assert(views(qs@)[k] == qs@[k]@);
            }
            lemma_combo_zero(views(qs@), gs@, gs@.len() as int);
            self.lemma_canonical();
            lemma_add_zero_left(self@);
            assert(views(qs@) =~= zero_quotients(gs@.len()));
        }
        let mut p = self.copy();
        let mut rem = Self::zero(n);
        let mut fuel: u64 = MAX_STEPS;
        let ghost goal = div_spec(
            self@,
            zero_quotients(gs@.len()),
            Map::<Seq<nat>, (int, int)>::empty(),
            gs@,
            MAX_STEPS as nat,
        );
        while p.terms.len() > 0
            invariant
                self.wf(),
                divisors_wf(gs@, n as nat),
                n == self.nvars,
                p.wf(),
                p.nvars == n,
                rem.wf(),
                rem.nvars == n,
                qs@.len() == gs@.len(),
                forall|k: int| 0 <= k < qs@.len() ==> (#[trigger] qs@[k]).wf() && qs@[k].nvars == n,
                forall|m: Seq<nat>| #[trigger] rem@.contains_key(m) ==> irreducible(m, gs@),
                self@ == poly_add(combo(views(qs@), gs@, gs@.len() as int), poly_add(rem@, p@)),
                goal == div_spec(p@, views(qs@), rem@, gs@, fuel as nat),
                div_ok(
                    self@,
                    zero_quotients(gs@.len()),
                    Map::<Seq<nat>, (int, int)>::empty(),
                    gs@,
                    MAX_STEPS as nat,
                ) ==> div_ok(p@, views(qs@), rem@, gs@, fuel as nat),
            decreases fuel,
        {
            if fuel == 0 {
                return None;
            }
            let ghost fuel_old = fuel as nat;
            fuel = fuel - 1;
            let ghost qv = views(qs@);
            let ghost p_old = p;
            let ghost rem_before = rem@;
            proof {
                assert forall|k: int| 0 <= k < qv.len() implies canonical(#[trigger] qv[k]) by {
                    assert(qv[k] == qs@[k]@);
                    qs@[k].lemma_canonical();
                }
                lemma_combo_canonical(qv, gs@, n as nat, gs@.len() as int);
                rem.lemma_canonical();
                p.lemma_canonical();
            }
            let (lm, lc) = p.lead_parts();
            proof {
                lemma_lead_mono(p);
            }
            let mut idx: usize = gs.len();
            let mut j: usize = 0;
            while j < gs.len() && idx == gs.len()
                invariant
                    divisors_wf(gs@, n as nat),
                    lm@.len() == n,
                    j <= gs@.len(),
                    idx <= gs@.len(),
                    forall|k: int| 0 <= k < j ==> !mono_divides(lead(#[trigger] gs@[k]).0, lm@),
                    idx < gs@.len() ==> idx == j,
                    idx < gs@.len() ==> mono_divides(lead(gs@[idx as int]).0, lm@),
                decreases gs@.len() - j + (if idx == gs@.len() {
                    1int
                } else {
                    0int
                }),
            {
                assert(gs@[j as int].wf());
                let (gm, _gc) = gs[j].lead_parts();
                if gm.divides(&lm) {
                    idx = j;
                } else {
                    j = j + 1;
                }
            }
            proof {
                lemma_first_divisor(gs@, lm@, 0, idx as int);
            }
            if idx < gs.len() {
                assert(gs@[idx as int].wf());
                let (gm, gc) = gs[idx].lead_parts();
                let t = match lm.div(&gm) {
                    None => {
                        return None;
                    },
                    Some(t) => t,
                };
                let c = match lc.checked_div(&gc) {
                    None => {
                        return None;
                    },
                    Some(c) => c,
                };
                let qt = Self::from_term(t.copy(), c);
                assert(qs@[idx as int].wf());
                let nq = match qs[idx].add(&qt) {
                    None => {
                        return None;
                    },
                    Some(q) => q,
                };
                qs[idx] = nq;
                let sg = match gs[idx].mul(&qt) {
                    None => {
                        return None;
                    },
                    Some(s) => s,
                };
                p = match p.sub(&sg) {
                    None => {
                        return None;
                    },
                    Some(d) => d,
                };
                proof {
                    let tv = qt@;
                    assert(tv == single((t@, c@)));
                    assert(views(qs@) =~= qv.update(idx as int, poly_add(qv[idx as int], tv)));
                    qt.lemma_canonical();
                    assert(views(qs@) =~= qv.update(idx as int, poly_add(qv[idx as int], tv)));
                    lemma_combo_update(qv, gs@, n as nat, idx as int, tv, gs@.len() as int);
                    let cb = combo(qv, gs@, gs@.len() as int);
                    let mm = sg@;
                    sg.lemma_canonical();
                    lemma_neg_coef(mm);
                    lemma_add_assoc(rem@, p_old@, poly_neg(mm));
                    lemma_add_coef(rem@, p_old@);
                    lemma_add_swap(cb, mm, poly_add(rem@, p_old@), poly_neg(mm));
                    lemma_add_neg_map(mm);
                    lemma_add_coef(cb, poly_add(rem@, p_old@));
                    lemma_add_zero_left(poly_add(cb, poly_add(rem@, p_old@)));
                }
            } else {
                let ghost rem_old = rem@;
                let single = Self::from_term(lm, lc);
                proof {
                    assert(irreducible(lm@, gs@));
                }
                rem = match rem.add(&single) {
                    None => {
                        return None;
                    },
                    Some(x) => x,
                };
                p.pop_lead_term();
                proof {
                    let sv = single@;
                    assert(sv == crate::division::single((lm@, lc@)));
                    let s0 = p_old.tseq().drop_last();
                    p_old.lemma_seq_facts();
                    crate::ordpol::lemma_prefix_below::<O>(p_old.tseq(), p_old.tseq().len() - 1);
                    assert(p_old.tseq().subrange(0, p_old.tseq().len() - 1) =~= s0);
                    crate::ordpol::lemma_below_absent::<O>(s0, lm@);
                    assert(p@ =~= p_old@.remove(lm@));
                    single.lemma_canonical();
                    lemma_pop_reinsert(p_old);
                    assert(p@ == to_map(p_old.tseq().drop_last()));
                    assert(sv == Map::<Seq<nat>, (int, int)>::empty().insert(
                        p_old.tseq().last().0,
                        p_old.tseq().last().1,
                    ));
                    p.lemma_canonical();
                    lemma_add_assoc(rem_before, sv, p@);
                    lemma_add_commutative(sv, p@);
                }
            }
        }
        proof {
            rem.lemma_canonical();
            lemma_add_zero_left(rem@);
        }
        Some((qs, rem))
    }

    /// Division by a single nonzero `g`: the quotient and a remainder none of
    /// whose monomials is divisible by the leading monomial of `g`. `None`
    /// where an exponent or coefficient leaves its range.
    pub fn div_mod(&self, g: &Ordpol<O>) -> (r: Option<(Ordpol<O>, Ordpol<O>)>)
        requires
            self.wf(),
            g.wf(),
            g.nvars == self.nvars,
            g.terms@.len() > 0,
        ensures
            r matches Some(res) ==> {
                &&& res.0.wf()
                &&& res.1.wf()
                &&& res.0.nvars == self.nvars
                &&& res.1.nvars == self.nvars
                &&& forall|m: Seq<nat>| #[trigger] res.1@.contains_key(m) ==> !mono_divides(
                    lead(*g).0,
                    m,
                )
                &&& self@ == poly_add(poly_mul_seq(g.tseq(), res.0@), res.1@)
                &&& div_spec(
                    self@,
                    zero_quotients(1),
                    Map::<Seq<nat>, (int, int)>::empty(),
                    seq![*g],
                    MAX_STEPS as nat,
                ) == Some((seq![res.0@], res.1@))
            },
            div_ok(
                self@,
                zero_quotients(1),
                Map::<Seq<nat>, (int, int)>::empty(),
                seq![*g],
                MAX_STEPS as nat,
            ) ==> r is Some,
    {
        let mut gs: Vec<Ordpol<O>> = Vec::new();
        gs.push(g.copy());
        assert(gs@[0].tseq() == g.tseq());
        proof {
            lemma_div_spec_congr(
                self@,
                zero_quotients(1),
                Map::<Seq<nat>, (int, int)>::empty(),
                gs@,
                seq![*g],
                MAX_STEPS as nat,
            );
        }
        match self.div_mod_polys(&gs) {
            None => None,
            Some((mut qs, rem)) => {
                assert(qs@.len() == 1);
                let ghost oq = qs@;
                let q = qs.pop();
                match q {
                    None => None,
                    Some(q) => {
                        assert forall|m: Seq<nat>| #[trigger]
                            rem@.contains_key(m) implies !mono_divides(lead(*g).0, m) by {
                            assert(irreducible(m, gs@));
                            assert(!mono_divides(lead(gs@[0]).0, m));
                        }
                        proof {
                            let qv = views(oq);
                            assert(q == oq[0]);
                            assert(qv[0] == q@);
                            assert(combo(qv, gs@, 1) == poly_add(
                                combo(qv, gs@, 0),
                                poly_mul_seq(gs@[0].tseq(), qv[0]),
                            ));
                            g.lemma_canonical();
                            q.lemma_canonical();
                            lemma_mul_seq_canonical(g.tseq(), q@);
                            lemma_add_zero_left(poly_mul_seq(g.tseq(), q@));
                            assert(qv =~= seq![q@]);
                        }
                        Some((q, rem))
                    },
                }
            },
        }
    }

    /// The S-polynomial of `self` and `other`, both nonzero. `None` where an
    /// exponent or coefficient leaves its range.
    pub fn spol(&self, other: &Ordpol<O>) -> (r: Option<Ordpol<O>>)
        requires
            self.wf(),
            other.wf(),
            self.nvars == other.nvars,
            self.terms@.len() > 0,
            other.terms@.len() > 0,
        ensures
            forall|x: Seq<nat>|
                #[trigger] spoly(*self, *other).contains_key(x) ==> O::cmp(
                    x,
                    mono_lcm(lead(*self).0, lead(*other).0),
                ) < 0,
            spol_fits(*self, *other) ==> r is Some,
            r matches Some(s) ==> s.wf() && s.nvars == self.nvars && s@ == spoly(*self, *other),
    {
        let (mf, cf) = self.lead_parts();
        let (mg, cg) = other.lead_parts();
        let l = mf.lcm(&mg);
        proof {
            lemma_spoly_below(*self, *other);
            crate::monomial::lemma_lcm_least(mf@, mg@);
            crate::rational::lemma_nonzero_num(cf@);
            crate::rational::lemma_nonzero_num(cg@);
        }
        let uf = match l.div(&mf) {
            None => {
                return None;
            },
            Some(u) => u,
        };
        let ug = match l.div(&mg) {
            None => {
                return None;
            },
            Some(u) => u,
        };
        let one = Rational::one();
        let kf = match one.checked_div(&cf) {
            None => {
                return None;
            },
            Some(k) => k,
        };
        let kg = match one.checked_div(&cg) {
            None => {
                return None;
            },
            Some(k) => k,
        };
        let a = match self.mul_term(&uf, &kf) {
            None => {
                return None;
            },
            Some(a) => a,
        };
        let b = match other.mul_term(&ug, &kg) {
            None => {
                return None;
            },
            Some(b) => b,
        };
        a.sub(&b)
    }
}

} // verus!
