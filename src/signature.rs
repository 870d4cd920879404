//! The signature-based (F5) engine. Each polynomial carries a
//! representation vector over the input; its signature is the position of
//! the last nonzero entry with that entry's leading term. Reductions that
//! would not lower the signature are refused.
use crate::division::{all_canonical, combo, lead, lead_mono, views, MAX_STEPS};
use crate::division::divisors_wf;
use crate::groebner::{all_reduce_to_zero, first_unreduced, is_groebner, reduces_to_zero};
use crate::ideal::{gens_wf, in_ideal};
use crate::monomial::{mono_div, mono_divides, mono_lcm, mono_one, Monomial};
use crate::order::{ordering_of, MonomialOrder};
use crate::ordpol::{
    canonical, lemma_add_assoc, lemma_add_coef, lemma_add_commutative, lemma_add_swap,
    lemma_add_zero_left, lemma_mul_seq_canonical, lemma_mul_seq_distrib, lemma_mul_seq_neg,
    lemma_mul_seq_term, lemma_mul_term_distrib, lemma_neg_add,
    lemma_neg_coef, lemma_pop_reinsert, lowest_coeffs, poly_add, poly_mul_seq, poly_mul_term,
    poly_neg, term_wf, to_map, Ordpol, add_fits, mul_fits_seq, mul_term_fits,
};
use crate::rational::{lemma_rat_recip, lowest_terms, rat_mul, rat_one, rat_zero, Rational};
use core::cmp::Ordering;
use vstd::prelude::*;

verus! {

/// A module signature: position, monomial and the coefficient carried
/// along for scaling. Signatures compare by position, then monomial.
#[derive(Debug)]
pub struct Sig {
    pub position: usize,
    pub monomial: Monomial,
    pub coeff: Rational,
}

impl Sig {
    pub open spec fn wf(&self, nv: nat) -> bool {
        &&& self.monomial.wf()
        &&& self.monomial@.len() == nv
        &&& self.coeff.wf()
    }

    pub fn copy(&self) -> (r: Sig)
        ensures
            r.position == self.position,
            r.monomial@ == self.monomial@,
            r.monomial.wf() == self.monomial.wf(),
            r.coeff == self.coeff,
    {
        Sig { position: self.position, monomial: self.monomial.copy(), coeff: self.coeff }
    }
}

/// Signature order: position first, then the monomial order `O`.
pub open spec fn sig_cmp<O: MonomialOrder>(a: Sig, b: Sig) -> int {
    if a.position < b.position {
        -1
    } else if a.position > b.position {
        1
    } else {
        O::cmp(a.monomial@, b.monomial@)
    }
}

/// Compares two signatures: position first, then monomial.
pub fn compare_sig<O: MonomialOrder>(a: &Sig, b: &Sig) -> (r: Ordering)
    requires
        a.monomial.wf(),
        b.monomial.wf(),
        a.monomial@.len() == b.monomial@.len(),
    ensures
        r == ordering_of(sig_cmp::<O>(*a, *b)),
{
    if a.position < b.position {
        Ordering::Less
    } else if a.position > b.position {
        Ordering::Greater
    } else {
        O::compare(&a.monomial, &b.monomial)
    }
}

/// `s` divides `t`: same position, and the monomial of `s` divides that of
/// `t`.
pub open spec fn sig_divides(s: Sig, t: Sig) -> bool {
    s.position == t.position && mono_divides(s.monomial@, t.monomial@)
}

pub fn divs(s: &Sig, t: &Sig) -> (r: bool)
    requires
        s.monomial@.len() == t.monomial@.len(),
    ensures
        r == sig_divides(*s, *t),
{
    s.position == t.position && s.monomial.divides(&t.monomial)
}

/// Some signature of `syz` divides `s`.
pub fn std_criterion(s: &Sig, syz: &Vec<Sig>) -> (r: bool)
    requires
        forall|k: int| 0 <= k < syz@.len() ==> (#[trigger] syz@[k]).monomial@.len() == s.monomial@.len(),
    ensures
        r == exists|k: int| 0 <= k < syz@.len() && sig_divides(#[trigger] syz@[k], *s),
{
    let mut k: usize = 0;
    while k < syz.len()
        invariant
            k <= syz@.len(),
            forall|x: int| 0 <= x < syz@.len() ==> (#[trigger] syz@[x]).monomial@.len() == s.monomial@.len(),
            forall|x: int| 0 <= x < k ==> !sig_divides(#[trigger] syz@[x], *s),
        decreases syz@.len() - k,
    {
        if divs(&syz[k], s) {
            return true;
        }
        k = k + 1;
    }
    false
}

/// A representation vector: `n` well-formed polynomials in `nv` variables.
pub open spec fn vec_wf<O: MonomialOrder>(v: Seq<Ordpol<O>>, n: nat, nv: nat) -> bool {
    &&& v.len() == n
    &&& forall|k: int| 0 <= k < v.len() ==> (#[trigger] v[k]).wf() && v[k].nvars == nv
}

/// The signature of `v`: the last nonzero position with its leading term.
pub open spec fn sig_of<O: MonomialOrder>(v: Seq<Ordpol<O>>, s: Sig) -> bool {
    &&& s.position < v.len()
    &&& v[s.position as int].terms@.len() > 0
    &&& forall|k: int| s.position < k < v.len() ==> (#[trigger] v[k]).terms@.len() == 0
    &&& (s.monomial@, s.coeff@) == lead(v[s.position as int])
}

/// The canonical basis vector `e_i` of length `n`.
pub fn basis<O: MonomialOrder>(n: usize, i: usize, nv: usize) -> (r: Vec<Ordpol<O>>)
    requires
        i < n,
        nv <= u32::MAX,
    ensures
        vec_wf(r@, n as nat, nv as nat),
        forall|k: int| 0 <= k < n && k != i ==> (#[trigger] r@[k])@ == Map::<Seq<nat>, (int, int)>::empty(),
        r@[i as int]@ == Map::<Seq<nat>, (int, int)>::empty().insert(mono_one(nv as nat), rat_one()),
{
    let mut v: Vec<Ordpol<O>> = Vec::new();
    let mut k: usize = 0;
    while k < n
        invariant
            k <= n,
            i < n,
            nv <= u32::MAX,
            vec_wf(v@, k as nat, nv as nat),
            forall|x: int| 0 <= x < k && x != i ==> (#[trigger] v@[x])@ == Map::<Seq<nat>, (int, int)>::empty(),
            i < k ==> v@[i as int]@ == Map::<Seq<nat>, (int, int)>::empty().insert(mono_one(nv as nat), rat_one()),
        decreases n - k,
    {
        if k == i {
            v.push(Ordpol::one(nv));
        } else {
            v.push(Ordpol::zero(nv));
        }
        k = k + 1;
    }
    v
}

/// The signature of a representation vector; `None` for the zero vector.
pub fn signature<O: MonomialOrder>(v: &Vec<Ordpol<O>>, nv: Ghost<nat>) -> (r: Option<Sig>)
    requires
        vec_wf(v@, v@.len(), nv@),
    ensures
        r is None <==> forall|k: int| 0 <= k < v@.len() ==> (#[trigger] v@[k]).terms@.len() == 0,
        r matches Some(s) ==> sig_of(v@, s) && s.wf(nv@),
{
    let mut k: usize = v.len();
    while k > 0
        invariant
            vec_wf(v@, v@.len(), nv@),
            k <= v@.len(),
            forall|x: int| k <= x < v@.len() ==> (#[trigger] v@[x]).terms@.len() == 0,
        decreases k,
    {
        if v[k - 1].len() > 0 {
            assert(v@[k - 1].wf());
            let (m, c) = v[k - 1].lead_parts();
            return Some(Sig { position: k - 1, monomial: m, coeff: c });
        }
        k = k - 1;
    }
    None
}

/// The dot product of the input with a representation: `Σ ideal[k]·g[k]`,
/// accumulated from the first position on.
pub open spec fn dot_spec<O: MonomialOrder>(ideal: Seq<Ordpol<O>>, g: Seq<Ordpol<O>>, k: int) -> Map<
    Seq<nat>,
    (int, int),
>
    decreases k,
{
    if k <= 0 {
        Map::empty()
    } else {
        poly_add(dot_spec(ideal, g, k - 1), poly_mul_seq(ideal[k - 1].tseq(), g[k - 1]@))
    }
}

pub proof fn lemma_vec_canonical<O: MonomialOrder>(v: Seq<Ordpol<O>>, n: nat, nv: nat, k: int)
    requires
        vec_wf(v, n, nv),
        0 <= k < v.len(),
    ensures
        canonical(v[k]@),
        lowest_coeffs(v[k].tseq()),
        forall|a: int| 0 <= a < v[k].tseq().len() ==> (#[trigger] v[k].tseq()[a]).0.len() == nv,
{
    v[k].lemma_canonical();
    assert forall|a: int| 0 <= a < v[k].tseq().len() implies (#[trigger] v[k].tseq()[a]).0.len()
        == nv by {
        assert(term_wf(v[k].terms@[a], v[k].nvars as nat));
    }
}

pub proof fn lemma_dot_canonical<O: MonomialOrder>(
    ideal: Seq<Ordpol<O>>,
    g: Seq<Ordpol<O>>,
    nv: nat,
    k: int,
)
    requires
        vec_wf(ideal, ideal.len(), nv),
        vec_wf(g, ideal.len(), nv),
        k <= ideal.len(),
    ensures
        canonical(dot_spec(ideal, g, k)),
    decreases k,
{
    if k > 0 {
        lemma_dot_canonical(ideal, g, nv, k - 1);
        lemma_vec_canonical(ideal, ideal.len(), nv, k - 1);
        lemma_vec_canonical(g, ideal.len(), nv, k - 1);
        lemma_mul_seq_canonical(ideal[k - 1].tseq(), g[k - 1]@);
        lemma_add_coef(dot_spec(ideal, g, k - 1), poly_mul_seq(ideal[k - 1].tseq(), g[k - 1]@));
    }
}

/// The dot product of a difference of vectors is the difference of the dot
/// products.
pub proof fn lemma_dot_sub<O: MonomialOrder>(
    ideal: Seq<Ordpol<O>>,
    g: Seq<Ordpol<O>>,
    d: Seq<Ordpol<O>>,
    w: Seq<Ordpol<O>>,
    nv: nat,
    k: int,
)
    requires
        vec_wf(ideal, ideal.len(), nv),
        vec_wf(g, ideal.len(), nv),
        vec_wf(d, ideal.len(), nv),
        vec_wf(w, ideal.len(), nv),
        forall|j: int| 0 <= j < ideal.len() ==> (#[trigger] w[j])@ == poly_add(g[j]@, poly_neg(d[j]@)),
        0 <= k <= ideal.len(),
    ensures
        dot_spec(ideal, w, k) == poly_add(dot_spec(ideal, g, k), poly_neg(dot_spec(ideal, d, k))),
    decreases k,
{
    let e = Map::<Seq<nat>, (int, int)>::empty();
    if k == 0 {
        assert(poly_neg(e) =~= e);
        lemma_add_zero_left(e);
    } else {
        lemma_dot_sub(ideal, g, d, w, nv, k - 1);
        let s = ideal[k - 1].tseq();
        lemma_vec_canonical(ideal, ideal.len(), nv, k - 1);
        lemma_vec_canonical(g, ideal.len(), nv, k - 1);
        lemma_vec_canonical(d, ideal.len(), nv, k - 1);
        lemma_neg_coef(d[k - 1]@);
        lemma_mul_seq_distrib(s, g[k - 1]@, poly_neg(d[k - 1]@));
        lemma_mul_seq_neg(s, d[k - 1]@);
        lemma_dot_canonical(ideal, g, nv, k - 1);
        lemma_dot_canonical(ideal, d, nv, k - 1);
        lemma_mul_seq_canonical(s, g[k - 1]@);
        lemma_mul_seq_canonical(s, d[k - 1]@);
        lemma_neg_coef(dot_spec(ideal, d, k - 1));
        lemma_neg_coef(poly_mul_seq(s, d[k - 1]@));
        lemma_add_swap(
            dot_spec(ideal, g, k - 1),
            poly_neg(dot_spec(ideal, d, k - 1)),
            poly_mul_seq(s, g[k - 1]@),
            poly_neg(poly_mul_seq(s, d[k - 1]@)),
        );
        lemma_neg_add(dot_spec(ideal, d, k - 1), poly_mul_seq(s, d[k - 1]@));
    }
}

/// The dot product with a vector scaled by a term is the scaled dot product.
pub proof fn lemma_dot_scale<O: MonomialOrder>(
    ideal: Seq<Ordpol<O>>,
    h: Seq<Ordpol<O>>,
    d: Seq<Ordpol<O>>,
    t: Seq<nat>,
    c: (int, int),
    nv: nat,
    k: int,
)
    requires
        vec_wf(ideal, ideal.len(), nv),
        vec_wf(h, ideal.len(), nv),
        vec_wf(d, ideal.len(), nv),
        lowest_terms(c),
        t.len() == nv,
        forall|j: int| 0 <= j < ideal.len() ==> (#[trigger] d[j])@ == poly_mul_term(t, c, h[j]@),
        0 <= k <= ideal.len(),
    ensures
        dot_spec(ideal, d, k) == poly_mul_term(t, c, dot_spec(ideal, h, k)),
    decreases k,
{
    if k == 0 {
        assert(poly_mul_term(t, c, Map::<Seq<nat>, (int, int)>::empty()) =~= Map::<
            Seq<nat>,
            (int, int),
        >::empty());
    } else {
        lemma_dot_scale(ideal, h, d, t, c, nv, k - 1);
        let s = ideal[k - 1].tseq();
        lemma_vec_canonical(ideal, ideal.len(), nv, k - 1);
        lemma_vec_canonical(h, ideal.len(), nv, k - 1);
        lemma_mul_seq_term(s, t, c, h[k - 1]@);
        lemma_dot_canonical(ideal, h, nv, k - 1);
        lemma_mul_seq_canonical(s, h[k - 1]@);
        lemma_mul_term_distrib(t, c, dot_spec(ideal, h, k - 1), poly_mul_seq(s, h[k - 1]@));
    }
}

/// The dot product is the combination of the input with the views of the
/// representation.
pub proof fn lemma_dot_combo<O: MonomialOrder>(ideal: Seq<Ordpol<O>>, g: Seq<Ordpol<O>>, k: int)
    requires
        k <= g.len(),
    ensures
        dot_spec(ideal, g, k) == combo(views(g), ideal, k),
    decreases k,
{
    if k > 0 {
        lemma_dot_combo(ideal, g, k - 1);
        assert(views(g)[k - 1] == g[k - 1]@);
    }
}

/// Every step of the dot product stays in range: each product and each
/// partial sum.
pub open spec fn dot_fits<O: MonomialOrder>(ideal: Seq<Ordpol<O>>, g: Seq<Ordpol<O>>, k: int) -> bool
    decreases k,
{
    if k <= 0 {
        true
    } else {
        &&& dot_fits(ideal, g, k - 1)
        &&& mul_fits_seq(ideal[k - 1].tseq(), g[k - 1]@)
        &&& add_fits(dot_spec(ideal, g, k - 1), poly_mul_seq(ideal[k - 1].tseq(), g[k - 1]@))
    }
}

proof fn lemma_dot_fits_prefix<O: MonomialOrder>(ideal: Seq<Ordpol<O>>, g: Seq<Ordpol<O>>, k: int, j: int)
    requires
        dot_fits(ideal, g, k),
        0 <= j <= k,
    ensures
        dot_fits(ideal, g, j),
    decreases k,
{
    if j < k {
        lemma_dot_fits_prefix(ideal, g, k - 1, j);
    }
}

/// `Σ ideal[k]·g[k]`; `None` where an exponent or coefficient leaves its
/// range.
pub fn dot<O: MonomialOrder>(ideal: &Vec<Ordpol<O>>, g: &Vec<Ordpol<O>>, nv: usize) -> (r: Option<
    Ordpol<O>,
>)
    requires
        nv <= u32::MAX,
        vec_wf(ideal@, ideal@.len(), nv as nat),
        vec_wf(g@, ideal@.len(), nv as nat),
    ensures
        dot_fits(ideal@, g@, ideal@.len() as int) ==> r is Some,
        r matches Some(p) ==> p.wf() && p.nvars == nv && p@ == dot_spec(
            ideal@,
            g@,
            ideal@.len() as int,
        ),
{
    let mut acc = Ordpol::zero(nv);
    let mut k: usize = 0;
    while k < ideal.len()
        invariant
            nv <= u32::MAX,
            vec_wf(ideal@, ideal@.len(), nv as nat),
            vec_wf(g@, ideal@.len(), nv as nat),
            k <= ideal@.len(),
            acc.wf(),
            acc.nvars == nv,
            acc@ == dot_spec(ideal@, g@, k as int),
        decreases ideal@.len() - k,
    {
        assert(ideal@[k as int].wf() && g@[k as int].wf());
        proof {
            if dot_fits(ideal@, g@, ideal@.len() as int) {
                lemma_dot_fits_prefix(ideal@, g@, ideal@.len() as int, k + 1);
            }
        }
        let t = match ideal[k].mul(&g[k]) {
            None => {
                return None;
            },
            Some(t) => t,
        };
        acc = match acc.add(&t) {
            None => {
                return None;
            },
            Some(a) => a,
        };
        k = k + 1;
    }
    Some(acc)
}

/// Every entry of `v` multiplied by the term `c·t`; `None` where an
/// exponent or coefficient leaves its range.
pub fn scale_vec<O: MonomialOrder>(v: &Vec<Ordpol<O>>, t: &Monomial, c: &Rational, nv: usize) -> (r:
    Option<Vec<Ordpol<O>>>)
    requires
        vec_wf(v@, v@.len(), nv as nat),
        t.wf(),
        c.wf(),
        t@.len() == nv,
    ensures
        (forall|k: int| 0 <= k < v@.len() ==> mul_term_fits(t@, c@, #[trigger] v@[k]@)) ==> r is Some,
        r matches Some(w) ==> vec_wf(w@, v@.len(), nv as nat) && forall|k: int|
            0 <= k < v@.len() ==> (#[trigger] w@[k])@ == poly_mul_term(t@, c@, v@[k]@),
{
    let mut w: Vec<Ordpol<O>> = Vec::new();
    let mut k: usize = 0;
    while k < v.len()
        invariant
            vec_wf(v@, v@.len(), nv as nat),
            t.wf(),
            c.wf(),
            t@.len() == nv,
            k <= v@.len(),
            vec_wf(w@, k as nat, nv as nat),
            forall|x: int| 0 <= x < k ==> (#[trigger] w@[x])@ == poly_mul_term(t@, c@, v@[x]@),
        decreases v@.len() - k,
    {
        assert(v@[k as int].wf());
        let p = match v[k].mul_term(t, c) {
            None => {
                return None;
            },
            Some(p) => p,
        };
        w.push(p);
        k = k + 1;
    }
    Some(w)
}

/// Entry-wise difference of two representation vectors; `None` where a
/// coefficient leaves its range.
pub fn sub_vec<O: MonomialOrder>(a: &Vec<Ordpol<O>>, b: &Vec<Ordpol<O>>, nv: usize) -> (r: Option<
    Vec<Ordpol<O>>,
>)
    requires
        vec_wf(a@, a@.len(), nv as nat),
        vec_wf(b@, a@.len(), nv as nat),
    ensures
        (forall|k: int| 0 <= k < a@.len() ==> add_fits(#[trigger] a@[k]@, poly_neg(b@[k]@)))
            ==> r is Some,
        r matches Some(w) ==> vec_wf(w@, a@.len(), nv as nat) && forall|k: int|
            0 <= k < a@.len() ==> (#[trigger] w@[k])@ == poly_add(a@[k]@, poly_neg(b@[k]@)),
{
    let mut w: Vec<Ordpol<O>> = Vec::new();
    let mut k: usize = 0;
    while k < a.len()
        invariant
            vec_wf(a@, a@.len(), nv as nat),
            vec_wf(b@, a@.len(), nv as nat),
            k <= a@.len(),
            vec_wf(w@, k as nat, nv as nat),
            forall|x: int| 0 <= x < k ==> (#[trigger] w@[x])@ == poly_add(a@[x]@, poly_neg(b@[x]@)),
        decreases a@.len() - k,
    {
        assert(a@[k as int].wf() && b@[k as int].wf());
        let p = match a[k].sub(&b[k]) {
            None => {
                return None;
            },
            Some(p) => p,
        };
        w.push(p);
        k = k + 1;
    }
    Some(w)
}

/// The position of the last nonzero entry among the first `k`; `-1` where
/// there is none.
pub open spec fn last_nonzero(vs: Seq<Map<Seq<nat>, (int, int)>>, k: int) -> int
    decreases k,
{
    if k <= 0 {
        -1
    } else if vs[k - 1] != Map::<Seq<nat>, (int, int)>::empty() {
        k - 1
    } else {
        last_nonzero(vs, k - 1)
    }
}

/// The signature of a vector of polynomial views: the last nonzero
/// position with the leading monomial there; `None` for the zero vector.
pub open spec fn map_sig<O: MonomialOrder>(vs: Seq<Map<Seq<nat>, (int, int)>>) -> Option<
    (int, Seq<nat>),
> {
    let p = last_nonzero(vs, vs.len() as int);
    if p < 0 {
        None
    } else {
        Some((p, lead_mono::<O>(vs[p])))
    }
}

/// Every entry of `v` multiplied by the term `c·t`.
pub open spec fn scaled<O: MonomialOrder>(v: Seq<Ordpol<O>>, t: Seq<nat>, c: (int, int)) -> Seq<
    Map<Seq<nat>, (int, int)>,
> {
    Seq::new(v.len(), |k: int| poly_mul_term(t, c, v[k]@))
}

proof fn lemma_last_nonzero(vs: Seq<Map<Seq<nat>, (int, int)>>, p: int, k: int)
    requires
        -1 <= p < k <= vs.len(),
        p >= 0 ==> vs[p] != Map::<Seq<nat>, (int, int)>::empty(),
        forall|x: int| p < x < k ==> #[trigger] vs[x] == Map::<Seq<nat>, (int, int)>::empty(),
    ensures
        last_nonzero(vs, k) == p,
    decreases k,
{
    if k - 1 > p {
        lemma_last_nonzero(vs, p, k - 1);
    }
}

/// The signature computed on a vector is its signature as views.
proof fn lemma_signature_views<O: MonomialOrder>(v: Seq<Ordpol<O>>, nv: nat, r: Option<Sig>)
    requires
        vec_wf(v, v.len(), nv),
        r is None <==> forall|k: int| 0 <= k < v.len() ==> (#[trigger] v[k]).terms@.len() == 0,
        r matches Some(s) ==> sig_of(v, s),
    ensures
        r is None ==> map_sig::<O>(views(v)) is None,
        r matches Some(s) ==> map_sig::<O>(views(v)) == Some((s.position as int, s.monomial@)),
{
    let vs = views(v);
    assert forall|x: int| 0 <= x < v.len() implies (#[trigger] vs[x] == Map::<Seq<nat>, (int, int)>::empty())
        == (v[x].terms@.len() == 0) by {
        assert(vs[x] == v[x]@);
        assert(v[x].wf());
        v[x].lemma_view();
    }
    match r {
        None => {
            lemma_last_nonzero(vs, -1, v.len() as int);
        },
        Some(s) => {
            let p = s.position as int;
            assert(vs[p] != Map::<Seq<nat>, (int, int)>::empty());
            assert forall|x: int| p < x < v.len() implies #[trigger] vs[x] == Map::<
                Seq<nat>,
                (int, int),
            >::empty() by {
                assert(v[x].terms@.len() == 0);
            }
            lemma_last_nonzero(vs, p, v.len() as int);
            assert(v[p].wf());
            crate::division::lemma_lead_mono(v[p]);
        },
    }
}

proof fn lemma_last_nonzero_inv(vs: Seq<Map<Seq<nat>, (int, int)>>, k: int)
    requires
        0 <= k <= vs.len(),
    ensures
        -1 <= last_nonzero(vs, k) < k,
        last_nonzero(vs, k) >= 0 ==> vs[last_nonzero(vs, k)] != Map::<Seq<nat>, (int, int)>::empty(),
        forall|x: int| last_nonzero(vs, k) < x < k ==> #[trigger] vs[x] == Map::<Seq<nat>, (int, int)>::empty(),
    decreases k,
{
    if k > 0 && vs[k - 1] == Map::<Seq<nat>, (int, int)>::empty() {
        lemma_last_nonzero_inv(vs, k - 1);
    }
}

/// `x` is below `y` in the signature order (position, then monomial).
pub open spec fn sig_below<O: MonomialOrder>(x: (int, Seq<nat>), y: (int, Seq<nat>)) -> bool {
    x.0 < y.0 || (x.0 == y.0 && O::cmp(x.1, y.1) < 0)
}

/// Subtracting a vector of lower signature keeps the signature.
proof fn lemma_sig_keep<O: MonomialOrder>(
    g: Seq<Ordpol<O>>,
    d: Seq<Ordpol<O>>,
    w: Seq<Ordpol<O>>,
    n: nat,
    nv: nat,
    sg: (int, Seq<nat>),
)
    requires
        vec_wf(g, n, nv),
        vec_wf(d, n, nv),
        vec_wf(w, n, nv),
        forall|i: int| 0 <= i < n ==> (#[trigger] w[i])@ == poly_add(g[i]@, poly_neg(d[i]@)),
        map_sig::<O>(views(g)) == Some(sg),
        map_sig::<O>(views(d)) matches Some(x) ==> sig_below::<O>(x, sg),
    ensures
        map_sig::<O>(views(w)) == Some(sg),
{
    let gv = views(g);
    let dv = views(d);
    let wv = views(w);
    let e = Map::<Seq<nat>, (int, int)>::empty();
    lemma_last_nonzero_inv(gv, n as int);
    lemma_last_nonzero_inv(dv, n as int);
    let p = sg.0;
    let m = sg.1;
    let pd = last_nonzero(dv, n as int);
    assert(pd <= p) by {
        if pd > p {
            assert(map_sig::<O>(dv) == Some((pd, lead_mono::<O>(dv[pd]))));
        }
    }
    assert forall|x: int| p < x < n implies #[trigger] wv[x] == e by {
        assert(wv[x] == w[x]@ && gv[x] == g[x]@ && dv[x] == d[x]@);
        assert(poly_neg(e) =~= e);
        crate::ordpol::lemma_add_zero_zero();
        assert(poly_add(e, e) =~= e);
    }
    assert(gv[p] == g[p]@ && dv[p] == d[p]@ && wv[p] == w[p]@);
    assert(g[p].wf() && d[p].wf());
    g[p].lemma_view();
    crate::division::lemma_lead_mono(g[p]);
    lemma_vec_canonical(g, n, nv, p);
    lemma_vec_canonical(d, n, nv, p);
    d[p].lemma_view();
    if pd == p {
        crate::division::lemma_lead_mono(d[p]);
        let md = lead_mono::<O>(dv[p]);
        assert forall|k: Seq<nat>| #[trigger] dv[p].contains_key(k) implies k.len() == nv
            && O::cmp(k, m) < 0 by {
            if k != md {
                O::lemma_transitive(k, md, m);
            }
        }
    } else {
        assert(dv[p] == e);
    }
    crate::division::lemma_lead_sub_lower::<O>(g[p]@, d[p]@, m, nv);
    lemma_last_nonzero(wv, p, n as int);
}

/// A queued vector: well formed, with its signature stored beside it.
pub open spec fn queued_ok<O: MonomialOrder>(e: (Sig, Vec<Ordpol<O>>), n: nat, nv: nat) -> bool {
    &&& e.0.wf(nv)
    &&& vec_wf(e.1@, n, nv)
    &&& map_sig::<O>(views(e.1@)) == Some((e.0.position as int, e.0.monomial@))
}

proof fn lemma_last_nonzero_same(a: Seq<Map<Seq<nat>, (int, int)>>, b: Seq<Map<Seq<nat>, (int, int)>>, k: int)
    requires
        a.len() == b.len(),
        0 <= k <= a.len(),
        forall|x: int|
            0 <= x < a.len() ==> (#[trigger] a[x] == Map::<Seq<nat>, (int, int)>::empty()) == (b[x]
                == Map::<Seq<nat>, (int, int)>::empty()),
    ensures
        last_nonzero(a, k) == last_nonzero(b, k),
    decreases k,
{
    if k > 0 {
        lemma_last_nonzero_same(a, b, k - 1);
    }
}

/// Scaling every entry by a nonzero constant keeps the signature.
proof fn lemma_scale_unit_sig<O: MonomialOrder>(
    h: Seq<Ordpol<O>>,
    hn: Seq<Ordpol<O>>,
    c: (int, int),
    n: nat,
    nv: nat,
)
    requires
        vec_wf(h, n, nv),
        vec_wf(hn, n, nv),
        lowest_terms(c),
        c != crate::rational::rat_zero(),
        forall|k: int| 0 <= k < n ==> (#[trigger] hn[k])@ == poly_mul_term(mono_one(nv), c, h[k]@),
    ensures
        map_sig::<O>(views(hn)) == map_sig::<O>(views(h)),
{
    let a = views(hn);
    let b = views(h);
    assert forall|x: int, m: Seq<nat>| 0 <= x < n implies #[trigger] a[x].contains_key(m)
        == b[x].contains_key(m) by {
        assert(a[x] == hn[x]@ && b[x] == h[x]@);
        assert(h[x].wf());
        h[x].lemma_view();
        if m.len() == nv {
            assert(mono_div(m, mono_one(nv)) =~= m);
            assert(mono_divides(mono_one(nv), m));
            if b[x].contains_key(m) {
                crate::rational::lemma_rat_mul_nonzero(c, b[x][m]);
            }
        }
    }
    assert forall|x: int| 0 <= x < a.len() implies (#[trigger] a[x] == Map::<Seq<nat>, (int, int)>::empty())
        == (b[x] == Map::<Seq<nat>, (int, int)>::empty()) by {
        if a[x] == Map::<Seq<nat>, (int, int)>::empty() {
            assert(b[x] =~= Map::<Seq<nat>, (int, int)>::empty());
        }
        if b[x] == Map::<Seq<nat>, (int, int)>::empty() {
            assert(a[x] =~= Map::<Seq<nat>, (int, int)>::empty());
        }
    }
    lemma_last_nonzero_same(a, b, n as int);
    let p = last_nonzero(b, n as int);
    if p >= 0 {
        lemma_last_nonzero_inv(b, n as int);
        assert(b[p] == h[p]@ && a[p] == hn[p]@);
        assert(h[p].wf() && hn[p].wf());
        crate::division::lemma_lead_mono(h[p]);
        let m = lead(h[p]).0;
        hn[p].lemma_view();
        assert(crate::division::is_lead::<O>(a[p], m));
        crate::division::lemma_is_lead_unique::<O>(a[p], m, nv);
    }
}

/// Scaling a vector by a term `c·t` with `c` nonzero keeps the position of
/// its signature and multiplies the monomial by `t`.
proof fn lemma_scaled_sig<O: MonomialOrder>(
    v: Seq<Ordpol<O>>,
    t: Seq<nat>,
    c: (int, int),
    n: nat,
    nv: nat,
)
    requires
        vec_wf(v, n, nv),
        lowest_terms(c),
        c != crate::rational::rat_zero(),
        t.len() == nv,
    ensures
        map_sig::<O>(views(v)) is None ==> map_sig::<O>(scaled(v, t, c)) is None,
        map_sig::<O>(views(v)) matches Some(x) ==> map_sig::<O>(scaled(v, t, c)) == Some(
            (x.0, crate::monomial::mono_mul(x.1, t)),
        ),
{
    let a = scaled(v, t, c);
    let b = views(v);
    let e = Map::<Seq<nat>, (int, int)>::empty();
    assert forall|x: int| 0 <= x < a.len() implies (#[trigger] a[x] == e) == (b[x] == e) by {
        assert(b[x] == v[x]@);
        assert(v[x].wf());
        v[x].lemma_view();
        if b[x] != e {
            let k = choose|k: Seq<nat>| b[x].contains_key(k);
            assert(b[x].dom().contains(k)) by {
                assert(!(b[x] =~= e));
            }
            crate::ordpol::lemma_div_mul_cancel(k, t);
            crate::rational::lemma_rat_mul_nonzero(c, b[x][k]);
            assert(a[x].contains_key(crate::monomial::mono_mul(k, t)));
        }
        if a[x] != e {
            assert(!(a[x] =~= e));
            let y = choose|y: Seq<nat>| a[x].contains_key(y);
            assert(b[x].contains_key(mono_div(y, t)));
        }
    }
    lemma_last_nonzero_same(a, b, n as int);
    let p = last_nonzero(b, n as int);
    if p >= 0 {
        lemma_last_nonzero_inv(b, n as int);
        assert(b[p] == v[p]@);
        assert(v[p].wf());
        crate::division::lemma_lead_mono(v[p]);
        let lm = lead(v[p]).0;
        let lt = crate::monomial::mono_mul(lm, t);
        crate::ordpol::lemma_div_mul_cancel(lm, t);
        crate::rational::lemma_rat_mul_nonzero(c, b[p][lm]);
        assert(a[p].contains_key(lt));
        assert forall|y: Seq<nat>| #[trigger] a[p].contains_key(y) && y != lt implies O::cmp(y, lt) < 0 by {
            let k = mono_div(y, t);
            crate::ordpol::lemma_mul_div_cancel(y, t);
            assert(b[p].contains_key(k));
            if k == lm {
                assert(y == lt);
            }
            O::lemma_mul_compatible(k, lm, t);
        }
        assert forall|y: Seq<nat>| #[trigger] a[p].contains_key(y) implies y.len() == nv by {}
        crate::division::lemma_is_lead_unique::<O>(a[p], lt, nv);
    }
}

/// The regular S-vector of two basis elements `f` and `g` with their
/// representations: with `L = lcm(LM f, LM g)`, `(L/LM f)·f_vec −
/// (L/LM g)·g_vec`. `Some(None)` where the two scaled vectors have the same
/// signature (or one has none), so the pair is not regular; `None` where an
/// exponent or coefficient leaves its range.
pub fn regular_svector<O: MonomialOrder>(
    f: &Ordpol<O>,
    f_vec: &Vec<Ordpol<O>>,
    g: &Ordpol<O>,
    g_vec: &Vec<Ordpol<O>>,
) -> (r: Option<Option<Vec<Ordpol<O>>>>)
    requires
        f.wf(),
        g.wf(),
        f.nvars == g.nvars,
        f.terms@.len() > 0,
        g.terms@.len() > 0,
        vec_wf(f_vec@, f_vec@.len(), f.nvars as nat),
        vec_wf(g_vec@, f_vec@.len(), f.nvars as nat),
    ensures
        r matches Some(None) ==> {
            let l = mono_lcm(lead(*f).0, lead(*g).0);
            let a = map_sig::<O>(scaled(f_vec@, mono_div(l, lead(*f).0), rat_one()));
            let b = map_sig::<O>(scaled(g_vec@, mono_div(l, lead(*g).0), rat_one()));
            a is None || b is None || a == b
        },
        r matches Some(Some(w)) ==> {
            let l = mono_lcm(lead(*f).0, lead(*g).0);
            let sa = scaled(f_vec@, mono_div(l, lead(*f).0), rat_one());
            let sb = scaled(g_vec@, mono_div(l, lead(*g).0), rat_one());
            &&& vec_wf(w@, f_vec@.len(), f.nvars as nat)
            &&& map_sig::<O>(sa) is Some
            &&& map_sig::<O>(sb) is Some
            &&& map_sig::<O>(sa) != map_sig::<O>(sb)
            &&& forall|i: int|
                0 <= i < w@.len() ==> (#[trigger] w@[i])@ == poly_add(sa[i], poly_neg(sb[i]))
        },
{
    let nv = f.nvars;
    let (lm_f, _) = f.lead_parts();
    let (lm_g, _) = g.lead_parts();
    let l = lm_f.lcm(&lm_g);
    let uf = match l.div(&lm_f) {
        None => {
            return None;
        },
        Some(u) => u,
    };
    let ug = match l.div(&lm_g) {
        None => {
            return None;
        },
        Some(u) => u,
    };
    let one = Rational::one();
    let vl = match scale_vec(f_vec, &uf, &one, nv) {
        None => {
            return None;
        },
        Some(v) => v,
    };
    let vr = match scale_vec(g_vec, &ug, &one, nv) {
        None => {
            return None;
        },
        Some(v) => v,
    };
    let sl = signature(&vl, Ghost(nv as nat));
    let sr = signature(&vr, Ghost(nv as nat));
    proof {
        assert(views(vl@) =~= scaled(f_vec@, uf@, rat_one()));
        assert(views(vr@) =~= scaled(g_vec@, ug@, rat_one()));
        lemma_signature_views(vl@, nv as nat, sl);
        lemma_signature_views(vr@, nv as nat, sr);
    }
    match (sl, sr) {
        (Some(a), Some(b)) => {
            proof {
                O::lemma_antisymmetric(a.monomial@, b.monomial@);
            }
            if matches!(compare_sig::<O>(&a, &b), Ordering::Equal) {
                Some(None)
            } else {
                match sub_vec(&vl, &vr, nv) {
                    None => None,
                    Some(w) => Some(Some(w)),
                }
            }
        },
        _ => Some(None),
    }
}

/// A basis element of the engine: the polynomial, its signature and its
/// representation.
pub open spec fn element_wf<O: MonomialOrder>(e: (Ordpol<O>, Sig, Vec<Ordpol<O>>), n: nat, nv: nat) -> bool {
    &&& e.0.wf()
    &&& e.0.nvars == nv
    &&& e.0.terms@.len() > 0
    &&& e.1.wf(nv)
    &&& vec_wf(e.2@, n, nv)
}

/// The polynomial of an element is the dot product of the input with its
/// representation.
pub open spec fn represents<O: MonomialOrder>(
    ideal: Seq<Ordpol<O>>,
    e: (Ordpol<O>, Sig, Vec<Ordpol<O>>),
) -> bool {
    e.0@ == dot_spec(ideal, e.2@, ideal.len() as int)
}

/// The element `h` may reduce the monomial `m` of a vector of signature
/// `s`: its leading monomial divides `m`, and its representation scaled by
/// the quotient has a signature below `s`.
pub open spec fn admissible<O: MonomialOrder>(
    h: (Ordpol<O>, Sig, Vec<Ordpol<O>>),
    m: Seq<nat>,
    s: (int, Seq<nat>),
) -> bool {
    &&& mono_divides(lead(h.0).0, m)
    &&& map_sig::<O>(scaled(h.2@, mono_div(m, lead(h.0).0), rat_one())) matches Some(x)
    &&& sig_below::<O>(x, s)
}

/// Reduces the polynomial of the representation `g` by the elements `hs`,
/// using only reducers whose scaled representation has a signature below
/// `sig_g`; terms that no such reducer cancels move to the result. Returns
/// the rewritten representation and the reduced polynomial. `None` where an
/// exponent or coefficient leaves its range, or after `MAX_STEPS` steps.
pub fn reduce<O: MonomialOrder>(
    ideal: &Vec<Ordpol<O>>,
    g: Vec<Ordpol<O>>,
    sig_g: &Sig,
    hs: &Vec<(Ordpol<O>, Sig, Vec<Ordpol<O>>)>,
    nv: usize,
) -> (r: Option<(Vec<Ordpol<O>>, Ordpol<O>)>)
    requires
        nv <= u32::MAX,
        vec_wf(ideal@, ideal@.len(), nv as nat),
        vec_wf(g@, ideal@.len(), nv as nat),
        sig_g.wf(nv as nat),
        forall|k: int| 0 <= k < hs@.len() ==> element_wf(#[trigger] hs@[k], ideal@.len(), nv as nat),
        forall|k: int| 0 <= k < hs@.len() ==> represents(ideal@, #[trigger] hs@[k]),
        map_sig::<O>(views(g@)) == Some((sig_g.position as int, sig_g.monomial@)),
    ensures
        r matches Some(res) ==> vec_wf(res.0@, ideal@.len(), nv as nat) && res.1.wf() && res.1.nvars
            == nv && res.1@ == dot_spec(ideal@, res.0@, ideal@.len() as int),
        r matches Some(res) ==> map_sig::<O>(views(res.0@)) == Some(
            (sig_g.position as int, sig_g.monomial@),
        ),
        r matches Some(res) ==> forall|mm: Seq<nat>, x: int|
            #[trigger] res.1@.contains_key(mm) && 0 <= x < hs@.len() ==> !admissible::<O>(
                #[trigger] hs@[x],
                mm,
                (sig_g.position as int, sig_g.monomial@),
            ),
{
    let n = ideal.len();
    let mut g = g;
    let mut work = match dot(ideal, &g, nv) {
        None => {
            return None;
        },
        Some(p) => p,
    };
    let mut rem = Ordpol::zero(nv);
    proof {
        work.lemma_canonical();
        lemma_add_zero_left(work@);
    }
    let mut fuel: u64 = MAX_STEPS;
    while work.len() > 0
        invariant
            nv <= u32::MAX,
            n == ideal@.len(),
            vec_wf(ideal@, n as nat, nv as nat),
            vec_wf(g@, n as nat, nv as nat),
            sig_g.wf(nv as nat),
            forall|k: int| 0 <= k < hs@.len() ==> element_wf(#[trigger] hs@[k], n as nat, nv as nat),
            forall|k: int| 0 <= k < hs@.len() ==> represents(ideal@, #[trigger] hs@[k]),
            work.wf(),
            work.nvars == nv,
            rem.wf(),
            rem.nvars == nv,
            dot_spec(ideal@, g@, n as int) == poly_add(work@, rem@),
            map_sig::<O>(views(g@)) == Some((sig_g.position as int, sig_g.monomial@)),
            forall|mm: Seq<nat>, x: int|
                #[trigger] rem@.contains_key(mm) && 0 <= x < hs@.len() ==> !admissible::<O>(
                    #[trigger] hs@[x],
                    mm,
                    (sig_g.position as int, sig_g.monomial@),
                ),
        decreases fuel,
    {
        let ghost work_old = work;
        let ghost rem_old = rem@;
        let ghost g_old = g@;
        proof {
            work.lemma_canonical();
            rem.lemma_canonical();
        }
        if fuel == 0 {
            return None;
        }
        fuel = fuel - 1;
        let (m, c) = work.lead_parts();
        let mut found: Option<(Vec<Ordpol<O>>, Ordpol<O>)> = None;
        let mut k: usize = 0;
        while k < hs.len() && found.is_none()
            invariant
                nv <= u32::MAX,
                n == ideal@.len(),
                forall|x: int| 0 <= x < hs@.len() ==> element_wf(#[trigger] hs@[x], n as nat, nv as nat),
                sig_g.wf(nv as nat),
                m.wf(),
                m@.len() == nv,
                c.wf(),
                k <= hs@.len(),
                vec_wf(ideal@, n as nat, nv as nat),
                forall|x: int| 0 <= x < hs@.len() ==> represents(ideal@, #[trigger] hs@[x]),
                found matches Some(fd) ==> vec_wf(fd.0@, n as nat, nv as nat) && fd.1.wf() && fd.1.nvars == nv
                    && dot_spec(ideal@, fd.0@, n as int) == fd.1@ && (map_sig::<O>(views(fd.0@)) matches Some(
                    x) ==> sig_below::<O>(x, (sig_g.position as int, sig_g.monomial@))),
                c@ != rat_zero(),
                found is None ==> forall|x: int|
                    0 <= x < k ==> !admissible::<O>(
                        #[trigger] hs@[x],
                        m@,
                        (sig_g.position as int, sig_g.monomial@),
                    ),
            decreases hs@.len() - k + (if found is None {
                1int
            } else {
                0int
            }),
        {
            assert(element_wf(hs@[k as int], n as nat, nv as nat));
            let h = &hs[k];
            let (lm_h, lc_h) = h.0.lead_parts();
            let mut next = true;
            let ghost sg = (sig_g.position as int, sig_g.monomial@);
            match m.div(&lm_h) {
                None => {},
                Some(t) => {
                    let fc = match c.checked_div(&lc_h) {
                        None => {
                            return None;
                        },
                        Some(fc) => fc,
                    };
                    let hv = match scale_vec(&h.2, &t, &fc, nv) {
                        None => {
                            return None;
                        },
                        Some(v) => v,
                    };
                    proof {
                        crate::rational::lemma_rat_div_nonzero(c@, lc_h@);
                        assert(views(hv@) =~= scaled(h.2@, t@, fc@));
                        lemma_scaled_sig(h.2@, t@, fc@, n as nat, nv as nat);
                        lemma_scaled_sig(h.2@, t@, rat_one(), n as nat, nv as nat);
                    }
                    let sh = signature(&hv, Ghost(nv as nat));
                    proof {
                        lemma_signature_views(hv@, nv as nat, sh);
                    }
                    if let Some(s) = sh {
                        if matches!(compare_sig::<O>(&s, sig_g), Ordering::Less) {
                            let ph = match h.0.mul_term(&t, &fc) {
                                None => {
                                    return None;
                                },
                                Some(p) => p,
                            };
                            proof {
                                assert(represents(ideal@, hs@[k as int]));
                                lemma_dot_scale(ideal@, h.2@, hv@, t@, fc@, nv as nat, n as int);
                            }
                            found = Some((hv, ph));
                            next = false;
                        }
                    }
                },
            }
            if next {
                k = k + 1;
            }
        }
        match found {
            None => {
                let single = Ordpol::from_term(m, c);
                rem = match rem.add(&single) {
                    None => {
                        return None;
                    },
                    Some(x) => x,
                };
                work.pop_lead_term();
                proof {
                    let sv = single@;
                    single.lemma_canonical();
                    lemma_pop_reinsert(work_old);
                    assert(work@ == to_map(work_old.tseq().drop_last()));
                    work.lemma_canonical();
                    lemma_add_assoc(work@, sv, rem_old);
                    lemma_add_commutative(sv, rem_old);
                }
            },
            Some((d, ph)) => {
                g = match sub_vec(&g, &d, nv) {
                    None => {
                        return None;
                    },
                    Some(w) => w,
                };
                work = match work.sub(&ph) {
                    None => {
                        return None;
                    },
                    Some(w) => w,
                };
                proof {
                    lemma_sig_keep(g_old, d@, g@, n as nat, nv as nat, (sig_g.position as int, sig_g.monomial@));
                    lemma_dot_sub(ideal@, g_old, d@, g@, nv as nat, n as int);
                    ph.lemma_canonical();
                    lemma_neg_coef(ph@);
                    lemma_add_assoc(work_old@, rem_old, poly_neg(ph@));
                    lemma_add_commutative(rem_old, poly_neg(ph@));
                    lemma_add_assoc(work_old@, poly_neg(ph@), rem_old);
                }
            },
        }
    }
    proof {
        rem.lemma_canonical();
        lemma_add_zero_left(rem@);
    }
    Some((g, rem))
}

/// The position of the first queued vector of greatest signature.
fn select_max<O: MonomialOrder>(q: &Vec<(Sig, Vec<Ordpol<O>>)>, nv: Ghost<nat>) -> (r: usize)
    requires
        q@.len() > 0,
        forall|k: int| 0 <= k < q@.len() ==> (#[trigger] q@[k]).0.wf(nv@),
    ensures
        r < q@.len(),
{
    let mut best: usize = 0;
    let mut k: usize = 1;
    while k < q.len()
        invariant
            q@.len() > 0,
            forall|x: int| 0 <= x < q@.len() ==> (#[trigger] q@[x]).0.wf(nv@),
            best < k <= q@.len(),
        decreases q@.len() - k,
    {
        assert(q@[k as int].0.wf(nv@) && q@[best as int].0.wf(nv@));
        if matches!(compare_sig::<O>(&q[k].0, &q[best].0), Ordering::Greater) {
            best = k;
        }
        k = k + 1;
    }
    best
}

/// Whether some element already has the signature `s`.
fn has_signature<O: MonomialOrder>(gs: &Vec<(Ordpol<O>, Sig, Vec<Ordpol<O>>)>, s: &Sig, n: Ghost<nat>) -> (r: bool)
    requires
        s.wf(s.monomial@.len()),
        forall|k: int| 0 <= k < gs@.len() ==> element_wf(#[trigger] gs@[k], n@, s.monomial@.len()),
    ensures
        r == exists|k: int| 0 <= k < gs@.len() && sig_cmp::<O>((#[trigger] gs@[k]).1, *s) == 0,
{
    let mut k: usize = 0;
    while k < gs.len()
        invariant
            s.wf(s.monomial@.len()),
            forall|x: int| 0 <= x < gs@.len() ==> element_wf(#[trigger] gs@[x], n@, s.monomial@.len()),
            k <= gs@.len(),
            forall|x: int| 0 <= x < k ==> sig_cmp::<O>((#[trigger] gs@[x]).1, *s) != 0,
        decreases gs@.len() - k,
    {
        assert(element_wf(gs@[k as int], n@, s.monomial@.len()));
        if matches!(compare_sig::<O>(&gs[k].1, s), Ordering::Equal) {
            return true;
        }
        k = k + 1;
    }
    false
}

/// Every polynomial of `ideal` is zero.
pub open spec fn all_zero<O: MonomialOrder>(ideal: Seq<Ordpol<O>>) -> bool {
    forall|k: int| 0 <= k < ideal.len() ==> (#[trigger] ideal[k]).terms@.len() == 0
}

/// The input is well formed: every polynomial in `nv` variables.
pub open spec fn ideal_wf<O: MonomialOrder>(ideal: Seq<Ordpol<O>>, nv: nat) -> bool {
    &&& nv <= u32::MAX
    &&& vec_wf(ideal, ideal.len(), nv)
}

/// Signature-based Gröbner basis: the basis polynomials, each nonzero, with
/// their representation vectors over the input, in the order they were
/// committed. Empty where every input is zero. `None` where an exponent or
/// coefficient leaves its range, or after `MAX_STEPS` steps.
pub fn signature_gb<O: MonomialOrder>(ideal: &Vec<Ordpol<O>>, nv: usize) -> (r: Option<
    Vec<(Vec<Ordpol<O>>, Ordpol<O>)>,
>)
    requires
        ideal_wf(ideal@, nv as nat),
    ensures
        all_zero(ideal@) ==> (r matches Some(res) && res@.len() == 0),
        r matches Some(res) ==> forall|k: int|
            0 <= k < res@.len() ==> vec_wf((#[trigger] res@[k]).0@, ideal@.len(), nv as nat)
                && res@[k].1.wf() && res@[k].1.nvars == nv && res@[k].1.terms@.len() > 0
                && res@[k].1@ == dot_spec(ideal@, res@[k].0@, ideal@.len() as int)
                && lead(res@[k].1).1 == rat_one() && map_sig::<O>(views(res@[k].0@)) is Some,
        r matches Some(res) ==> forall|k: int, l: int|
            0 <= k < l < res@.len() ==> map_sig::<O>(views((#[trigger] res@[k]).0@)) != map_sig::<O>(
                views((#[trigger] res@[l]).0@),
            ),
{
    let n = ideal.len();
    let mut zero_so_far = true;
    let mut k: usize = 0;
    while k < n
        invariant
            n == ideal@.len(),
            k <= n,
            zero_so_far == forall|x: int| 0 <= x < k ==> (#[trigger] ideal@[x]).terms@.len() == 0,
        decreases n - k,
    {
        if ideal[k].len() > 0 {
            zero_so_far = false;
        }
        k = k + 1;
    }
    if zero_so_far {
        return Some(Vec::new());
    }
    let ghost gnv = nv as nat;
    let mut gs: Vec<(Ordpol<O>, Sig, Vec<Ordpol<O>>)> = Vec::new();
    let mut ps: Vec<(Sig, Vec<Ordpol<O>>)> = Vec::new();
    let mut syzs: Vec<Sig> = Vec::new();
    let mut i: usize = 0;
    while i < n
        invariant
            n == ideal@.len(),
            ideal_wf(ideal@, gnv),
            gnv == nv,
            !all_zero(ideal@),
            i <= n,
            forall|x: int| 0 <= x < ps@.len() ==> queued_ok::<O>(#[trigger] ps@[x], n as nat, gnv),
            forall|x: int| 0 <= x < syzs@.len() ==> (#[trigger] syzs@[x]).wf(gnv),
        decreases n - i,
    {
        let e = basis::<O>(n, i, nv);
        if let Some(s) = signature(&e, Ghost(gnv)) {
            proof {
                lemma_signature_views(e@, gnv, Some(s));
            }
            ps.push((s, e));
        }
        let mut j: usize = 0;
        while j < i
            invariant
                n == ideal@.len(),
                ideal_wf(ideal@, gnv),
                gnv == nv,
                !all_zero(ideal@),
                i < n,
                j <= i,
                forall|x: int| 0 <= x < ps@.len() ==> queued_ok::<O>(#[trigger] ps@[x], n as nat, gnv),
                forall|x: int| 0 <= x < syzs@.len() ==> (#[trigger] syzs@[x]).wf(gnv),
            decreases i - j,
        {
            // the Koszul syzygy f_j·e_i − f_i·e_j
            let mut v: Vec<Ordpol<O>> = Vec::new();
            let mut x: usize = 0;
            while x < n
                invariant
                    n == ideal@.len(),
                    ideal_wf(ideal@, gnv),
                    gnv == nv,
                    !all_zero(ideal@),
                    x <= n,
                    i < n,
                    j < i,
                    vec_wf(v@, x as nat, gnv),
                decreases n - x,
            {
                assert(ideal@[j as int].wf() && ideal@[i as int].wf());
                if x == i {
                    v.push(ideal[j].copy());
                } else if x == j {
                    v.push(ideal[i].neg());
                } else {
                    v.push(Ordpol::zero(nv));
                }
                x = x + 1;
            }
            if let Some(s) = signature(&v, Ghost(gnv)) {
                syzs.push(s);
            }
            j = j + 1;
        }
        i = i + 1;
    }
    let mut fuel: u64 = MAX_STEPS;
    while ps.len() > 0
        invariant
            n == ideal@.len(),
            ideal_wf(ideal@, gnv),
            gnv == nv,
            !all_zero(ideal@),
            forall|x: int| 0 <= x < ps@.len() ==> queued_ok::<O>(#[trigger] ps@[x], n as nat, gnv),
            forall|x: int| 0 <= x < syzs@.len() ==> (#[trigger] syzs@[x]).wf(gnv),
            forall|x: int| 0 <= x < gs@.len() ==> element_wf(#[trigger] gs@[x], n as nat, gnv),
            forall|x: int| 0 <= x < gs@.len() ==> represents(ideal@, #[trigger] gs@[x]),
            forall|x: int| 0 <= x < gs@.len() ==> lead((#[trigger] gs@[x]).0).1 == rat_one(),
            forall|x: int|
                0 <= x < gs@.len() ==> map_sig::<O>(views((#[trigger] gs@[x]).2@)) == Some(
                    (gs@[x].1.position as int, gs@[x].1.monomial@),
                ),
            forall|x: int, y: int|
                0 <= x < y < gs@.len() ==> sig_cmp::<O>((#[trigger] gs@[x]).1, (#[trigger] gs@[y]).1)
                    != 0,
        decreases fuel,
    {
        if fuel == 0 {
            return None;
        }
        fuel = fuel - 1;
        let top = select_max::<O>(&ps, Ghost(gnv));
        let ghost queue = ps@;
        let (g_sig, g) = ps.remove(top);
        assert(queued_ok::<O>((g_sig, g), n as nat, gnv)) by {
            assert(queue[top as int] == (g_sig, g));
        }
        assert forall|x: int| 0 <= x < ps@.len() implies queued_ok::<O>(#[trigger] ps@[x], n as nat, gnv) by {
            if x < top {
                assert(ps@[x] == queue[x]);
            } else {
                assert(ps@[x] == queue[x + 1]);
            }
        }
        if std_criterion(&g_sig, &syzs) {
            continue;
        }
        if has_signature::<O>(&gs, &g_sig, Ghost(n as nat)) {
            continue;
        }
        let (h, ph) = match reduce(ideal, g, &g_sig, &gs, nv) {
            None => {
                return None;
            },
            Some(x) => x,
        };
        if ph.is_zero() {
            if let Some(s) = signature(&h, Ghost(gnv)) {
                syzs.push(s);
            }
        } else {
            proof {
                ph.lemma_view();
            }
            let (_, lc) = ph.lead_parts();
            let c_inv = match Rational::one().checked_div(&lc) {
                None => {
                    return None;
                },
                Some(c) => c,
            };
            let one_m = Monomial::one(nv);
            let hn = match scale_vec(&h, &one_m, &c_inv, nv) {
                None => {
                    return None;
                },
                Some(v) => v,
            };
            let pn = match ph.mul_term(&one_m, &c_inv) {
                None => {
                    return None;
                },
                Some(p) => p,
            };
            proof {
                lemma_dot_scale(ideal@, h@, hn@, one_m@, c_inv@, gnv, n as int);
                lemma_rat_recip(lc@);
                lemma_scale_unit_sig(h@, hn@, c_inv@, n as nat, gnv);
                if pn.terms@.len() > 0 {
                    let k = pn.tseq().len() - 1;
                    assert(pn.tseq()[k].1 == rat_mul(c_inv@, ph.tseq()[k].1));
                }
            }
            if pn.is_zero() {
                continue;
            }
            proof {
                pn.lemma_view();
            }
            let mut x: usize = 0;
            while x < gs.len()
                invariant
                    n == ideal@.len(),
                    gnv == nv,
                    !all_zero(ideal@),
                    pn.wf(),
                    pn.nvars == nv,
                    pn.terms@.len() > 0,
                    vec_wf(hn@, n as nat, gnv),
                    x <= gs@.len(),
                    forall|y: int| 0 <= y < ps@.len() ==> queued_ok::<O>(#[trigger] ps@[y], n as nat, gnv),
                    forall|y: int| 0 <= y < gs@.len() ==> element_wf(#[trigger] gs@[y], n as nat, gnv),
                    forall|y: int| 0 <= y < gs@.len() ==> represents(ideal@, #[trigger] gs@[y]),
                    forall|y: int| 0 <= y < gs@.len() ==> lead((#[trigger] gs@[y]).0).1 == rat_one(),
                    forall|y: int|
                        0 <= y < gs@.len() ==> map_sig::<O>(views((#[trigger] gs@[y]).2@)) == Some(
                            (gs@[y].1.position as int, gs@[y].1.monomial@),
                        ),
                    forall|a: int, b: int|
                        0 <= a < b < gs@.len() ==> sig_cmp::<O>((#[trigger] gs@[a]).1, (#[trigger] gs@[b]).1)
                            != 0,
                    forall|y: int| 0 <= y < gs@.len() ==> sig_cmp::<O>((#[trigger] gs@[y]).1, g_sig) != 0,
                    map_sig::<O>(views(hn@)) == Some((g_sig.position as int, g_sig.monomial@)),
                    g_sig.wf(gnv),
                    lead(pn).1 == rat_one(),
                    ideal_wf(ideal@, gnv),
                    pn@ == dot_spec(ideal@, hn@, n as int),
                decreases gs@.len() - x,
            {
                assert(element_wf(gs@[x as int], n as nat, gnv));
                match regular_svector(&pn, &hn, &gs[x].0, &gs[x].2) {
                    None => {
                        return None;
                    },
                    Some(None) => {},
                    Some(Some(w)) => {
                        if let Some(s) = signature(&w, Ghost(gnv)) {
                            proof {
                                lemma_signature_views(w@, gnv, Some(s));
                            }
                            ps.push((s, w));
                        }
                    },
                }
                x = x + 1;
            }
            match signature(&hn, Ghost(gnv)) {
                None => {},
                Some(s) => {
                    let ghost before = gs@;
                    proof {
                        lemma_signature_views(hn@, gnv, Some(s));
                    }
                    gs.push((pn, s, hn));
                    proof {
                        assert forall|y: int|
                            0 <= y < gs@.len() implies map_sig::<O>(views((#[trigger] gs@[y]).2@))
                            == Some((gs@[y].1.position as int, gs@[y].1.monomial@)) by {
                            if y < before.len() {
                                assert(gs@[y] == before[y]);
                            }
                        }
                        assert forall|a: int, b: int|
                            0 <= a < b < gs@.len() implies sig_cmp::<O>(
                                (#[trigger] gs@[a]).1,
                                (#[trigger] gs@[b]).1,
                            ) != 0 by {
                            assert(gs@[a] == before[a]);
                            if b < before.len() {
                                assert(gs@[b] == before[b]);
                            } else {
                                assert(sig_cmp::<O>(before[a].1, g_sig) != 0);
                            }
                        }
                        assert forall|y: int| 0 <= y < gs@.len() implies represents(
                            ideal@,
                            #[trigger] gs@[y],
                        ) && lead(gs@[y].0).1 == rat_one() by {
                            if y < before.len() {
                                assert(gs@[y] == before[y]);
                            }
                        }
                    }
                },
            }
        }
    }
    let ghost full = gs@;
    let ghost len = full.len();
    let mut gs = gs;
    let mut rev: Vec<(Vec<Ordpol<O>>, Ordpol<O>)> = Vec::new();
    while gs.len() > 0
        invariant
            len == full.len(),
            n == ideal@.len(),
            gnv == nv,
            forall|x: int| 0 <= x < full.len() ==> element_wf(#[trigger] full[x], n as nat, gnv),
            forall|x: int| 0 <= x < full.len() ==> represents(ideal@, #[trigger] full[x]),
            forall|x: int| 0 <= x < full.len() ==> lead((#[trigger] full[x]).0).1 == rat_one(),
            forall|x: int|
                0 <= x < full.len() ==> map_sig::<O>(views((#[trigger] full[x]).2@)) == Some(
                    (full[x].1.position as int, full[x].1.monomial@),
                ),
            forall|x: int, y: int|
                0 <= x < y < full.len() ==> sig_cmp::<O>((#[trigger] full[x]).1, (#[trigger] full[y]).1)
                    != 0,
            gs@.len() + rev@.len() == len,
            gs@ == full.subrange(0, gs@.len() as int),
            forall|x: int|
                0 <= x < rev@.len() ==> #[trigger] rev@[x] == (
                    full[len - 1 - x].2,
                    full[len - 1 - x].0,
                ),
        decreases gs@.len(),
    {
        let ghost before = gs@;
        match gs.pop() {
            None => {},
            Some((p, sg, v)) => {
                assert(before[before.len() - 1] == (p, sg, v));
                assert(gs@ =~= before.drop_last());
                assert(gs@ =~= full.subrange(0, gs@.len() as int));
                assert(full[len - 1 - rev@.len()] == (p, sg, v));
                rev.push((v, p));
            },
        }
    }
    let ghost rfull = rev@;
    let mut out: Vec<(Vec<Ordpol<O>>, Ordpol<O>)> = Vec::new();
    while rev.len() > 0
        invariant
            len == full.len(),
            n == ideal@.len(),
            gnv == nv,
            forall|x: int| 0 <= x < full.len() ==> element_wf(#[trigger] full[x], n as nat, gnv),
            forall|x: int| 0 <= x < full.len() ==> represents(ideal@, #[trigger] full[x]),
            forall|x: int| 0 <= x < full.len() ==> lead((#[trigger] full[x]).0).1 == rat_one(),
            forall|x: int|
                0 <= x < full.len() ==> map_sig::<O>(views((#[trigger] full[x]).2@)) == Some(
                    (full[x].1.position as int, full[x].1.monomial@),
                ),
            forall|x: int, y: int|
                0 <= x < y < full.len() ==> sig_cmp::<O>((#[trigger] full[x]).1, (#[trigger] full[y]).1)
                    != 0,
            rev@.len() + out@.len() == len,
            rfull.len() == len,
            rev@ == rfull.subrange(0, rev@.len() as int),
            forall|x: int| 0 <= x < len ==> #[trigger] rfull[x] == (full[len - 1 - x].2, full[len - 1 - x].0),
            forall|x: int| 0 <= x < out@.len() ==> #[trigger] out@[x] == (full[x].2, full[x].0),
        decreases rev@.len(),
    {
        let ghost before = rev@;
        match rev.pop() {
            None => {},
            Some(e) => {
                assert(before[before.len() - 1] == e);
                assert(rev@ =~= before.drop_last());
                assert(rev@ =~= rfull.subrange(0, rev@.len() as int));
                out.push(e);
            },
        }
    }
    proof {
        assert forall|x: int| 0 <= x < out@.len() implies vec_wf((#[trigger] out@[x]).0@, n as nat, gnv)
            && out@[x].1.wf() && out@[x].1.nvars == nv && out@[x].1.terms@.len() > 0
            && out@[x].1@ == dot_spec(ideal@, out@[x].0@, n as int)
            && lead(out@[x].1).1 == rat_one()
            && map_sig::<O>(views(out@[x].0@)) == Some((full[x].1.position as int, full[x].1.monomial@)) by {
            assert(element_wf(full[x], n as nat, gnv));
            assert(represents(ideal@, full[x]));
            assert(lead(full[x].0).1 == rat_one());
        }
        assert forall|k: int, l: int|
            0 <= k < l < out@.len() implies map_sig::<O>(views((#[trigger] out@[k]).0@)) != map_sig::<O>(
            views((#[trigger] out@[l]).0@),
        ) by {
            assert(sig_cmp::<O>(full[k].1, full[l].1) != 0);
            assert(element_wf(full[k], n as nat, gnv));
            O::lemma_antisymmetric(full[k].1.monomial@, full[l].1.monomial@);
        }
    }
    Some(out)
}

/// The F5 basis: the polynomials of [`signature_gb`], each nonzero and
/// monic. The result is checked before it is returned: every S-pair of it
/// and every input polynomial must reduce to zero by it, so it is a Gröbner
/// basis of the input ideal; `None` where that check fails, or where an
/// exponent or coefficient leaves its range.
pub fn f5<O: MonomialOrder>(ideal: &Vec<Ordpol<O>>, nv: usize) -> (r: Option<Vec<Ordpol<O>>>)
    requires
        ideal_wf(ideal@, nv as nat),
    ensures
        all_zero(ideal@) ==> (r matches Some(b) && b@.len() == 0),
        r matches Some(b) ==> forall|k: int|
            0 <= k < b@.len() ==> (#[trigger] b@[k]).wf() && b@[k].nvars == nv && b@[k].terms@.len()
                > 0 && in_ideal(b@[k]@, ideal@) && lead(b@[k]).1 == rat_one(),
        r matches Some(b) ==> is_groebner(b@),
        r matches Some(b) ==> forall|k: int|
            0 <= k < ideal@.len() ==> reduces_to_zero(#[trigger] ideal@[k]@, b@) && in_ideal(
                ideal@[k]@,
                b@,
            ),
{
    let res = match signature_gb(ideal, nv) {
        None => {
            return None;
        },
        Some(r) => r,
    };
    let mut out: Vec<Ordpol<O>> = Vec::new();
    let mut k: usize = 0;
    while k < res.len()
        invariant
            k <= res@.len(),
            forall|x: int| 0 <= x < res@.len() ==> (#[trigger] res@[x]).1.wf() && res@[x].1.nvars
                == nv && res@[x].1.terms@.len() > 0,
            forall|x: int| 0 <= x < res@.len() ==> vec_wf((#[trigger] res@[x]).0@, ideal@.len(), nv as nat)
                && res@[x].1@ == dot_spec(ideal@, res@[x].0@, ideal@.len() as int)
                && lead(res@[x].1).1 == rat_one(),
            out@.len() == k,
            forall|x: int| 0 <= x < k ==> (#[trigger] out@[x]).wf() && out@[x].nvars == nv
                && out@[x].terms@.len() > 0 && out@[x]@ == res@[x].1@ && lead(out@[x]).1
                == rat_one(),
        decreases res@.len() - k,
    {
        assert(res@[k as int].1.wf());
        out.push(res[k].1.copy());
        k = k + 1;
    }
    proof {
        assert forall|x: int| 0 <= x < out@.len() implies in_ideal((#[trigger] out@[x])@, ideal@) by {
            let v = res@[x].0@;
            assert(vec_wf(v, ideal@.len(), nv as nat));
            lemma_dot_combo(ideal@, v, ideal@.len() as int);
            assert forall|i: int| 0 <= i < views(v).len() implies canonical(#[trigger] views(v)[i]) by {
                assert(views(v)[i] == v[i]@);
                v[i].lemma_canonical();
            }
            assert(all_canonical(views(v)));
            assert(views(v).len() == ideal@.len());
            assert(combo(views(v), ideal@, ideal@.len() as int) == out@[x]@);
        }
    }
    assert(divisors_wf(out@, nv as nat));
    assert(gens_wf(ideal@, nv as nat));
    if out.len() == 0 {
        let mut k: usize = 0;
        while k < ideal.len()
            invariant
                ideal_wf(ideal@, nv as nat),
                out@.len() == 0,
                k <= ideal@.len(),
                forall|x: int|
                    0 <= x < k ==> reduces_to_zero(#[trigger] ideal@[x]@, out@) && in_ideal(
                        ideal@[x]@,
                        out@,
                    ),
                forall|x: int| 0 <= x < k ==> (#[trigger] ideal@[x]).terms@.len() == 0,
            decreases ideal@.len() - k,
        {
            if ideal[k].len() > 0 {
                return None;
            }
            proof {
                assert(ideal@[k as int].wf());
                ideal@[k as int].lemma_view();
                crate::ideal::lemma_zero_in_ideal(out@);
            }
            k = k + 1;
        }
        return Some(out);
    }
    match first_unreduced(&out, nv) {
        Some(None) => {},
        _ => {
            return None;
        },
    }
    match all_reduce_to_zero(ideal, &out, nv) {
        Some(true) => {},
        _ => {
            return None;
        },
    }
    Some(out)
}

} // verus!
