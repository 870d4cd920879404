//! Ideal membership: a polynomial lies in the ideal of a list of generators
//! when it is a combination `Σ gens[k]·w[k]` of them. Combinations are closed
//! under sums, negation and multiplication.
use crate::division::{
    all_canonical, combo, divisors_wf, lead, lemma_combo_zero, spoly, views,
};
use crate::monomial::{mono_div, mono_lcm};
use crate::order::MonomialOrder;
use crate::ordpol::{
    canonical, lemma_add_assoc, lemma_add_coef, lemma_add_commutative, lemma_add_neg_map,
    lemma_add_swap, lemma_add_zero_left, lemma_mul_seq_canonical, lemma_mul_seq_comm,
    lemma_mul_seq_distrib, lemma_mul_seq_left_comm, lemma_mul_seq_neg, lemma_mul_seq_term,
    lemma_mul_seq_unit, lemma_mul_term_coef, lemma_mul_term_distrib, lemma_mul_zero,
    lemma_neg_add, lemma_neg_coef, lens_eq, lowest_coeffs, poly_add, poly_mul_seq,
    poly_mul_term, poly_neg, unit_map, Ordpol, TermView,
};
use crate::rational::{lemma_canon_exists, lowest_terms, rat_div, rat_one};
use vstd::prelude::*;

verus! {

/// `p` is a combination of `gens` with canonical coefficients.
pub open spec fn in_ideal<O: MonomialOrder>(
    p: Map<Seq<nat>, (int, int)>,
    gens: Seq<Ordpol<O>>,
) -> bool {
    exists|w: Seq<Map<Seq<nat>, (int, int)>>|
        #![trigger combo(w, gens, gens.len() as int)]
        w.len() == gens.len() && all_canonical(w) && p == combo(w, gens, gens.len() as int)
}

pub open spec fn vadd(
    a: Seq<Map<Seq<nat>, (int, int)>>,
    b: Seq<Map<Seq<nat>, (int, int)>>,
) -> Seq<Map<Seq<nat>, (int, int)>> {
    Seq::new(a.len(), |k: int| poly_add(a[k], b[k]))
}

pub open spec fn vneg(a: Seq<Map<Seq<nat>, (int, int)>>) -> Seq<Map<Seq<nat>, (int, int)>> {
    Seq::new(a.len(), |k: int| poly_neg(a[k]))
}

pub open spec fn vmul(s: Seq<TermView>, a: Seq<Map<Seq<nat>, (int, int)>>) -> Seq<
    Map<Seq<nat>, (int, int)>,
> {
    Seq::new(a.len(), |k: int| poly_mul_seq(s, a[k]))
}

pub open spec fn vterm(t: Seq<nat>, c: (int, int), a: Seq<Map<Seq<nat>, (int, int)>>) -> Seq<
    Map<Seq<nat>, (int, int)>,
> {
    Seq::new(a.len(), |k: int| poly_mul_term(t, c, a[k]))
}

/// The coefficient vector with the unit at `i` and zero elsewhere.
pub open spec fn unit_vec(len: nat, i: int, n: nat) -> Seq<Map<Seq<nat>, (int, int)>> {
    Seq::new(
        len,
        |k: int|
            if k == i {
                unit_map(n)
            } else {
                Map::<Seq<nat>, (int, int)>::empty()
            },
    )
}

/// Generators that are well formed in `n` variables (zero allowed).
pub open spec fn gens_wf<O: MonomialOrder>(gens: Seq<Ordpol<O>>, n: nat) -> bool {
    forall|k: int| 0 <= k < gens.len() ==> (#[trigger] gens[k]).wf() && gens[k].nvars == n
}

pub proof fn lemma_gen_facts<O: MonomialOrder>(gens: Seq<Ordpol<O>>, n: nat, k: int)
    requires
        gens_wf(gens, n),
        0 <= k < gens.len(),
    ensures
        canonical(gens[k]@),
        lowest_coeffs(gens[k].tseq()),
        lens_eq(gens[k].tseq(), n),
{
    gens[k].lemma_seq_facts();
}

pub proof fn lemma_combo_canon<O: MonomialOrder>(
    w: Seq<Map<Seq<nat>, (int, int)>>,
    gens: Seq<Ordpol<O>>,
    n: nat,
    k: int,
)
    requires
        gens_wf(gens, n),
        all_canonical(w),
        k <= gens.len(),
        k <= w.len(),
    ensures
        canonical(combo(w, gens, k)),
    decreases k,
{
    if k > 0 {
        lemma_combo_canon(w, gens, n, k - 1);
        lemma_gen_facts(gens, n, k - 1);
        lemma_mul_seq_canonical(gens[k - 1].tseq(), w[k - 1]);
        lemma_add_coef(combo(w, gens, k - 1), poly_mul_seq(gens[k - 1].tseq(), w[k - 1]));
    }
}

pub proof fn lemma_combo_add<O: MonomialOrder>(
    a: Seq<Map<Seq<nat>, (int, int)>>,
    b: Seq<Map<Seq<nat>, (int, int)>>,
    gens: Seq<Ordpol<O>>,
    n: nat,
    k: int,
)
    requires
        gens_wf(gens, n),
        all_canonical(a),
        all_canonical(b),
        a.len() == gens.len(),
        b.len() == gens.len(),
        0 <= k <= gens.len(),
    ensures
        all_canonical(vadd(a, b)),
        combo(vadd(a, b), gens, k) == poly_add(combo(a, gens, k), combo(b, gens, k)),
    decreases k,
{
    assert forall|i: int| 0 <= i < vadd(a, b).len() implies canonical(#[trigger] vadd(a, b)[i]) by {
        lemma_add_coef(a[i], b[i]);
    }
    if k == 0 {
        lemma_add_zero_left(Map::<Seq<nat>, (int, int)>::empty());
    } else {
        lemma_combo_add(a, b, gens, n, k - 1);
        let s = gens[k - 1].tseq();
        lemma_gen_facts(gens, n, k - 1);
        lemma_mul_seq_distrib(s, a[k - 1], b[k - 1]);
        lemma_combo_canon(a, gens, n, k - 1);
        lemma_combo_canon(b, gens, n, k - 1);
        lemma_mul_seq_canonical(s, a[k - 1]);
        lemma_mul_seq_canonical(s, b[k - 1]);
        lemma_add_swap(
            combo(a, gens, k - 1),
            combo(b, gens, k - 1),
            poly_mul_seq(s, a[k - 1]),
            poly_mul_seq(s, b[k - 1]),
        );
    }
}

pub proof fn lemma_combo_neg<O: MonomialOrder>(
    a: Seq<Map<Seq<nat>, (int, int)>>,
    gens: Seq<Ordpol<O>>,
    n: nat,
    k: int,
)
    requires
        gens_wf(gens, n),
        all_canonical(a),
        a.len() == gens.len(),
        0 <= k <= gens.len(),
    ensures
        all_canonical(vneg(a)),
        combo(vneg(a), gens, k) == poly_neg(combo(a, gens, k)),
    decreases k,
{
    assert forall|i: int| 0 <= i < vneg(a).len() implies canonical(#[trigger] vneg(a)[i]) by {
        lemma_neg_coef(a[i]);
    }
    if k == 0 {
        assert(poly_neg(Map::<Seq<nat>, (int, int)>::empty()) =~= Map::<Seq<nat>, (int, int)>::empty());
    } else {
        lemma_combo_neg(a, gens, n, k - 1);
        let s = gens[k - 1].tseq();
        lemma_gen_facts(gens, n, k - 1);
        lemma_mul_seq_neg(s, a[k - 1]);
        lemma_combo_canon(a, gens, n, k - 1);
        lemma_mul_seq_canonical(s, a[k - 1]);
        lemma_neg_add(combo(a, gens, k - 1), poly_mul_seq(s, a[k - 1]));
    }
}

pub proof fn lemma_combo_mul<O: MonomialOrder>(
    q: Seq<TermView>,
    a: Seq<Map<Seq<nat>, (int, int)>>,
    gens: Seq<Ordpol<O>>,
    n: nat,
    k: int,
)
    requires
        gens_wf(gens, n),
        all_canonical(a),
        lowest_coeffs(q),
        lens_eq(q, n),
        a.len() == gens.len(),
        0 <= k <= gens.len(),
    ensures
        all_canonical(vmul(q, a)),
        combo(vmul(q, a), gens, k) == poly_mul_seq(q, combo(a, gens, k)),
    decreases k,
{
    assert forall|i: int| 0 <= i < vmul(q, a).len() implies canonical(#[trigger] vmul(q, a)[i]) by {
        lemma_mul_seq_canonical(q, a[i]);
    }
    if k == 0 {
        lemma_mul_zero(q);
    } else {
        lemma_combo_mul(q, a, gens, n, k - 1);
        let s = gens[k - 1].tseq();
        lemma_gen_facts(gens, n, k - 1);
        lemma_combo_canon(a, gens, n, k - 1);
        lemma_mul_seq_canonical(s, a[k - 1]);
        lemma_mul_seq_distrib(q, combo(a, gens, k - 1), poly_mul_seq(s, a[k - 1]));
        lemma_mul_seq_left_comm(q, s, a[k - 1], n);
    }
}

pub proof fn lemma_combo_term<O: MonomialOrder>(
    t: Seq<nat>,
    c: (int, int),
    a: Seq<Map<Seq<nat>, (int, int)>>,
    gens: Seq<Ordpol<O>>,
    n: nat,
    k: int,
)
    requires
        gens_wf(gens, n),
        all_canonical(a),
        lowest_terms(c),
        t.len() == n,
        a.len() == gens.len(),
        0 <= k <= gens.len(),
    ensures
        all_canonical(vterm(t, c, a)),
        combo(vterm(t, c, a), gens, k) == poly_mul_term(t, c, combo(a, gens, k)),
    decreases k,
{
    assert forall|i: int| 0 <= i < vterm(t, c, a).len() implies canonical(
        #[trigger] vterm(t, c, a)[i],
    ) by {
        lemma_mul_term_coef(t, c, a[i]);
    }
    if k == 0 {
        assert(poly_mul_term(t, c, Map::<Seq<nat>, (int, int)>::empty()) =~= Map::<
            Seq<nat>,
            (int, int),
        >::empty());
    } else {
        lemma_combo_term(t, c, a, gens, n, k - 1);
        let s = gens[k - 1].tseq();
        lemma_gen_facts(gens, n, k - 1);
        lemma_combo_canon(a, gens, n, k - 1);
        lemma_mul_seq_canonical(s, a[k - 1]);
        lemma_mul_seq_term(s, t, c, a[k - 1]);
        lemma_mul_term_distrib(t, c, combo(a, gens, k - 1), poly_mul_seq(s, a[k - 1]));
    }
}

/// Each generator lies in the ideal: the unit vector at its position.
pub proof fn lemma_generator_in_ideal<O: MonomialOrder>(gens: Seq<Ordpol<O>>, n: nat, i: int)
    requires
        gens_wf(gens, n),
        0 <= i < gens.len(),
    ensures
        in_ideal(gens[i]@, gens),
{
    let w = unit_vec(gens.len(), i, n);
    assert(all_canonical(w));
    lemma_unit_combo(gens, n, i, gens.len() as int);
    assert(gens[i]@ == combo(w, gens, gens.len() as int));
}

proof fn lemma_unit_combo<O: MonomialOrder>(gens: Seq<Ordpol<O>>, n: nat, i: int, k: int)
    requires
        gens_wf(gens, n),
        0 <= i < gens.len(),
        0 <= k <= gens.len(),
    ensures
        combo(unit_vec(gens.len(), i, n), gens, k) == (if k > i {
            gens[i]@
        } else {
            Map::<Seq<nat>, (int, int)>::empty()
        }),
    decreases k,
{
    let w = unit_vec(gens.len(), i, n);
    lemma_gen_facts(gens, n, i);
    if k > 0 {
        lemma_unit_combo(gens, n, i, k - 1);
        lemma_gen_facts(gens, n, k - 1);
        let s = gens[k - 1].tseq();
        if k - 1 == i {
            gens[i].lemma_seq_facts();
            lemma_mul_seq_unit::<O>(s, n);
            lemma_add_zero_left(gens[i]@);
        } else {
            lemma_mul_zero(s);
            if k > i {
                lemma_add_zero_left(gens[i]@);
            } else {
                lemma_add_zero_left(Map::<Seq<nat>, (int, int)>::empty());
            }
        }
    }
}

pub proof fn lemma_in_ideal_canonical<O: MonomialOrder>(
    p: Map<Seq<nat>, (int, int)>,
    gens: Seq<Ordpol<O>>,
    n: nat,
)
    requires
        gens_wf(gens, n),
        in_ideal(p, gens),
    ensures
        canonical(p),
{
    let a = choose|w: Seq<Map<Seq<nat>, (int, int)>>|
        #![trigger combo(w, gens, gens.len() as int)]
        w.len() == gens.len() && all_canonical(w) && p == combo(w, gens, gens.len() as int);
    lemma_combo_canon(a, gens, n, gens.len() as int);
}

pub proof fn lemma_in_ideal_add<O: MonomialOrder>(
    p: Map<Seq<nat>, (int, int)>,
    q: Map<Seq<nat>, (int, int)>,
    gens: Seq<Ordpol<O>>,
    n: nat,
)
    requires
        gens_wf(gens, n),
        in_ideal(p, gens),
        in_ideal(q, gens),
    ensures
        in_ideal(poly_add(p, q), gens),
{
    let a = choose|w: Seq<Map<Seq<nat>, (int, int)>>|
        #![trigger combo(w, gens, gens.len() as int)]
        w.len() == gens.len() && all_canonical(w) && p == combo(w, gens, gens.len() as int);
    let b = choose|w: Seq<Map<Seq<nat>, (int, int)>>|
        #![trigger combo(w, gens, gens.len() as int)]
        w.len() == gens.len() && all_canonical(w) && q == combo(w, gens, gens.len() as int);
    lemma_combo_add(a, b, gens, n, gens.len() as int);
}

pub proof fn lemma_in_ideal_neg<O: MonomialOrder>(
    p: Map<Seq<nat>, (int, int)>,
    gens: Seq<Ordpol<O>>,
    n: nat,
)
    requires
        gens_wf(gens, n),
        in_ideal(p, gens),
    ensures
        in_ideal(poly_neg(p), gens),
{
    let a = choose|w: Seq<Map<Seq<nat>, (int, int)>>|
        #![trigger combo(w, gens, gens.len() as int)]
        w.len() == gens.len() && all_canonical(w) && p == combo(w, gens, gens.len() as int);
    lemma_combo_neg(a, gens, n, gens.len() as int);
}

pub proof fn lemma_in_ideal_mul<O: MonomialOrder>(
    s: Seq<TermView>,
    p: Map<Seq<nat>, (int, int)>,
    gens: Seq<Ordpol<O>>,
    n: nat,
)
    requires
        gens_wf(gens, n),
        lowest_coeffs(s),
        lens_eq(s, n),
        in_ideal(p, gens),
    ensures
        in_ideal(poly_mul_seq(s, p), gens),
{
    let a = choose|w: Seq<Map<Seq<nat>, (int, int)>>|
        #![trigger combo(w, gens, gens.len() as int)]
        w.len() == gens.len() && all_canonical(w) && p == combo(w, gens, gens.len() as int);
    lemma_combo_mul(s, a, gens, n, gens.len() as int);
}

pub proof fn lemma_in_ideal_term<O: MonomialOrder>(
    t: Seq<nat>,
    c: (int, int),
    p: Map<Seq<nat>, (int, int)>,
    gens: Seq<Ordpol<O>>,
    n: nat,
)
    requires
        gens_wf(gens, n),
        lowest_terms(c),
        t.len() == n,
        in_ideal(p, gens),
    ensures
        in_ideal(poly_mul_term(t, c, p), gens),
{
    let a = choose|w: Seq<Map<Seq<nat>, (int, int)>>|
        #![trigger combo(w, gens, gens.len() as int)]
        w.len() == gens.len() && all_canonical(w) && p == combo(w, gens, gens.len() as int);
    lemma_combo_term(t, c, a, gens, n, gens.len() as int);
}

pub proof fn lemma_zero_in_ideal<O: MonomialOrder>(gens: Seq<Ordpol<O>>)
    ensures
        in_ideal(Map::<Seq<nat>, (int, int)>::empty(), gens),
{
    let z = Seq::new(gens.len(), |k: int| Map::<Seq<nat>, (int, int)>::empty());
    lemma_combo_zero(z, gens, gens.len() as int);
}

/// A combination of elements that all lie in the ideal lies in it.
pub proof fn lemma_combo_in_ideal<O: MonomialOrder>(
    qs: Seq<Ordpol<O>>,
    basis: Seq<Ordpol<O>>,
    gens: Seq<Ordpol<O>>,
    n: nat,
    k: int,
)
    requires
        gens_wf(gens, n),
        gens_wf(basis, n),
        gens_wf(qs, n),
        qs.len() == basis.len(),
        0 <= k <= basis.len(),
        forall|l: int| 0 <= l < basis.len() ==> in_ideal(#[trigger] basis[l]@, gens),
    ensures
        in_ideal(combo(views(qs), basis, k), gens),
    decreases k,
{
    if k == 0 {
        lemma_zero_in_ideal(gens);
    } else {
        lemma_combo_in_ideal(qs, basis, gens, n, k - 1);
        let b = basis[k - 1];
        let q = qs[k - 1];
        assert(views(qs)[k - 1] == q@);
        b.lemma_seq_facts();
        q.lemma_seq_facts();
        lemma_mul_seq_comm::<O>(b.tseq(), q.tseq(), n);
        assert(in_ideal(b@, gens));
        lemma_in_ideal_mul(q.tseq(), b@, gens, n);
        lemma_in_ideal_add(
            combo(views(qs), basis, k - 1),
            poly_mul_seq(b.tseq(), q@),
            gens,
            n,
        );
    }
}

/// What is left of an S-polynomial of two ideal elements after subtracting
/// a combination of ideal elements lies in the ideal.
pub proof fn lemma_reduction_in_ideal<O: MonomialOrder>(
    gens: Seq<Ordpol<O>>,
    basis: Seq<Ordpol<O>>,
    qs: Seq<Ordpol<O>>,
    i: int,
    j: int,
    rem: Ordpol<O>,
    n: nat,
)
    requires
        gens_wf(gens, n),
        divisors_wf(basis, n),
        gens_wf(qs, n),
        qs.len() == basis.len(),
        rem.wf(),
        0 <= i < basis.len(),
        0 <= j < basis.len(),
        forall|l: int| 0 <= l < basis.len() ==> in_ideal(#[trigger] basis[l]@, gens),
        spoly(basis[i], basis[j]) == poly_add(combo(views(qs), basis, basis.len() as int), rem@),
    ensures
        in_ideal(rem@, gens),
{
    let f = basis[i];
    let g = basis[j];
    assert(f.wf() && g.wf() && f.terms@.len() > 0 && g.terms@.len() > 0);
    assert(gens_wf(basis, n));
    f.lemma_seq_facts();
    g.lemma_seq_facts();
    let k = f.tseq().len() - 1;
    let kg = g.tseq().len() - 1;
    assert(f.tseq()[k].0.len() == n);
    assert(g.tseq()[kg].0.len() == n);
    let l = mono_lcm(lead(f).0, lead(g).0);
    let cf = rat_div(rat_one(), lead(f).1);
    let cg = rat_div(rat_one(), lead(g).1);
    crate::rational::lemma_nonzero_num(lead(f).1);
    crate::rational::lemma_nonzero_num(lead(g).1);
    lemma_canon_exists((1 * lead(f).1.1, 1 * lead(f).1.0));
    lemma_canon_exists((1 * lead(g).1.1, 1 * lead(g).1.0));
    assert(in_ideal(f@, gens));
    assert(in_ideal(g@, gens));
    lemma_in_ideal_term(mono_div(l, lead(f).0), cf, f@, gens, n);
    lemma_in_ideal_term(mono_div(l, lead(g).0), cg, g@, gens, n);
    lemma_in_ideal_neg(poly_mul_term(mono_div(l, lead(g).0), cg, g@), gens, n);
    lemma_in_ideal_add(
        poly_mul_term(mono_div(l, lead(f).0), cf, f@),
        poly_neg(poly_mul_term(mono_div(l, lead(g).0), cg, g@)),
        gens,
        n,
    );
    let sp = spoly(f, g);
    let c = combo(views(qs), basis, basis.len() as int);
    lemma_combo_in_ideal(qs, basis, gens, n, basis.len() as int);
    lemma_in_ideal_neg(c, gens, n);
    lemma_in_ideal_add(sp, poly_neg(c), gens, n);
    lemma_in_ideal_canonical(c, gens, n);
    rem.lemma_canonical();
    lemma_neg_coef(c);
    lemma_add_commutative(c, rem@);
    lemma_add_assoc(rem@, c, poly_neg(c));
    lemma_add_neg_map(c);
    lemma_add_zero_left(rem@);
}

} // verus!
