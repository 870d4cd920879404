//! The Buchberger engine: critical pairs chosen by a weight (sugar by
//! default), skipped by the coprimality and chain criteria, otherwise
//! reduced to a remainder that joins the basis when nonzero.
use crate::division::{
    combo, div_spec, divisors_wf, irreducible, lead, spoly, views, zero_quotients, MAX_STEPS,
};
use crate::ideal::{
    gens_wf, in_ideal, lemma_combo_in_ideal, lemma_generator_in_ideal, lemma_reduction_in_ideal,
};
use crate::monomial::{degree, mono_divides, mono_lcm, mono_mul, Monomial};
use crate::order::MonomialOrder;
use crate::ordpol::{canonical, lemma_add_zero_left, max_degree, poly_add, Ordpol, TermView};
use core::cmp::Ordering;
use vstd::prelude::*;

verus! {

/// A queue entry: a weight and the item it weighs. Entries compare by
/// weight alone.
#[derive(Debug)]
pub struct Entry<R>(pub u128, pub R);

impl<R> PartialEq for Entry<R> {
    fn eq(&self, other: &Entry<R>) -> (r: bool) {
        self.0 == other.0
    }
}

impl<R> vstd::std_specs::cmp::PartialEqSpecImpl for Entry<R> {
    open spec fn obeys_eq_spec() -> bool {
        true
    }

    open spec fn eq_spec(&self, other: &Entry<R>) -> bool {
        self.0 == other.0
    }
}

impl<R> PartialOrd for Entry<R> {
    fn partial_cmp(&self, other: &Entry<R>) -> (r: Option<Ordering>) {
        if self.0 < other.0 {
            Some(Ordering::Less)
        } else if self.0 > other.0 {
            Some(Ordering::Greater)
        } else {
            Some(Ordering::Equal)
        }
    }
}

impl<R> vstd::std_specs::cmp::PartialOrdSpecImpl for Entry<R> {
    open spec fn obeys_partial_cmp_spec() -> bool {
        true
    }

    open spec fn partial_cmp_spec(&self, other: &Entry<R>) -> Option<Ordering> {
        if self.0 < other.0 {
            Some(Ordering::Less)
        } else if self.0 > other.0 {
            Some(Ordering::Greater)
        } else {
            Some(Ordering::Equal)
        }
    }
}

/// The largest total degree is at least that of every term.
pub proof fn lemma_max_degree(s: Seq<TermView>, k: int)
    requires
        0 <= k < s.len(),
    ensures
        degree(s[k].0) <= max_degree(s),
    decreases s.len(),
{
    if k < s.len() - 1 {
        lemma_max_degree(s.drop_last(), k);
    }
}

/// The sugar of the pair `(f, g)`: the larger of the two degree excesses
/// over the leading monomials, plus the degree of the lcm of the leading
/// monomials.
pub open spec fn sugar_of<O: MonomialOrder>(f: Ordpol<O>, g: Ordpol<O>) -> nat {
    let ef = max_degree(f.tseq()) - degree(lead(f).0);
    let eg = max_degree(g.tseq()) - degree(lead(g).0);
    let e = if ef >= eg {
        ef
    } else {
        eg
    };
    (e + degree(mono_lcm(lead(f).0, lead(g).0))) as nat
}

/// The pair may be weighed: both nonzero, well formed, in the same ring.
pub open spec fn weighable<O: MonomialOrder>(f: Ordpol<O>, g: Ordpol<O>) -> bool {
    &&& f.wf()
    &&& g.wf()
    &&& f.nvars == g.nvars
    &&& f.terms@.len() > 0
    &&& g.terms@.len() > 0
}

/// The sugar selection weight of a critical pair; smaller is processed
/// first.
pub fn sugar<O: MonomialOrder>(f: &Ordpol<O>, g: &Ordpol<O>) -> (r: u128)
    requires
        weighable(*f, *g),
    ensures
        r == sugar_of(*f, *g),
{
    let (mf, _) = f.lead_parts();
    let (mg, _) = g.lead_parts();
    let l = mf.lcm(&mg);
    proof {
        lemma_max_degree(f.tseq(), f.terms@.len() - 1);
        lemma_max_degree(g.tseq(), g.terms@.len() - 1);
    }
    let ef = f.total_deg() - mf.total_deg();
    let eg = g.total_deg() - mg.total_deg();
    let e = if ef >= eg {
        ef
    } else {
        eg
    };
    e as u128 + l.total_deg() as u128
}

/// The leading monomials are coprime: their product is their lcm.
pub fn coprime(a: &Monomial, b: &Monomial) -> (r: bool)
    requires
        a@.len() == b@.len(),
    ensures
        r == (mono_mul(a@, b@) == mono_lcm(a@, b@)),
{
    let mut k: usize = 0;
    while k < a.len()
        invariant
            a@.len() == b@.len(),
            k <= a@.len(),
            forall|x: int| 0 <= x < k ==> a@[x] == 0 || b@[x] == 0,
        decreases a@.len() - k,
    {
        if a.exponent(k) != 0 && b.exponent(k) != 0 {
            assert(mono_mul(a@, b@)[k as int] != mono_lcm(a@, b@)[k as int]);
            return false;
        }
        k = k + 1;
    }
    assert(mono_mul(a@, b@) =~= mono_lcm(a@, b@));
    true
}

/// The pair `(a, b)` is waiting in the queue.
pub open spec fn queued(pairs: Seq<Entry<(usize, usize)>>, a: int, b: int) -> bool {
    exists|k: int| 0 <= k < pairs.len() && (#[trigger] pairs[k]).1 == (a as usize, b as usize)
}

/// Whether `(a, b)` is waiting in the queue.
pub fn is_queued(pairs: &Vec<Entry<(usize, usize)>>, a: usize, b: usize) -> (r: bool)
    ensures
        r == queued(pairs@, a as int, b as int),
{
    let mut k: usize = 0;
    while k < pairs.len()
        invariant
            k <= pairs@.len(),
            forall|x: int| 0 <= x < k ==> (#[trigger] pairs@[x]).1 != (a, b),
        decreases pairs@.len() - k,
    {
        if pairs[k].1.0 == a && pairs[k].1.1 == b {
            assert(pairs@[k as int].1 == (a, b));
            return true;
        }
        k = k + 1;
    }
    false
}

/// Index `l` witnesses the chain criterion for the pair `(i, j)` with lcm
/// `m`: `l` is neither, its leading monomial divides `m`, and both pairs it
/// forms with `i` and with `j` have left the queue.
pub open spec fn chain_witness<O: MonomialOrder>(
    basis: Seq<Ordpol<O>>,
    pairs: Seq<Entry<(usize, usize)>>,
    i: int,
    j: int,
    m: Seq<nat>,
    l: int,
) -> bool {
    &&& 0 <= l < basis.len()
    &&& l != i
    &&& l != j
    &&& mono_divides(lead(basis[l]).0, m)
    &&& !queued(pairs, if i > l { i } else { l }, if i > l { l } else { i })
    &&& !queued(pairs, if j > l { j } else { l }, if j > l { l } else { j })
}

/// Whether some index witnesses the chain criterion.
pub fn chain_criterion<O: MonomialOrder>(
    basis: &Vec<Ordpol<O>>,
    pairs: &Vec<Entry<(usize, usize)>>,
    i: usize,
    j: usize,
    m: &Monomial,
) -> (r: bool)
    requires
        divisors_wf(basis@, m@.len()),
    ensures
        r == exists|l: int| chain_witness(basis@, pairs@, i as int, j as int, m@, l),
{
    let mut l: usize = 0;
    while l < basis.len()
        invariant
            divisors_wf(basis@, m@.len()),
            l <= basis@.len(),
            forall|x: int| 0 <= x < l ==> !chain_witness(basis@, pairs@, i as int, j as int, m@, x),
        decreases basis@.len() - l,
    {
        if l != i && l != j {
            assert(basis@[l as int].wf());
            let (lm, _) = basis[l].lead_parts();
            if lm.divides(m) {
                let (a1, b1) = if i > l {
                    (i, l)
                } else {
                    (l, i)
                };
                let (a2, b2) = if j > l {
                    (j, l)
                } else {
                    (l, j)
                };
                if !is_queued(pairs, a1, b1) && !is_queued(pairs, a2, b2) {
                    assert(chain_witness(basis@, pairs@, i as int, j as int, m@, l as int));
                    return true;
                }
            }
        }
        l = l + 1;
    }
    assert forall|x: int| !chain_witness(basis@, pairs@, i as int, j as int, m@, x) by {
        if 0 <= x < l {
        }
    }
    false
}

/// The position of the first entry of least weight.
pub fn select_min(pairs: &Vec<Entry<(usize, usize)>>) -> (r: usize)
    requires
        pairs@.len() > 0,
    ensures
        r < pairs@.len(),
        forall|k: int| 0 <= k < pairs@.len() ==> pairs@[r as int].0 <= (#[trigger] pairs@[k]).0,
        forall|k: int| 0 <= k < r ==> pairs@[r as int].0 < (#[trigger] pairs@[k]).0,
{
    let mut best: usize = 0;
    let mut k: usize = 1;
    while k < pairs.len()
        invariant
            pairs@.len() > 0,
            best < k <= pairs@.len(),
            forall|x: int| 0 <= x < k ==> pairs@[best as int].0 <= (#[trigger] pairs@[x]).0,
            forall|x: int| 0 <= x < best ==> pairs@[best as int].0 < (#[trigger] pairs@[x]).0,
        decreases pairs@.len() - k,
    {
        if pairs[k].0 < pairs[best].0 {
            best = k;
        }
        k = k + 1;
    }
    best
}

/// Pairs in the queue name two distinct basis positions, larger first.
pub open spec fn pairs_wf(pairs: Seq<Entry<(usize, usize)>>, len: nat) -> bool {
    forall|k: int|
        0 <= k < pairs.len() ==> (#[trigger] pairs[k]).1.1 < pairs[k].1.0 && pairs[k].1.0 < len
}

/// The basis that the engines return: it starts with the input, every
/// element is nonzero and well formed, and no monomial of an added element
/// is divisible by the leading monomial of an element before it.
pub open spec fn extends_irreducibly<O: MonomialOrder>(
    input: Seq<Ordpol<O>>,
    basis: Seq<Ordpol<O>>,
    n: nat,
) -> bool {
    &&& basis.len() >= input.len()
    &&& forall|k: int| 0 <= k < input.len() ==> basis[k] == input[k]
    &&& divisors_wf(basis, n)
    &&& forall|k: int, m: Seq<nat>|
        input.len() <= k < basis.len() && #[trigger] basis[k]@.contains_key(m) ==> irreducible(
            m,
            basis.subrange(0, k),
        )
}

/// Element `k` of the basis is what is left of the S-polynomial of two
/// earlier elements after subtracting a combination of the elements before
/// it: `S(b_i, b_j) = Σ_{l<k} b_l·q_l + b_k`.
pub open spec fn reduction_of<O: MonomialOrder>(basis: Seq<Ordpol<O>>, k: int) -> bool {
    exists|i: int, j: int, qs: Seq<Map<Seq<nat>, (int, int)>>|
        #![trigger spoly(basis[i], basis[j]), combo(qs, basis.subrange(0, k), k)]
        0 <= j < i < k && qs.len() == k && spoly(basis[i], basis[j]) == poly_add(
            combo(qs, basis.subrange(0, k), k),
            basis[k]@,
        )
}

/// Dividing `s` by `gs` leaves remainder zero.
pub open spec fn reduces_to_zero<O: MonomialOrder>(s: Map<Seq<nat>, (int, int)>, gs: Seq<Ordpol<O>>) -> bool {
    div_spec(s, zero_quotients(gs.len()), Map::<Seq<nat>, (int, int)>::empty(), gs, MAX_STEPS as nat)
        matches Some(res) && res.1 == Map::<Seq<nat>, (int, int)>::empty()
}

/// Every S-polynomial of two elements of `gs` reduces to zero by `gs`: `gs`
/// is a Gröbner basis.
pub open spec fn is_groebner<O: MonomialOrder>(gs: Seq<Ordpol<O>>) -> bool {
    forall|i: int, j: int|
        0 <= j < i < gs.len() ==> reduces_to_zero(#[trigger] spoly(gs[i], gs[j]), gs)
}

/// The first pair of the basis whose S-polynomial does not reduce to zero:
/// `Some(None)` where there is none, so the basis is a Gröbner basis;
/// `None` where an exponent or coefficient leaves its range.
pub fn first_unreduced<O: MonomialOrder>(basis: &Vec<Ordpol<O>>, nv: usize) -> (r: Option<
    Option<(usize, usize)>,
>)
    requires
        divisors_wf(basis@, nv as nat),
    ensures
        r matches Some(None) ==> is_groebner(basis@),
        r matches Some(Some(pq)) ==> pq.1 < pq.0 && pq.0 < basis@.len(),
{
    let mut i: usize = 0;
    while i < basis.len()
        invariant
            divisors_wf(basis@, nv as nat),
            i <= basis@.len(),
            forall|a: int, b: int|
                0 <= b < a < i ==> reduces_to_zero(#[trigger] spoly(basis@[a], basis@[b]), basis@),
        decreases basis@.len() - i,
    {
        let mut j: usize = 0;
        while j < i
            invariant
                divisors_wf(basis@, nv as nat),
                i < basis@.len(),
                j <= i,
                forall|a: int, b: int|
                    0 <= b < a < i ==> reduces_to_zero(#[trigger] spoly(basis@[a], basis@[b]), basis@),
                forall|b: int| 0 <= b < j ==> reduces_to_zero(#[trigger] spoly(basis@[i as int], basis@[b]), basis@),
            decreases i - j,
        {
            assert(basis@[i as int].wf() && basis@[j as int].wf());
            let s = match basis[i].spol(&basis[j]) {
                None => {
                    return None;
                },
                Some(s) => s,
            };
            let (_, rem) = match s.div_mod_polys(basis) {
                None => {
                    return None;
                },
                Some(x) => x,
            };
            if !rem.is_zero() {
                return Some(Some((i, j)));
            }
            j = j + 1;
        }
        i = i + 1;
    }
    Some(None)
}

/// Whether every polynomial of `ideal` reduces to zero by `basis`, so that
/// each lies in the ideal of `basis`. `None` where an exponent or
/// coefficient leaves its range.
pub fn all_reduce_to_zero<O: MonomialOrder>(
    ideal: &Vec<Ordpol<O>>,
    basis: &Vec<Ordpol<O>>,
    nv: usize,
) -> (r: Option<bool>)
    requires
        gens_wf(ideal@, nv as nat),
        divisors_wf(basis@, nv as nat),
    ensures
        r == Some(true) ==> forall|k: int|
            0 <= k < ideal@.len() ==> reduces_to_zero(#[trigger] ideal@[k]@, basis@) && in_ideal(
                ideal@[k]@,
                basis@,
            ),
{
    let mut k: usize = 0;
    while k < ideal.len()
        invariant
            gens_wf(ideal@, nv as nat),
            divisors_wf(basis@, nv as nat),
            k <= ideal@.len(),
            forall|x: int|
                0 <= x < k ==> reduces_to_zero(#[trigger] ideal@[x]@, basis@) && in_ideal(
                    ideal@[x]@,
                    basis@,
                ),
        decreases ideal@.len() - k,
    {
        assert(ideal@[k as int].wf());
        let (qs, rem) = match ideal[k].div_mod_polys(basis) {
            None => {
                return None;
            },
            Some(x) => x,
        };
        if !rem.is_zero() {
            return Some(false);
        }
        proof {
            let w = views(qs@);
            assert forall|i: int| 0 <= i < w.len() implies canonical(#[trigger] w[i]) by {
                assert(w[i] == qs@[i]@);
                qs@[i].lemma_canonical();
            }
            crate::division::lemma_combo_canonical(w, basis@, nv as nat, basis@.len() as int);
            lemma_add_zero_left(combo(w, basis@, basis@.len() as int));
            assert(ideal@[k as int]@ == combo(w, basis@, basis@.len() as int));
        }
        k = k + 1;
    }
    Some(true)
}

/// Buchberger's algorithm with the sugar strategy and the coprimality and
/// chain criteria.
pub fn buchberger<O: MonomialOrder>(ideal: Vec<Ordpol<O>>) -> (r: Option<Vec<Ordpol<O>>>)
    requires
        ideal@.len() > 0,
        divisors_wf(ideal@, ideal@[0].nvars as nat),
    ensures
        r matches Some(g) ==> extends_irreducibly(ideal@, g@, ideal@[0].nvars as nat),
        r matches Some(g) ==> forall|k: int|
            ideal@.len() <= k < g@.len() ==> #[trigger] reduction_of(g@, k),
        r matches Some(g) ==> forall|k: int| 0 <= k < g@.len() ==> in_ideal(#[trigger] g@[k]@, ideal@),
        r matches Some(g) ==> is_groebner(g@),
{
    buchberger_with(sugar, ideal)
}

/// Buchberger's algorithm with the coprimality and chain criteria, taking
/// the pair of least weight first (the earliest queued among equals).
/// When the queue is empty every S-pair of the basis is divided by it once
/// more; a pair whose remainder is not zero is processed again without the
/// criteria, so the basis returned is a Gröbner basis. `None` where an
/// exponent or coefficient leaves its range, or after `MAX_STEPS` steps.
pub fn buchberger_with<O: MonomialOrder, F: Fn(&Ordpol<O>, &Ordpol<O>) -> u128>(
    calc_weight: F,
    ideal: Vec<Ordpol<O>>,
) -> (r: Option<Vec<Ordpol<O>>>)
    requires
        ideal@.len() > 0,
        divisors_wf(ideal@, ideal@[0].nvars as nat),
        forall|f: Ordpol<O>, g: Ordpol<O>|
            weighable(f, g) ==> #[trigger] calc_weight.requires((&f, &g)),
    ensures
        r matches Some(g) ==> extends_irreducibly(ideal@, g@, ideal@[0].nvars as nat),
        r matches Some(g) ==> forall|k: int|
            ideal@.len() <= k < g@.len() ==> #[trigger] reduction_of(g@, k),
        r matches Some(g) ==> forall|k: int| 0 <= k < g@.len() ==> in_ideal(#[trigger] g@[k]@, ideal@),
        r matches Some(g) ==> is_groebner(g@),
{
    let ghost input = ideal@;
    let nv = ideal[0].nvars;
    let mut basis = ideal;
    let mut pairs: Vec<Entry<(usize, usize)>> = Vec::new();
    let mut i: usize = 0;
    proof {
        assert(basis@.subrange(0, 0) =~= Seq::<Ordpol<O>>::empty());
    }
    while i < basis.len()
        invariant
            basis@ == input,
            divisors_wf(input, nv as nat),
            forall|f: Ordpol<O>, g: Ordpol<O>|
                weighable(f, g) ==> #[trigger] calc_weight.requires((&f, &g)),
            i <= basis@.len(),
            pairs_wf(pairs@, basis@.len()),
        decreases basis@.len() - i,
    {
        let mut j: usize = 0;
        while j < i
            invariant
                basis@ == input,
                divisors_wf(input, nv as nat),
                forall|f: Ordpol<O>, g: Ordpol<O>|
                    weighable(f, g) ==> #[trigger] calc_weight.requires((&f, &g)),
                i < basis@.len(),
                j <= i,
                pairs_wf(pairs@, basis@.len()),
            decreases i - j,
        {
            assert(weighable(basis@[i as int], basis@[j as int]));
            let w = calc_weight(&basis[i], &basis[j]);
            pairs.push(Entry(w, (i, j)));
            j = j + 1;
        }
        i = i + 1;
    }
    proof {
        assert(gens_wf(input, nv as nat));
        assert forall|k: int| 0 <= k < basis@.len() implies in_ideal(#[trigger] basis@[k]@, input) by {
            lemma_generator_in_ideal(input, nv as nat, k);
        }
    }
    let mut fuel: u64 = MAX_STEPS;
    let mut forced: Vec<(usize, usize)> = Vec::new();
    loop
        invariant
            input == ideal@,
            forall|k: int|
                0 <= k < forced@.len() ==> (#[trigger] forced@[k]).1 < forced@[k].0 && forced@[k].0
                    < basis@.len(),
            gens_wf(input, nv as nat),
            forall|k: int| 0 <= k < basis@.len() ==> in_ideal(#[trigger] basis@[k]@, input),
            extends_irreducibly(input, basis@, nv as nat),
            input.len() > 0,
            nv == input[0].nvars,
            nv <= u32::MAX,
            forall|f: Ordpol<O>, g: Ordpol<O>|
                weighable(f, g) ==> #[trigger] calc_weight.requires((&f, &g)),
            pairs_wf(pairs@, basis@.len()),
            forall|k: int| input.len() <= k < basis@.len() ==> #[trigger] reduction_of(basis@, k),
        decreases fuel,
    {
        if fuel == 0 {
            return None;
        }
        fuel = fuel - 1;
        let pi: usize;
        let pj: usize;
        let mut use_criteria = true;
        if forced.len() > 0 {
            let ghost fq = forced@;
            match forced.pop() {
                None => {
                    return None;
                },
                Some(pq) => {
                    assert(pq == fq[fq.len() - 1]);
                    pi = pq.0;
                    pj = pq.1;
                    use_criteria = false;
                },
            }
        } else if pairs.len() > 0 {
            let k = select_min(&pairs);
            let ghost queue = pairs@;
            let e = pairs.remove(k);
            pi = e.1.0;
            pj = e.1.1;
            assert(e == queue[k as int]);
            assert(pairs_wf(pairs@, basis@.len())) by {
                assert forall|x: int| 0 <= x < pairs@.len() implies (#[trigger] pairs@[x]).1.1
                    < pairs@[x].1.0 && pairs@[x].1.0 < basis@.len() by {
                    if x < k {
                        assert(pairs@[x] == queue[x]);
                    } else {
                        assert(pairs@[x] == queue[x + 1]);
                    }
                }
            }
        } else {
            match first_unreduced(&basis, nv) {
                None => {
                    return None;
                },
                Some(None) => {
                    return Some(basis);
                },
                Some(Some(pq)) => {
                    forced.push(pq);
                    continue;
                },
            }
        }
        assert(basis@[pi as int].wf() && basis@[pj as int].wf());
        if use_criteria {
            let (lm_i, _) = basis[pi].lead_parts();
            let (lm_j, _) = basis[pj].lead_parts();
            let l = lm_i.lcm(&lm_j);
            if coprime(&lm_i, &lm_j) {
                continue;
            }
            if chain_criterion(&basis, &pairs, pi, pj, &l) {
                continue;
            }
        }
        let s = match basis[pi].spol(&basis[pj]) {
            None => {
                return None;
            },
            Some(s) => s,
        };
        let (qs, rem) = match s.div_mod_polys(&basis) {
            None => {
                return None;
            },
            Some(x) => x,
        };
        if !rem.is_zero() {
            let n = basis.len();
            let ghost before = basis@;
            proof {
                assert(gens_wf(qs@, nv as nat));
                lemma_reduction_in_ideal(input, before, qs@, pi as int, pj as int, rem, nv as nat);
            }
            proof {
                assert(rem.terms@.len() > 0) by {
                    rem.lemma_view();
                }
            }
            basis.push(rem);
            proof {
                assert(basis@.subrange(0, n as int) =~= before);
                assert forall|k: int| 0 <= k < basis@.len() implies in_ideal(#[trigger] basis@[k]@, input) by {
                    if k < n {
                        assert(basis@[k] == before[k]);
                    }
                }
                assert forall|k: int| input.len() <= k < basis@.len() implies #[trigger] reduction_of(
                    basis@,
                    k,
                ) by {
                    if k < n {
                        assert(reduction_of(before, k));
                        let (i, j, q) = choose|i: int, j: int, q: Seq<Map<Seq<nat>, (int, int)>>|
                            #![trigger spoly(before[i], before[j]), combo(q, before.subrange(0, k), k)]
                            0 <= j < i < k && q.len() == k && spoly(before[i], before[j]) == poly_add(
                                combo(q, before.subrange(0, k), k),
                                before[k]@,
                            );
                        assert(basis@.subrange(0, k) =~= before.subrange(0, k));
                        assert(basis@[i] == before[i] && basis@[j] == before[j]);
                        assert(spoly(basis@[i], basis@[j]) == poly_add(
                            combo(q, basis@.subrange(0, k), k),
                            basis@[k]@,
                        ));
                    } else {
                        let q = views(qs@);
                        assert(basis@[pi as int] == before[pi as int]);
                        assert(basis@[pj as int] == before[pj as int]);
                        assert(spoly(basis@[pi as int], basis@[pj as int]) == poly_add(
                            combo(q, basis@.subrange(0, k), k),
                            basis@[k]@,
                        ));
                    }
                }
                assert forall|k: int, m: Seq<nat>|
                    input.len() <= k < basis@.len() && #[trigger] basis@[k]@.contains_key(
                        m,
                    ) implies irreducible(m, basis@.subrange(0, k)) by {
                    if k < n {
                        assert(basis@.subrange(0, k) =~= before.subrange(0, k));
                    }
                }
            }
            let mut l2: usize = 0;
            while l2 < n
                invariant
                    extends_irreducibly(input, basis@, nv as nat),
                    basis@.len() == n + 1,
                    forall|f: Ordpol<O>, g: Ordpol<O>|
                        weighable(f, g) ==> #[trigger] calc_weight.requires((&f, &g)),
                    l2 <= n,
                    pairs_wf(pairs@, basis@.len()),
                    forall|k: int| input.len() <= k < basis@.len() ==> #[trigger] reduction_of(basis@, k),
                    forall|k: int| 0 <= k < basis@.len() ==> in_ideal(#[trigger] basis@[k]@, input),
                decreases n - l2,
            {
                assert(weighable(basis@[n as int], basis@[l2 as int]));
                let w = calc_weight(&basis[n], &basis[l2]);
                pairs.push(Entry(w, (n, l2)));
                l2 = l2 + 1;
            }
        }
    }
}

/// The basis that Buchberger's algorithm returns generates the same ideal as
/// its input: every input polynomial is a generator of the basis, and every
/// combination of basis elements with polynomial coefficients is a
/// combination of the input.
pub proof fn lemma_same_ideal<O: MonomialOrder>(
    input: Seq<Ordpol<O>>,
    basis: Seq<Ordpol<O>>,
    qs: Seq<Ordpol<O>>,
    n: nat,
)
    requires
        input.len() > 0,
        n == input[0].nvars,
        extends_irreducibly(input, basis, n),
        forall|k: int| 0 <= k < basis.len() ==> in_ideal(#[trigger] basis[k]@, input),
        gens_wf(qs, n),
        qs.len() == basis.len(),
    ensures
        forall|k: int| 0 <= k < input.len() ==> in_ideal(#[trigger] input[k]@, basis),
        in_ideal(combo(views(qs), basis, basis.len() as int), input),
{
    assert(gens_wf(basis, n));
    assert(gens_wf(input, n)) by {
        assert forall|k: int| 0 <= k < input.len() implies (#[trigger] input[k]).wf()
            && input[k].nvars == n by {
            assert(input[k] == basis[k]);
        }
    }
    assert forall|k: int| 0 <= k < input.len() implies in_ideal(#[trigger] input[k]@, basis) by {
        assert(input[k] == basis[k]);
        lemma_generator_in_ideal(basis, n, k);
    }
    lemma_combo_in_ideal(qs, basis, input, n, basis.len() as int);
}

} // verus!
