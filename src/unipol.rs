//! Univariate polynomials over the rationals: the sparse polynomial in one
//! variable, with powers as plain exponents and a dense listing of the
//! coefficients.
use crate::division::{div_ok, div_spec, lead, zero_quotients, MAX_STEPS};
use crate::monomial::{mono_divides, Monomial};
use crate::order::Lex;
use crate::ordpol::{
    add_fits, coef, mul_fits_seq, poly_add, poly_mul_seq, poly_neg, term_wf, Ordpol,
};
use crate::rational::{rat_zero, Rational};
use vstd::prelude::*;

verus! {

/// A power of the variable: the univariate monomial `x^e`.
#[derive(Clone, Copy, Debug, PartialEq, Eq, Structural)]
pub struct Power(pub u32);

impl Power {
    pub fn one() -> (r: Power)
        ensures
            r.0 == 0,
    {
        Power(0)
    }

    /// `x^a · x^b = x^(a+b)`, or `None` where the exponent does not fit.
    pub fn mul(&self, other: &Power) -> (r: Option<Power>)
        ensures
            r matches Some(p) ==> p.0 == self.0 + other.0,
            r is None <==> self.0 + other.0 > u32::MAX,
    {
        if self.0 > u32::MAX - other.0 {
            None
        } else {
            Some(Power(self.0 + other.0))
        }
    }

    /// `x^a / x^b = x^(a-b)`, or `None` where `b > a`.
    pub fn div(&self, other: &Power) -> (r: Option<Power>)
        ensures
            r matches Some(p) ==> p.0 == self.0 - other.0,
            r is None <==> self.0 < other.0,
    {
        if self.0 < other.0 {
            None
        } else {
            Some(Power(self.0 - other.0))
        }
    }

    /// The one-variable monomial with this exponent.
    pub fn to_monomial(&self) -> (r: Monomial)
        ensures
            r.wf(),
            r@ == seq![self.0 as nat],
    {
        let mut e: Vec<u32> = Vec::new();
        e.push(self.0);
        let r = Monomial::from_exponents(e);
        assert(r@ =~= seq![self.0 as nat]);
        r
    }
}

/// A polynomial in one variable `x`.
pub struct Unipol {
    pub inner: Ordpol<Lex>,
}

impl View for Unipol {
    type V = Map<Seq<nat>, (int, int)>;

    open spec fn view(&self) -> Map<Seq<nat>, (int, int)> {
        self.inner@
    }
}

impl Unipol {
    pub open spec fn wf(&self) -> bool {
        self.inner.wf() && self.inner.nvars == 1
    }

    /// The coefficient of `x^k`.
    pub open spec fn coeff(&self, k: nat) -> (int, int) {
        coef(self@, seq![k])
    }

    fn wrap(p: Ordpol<Lex>) -> (r: Unipol)
        requires
            p.wf(),
            p.nvars == 1,
        ensures
            r.wf(),
            r@ == p@,
            r.inner.tseq() == p.tseq(),
    {
        Unipol { inner: p }
    }

    /// The variable `x`.
    pub fn x() -> (r: Unipol)
        ensures
            r.wf(),
            r@ == Map::<Seq<nat>, (int, int)>::empty().insert(seq![1nat], (1int, 1int)),
    {
        let p = Ordpol::<Lex>::var(1, 0);
        assert(crate::monomial::mono_var(1, 0) =~= seq![1nat]);
        Self::wrap(p)
    }

    pub fn zero() -> (r: Unipol)
        ensures
            r.wf(),
            r@ == Map::<Seq<nat>, (int, int)>::empty(),
    {
        Self::wrap(Ordpol::zero(1))
    }

    pub fn one() -> (r: Unipol)
        ensures
            r.wf(),
            r@ == Map::<Seq<nat>, (int, int)>::empty().insert(seq![0nat], (1int, 1int)),
    {
        let p = Ordpol::<Lex>::one(1);
        assert(crate::monomial::mono_one(1) =~= seq![0nat]);
        Self::wrap(p)
    }

    /// The integer constant `i`.
    pub fn from_int(i: i64) -> (r: Unipol)
        requires
            i > i64::MIN,
        ensures
            r.wf(),
            i == 0 ==> r@ == Map::<Seq<nat>, (int, int)>::empty(),
            i != 0 ==> r@ == Map::<Seq<nat>, (int, int)>::empty().insert(seq![0nat], (i as int, 1int)),
    {
        let p = Ordpol::<Lex>::from_int(1, i);
        assert(crate::monomial::mono_one(1) =~= seq![0nat]);
        Self::wrap(p)
    }

    /// The term `c·x^e`.
    pub fn from_term(e: Power, c: Rational) -> (r: Unipol)
        requires
            c.wf(),
        ensures
            r.wf(),
            c@ == rat_zero() ==> r@ == Map::<Seq<nat>, (int, int)>::empty(),
            c@ != rat_zero() ==> r@ == Map::<Seq<nat>, (int, int)>::empty().insert(seq![e.0 as nat], c@),
    {
        Self::wrap(Ordpol::from_term(e.to_monomial(), c))
    }

    pub fn is_zero(&self) -> (r: bool)
        requires
            self.wf(),
        ensures
            r == (self@ == Map::<Seq<nat>, (int, int)>::empty()),
    {
        self.inner.is_zero()
    }

    /// Sum; `None` where a coefficient leaves the range of `i64`.
    pub fn add(&self, other: &Unipol) -> (r: Option<Unipol>)
        requires
            self.wf(),
            other.wf(),
        ensures
            add_fits(self@, other@) ==> r is Some,
            r matches Some(s) ==> s.wf() && s@ == poly_add(self@, other@),
    {
        match self.inner.add(&other.inner) {
            None => None,
            Some(p) => Some(Self::wrap(p)),
        }
    }

    /// Negation.
    pub fn neg(&self) -> (r: Unipol)
        requires
            self.wf(),
        ensures
            r.wf(),
            r@ == poly_neg(self@),
    {
        Self::wrap(self.inner.neg())
    }

    /// Difference; `None` where a coefficient leaves the range of `i64`.
    pub fn sub(&self, other: &Unipol) -> (r: Option<Unipol>)
        requires
            self.wf(),
            other.wf(),
        ensures
            add_fits(self@, poly_neg(other@)) ==> r is Some,
            r matches Some(s) ==> s.wf() && s@ == poly_add(self@, poly_neg(other@)),
    {
        match self.inner.sub(&other.inner) {
            None => None,
            Some(p) => Some(Self::wrap(p)),
        }
    }

    /// Product; `None` where an exponent or coefficient leaves its range.
    pub fn mul(&self, other: &Unipol) -> (r: Option<Unipol>)
        requires
            self.wf(),
            other.wf(),
        ensures
            mul_fits_seq(self.inner.tseq(), other@) ==> r is Some,
            r matches Some(s) ==> s.wf() && s@ == poly_mul_seq(self.inner.tseq(), other@),
    {
        match self.inner.mul(&other.inner) {
            None => None,
            Some(p) => Some(Self::wrap(p)),
        }
    }

    /// The leading term: highest power and its coefficient; `None` for zero.
    pub fn lead_term(&self) -> (r: Option<(Power, Rational)>)
        requires
            self.wf(),
        ensures
            self.inner.terms@.len() == 0 <==> r is None,
            r matches Some(t) ==> (seq![t.0.0 as nat], t.1@) == lead(self.inner),
    {
        if self.inner.len() == 0 {
            None
        } else {
            let (m, c) = self.inner.lead_parts();
            assert(m@ =~= seq![m.exps@[0] as nat]);
            Some((Power(m.exponent(0)), c))
        }
    }

    /// Removes and returns the leading term.
    pub fn pop_lead_term(&mut self) -> (r: Option<(Power, Rational)>)
        requires
            old(self).wf(),
        ensures
            final(self).wf(),
            old(self).inner.terms@.len() == 0 ==> r is None && final(self)@ == old(self)@,
            old(self).inner.terms@.len() > 0 ==> r is Some,
            r matches Some(t) ==> {
                &&& (seq![t.0.0 as nat], t.1@) == lead(old(self).inner)
                &&& old(self)@ == final(self)@.insert(seq![t.0.0 as nat], t.1@)
            },
    {
        match self.inner.pop_lead_term() {
            None => None,
            Some((m, c)) => {
                assert(m@ =~= seq![m.exps@[0] as nat]);
                Some((Power(m.exponent(0)), c))
            },
        }
    }

    /// Every coefficient from `x^0` up to the leading power, zeros
    /// included; empty for the zero polynomial.
    pub fn iter(&self) -> (r: Vec<(Power, Rational)>)
        requires
            self.wf(),
        ensures
            self.inner.terms@.len() == 0 ==> r@.len() == 0,
            self.inner.terms@.len() > 0 ==> r@.len() == lead(self.inner).0[0] + 1,
            forall|k: int|
                0 <= k < r@.len() ==> (#[trigger] r@[k]).0.0 == k && r@[k].1@ == self.coeff(
                    k as nat,
                ),
    {
        let mut out: Vec<(Power, Rational)> = Vec::new();
        if self.inner.len() == 0 {
            return out;
        }
        let (lm, _) = self.inner.lead_parts();
        let d = lm.exponent(0);
        proof {
            self.inner.lemma_view();
        }
        let mut k: u64 = 0;
        while k <= d as u64
            invariant
                self.wf(),
                self.inner.terms@.len() > 0,
                d == lead(self.inner).0[0],
                out@.len() == k,
                k <= d + 1,
                forall|j: int|
                    0 <= j < out@.len() ==> (#[trigger] out@[j]).0.0 == j && out@[j].1@
                        == self.coeff(j as nat),
            decreases d + 1 - k,
        {
            let c = self.coeff_at(k as u32);
            out.push((Power(k as u32), c));
            k = k + 1;
        }
        out
    }

    /// The coefficient of `x^k`.
    pub fn coeff_at(&self, k: u32) -> (r: Rational)
        requires
            self.wf(),
        ensures
            r.wf(),
            r@ == self.coeff(k as nat),
    {
        let ghost s = self.inner.tseq();
        proof {
            self.inner.lemma_view();
        }
        let mut j: usize = 0;
        while j < self.inner.terms.len()
            invariant
                self.wf(),
                s == self.inner.tseq(),
                j <= self.inner.terms@.len(),
                forall|i: int| 0 <= i < j ==> (#[trigger] s[i]).0 != seq![k as nat],
            decreases self.inner.terms@.len() - j,
        {
            assert(term_wf(self.inner.terms@[j as int], 1));
            proof {
                self.inner.lemma_view();
            }
            if self.inner.terms[j].0.exponent(0) == k {
                assert(self.inner.terms@[j as int].0@ =~= seq![k as nat]);
                assert(self.inner@.contains_key(self.inner.terms@[j as int].0@));
                return self.inner.terms[j].1;
            }
            assert(s[j as int].0[0] != k);
            j = j + 1;
        }
        proof {
            crate::ordpol::lemma_to_map_absent(s, seq![k as nat]);
        }
        Rational::zero()
    }

    /// Division with remainder by a nonzero `g`: the remainder has no term
    /// divisible by the leading power of `g`, and `self = g·q + r`. `None`
    /// where an exponent or coefficient leaves its range.
    pub fn div_mod(&self, g: &Unipol) -> (r: Option<(Unipol, Unipol)>)
        requires
            self.wf(),
            g.wf(),
            g.inner.terms@.len() > 0,
        ensures
            r matches Some(res) ==> {
                &&& res.0.wf()
                &&& res.1.wf()
                &&& forall|m: Seq<nat>| #[trigger] res.1@.contains_key(m) ==> !mono_divides(
                    lead(g.inner).0,
                    m,
                )
                &&& self@ == poly_add(poly_mul_seq(g.inner.tseq(), res.0@), res.1@)
                &&& div_spec(
                    self@,
                    zero_quotients(1),
                    Map::<Seq<nat>, (int, int)>::empty(),
                    seq![g.inner],
                    MAX_STEPS as nat,
                ) == Some((seq![res.0@], res.1@))
            },
            div_ok(
                self@,
                zero_quotients(1),
                Map::<Seq<nat>, (int, int)>::empty(),
                seq![g.inner],
                MAX_STEPS as nat,
            ) ==> r is Some,
    {
        match self.inner.div_mod(&g.inner) {
            None => None,
            Some((q, rem)) => Some((Self::wrap(q), Self::wrap(rem))),
        }
    }
}

} // verus!
