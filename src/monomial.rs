//! Monomials as exponent vectors: the commutative monoid, divisibility, lcm
//! and total degree. The orderings live in `order`.
use vstd::prelude::*;

verus! {

/// The unit monomial in `n` variables: every exponent zero.
pub open spec fn mono_one(n: nat) -> Seq<nat> {
    Seq::new(n, |i: int| 0nat)
}

/// The `v`-th variable among `n`.
pub open spec fn mono_var(n: nat, v: int) -> Seq<nat> {
    Seq::new(n, |i: int| if i == v { 1nat } else { 0nat })
}

/// Product: exponents add.
pub open spec fn mono_mul(a: Seq<nat>, b: Seq<nat>) -> Seq<nat> {
    Seq::new(a.len(), |i: int| a[i] + b[i])
}

/// `a` divides `b`: no exponent of `a` exceeds the matching one of `b`.
pub open spec fn mono_divides(a: Seq<nat>, b: Seq<nat>) -> bool {
    &&& a.len() == b.len()
    &&& forall|i: int| 0 <= i < a.len() ==> a[i] <= b[i]
}

/// Quotient `a / b`, meaningful where `b` divides `a`.
pub open spec fn mono_div(a: Seq<nat>, b: Seq<nat>) -> Seq<nat> {
    Seq::new(a.len(), |i: int| (a[i] - b[i]) as nat)
}

/// Least common multiple: the exponent-wise maximum.
pub open spec fn mono_lcm(a: Seq<nat>, b: Seq<nat>) -> Seq<nat> {
    Seq::new(a.len(), |i: int| if a[i] >= b[i] { a[i] } else { b[i] })
}

/// Sum of the exponents.
pub open spec fn degree(a: Seq<nat>) -> nat
    decreases a.len(),
{
    if a.len() == 0 {
        0
    } else {
        degree(a.drop_last()) + a.last()
    }
}

/// A monomial: one exponent per variable, variable `0` first.
#[derive(Debug)]
pub struct Monomial {
    pub exps: Vec<u32>,
}

impl View for Monomial {
    type V = Seq<nat>;

    open spec fn view(&self) -> Seq<nat> {
        Seq::new(self.exps@.len(), |i: int| self.exps@[i] as nat)
    }
}

/// Every exponent fits in `u32`.
pub open spec fn exps_fit(a: Seq<nat>) -> bool {
    forall|i: int| 0 <= i < a.len() ==> a[i] <= u32::MAX
}

/// The product of `a` and `b` has exponents that fit in `u32`.
pub open spec fn mul_fits(a: Seq<nat>, b: Seq<nat>) -> bool {
    exps_fit(mono_mul(a, b))
}

pub proof fn lemma_degree_bound(a: Seq<nat>)
    requires
        exps_fit(a),
    ensures
        degree(a) <= a.len() * (u32::MAX as nat),
    decreases a.len(),
{
    if a.len() > 0 {
        lemma_degree_bound(a.drop_last());
        assert(a.len() * (u32::MAX as nat) == (a.len() - 1) * (u32::MAX as nat) + u32::MAX)
            by (nonlinear_arith);
    }
}

pub proof fn lemma_degree_mul(a: Seq<nat>, b: Seq<nat>)
    requires
        a.len() == b.len(),
    ensures
        degree(mono_mul(a, b)) == degree(a) + degree(b),
    decreases a.len(),
{
    if a.len() > 0 {
        lemma_degree_mul(a.drop_last(), b.drop_last());
        assert(mono_mul(a, b).drop_last() =~= mono_mul(a.drop_last(), b.drop_last()));
    }
}

pub proof fn lemma_degree_one(n: nat)
    ensures
        degree(mono_one(n)) == 0,
    decreases n,
{
    if n > 0 {
        lemma_degree_one((n - 1) as nat);
        assert(mono_one(n).drop_last() =~= mono_one((n - 1) as nat));
    }
}

/// A monomial of degree zero is the unit.
pub proof fn lemma_degree_zero(a: Seq<nat>)
    requires
        degree(a) == 0,
    ensures
        a == mono_one(a.len()),
    decreases a.len(),
{
    if a.len() > 0 {
        lemma_degree_zero(a.drop_last());
        assert forall|i: int| 0 <= i < a.len() - 1 implies a[i] == 0 by {
            assert(a[i] == a.drop_last()[i]);
        }
        assert(a =~= mono_one(a.len()));
    } else {
        assert(a =~= mono_one(a.len()));
    }
}

pub proof fn lemma_degree_var(n: nat, v: int)
    requires
        0 <= v < n,
    ensures
        degree(mono_var(n, v)) == 1,
    decreases n,
{
    if n - 1 > v {
        lemma_degree_var((n - 1) as nat, v);
        assert(mono_var(n, v).drop_last() =~= mono_var((n - 1) as nat, v));
    } else {
        lemma_degree_one((n - 1) as nat);
        assert(mono_var(n, v).drop_last() =~= mono_one((n - 1) as nat));
    }
}

impl Monomial {
    pub open spec fn wf(&self) -> bool {
        self.exps@.len() <= u32::MAX
    }

    /// The unit monomial in `n` variables.
    pub fn one(n: usize) -> (r: Monomial)
        requires
            n <= u32::MAX,
        ensures
            r.wf(),
            r@ == mono_one(n as nat),
    {
        let mut exps: Vec<u32> = Vec::new();
        let mut i: usize = 0;
        while i < n
            invariant
                i <= n,
                exps@.len() == i,
                forall|j: int| 0 <= j < i ==> exps@[j] == 0,
            decreases n - i,
        {
            exps.push(0);
            i = i + 1;
        }
        let r = Monomial { exps };
        assert(r@ =~= mono_one(n as nat));
        r
    }

    /// The variable `v` among `n`.
    pub fn var(n: usize, v: usize) -> (r: Monomial)
        requires
            n <= u32::MAX,
            v < n,
        ensures
            r.wf(),
            r@ == mono_var(n as nat, v as int),
    {
        let mut exps: Vec<u32> = Vec::new();
        let mut i: usize = 0;
        while i < n
            invariant
                i <= n,
                exps@.len() == i,
                forall|j: int| 0 <= j < i ==> exps@[j] == (if j == v { 1u32 } else { 0u32 }),
            decreases n - i,
        {
            if i == v {
                exps.push(1);
            } else {
                exps.push(0);
            }
            i = i + 1;
        }
        let r = Monomial { exps };
        assert(r@ =~= mono_var(n as nat, v as int));
        r
    }

    /// The monomial with the given exponents, variable `0` first.
    pub fn from_exponents(exps: Vec<u32>) -> (r: Monomial)
        requires
            exps@.len() <= u32::MAX,
        ensures
            r.wf(),
            r.exps@ == exps@,
    {
        Monomial { exps }
    }

    /// Number of variables.
    pub fn len(&self) -> (r: usize)
        ensures
            r == self@.len(),
    {
        self.exps.len()
    }

    /// The exponent of variable `v`.
    pub fn exponent(&self, v: usize) -> (r: u32)
        requires
            v < self@.len(),
        ensures
            r == self@[v as int],
    {
        self.exps[v]
    }

    /// The exponents, variable `0` first.
    pub fn exponents(&self) -> (r: Vec<u32>)
        ensures
            r@ == self.exps@,
            r@.len() == self@.len(),
            forall|i: int| 0 <= i < r@.len() ==> r@[i] as nat == self@[i],
    {
        let mut r: Vec<u32> = Vec::new();
        let mut i: usize = 0;
        while i < self.exps.len()
            invariant
                i <= self.exps@.len(),
                r@ == self.exps@.subrange(0, i as int),
            decreases self.exps@.len() - i,
        {
            r.push(self.exps[i]);
            i = i + 1;
            assert(r@ =~= self.exps@.subrange(0, i as int));
        }
        assert(r@ =~= self.exps@);
        r
    }

    pub fn copy(&self) -> (r: Monomial)
        ensures
            r@ == self@,
            r.exps@ == self.exps@,
            self.wf() ==> r.wf(),
    {
        Monomial { exps: self.exponents() }
    }

    /// Whether this is the unit monomial.
    pub fn is_one(&self) -> (r: bool)
        ensures
            r == (self@ == mono_one(self@.len())),
    {
        let mut i: usize = 0;
        while i < self.exps.len()
            invariant
                i <= self.exps@.len(),
                forall|j: int| 0 <= j < i ==> self@[j] == 0,
            decreases self.exps@.len() - i,
        {
            if self.exps[i] != 0 {
                assert(self@[i as int] != mono_one(self@.len())[i as int]);
                return false;
            }
            i = i + 1;
        }
        assert(self@ =~= mono_one(self@.len()));
        true
    }

    /// Sum of the exponents.
    pub fn total_deg(&self) -> (r: u64)
        requires
            self.wf(),
        ensures
            r == degree(self@),
    {
        let mut s: u64 = 0;
        let mut i: usize = 0;
        while i < self.exps.len()
            invariant
                self.wf(),
                i <= self@.len(),
                s == degree(self@.subrange(0, i as int)),
            decreases self@.len() - i,
        {
            proof {
                let p = self@.subrange(0, i as int + 1);
                assert(p.drop_last() =~= self@.subrange(0, i as int));
                lemma_degree_bound(p);
                assert(p.len() * (u32::MAX as nat) <= (u32::MAX as nat) * (u32::MAX as nat))
                    by (nonlinear_arith)
                    requires
                        p.len() <= u32::MAX,
                ;
            }
            s = s + self.exps[i] as u64;
            i = i + 1;
        }
        assert(self@.subrange(0, self@.len() as int) =~= self@);
        s
    }

    /// Whether the product of `self` and `other` fits.
    pub fn mul_fits(&self, other: &Monomial) -> (r: bool)
        requires
            self@.len() == other@.len(),
        ensures
            r == mul_fits(self@, other@),
    {
        let mut i: usize = 0;
        while i < self.exps.len()
            invariant
                i <= self@.len(),
                self@.len() == other@.len(),
                forall|j: int| 0 <= j < i ==> self@[j] + other@[j] <= u32::MAX,
            decreases self@.len() - i,
        {
            if self.exps[i] > u32::MAX - other.exps[i] {
                assert(mono_mul(self@, other@)[i as int] > u32::MAX);
                return false;
            }
            i = i + 1;
        }
        true
    }

    /// Product: exponents add.
    pub fn mul(&self, other: &Monomial) -> (r: Monomial)
        requires
            self.wf(),
            self@.len() == other@.len(),
            mul_fits(self@, other@),
        ensures
            r.wf(),
            r@ == mono_mul(self@, other@),
    {
        let mut exps: Vec<u32> = Vec::new();
        let mut i: usize = 0;
        while i < self.exps.len()
            invariant
                self.wf(),
                i <= self@.len(),
                self@.len() == other@.len(),
                mul_fits(self@, other@),
                exps@.len() == i,
                forall|j: int| 0 <= j < i ==> exps@[j] == self@[j] + other@[j],
            decreases self@.len() - i,
        {
            assert(mono_mul(self@, other@)[i as int] <= u32::MAX);
            exps.push(self.exps[i] + other.exps[i]);
            i = i + 1;
        }
        let r = Monomial { exps };
        assert(r@ =~= mono_mul(self@, other@));
        r
    }

    /// Product, or `None` where an exponent would not fit.
    pub fn checked_mul(&self, other: &Monomial) -> (r: Option<Monomial>)
        requires
            self.wf(),
            self@.len() == other@.len(),
        ensures
            r is Some <==> mul_fits(self@, other@),
            r matches Some(m) ==> m.wf() && m@ == mono_mul(self@, other@),
    {
        if self.mul_fits(other) {
            Some(self.mul(other))
        } else {
            None
        }
    }

    /// Whether `self` divides `other`.
    pub fn divides(&self, other: &Monomial) -> (r: bool)
        requires
            self@.len() == other@.len(),
        ensures
            r == mono_divides(self@, other@),
    {
        let mut i: usize = 0;
        while i < self.exps.len()
            invariant
                i <= self@.len(),
                self@.len() == other@.len(),
                forall|j: int| 0 <= j < i ==> self@[j] <= other@[j],
            decreases self@.len() - i,
        {
            if self.exps[i] > other.exps[i] {
                assert(self@[i as int] > other@[i as int]);
                return false;
            }
            i = i + 1;
        }
        true
    }

    /// `self / other`, or `None` where `other` does not divide `self`.
    pub fn div(&self, other: &Monomial) -> (r: Option<Monomial>)
        requires
            self.wf(),
            self@.len() == other@.len(),
        ensures
            r is Some <==> mono_divides(other@, self@),
            r matches Some(m) ==> m.wf() && m@ == mono_div(self@, other@),
    {
        if !other.divides(self) {
            return None;
        }
        let mut exps: Vec<u32> = Vec::new();
        let mut i: usize = 0;
        while i < self.exps.len()
            invariant
                self.wf(),
                i <= self@.len(),
                self@.len() == other@.len(),
                mono_divides(other@, self@),
                exps@.len() == i,
                forall|j: int| 0 <= j < i ==> exps@[j] == self@[j] - other@[j],
            decreases self@.len() - i,
        {
            assert(other@[i as int] <= self@[i as int]);
            exps.push(self.exps[i] - other.exps[i]);
            i = i + 1;
        }
        let r = Monomial { exps };
        assert(r@ =~= mono_div(self@, other@));
        Some(r)
    }

    /// Least common multiple: the exponent-wise maximum.
    pub fn lcm(&self, other: &Monomial) -> (r: Monomial)
        requires
            self.wf(),
            self@.len() == other@.len(),
        ensures
            r.wf(),
            r@ == mono_lcm(self@, other@),
    {
        let mut exps: Vec<u32> = Vec::new();
        let mut i: usize = 0;
        while i < self.exps.len()
            invariant
                self.wf(),
                i <= self@.len(),
                self@.len() == other@.len(),
                exps@.len() == i,
                forall|j: int| 0 <= j < i ==> exps@[j] == mono_lcm(self@, other@)[j],
            decreases self@.len() - i,
        {
            if self.exps[i] >= other.exps[i] {
                exps.push(self.exps[i]);
            } else {
                exps.push(other.exps[i]);
            }
            i = i + 1;
        }
        let r = Monomial { exps };
        assert(r@ =~= mono_lcm(self@, other@));
        r
    }

    /// Whether the two monomials are equal.
    pub fn equals(&self, other: &Monomial) -> (r: bool)
        ensures
            r == (self@ == other@),
    {
        if self.exps.len() != other.exps.len() {
            assert(self@.len() != other@.len());
            return false;
        }
        let mut i: usize = 0;
        while i < self.exps.len()
            invariant
                i <= self@.len(),
                self@.len() == other@.len(),
                forall|j: int| 0 <= j < i ==> self@[j] == other@[j],
            decreases self@.len() - i,
        {
            if self.exps[i] != other.exps[i] {
                assert(self@[i as int] != other@[i as int]);
                return false;
            }
            i = i + 1;
        }
        assert(self@ =~= other@);
        true
    }
}

/// Monomials form a commutative monoid under multiplication with the unit
/// monomial as identity.
pub proof fn lemma_monoid(a: Seq<nat>, b: Seq<nat>, c: Seq<nat>)
    requires
        a.len() == b.len(),
        b.len() == c.len(),
    ensures
        mono_mul(a, mono_one(a.len())) == a,
        mono_mul(mono_one(a.len()), a) == a,
        mono_mul(a, b) == mono_mul(b, a),
        mono_mul(mono_mul(a, b), c) == mono_mul(a, mono_mul(b, c)),
{
    assert(mono_mul(a, mono_one(a.len())) =~= a);
    assert(mono_mul(mono_one(a.len()), a) =~= a);
    assert(mono_mul(a, b) =~= mono_mul(b, a));
    assert(mono_mul(mono_mul(a, b), c) =~= mono_mul(a, mono_mul(b, c)));
}

/// Both monomials divide their lcm, and lowering any positive exponent of
/// the lcm by one leaves a monomial that one of them does not divide.
pub proof fn lemma_lcm_least(a: Seq<nat>, b: Seq<nat>)
    requires
        a.len() == b.len(),
    ensures
        mono_divides(a, mono_lcm(a, b)),
        mono_divides(b, mono_lcm(a, b)),
        forall|i: int|
            0 <= i < a.len() && mono_lcm(a, b)[i] > 0 ==> !(mono_divides(
                a,
                #[trigger] mono_lcm(a, b).update(i, (mono_lcm(a, b)[i] - 1) as nat),
            ) && mono_divides(b, mono_lcm(a, b).update(i, (mono_lcm(a, b)[i] - 1) as nat))),
{
    let l = mono_lcm(a, b);
    assert forall|i: int| 0 <= i < a.len() && l[i] > 0 implies !(mono_divides(
        a,
        #[trigger] l.update(i, (l[i] - 1) as nat),
    ) && mono_divides(b, l.update(i, (l[i] - 1) as nat))) by {
        let d = l.update(i, (l[i] - 1) as nat);
        assert(d[i] < a[i] || d[i] < b[i]);
    }
}

} // verus!
