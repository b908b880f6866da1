//! Elements of the LaBRADOR ring `R_Q = Z_Q[X] / (X^64 + 1)`.
//!
//! Coefficients are canonical residues in `[0, q)`. Multiplication here is the
//! negacyclic schoolbook product, the reference against which the CRT path
//! in [`crate::modring::crt`] is measured.
use crate::modring::modulus::{centered_of, Modulus};
use crate::modring::polyspec::{
    ints, lemma_wrap_coeff_commutes, lemma_wrap_coeff_distributes, lemma_wrap_coeff_unit,
    negacyclic_coeff, row_reached, sum_sq, unit_seq, wrap_partial, wrap_term,
};
use vstd::arithmetic::div_mod::*;
use vstd::arithmetic::mul::*;
use vstd::prelude::*;
use vstd::std_specs::cmp::PartialEqSpecImpl;

verus! {

/// Degree of the LaBRADOR ring (`X^64 + 1`).
pub const D: usize = 64;

/// An element of `R_Q`, in coefficient representation.
#[derive(Clone, Copy, Eq, Debug)]
pub struct RingElem {
    /// Coefficients `c[i]` of `X^i`, each a canonical residue in `[0, q)`.
    pub c: [u64; D],
}

/// The centered coefficients of a ring element.
pub open spec fn centered_coeffs(a: RingElem, q: int) -> Seq<int> {
    Seq::new(D as nat, |i: int| centered_of(a.c[i] as int, q))
}

/// Squared Euclidean norm of the centered coefficient vector.
pub open spec fn elem_norm_sq(a: RingElem, q: int) -> int {
    sum_sq(centered_coeffs(a, q), D as nat)
}

/// Coefficient `k` of the product `a · b` in `R_q`.
pub open spec fn ring_mul_coeff(a: RingElem, b: RingElem, k: int, q: int) -> int {
    negacyclic_coeff(ints(a.c), ints(b.c), k) % q
}

/// The product `a · b` in `R_q` (all coefficients reduced into `[0, q)`).
pub open spec fn ring_mul_spec(a: RingElem, b: RingElem, q: int) -> Seq<int> {
    Seq::new(D as nat, |k: int| ring_mul_coeff(a, b, k, q))
}

/// Coefficient-wise sum in `R_q`.
pub open spec fn ring_add_spec(a: RingElem, b: RingElem, q: int) -> Seq<int> {
    Seq::new(D as nat, |k: int| (a.c[k] + b.c[k]) % q)
}

impl PartialEq for RingElem {
    fn eq(&self, other: &Self) -> (r: bool) {
        for i in 0..D
            invariant
                forall|j: int| 0 <= j < i ==> #[trigger] self.c[j] == other.c[j],
        {
            if self.c[i] != other.c[i] {
                return false;
            }
        }
        assert(self.c@ =~= other.c@);
        true
    }
}

impl PartialEqSpecImpl for RingElem {
    open spec fn obeys_eq_spec() -> bool {
        true
    }

    open spec fn eq_spec(&self, other: &Self) -> bool {
        self.c@ == other.c@
    }
}

impl RingElem {
    /// Every coefficient is a canonical residue mod `m.q`.
    pub open spec fn wf(&self, m: Modulus) -> bool {
        forall|i: int| 0 <= i < D ==> #[trigger] self.c[i] < m.q
    }

    /// The zero polynomial.
    pub fn zero() -> (r: Self)
        ensures
            forall|i: int| 0 <= i < D ==> #[trigger] r.c[i] == 0,
    {
        RingElem { c: [0u64; D] }
    }

    /// The constant polynomial `a` (reduced mod `q`).
    pub fn constant(m: &Modulus, a: u64) -> (p: Self)
        requires
            m.wf(),
        ensures
            p.c[0] == a % m.q,
            forall|i: int| 1 <= i < D ==> #[trigger] p.c[i] == 0,
            p.wf(*m),
    {
        let mut p = Self::zero();
        p.c[0] = a % m.q;
        p
    }

    /// The monomial `X^k` for any `k >= 0`, reduced via `X^64 = -1`.
    pub fn monomial(m: &Modulus, k: usize) -> (p: Self)
        requires
            m.wf(),
        ensures
            p.c[(k % D) as int] == (if (k / D) % 2 == 1 { m.q - 1 } else { 1 }),
            forall|i: int| 0 <= i < D && i != (k % D) as int ==> #[trigger] p.c[i] == 0,
            p.wf(*m),
    {
        let mut p = Self::zero();
        let sign_neg = (k / D) % 2 == 1;
        let idx = k % D;
        p.c[idx] = if sign_neg {
            proof {
                lemma_fundamental_div_mod_converse_mod(-1, m.q as int, -1, m.q - 1);
            }
            m.neg(1)
        } else {
            1
        };
        p
    }

    /// Build from signed coefficients (centered representatives).
    pub fn from_i64(m: &Modulus, coeffs: &[i64; D]) -> (p: Self)
        requires
            m.wf(),
        ensures
            forall|i: int| 0 <= i < D ==> #[trigger] p.c[i] == (coeffs[i] as int) % (m.q as int),
            p.wf(*m),
    {
        let mut p = Self::zero();
        for i in 0..D
            invariant
                m.wf(),
                forall|j: int| 0 <= j < i ==> #[trigger] p.c[j] == (coeffs[j] as int) % (
                m.q as int),
                forall|j: int| 0 <= j < D ==> #[trigger] p.c[j] < m.q,
        {
            p.c[i] = m.from_i64(coeffs[i]);
        }
        p
    }

    /// True if every coefficient is zero.
    pub fn is_zero(&self) -> (b: bool)
        ensures
            b == (forall|i: int| 0 <= i < D ==> #[trigger] self.c[i] == 0),
    {
        for i in 0..D
            invariant
                forall|j: int| 0 <= j < i ==> #[trigger] self.c[j] == 0,
        {
            if self.c[i] != 0 {
                return false;
            }
        }
        true
    }

    /// Coefficient-wise sum.
    pub fn add(&self, m: &Modulus, other: &RingElem) -> (r: RingElem)
        requires
            m.wf(),
            self.wf(*m),
            other.wf(*m),
        ensures
            forall|i: int| 0 <= i < D ==> #[trigger] r.c[i] == (self.c[i] + other.c[i]) % (
            m.q as int),
            r.wf(*m),
    {
        let mut r = RingElem::zero();
        for i in 0..D
            invariant
                m.wf(),
                self.wf(*m),
                other.wf(*m),
                forall|j: int| 0 <= j < i ==> #[trigger] r.c[j] == (self.c[j] + other.c[j]) % (
                m.q as int),
                forall|j: int| 0 <= j < D ==> #[trigger] r.c[j] < m.q,
        {
            r.c[i] = m.add(self.c[i], other.c[i]);
        }
        r
    }

    /// Coefficient-wise difference.
    pub fn sub(&self, m: &Modulus, other: &RingElem) -> (r: RingElem)
        requires
            m.wf(),
            self.wf(*m),
            other.wf(*m),
        ensures
            forall|i: int| 0 <= i < D ==> #[trigger] r.c[i] == (self.c[i] - other.c[i]) % (
            m.q as int),
            r.wf(*m),
    {
        let mut r = RingElem::zero();
        for i in 0..D
            invariant
                m.wf(),
                self.wf(*m),
                other.wf(*m),
                forall|j: int| 0 <= j < i ==> #[trigger] r.c[j] == (self.c[j] - other.c[j]) % (
                m.q as int),
                forall|j: int| 0 <= j < D ==> #[trigger] r.c[j] < m.q,
        {
            r.c[i] = m.sub(self.c[i], other.c[i]);
        }
        r
    }

    /// Coefficient-wise negation.
    pub fn neg(&self, m: &Modulus) -> (r: RingElem)
        requires
            m.wf(),
            self.wf(*m),
        ensures
            forall|i: int| 0 <= i < D ==> #[trigger] r.c[i] == (-self.c[i]) % (m.q as int),
            r.wf(*m),
    {
        let mut r = RingElem::zero();
        for i in 0..D
            invariant
                m.wf(),
                self.wf(*m),
                forall|j: int| 0 <= j < i ==> #[trigger] r.c[j] == (-self.c[j]) % (m.q as int),
                forall|j: int| 0 <= j < D ==> #[trigger] r.c[j] < m.q,
        {
            r.c[i] = m.neg(self.c[i]);
        }
        r
    }

    /// Multiply every coefficient by a scalar.
    pub fn scale(&self, m: &Modulus, s: u64) -> (r: RingElem)
        requires
            m.wf(),
        ensures
            forall|i: int| 0 <= i < D ==> #[trigger] r.c[i] == (self.c[i] * s) % (m.q as int),
            r.wf(*m),
    {
        let mut r = RingElem::zero();
        for i in 0..D
            invariant
                m.wf(),
                forall|j: int| 0 <= j < i ==> #[trigger] r.c[j] == (self.c[j] * s) % (m.q as int),
                forall|j: int| 0 <= j < D ==> #[trigger] r.c[j] < m.q,
        {
            r.c[i] = m.mul(self.c[i], s);
        }
        r
    }

    /// Negacyclic schoolbook product in `R_Q` (the reference multiplication).
    ///
    /// For `i + j >= 64` the term wraps with a sign flip, since `X^64 = -1`.
    pub fn mul(&self, m: &Modulus, other: &RingElem) -> (r: RingElem)
        requires
            m.wf(),
            self.wf(*m),
            other.wf(*m),
        ensures
            forall|k: int| 0 <= k < D ==> #[trigger] r.c[k] == ring_mul_coeff(*self, *other, k, m.q as int),
            r.wf(*m),
    {
        let ghost a = ints(self.c);
        let ghost b = ints(other.c);
        let ghost q = m.q as int;
        let mut r = RingElem::zero();
        proof {
            lemma_small_mod(0, m.q as nat);
        }
        for i in 0..D
            invariant
                m.wf(),
                self.wf(*m),
                other.wf(*m),
                q == m.q,
                a == ints(self.c),
                b == ints(other.c),
                forall|k: int| 0 <= k < D ==> #[trigger] r.c[k] < m.q,
                forall|k: int|
                    0 <= k < D ==> #[trigger] r.c[k] == wrap_partial(a, b, k, i as nat, -1) % q,
        {
            if self.c[i] == 0 {
                proof {
                    assert forall|k: int| 0 <= k < D implies #[trigger] r.c[k] == wrap_partial(
                        a,
                        b,
                        k,
                        (i + 1) as nat,
                        -1,
                    ) % q by {
                        assert(a[i as int] == 0);
                        if k >= i {
                            lemma_mul_basics(b[k - i]);
                        } else {
                            lemma_mul_basics(b[k - i + 64]);
                        }
                    }
                }
            } else {
            for j in 0..D
                invariant
                    m.wf(),
                    self.wf(*m),
                    other.wf(*m),
                    q == m.q,
                    i < D,
                    a == ints(self.c),
                    b == ints(other.c),
                    forall|k: int| 0 <= k < D ==> #[trigger] r.c[k] < m.q,
                    forall|k: int|
                        0 <= k < D ==> #[trigger] r.c[k] == (wrap_partial(a, b, k, i as nat, -1) + (
                        if row_reached(D as int, i as int, j as int, k) {
                            wrap_term(a, b, i as int, k, -1)
                        } else {
                            0
                        })) % q,
            {
                let p = m.mul(self.c[i], other.c[j]);
                let k = i + j;
                if k < D {
                    let ghost old_r = r;
                    r.c[k] = m.add(r.c[k], p);
                    proof {
                        let x = wrap_partial(a, b, k as int, i as nat, -1);
                        lemma_add_mod_noop(x, a[i as int] * b[j as int], q);
                        lemma_mod_twice(x, q);
                        lemma_add_mod_noop(x % q, a[i as int] * b[j as int], q);
                        assert forall|kk: int| 0 <= kk < D && kk != k implies #[trigger] r.c[kk]
                            == old_r.c[kk] by {}
                    }
                } else {
                    let ghost old_r = r;
                    r.c[k - D] = m.sub(r.c[k - D], p);
                    proof {
                        let kk0 = (k - D) as int;
                        let x = wrap_partial(a, b, kk0, i as nat, -1);
                        assert(wrap_term(a, b, i as int, kk0, -1) == -(a[i as int] * b[j as int]));
                        lemma_sub_mod_noop(x, a[i as int] * b[j as int], q);
                        lemma_mod_twice(x, q);
                        lemma_sub_mod_noop(x % q, a[i as int] * b[j as int], q);
                        assert forall|kk: int| 0 <= kk < D && kk != kk0 implies #[trigger] r.c[kk]
                            == old_r.c[kk] by {}
                    }
                }
            }
            }
        }
        r
    }

    /// Squared Euclidean norm of the centered coefficient vector, as `i128`.
    /// (`q < 2^60` keeps the sum of 64 squares inside `i128`.)
    pub fn norm_sq(&self, m: &Modulus) -> (n: i128)
        requires
            m.wf(),
            m.q < 0x1000_0000_0000_0000,
            self.wf(*m),
        ensures
            n == elem_norm_sq(*self, m.q as int),
            0 <= n <= 64 * 0x0100_0000_0000_0000_0000_0000_0000_0000,
    {
        let ghost cs = centered_coeffs(*self, m.q as int);
        let mut acc: i128 = 0;
        for i in 0..D
            invariant
                m.wf(),
                m.q < 0x1000_0000_0000_0000,
                self.wf(*m),
                cs == centered_coeffs(*self, m.q as int),
                acc == sum_sq(cs, i as nat),
                0 <= acc <= i * 0x0100_0000_0000_0000_0000_0000_0000_0000,
        {
            let v = m.centered(self.c[i]) as i128;
            proof {
                assert(-0x0800_0000_0000_0000 <= v <= 0x0800_0000_0000_0000);
                assert(0 <= v * v <= 0x0100_0000_0000_0000_0000_0000_0000_0000) by (nonlinear_arith)
                    requires
                        -0x0800_0000_0000_0000 <= v <= 0x0800_0000_0000_0000,
                ;
            }
            acc = acc + v * v;
        }
        acc
    }
}

/// Multiplication in `R_q` is commutative: `a · b = b · a`.
pub proof fn law_mul_commutative(a: RingElem, b: RingElem, q: int)
    ensures
        ring_mul_spec(a, b, q) == ring_mul_spec(b, a, q),
{
    assert forall|k: int| 0 <= k < D implies #[trigger] ring_mul_spec(a, b, q)[k] == ring_mul_spec(
        b,
        a,
        q,
    )[k] by {
        lemma_wrap_coeff_commutes(ints(a.c), ints(b.c), k, -1);
    }
    assert(ring_mul_spec(a, b, q) =~= ring_mul_spec(b, a, q));
}

/// Multiplication in `R_q` distributes over addition: when `bc = b + c`,
/// every coefficient of `a · bc` is the sum mod `q` of those of `a · b` and
/// `a · c`.
pub proof fn law_mul_distributive(a: RingElem, b: RingElem, c: RingElem, bc: RingElem, q: int)
    requires
        q > 0,
        forall|i: int| 0 <= i < D ==> #[trigger] bc.c[i] == (b.c[i] + c.c[i]) % q,
    ensures
        forall|k: int|
            0 <= k < D ==> #[trigger] ring_mul_coeff(a, bc, k, q) == (ring_mul_coeff(a, b, k, q)
                + ring_mul_coeff(a, c, k, q)) % q,
{
    let (sa, sb, sc, sbc) = (ints(a.c), ints(b.c), ints(c.c), ints(bc.c));
    assert forall|j: int| 0 <= j < sa.len() implies #[trigger] sbc[j] == (sb[j] + sc[j]) % q by {
        assert(bc.c[j] == (b.c[j] + c.c[j]) % q);
    }
    assert forall|k: int| 0 <= k < D implies #[trigger] ring_mul_coeff(a, bc, k, q) == (
    ring_mul_coeff(a, b, k, q) + ring_mul_coeff(a, c, k, q)) % q by {
        lemma_wrap_coeff_distributes(sa, sb, sc, sbc, k, -1, q);
    }
}

/// The constant `1` is the multiplicative identity of `R_q`: `1 · a = a · 1 = a`
/// for every canonical `a`.
pub proof fn law_one_is_identity(one: RingElem, a: RingElem, q: int)
    requires
        q > 0,
        one.c[0] == 1,
        forall|i: int| 1 <= i < D ==> #[trigger] one.c[i] == 0,
        forall|i: int| 0 <= i < D ==> #[trigger] a.c[i] < q,
    ensures
        ring_mul_spec(one, a, q) == ints(a.c),
        ring_mul_spec(a, one, q) == ints(a.c),
{
    assert(ints(one.c) =~= unit_seq(D as nat));
    assert forall|k: int| 0 <= k < D implies #[trigger] ring_mul_spec(one, a, q)[k] == ints(a.c)[k] by {
        lemma_wrap_coeff_unit(ints(a.c), k, -1);
        vstd::arithmetic::div_mod::lemma_small_mod(a.c[k] as nat, q as nat);
    }
    assert(ring_mul_spec(one, a, q) =~= ints(a.c));
    law_mul_commutative(a, one, q);
}

} // verus!
