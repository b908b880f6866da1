//! Two-splitting CRT decomposition of the LaBRADOR ring.
//!
//! With `Q ≡ 5 (mod 8)`, `X^64 + 1 = (X^32 - r)(X^32 + r)` mod `Q` where
//! `r^2 = -1`. The CRT map sends `R_Q` to the pair of degree-32 rings
//! `Z_Q[X]/(X^32 - r)` and `Z_Q[X]/(X^32 + r)`; a product becomes two
//! independent half-degree products.
use crate::modring::modulus::{passes_primality_test, small_primes, Modulus};
use crate::modring::poly::{ring_mul_spec, RingElem, D};
use crate::modring::polyspec::{
    ints, lemma_sum_congruent, lemma_sum_split, lemma_wrap_partial_sum, negacyclic_coeff, row_reached,
    sum_range, wrap_coeff, wrap_partial, wrap_term, wrap_terms,
};
use vstd::arithmetic::div_mod::*;
use vstd::arithmetic::mul::*;
use vstd::prelude::*;
use vstd::std_specs::cmp::PartialEqSpecImpl;

verus! {

/// Half-degree of each CRT factor.
pub const H: usize = 32;

/// Residue of `a` modulo `X^32 - s`: `a_lo + s · a_hi`, reduced mod `q`.
pub open spec fn fold_half(a: Seq<int>, s: int, q: int) -> Seq<int> {
    Seq::new(H as nat, |i: int| (a[i] + s * a[i + H]) % q)
}

/// Product in `Z_q[X]/(X^32 - s)`.
pub open spec fn half_mul(x: Seq<int>, y: Seq<int>, s: int, q: int) -> Seq<int> {
    Seq::new(H as nat, |k: int| wrap_coeff(x, y, k, s) % q)
}

/// `2^{-1}` mod an odd `q`: `(q + 1) / 2`.
pub open spec fn inv2_of(q: int) -> int {
    (q + 1) / 2
}

/// `(2r)^{-1}` mod `q` when `r^2 ≡ -1`: `2^{-1} · (q - r)`, since
/// `r · (q - r) ≡ -r^2 ≡ 1`.
pub open spec fn inv2r_of(r: int, q: int) -> int {
    (inv2_of(q) * (q - r)) % q
}

/// Inverse CRT map: from `h0 = a_lo + r a_hi` and `h1 = a_lo - r a_hi`,
/// `a_lo = (h0 + h1)/2` and `a_hi = (h0 - h1)/(2r)`.
pub open spec fn unsplit(h0: Seq<int>, h1: Seq<int>, r: int, q: int) -> Seq<int> {
    Seq::new(
        D as nat,
        |i: int|
            if i < H {
                (((h0[i] + h1[i]) % q) * inv2_of(q)) % q
            } else {
                (((h0[i - H] - h1[i - H]) % q) * inv2r_of(r, q)) % q
            },
    )
}

/// The product of coefficient vectors `a` and `b` computed along the CRT path.
pub open spec fn crt_mul_seq(a: Seq<int>, b: Seq<int>, r: int, q: int) -> Seq<int> {
    unsplit(
        half_mul(fold_half(a, r, q), fold_half(b, r, q), r, q),
        half_mul(fold_half(a, -r, q), fold_half(b, -r, q), (-r) % q, q),
        r,
        q,
    )
}

/// The product of `a` and `b` computed along the CRT path.
pub open spec fn crt_mul_spec(a: RingElem, b: RingElem, r: int, q: int) -> Seq<int> {
    crt_mul_seq(ints(a.c), ints(b.c), r, q)
}

/// The LaBRADOR ring together with the constant `r = sqrt(-1)` that drives
/// the two-splitting CRT.
#[derive(Clone, Copy, Debug)]
pub struct Ring {
    /// Coefficient field.
    pub m: Modulus,
    /// A fixed square root of `-1` mod `q`.
    pub r: u64,
}

/// CRT representation of a ring element: residues modulo each factor.
#[derive(Clone, Copy, Eq, Debug)]
pub struct CrtRepr {
    /// Residue modulo `X^32 - r`.
    pub h0: [u64; H],
    /// Residue modulo `X^32 + r`.
    pub h1: [u64; H],
}

impl PartialEq for CrtRepr {
    fn eq(&self, other: &Self) -> (res: bool) {
        for i in 0..H
            invariant
                forall|j: int| 0 <= j < i ==> #[trigger] self.h0[j] == other.h0[j],
                forall|j: int| 0 <= j < i ==> #[trigger] self.h1[j] == other.h1[j],
        {
            if self.h0[i] != other.h0[i] || self.h1[i] != other.h1[i] {
                return false;
            }
        }
        assert(self.h0@ =~= other.h0@);
        assert(self.h1@ =~= other.h1@);
        true
    }
}

impl PartialEqSpecImpl for CrtRepr {
    open spec fn obeys_eq_spec() -> bool {
        true
    }

    open spec fn eq_spec(&self, other: &Self) -> bool {
        self.h0@ == other.h0@ && self.h1@ == other.h1@
    }
}

/// An accepted modulus `q >= 3` is odd.
proof fn lemma_accepted_modulus_is_odd(q: int)
    requires
        q >= 3,
        passes_primality_test(q),
    ensures
        q % 2 == 1,
{
    if small_primes().contains(q) {
        let k = choose|k: int| 0 <= k < small_primes().len() && small_primes()[k] == q;
        assert(k != 0);
    } else {
        assert(q % small_primes()[0] != 0);
    }
}

/// For odd `q` and `r^2 ≡ -1`, `inv2_of(q)` inverts `2` and `inv2r_of(r, q)`
/// inverts `2r`.
proof fn lemma_crt_inverses(r: int, q: int)
    requires
        q >= 3,
        q % 2 == 1,
        0 <= r < q,
        (r * r) % q == q - 1,
    ensures
        crt_inverses_hold(r, q),
{
    let h = (q + 1) / 2;
    lemma_fundamental_div_mod(q + 1, 2);
    assert(2 * h == q + 1);
    lemma_fundamental_div_mod_converse(q + 1, q, 1, 1);
    // (2r mod q) · (h (q - r) mod q) ≡ 2r · h · (q - r) = r (q + 1)(q - r)
    let k = (r * r) / q;
    lemma_fundamental_div_mod(r * r, q);
    let big = (2 * r) * (h * (q - r));
    let rr = r * r;
    assert(big == r * q * q + r * q - q * rr - rr) by (nonlinear_arith)
        requires
            2 * h == q + 1,
            rr == r * r,
            big == (2 * r) * (h * (q - r)),
    ;
    let c = r * q - q * k - q + r - k;
    assert(q * rr == q * (q * k) + q * q - q) by (nonlinear_arith)
        requires
            rr == q * k + (q - 1),
    ;
    assert(q * c == r * q * q - q * (q * k) - q * q + r * q - q * k) by (nonlinear_arith)
        requires
            c == r * q - q * k - q + r - k,
    ;
    assert(big == q * c + 1);
    lemma_fundamental_div_mod_converse(big, q, c, 1);
    lemma_mul_mod_noop_left(2 * r, h * (q - r), q);
    lemma_mul_mod_noop_right((2 * r) % q, h * (q - r), q);
}

impl Ring {
    /// `m` is a usable modulus and `r` is a square root of `-1` mod `q`.
    pub open spec fn wf(&self) -> bool {
        &&& self.m.wf()
        &&& self.m.q % 2 == 1
        &&& self.r < self.m.q
        &&& (self.r * self.r) % (self.m.q as int) == self.m.q - 1
        &&& crt_inverses_hold(self.r as int, self.m.q as int)
    }

    /// Build the ring context for modulus `m`, computing `r = sqrt(-1)`.
    /// `None` exactly when `-1` has no square root mod `q`, which is always the
    /// case for `q ≡ 3 (mod 4)`.
    pub fn new(m: Modulus) -> (res: Option<Self>)
        requires
            m.wf(),
            passes_primality_test(m.q as int),
        ensures
            res matches Some(ring) ==> ring.m == m && ring.wf(),
            res is None ==> m.q % 4 == 3 || forall|x: int|
                0 <= x < m.q ==> #[trigger] ((x * x) % (m.q as int)) != m.q - 1,
    {
        proof {
            lemma_accepted_modulus_is_odd(m.q as int);
        }
        if m.q % 4 == 3 {
            return None;
        }
        match m.sqrt_minus_one() {
            Some(r) => {
                proof {
                    lemma_crt_inverses(r as int, m.q as int);
                }
                Some(Ring { m, r })
            },
            None => {
                let mut x: u64 = 0;
                while x < m.q
                    invariant
                        m.wf(),
                        m.q % 2 == 1,
                        x <= m.q,
                        forall|y: int| 0 <= y < x ==> #[trigger] ((y * y) % (m.q as int)) != m.q - 1,
                    decreases m.q - x,
                {
                    if m.mul(x, x) == m.q - 1 {
                        proof {
                            lemma_crt_inverses(x as int, m.q as int);
                        }
                        return Some(Ring { m, r: x });
                    }
                    x += 1;
                }
                None
            },
        }
    }

    /// Map a ring element to its CRT residues.
    ///
    /// Writing `a = a_lo + X^32 * a_hi`, reduction by `X^32 = ±r` gives
    /// `h0 = a_lo + r*a_hi` and `h1 = a_lo - r*a_hi`.
    pub fn split(&self, a: &RingElem) -> (c: CrtRepr)
        requires
            self.wf(),
            a.wf(self.m),
        ensures
            ints(c.h0) == fold_half(ints(a.c), self.r as int, self.m.q as int),
            ints(c.h1) == fold_half(ints(a.c), -(self.r as int), self.m.q as int),
            forall|i: int| 0 <= i < H ==> #[trigger] c.h0[i] < self.m.q,
            forall|i: int| 0 <= i < H ==> #[trigger] c.h1[i] < self.m.q,
    {
        let m = &self.m;
        let ghost q = m.q as int;
        let ghost rr = self.r as int;
        let mut h0 = [0u64; H];
        let mut h1 = [0u64; H];
        for i in 0..H
            invariant
                self.wf(),
                a.wf(self.m),
                m == &self.m,
                q == m.q,
                rr == self.r,
                forall|j: int| 0 <= j < H ==> #[trigger] h0[j] < q,
                forall|j: int| 0 <= j < H ==> #[trigger] h1[j] < q,
                forall|j: int| 0 <= j < i ==> #[trigger] h0[j] == (a.c[j] + rr * a.c[j + H]) % q,
                forall|j: int| 0 <= j < i ==> #[trigger] h1[j] == (a.c[j] + (-rr) * a.c[j + H]) % q,
        {
            let lo = a.c[i];
            let hi = a.c[i + H];
            let rhi = m.mul(self.r, hi);
            h0[i] = m.add(lo, rhi);
            h1[i] = m.sub(lo, rhi);
            proof {
                lemma_add_mod_noop(lo as int, rr * hi, q);
                lemma_mod_twice(lo as int, q);
                lemma_small_mod(lo as nat, q as nat);
                lemma_sub_mod_noop(lo as int, rr * hi, q);
                assert(lo as int - rr * hi == lo + (-rr) * hi) by (nonlinear_arith);
            }
        }
        let c = CrtRepr { h0, h1 };
        assert(ints(c.h0) =~= fold_half(ints(a.c), self.r as int, self.m.q as int));
        assert(ints(c.h1) =~= fold_half(ints(a.c), -(self.r as int), self.m.q as int));
        c
    }

    /// Inverse of [`Ring::split`]: `a_lo = (h0 + h1) / 2`, `a_hi = (h0 - h1) / (2r)`.
    pub fn combine(&self, c: &CrtRepr) -> (a: RingElem)
        requires
            self.wf(),
            forall|i: int| 0 <= i < H ==> #[trigger] c.h0[i] < self.m.q,
            forall|i: int| 0 <= i < H ==> #[trigger] c.h1[i] < self.m.q,
        ensures
            ints(a.c) == unsplit(ints(c.h0), ints(c.h1), self.r as int, self.m.q as int),
            a.wf(self.m),
    {
        let m = &self.m;
        let ghost q = m.q as int;
        let inv2 = m.q / 2 + 1;
        proof {
            lemma_fundamental_div_mod(q, 2);
            lemma_fundamental_div_mod(q + 1, 2);
        }
        let inv2r = m.mul(inv2, m.q - self.r);
        let mut a = RingElem::zero();
        for i in 0..H
            invariant
                self.wf(),
                m == &self.m,
                q == m.q,
                inv2 == inv2_of(q),
                inv2r == inv2r_of(self.r as int, q),
                forall|j: int| 0 <= j < H ==> #[trigger] c.h0[j] < q,
                forall|j: int| 0 <= j < H ==> #[trigger] c.h1[j] < q,
                forall|j: int| 0 <= j < D ==> #[trigger] a.c[j] < q,
                forall|j: int|
                    0 <= j < i ==> #[trigger] a.c[j] == (((c.h0[j] + c.h1[j]) % q) * inv2_of(q))
                        % q,
                forall|j: int|
                    H <= j < H + i ==> #[trigger] a.c[j] == (((c.h0[j - H] - c.h1[j - H]) % q)
                        * inv2r_of(self.r as int, q)) % q,
        {
            a.c[i] = m.mul(m.add(c.h0[i], c.h1[i]), inv2);
            a.c[i + H] = m.mul(m.sub(c.h0[i], c.h1[i]), inv2r);
        }
        let ghost target = unsplit(ints(c.h0), ints(c.h1), self.r as int, self.m.q as int);
        assert forall|i: int| 0 <= i < D implies ints(a.c)[i] == target[i] by {

        }
        assert(ints(a.c) =~= target);
        a
    }

    /// Product in `Z_Q[X]/(X^32 - s)` (the wrap-around picks up `s`).
    fn mul_half(&self, a: &[u64; H], b: &[u64; H], s: u64) -> (out: [u64; H])
        requires
            self.wf(),
            s < self.m.q,
            forall|i: int| 0 <= i < H ==> #[trigger] a[i] < self.m.q,
            forall|i: int| 0 <= i < H ==> #[trigger] b[i] < self.m.q,
        ensures
            ints(out) == half_mul(ints(*a), ints(*b), s as int, self.m.q as int),
            forall|i: int| 0 <= i < H ==> #[trigger] out[i] < self.m.q,
    {
        let m = &self.m;
        let ghost x = ints(*a);
        let ghost y = ints(*b);
        let ghost q = m.q as int;
        let mut out = [0u64; H];
        proof {
            lemma_small_mod(0, m.q as nat);
        }
        for i in 0..H
            invariant
                self.wf(),
                m == &self.m,
                q == m.q,
                s < q,
                x == ints(*a),
                y == ints(*b),
                forall|k: int| 0 <= k < H ==> #[trigger] a[k] < q,
                forall|k: int| 0 <= k < H ==> #[trigger] b[k] < q,
                forall|k: int| 0 <= k < H ==> #[trigger] out[k] < q,
                forall|k: int|
                    0 <= k < H ==> #[trigger] out[k] == wrap_partial(x, y, k, i as nat, s as int)
                        % q,
        {
            if a[i] == 0 {
                proof {
                    assert forall|k: int| 0 <= k < H implies #[trigger] out[k] == wrap_partial(
                        x,
                        y,
                        k,
                        (i + 1) as nat,
                        s as int,
                    ) % q by {
                        assert(x[i as int] == 0);
                        if k >= i {
                            lemma_mul_basics(y[k - i]);
                        } else {
                            lemma_mul_basics(y[k - i + 32]);
                            lemma_mul_basics(s as int);
                        }
                    }
                }
            } else {
                for j in 0..H
                    invariant
                        self.wf(),
                        m == &self.m,
                        q == m.q,
                        s < q,
                        i < H,
                        x == ints(*a),
                        y == ints(*b),
                        forall|k: int| 0 <= k < H ==> #[trigger] a[k] < q,
                forall|k: int| 0 <= k < H ==> #[trigger] b[k] < q,
                        forall|k: int| 0 <= k < H ==> #[trigger] out[k] < q,
                        forall|k: int|
                            0 <= k < H ==> #[trigger] out[k] == (wrap_partial(
                                x,
                                y,
                                k,
                                i as nat,
                                s as int,
                            ) + (if row_reached(H as int, i as int, j as int, k) {
                                wrap_term(x, y, i as int, k, s as int)
                            } else {
                                0
                            })) % q,
                {
                    let p = m.mul(a[i], b[j]);
                    let k = i + j;
                    if k < H {
                        let ghost old_out = out;
                        out[k] = m.add(out[k], p);
                        proof {
                            let xx = wrap_partial(x, y, k as int, i as nat, s as int);
                            lemma_add_mod_noop(xx, x[i as int] * y[j as int], q);
                            lemma_mod_twice(xx, q);
                            lemma_add_mod_noop(xx % q, x[i as int] * y[j as int], q);
                            assert forall|kk: int| 0 <= kk < H && kk != k implies #[trigger] out[kk]
                                == old_out[kk] by {}
                        }
                    } else {
                        let ghost old_out = out;
                        let sp = m.mul(s, p);
                        out[k - H] = m.add(out[k - H], sp);
                        proof {
                            let kk0 = (k - H) as int;
                            let t = x[i as int] * y[j as int];
                            let xx = wrap_partial(x, y, kk0, i as nat, s as int);
                            assert(wrap_term(x, y, i as int, kk0, s as int) == s * t);
                            lemma_mul_mod_noop_right(s as int, t, q);
                            lemma_add_mod_noop(xx, s * t, q);
                            lemma_mod_twice(xx, q);
                            lemma_add_mod_noop(xx % q, s * t, q);
                            assert forall|kk: int| 0 <= kk < H && kk != kk0 implies #[trigger] out[kk]
                                == old_out[kk] by {}
                        }
                    }
                }
            }
        }
        assert(ints(out) =~= half_mul(ints(*a), ints(*b), s as int, self.m.q as int));
        out
    }

    /// Multiply two ring elements via the CRT path.
    pub fn mul(&self, a: &RingElem, b: &RingElem) -> (c: RingElem)
        requires
            self.wf(),
            a.wf(self.m),
            b.wf(self.m),
        ensures
            ints(c.c) == crt_mul_spec(*a, *b, self.r as int, self.m.q as int),
            c.wf(self.m),
    {
        let ca = self.split(a);
        let cb = self.split(b);
        let neg_r = self.m.neg(self.r);
        let h0 = self.mul_half(&ca.h0, &cb.h0, self.r);
        let h1 = self.mul_half(&ca.h1, &cb.h1, neg_r);
        self.combine(&CrtRepr { h0, h1 })
    }
}

/// `inv2_of(q)` inverts `2` and `inv2r_of(r, q)` inverts `2r` modulo `q`
/// (which holds whenever `q` is odd and `r^2 ≡ -1`).
pub open spec fn crt_inverses_hold(r: int, q: int) -> bool {
    &&& (2 * inv2_of(q)) % q == 1
    &&& (((2 * r) % q) * inv2r_of(r, q)) % q == 1
}

/// The negacyclic product of `a` and `b` over the integers, unreduced.
pub open spec fn negacyclic_seq(a: Seq<int>, b: Seq<int>) -> Seq<int> {
    Seq::new(a.len(), |k: int| negacyclic_coeff(a, b, k))
}

/// `c` reduced coefficient-wise mod `q`.
pub open spec fn reduce_seq(c: Seq<int>, q: int) -> Seq<int> {
    Seq::new(c.len(), |i: int| c[i] % q)
}

/// `(u + d·x) mod q == u mod q` when `q` divides `d`.
proof fn lemma_mod_absorb(u: int, d: int, x: int, q: int)
    requires
        q > 0,
        d % q == 0,
    ensures
        (u + d * x) % q == u % q,
{
    lemma_mul_mod_noop_left(d, x, q);
    assert(0 * x == 0);
    lemma_small_mod(0, q as nat);
    lemma_add_mod_noop(u, d * x, q);
    lemma_mod_twice(u, q);
}

/// Recombining the two CRT residues of any coefficient vector gives it back
/// reduced mod `q`.
proof fn lemma_unsplit_fold(c: Seq<int>, r: int, q: int)
    requires
        c.len() == D,
        q > 1,
        crt_inverses_hold(r, q),
    ensures
        unsplit(fold_half(c, r, q), fold_half(c, -r, q), r, q) == reduce_seq(c, q),
{
    let h0 = fold_half(c, r, q);
    let h1 = fold_half(c, -r, q);
    let inv2 = inv2_of(q);
    let inv2r = inv2r_of(r, q);
    assert forall|i: int| 0 <= i < D implies #[trigger] unsplit(h0, h1, r, q)[i] == reduce_seq(c, q)[i] by {
        if i < H {
            let x = c[i];
            let y = c[i + H];
            assert(h0[i] == (x + r * y) % q);
            assert(h1[i] == (x + (-r) * y) % q);
            lemma_add_mod_noop(x + r * y, x + (-r) * y, q);
            assert((x + r * y) + (x + (-r) * y) == 2 * x) by (nonlinear_arith);
            lemma_mul_mod_noop_left(2 * x, inv2, q);
            assert((2 * x) * inv2 == x * (2 * inv2)) by (nonlinear_arith);
            lemma_mul_mod_noop_right(x, 2 * inv2, q);
            assert(x * 1 == x);
        } else {
            let j = i - H;
            let x = c[j];
            let y = c[i];
            assert(h0[j] == (x + r * y) % q);
            assert(h1[j] == (x + (-r) * y) % q);
            lemma_sub_mod_noop(x + r * y, x + (-r) * y, q);
            assert((x + r * y) - (x + (-r) * y) == (2 * r) * y) by (nonlinear_arith);
            lemma_mul_mod_noop_left((2 * r) * y, inv2r, q);
            assert(((2 * r) * y) * inv2r == y * ((2 * r) * inv2r)) by (nonlinear_arith);
            lemma_mul_mod_noop_right(y, (2 * r) * inv2r, q);
            lemma_mul_mod_noop_left(2 * r, inv2r, q);
            assert(y * 1 == y);
        }
    }
    assert(unsplit(h0, h1, r, q) =~= reduce_seq(c, q));
}

/// Splitting a canonical ring element and combining its residues gives it
/// back: `combine(split(a)) = a`.
pub proof fn law_split_combine_roundtrip(ring: Ring, a: RingElem)
    requires
        ring.wf(),
        a.wf(ring.m),
    ensures
        unsplit(
            fold_half(ints(a.c), ring.r as int, ring.m.q as int),
            fold_half(ints(a.c), -(ring.r as int), ring.m.q as int),
            ring.r as int,
            ring.m.q as int,
        ) == ints(a.c),
{
    let q = ring.m.q as int;
    lemma_unsplit_fold(ints(a.c), ring.r as int, q);
    assert forall|i: int| 0 <= i < D implies #[trigger] reduce_seq(ints(a.c), q)[i] == ints(a.c)[i] by {
        lemma_small_mod(a.c[i] as nat, q as nat);
    }
    assert(reduce_seq(ints(a.c), q) =~= ints(a.c));
}

/// The terms of `a · b` that land on position `k` of its residue modulo
/// `X^32 - s`, grouped by `i < 32`: those of coefficient `k` (from `i` and
/// `i + 32`) plus `s` times those of coefficient `k + 32`.
pub open spec fn fold_terms(a: Seq<int>, b: Seq<int>, k: int, s: int) -> spec_fn(int) -> int {
    |i: int|
        wrap_term(a, b, i, k, -1) + wrap_term(a, b, i + H, k, -1) + s * (wrap_term(a, b, i, k + H, -1)
            + wrap_term(a, b, i + H, k + H, -1))
}

/// Partial sums of the grouped terms.
proof fn lemma_fold_terms_sum(a: Seq<int>, b: Seq<int>, k: int, s: int, upto: int)
    requires
        0 <= upto <= H,
    ensures
        sum_range(fold_terms(a, b, k, s), 0, upto) == sum_range(wrap_terms(a, b, k, -1), 0, upto)
            + sum_range(wrap_terms(a, b, k, -1), H as int, H + upto) + s * (sum_range(
            wrap_terms(a, b, k + H, -1),
            0,
            upto,
        ) + sum_range(wrap_terms(a, b, k + H, -1), H as int, H + upto)),
    decreases upto,
{
    if upto > 0 {
        lemma_fold_terms_sum(a, b, k, s, upto - 1);
        let f = wrap_terms(a, b, k, -1);
        let g = wrap_terms(a, b, k + H, -1);
        let u = fold_terms(a, b, k, s);
        let i = upto - 1;
        assert(u(i) == f(i) + f(i + H) + s * (g(i) + g(i + H)));
        assert(sum_range(u, 0, upto) == sum_range(u, 0, i) + u(i));
        assert(sum_range(f, 0, upto) == sum_range(f, 0, i) + f(i));
        assert(sum_range(g, 0, upto) == sum_range(g, 0, i) + g(i));
        assert(sum_range(f, H as int, H + upto) == sum_range(f, H as int, H + i) + f(i + H));
        assert(sum_range(g, H as int, H + upto) == sum_range(g, H as int, H + i) + g(i + H));
        let p0 = sum_range(g, 0, i);
        let p1 = sum_range(g, H as int, H + i);
        let y0 = g(i);
        let y1 = g(i + H);
        assert(s * ((p0 + y0) + (p1 + y1)) == s * (p0 + p1) + s * (y0 + y1)) by (nonlinear_arith);
    } else {
        let f = wrap_terms(a, b, k, -1);
        let g = wrap_terms(a, b, k + H, -1);
        assert(sum_range(f, H as int, H + upto) == 0);
        assert(sum_range(g, H as int, H + upto) == 0);
        assert(s * (0int + 0int) == 0);
    }
}

/// `(x0 + s·x1)(y0 + s·y1) = x0·y0 + s·(x0·y1 + x1·y0) + s²·x1·y1`.
proof fn lemma_expand_pair(x0: int, x1: int, y0: int, y1: int, s: int)
    ensures
        (x0 + s * x1) * (y0 + s * y1) == x0 * y0 + s * (x0 * y1 + x1 * y0) + (s * s) * (x1 * y1),
{
    let yy = y0 + s * y1;
    lemma_mul_is_distributive_add_other_way(yy, x0, s * x1);
    lemma_mul_is_distributive_add(x0, y0, s * y1);
    lemma_mul_is_distributive_add(s * x1, y0, s * y1);
    assert(x0 * (s * y1) == s * (x0 * y1)) by (nonlinear_arith);
    assert((s * x1) * y0 == s * (x1 * y0)) by (nonlinear_arith);
    assert((s * x1) * (s * y1) == (s * s) * (x1 * y1)) by (nonlinear_arith);
    lemma_mul_is_distributive_add(s, x0 * y1, x1 * y0);
}

/// Position `k` of the residue of `a · b` modulo `X^32 - s`, before
/// reduction mod `q`, is the sum of the 32 grouped terms.
proof fn lemma_fold_coeff_sum(a: Seq<int>, b: Seq<int>, k: int, s: int)
    requires
        a.len() == D,
        b.len() == D,
        0 <= k < H,
    ensures
        sum_range(fold_terms(a, b, k, s), 0, H as int) == negacyclic_coeff(a, b, k) + s
            * negacyclic_coeff(a, b, k + H),
{
    lemma_fold_terms_sum(a, b, k, s, H as int);
    lemma_wrap_partial_sum(a, b, k, D as nat, -1);
    lemma_wrap_partial_sum(a, b, k + H, D as nat, -1);
    lemma_sum_split(wrap_terms(a, b, k, -1), 0, H as int, D as int);
    lemma_sum_split(wrap_terms(a, b, k + H, -1), 0, H as int, D as int);
}

/// Term `i` of the half-degree product of the residues is congruent to the
/// grouped term `i` of the full product, because `s^2 ≡ -1`.
proof fn lemma_fold_term_congruent(a: Seq<int>, b: Seq<int>, k: int, i: int, s: int, sm: int, q: int)
    requires
        a.len() == D,
        b.len() == D,
        0 <= k < H,
        0 <= i < H,
        q > 1,
        (s * s + 1) % q == 0,
        sm % q == s % q,
    ensures
        wrap_term(fold_half(a, s, q), fold_half(b, s, q), i, k, sm) % q == fold_terms(a, b, k, s)(i)
            % q,
{
    let af = fold_half(a, s, q);
    let bf = fold_half(b, s, q);
    let u = fold_terms(a, b, k, s)(i);
    let a0 = a[i];
    let a1 = a[i + H];
    let ap = a0 + s * a1;
    assert(af[i] == ap % q);
    if i <= k {
        let b0 = b[k - i];
        let b1 = b[k - i + H];
        let bp = b0 + s * b1;
        assert(bf[k - i] == bp % q);
        assert(u == a0 * b0 + -1 * (a1 * b1) + s * (a0 * b1 + a1 * b0));
        lemma_mul_mod_noop(ap, bp, q);
        lemma_expand_pair(a0, a1, b0, b1, s);
        lemma_mul_is_distributive_add_other_way(a1 * b1, s * s, 1);
        assert(ap * bp == u + (s * s + 1) * (a1 * b1));
        lemma_mod_absorb(u, s * s + 1, a1 * b1, q);
    } else {
        let j = k - i + H;
        let b1 = b[j];
        let b2 = b[j + H];
        let bp = b1 + s * b2;
        assert(bf[j] == bp % q);
        assert(u == -1 * (a0 * b2) + -1 * (a1 * b1) + s * (a0 * b1 + -1 * (a1 * b2)));
        let x = af[i] * bf[j];
        assert(wrap_term(af, bf, i, k, sm) == sm * x);
        lemma_mul_mod_noop(ap, bp, q);
        lemma_mul_mod_noop(sm, x, q);
        lemma_mul_mod_noop(s, ap * bp, q);
        lemma_expand_pair(a0, a1, b1, b2, s);
        let w = a0 * b2 + a1 * b1;
        let z = a1 * b2;
        assert(ap * bp == a0 * b1 + s * w + (s * s) * z);
        lemma_mul_is_distributive_add(s, a0 * b1 + s * w, (s * s) * z);
        lemma_mul_is_distributive_add(s, a0 * b1, s * w);
        assert(s * (s * w) == (s * s) * w) by (nonlinear_arith);
        assert(s * ((s * s) * z) == (s * s) * (s * z)) by (nonlinear_arith);
        lemma_mul_is_distributive_add(s, a0 * b1, -1 * z);
        assert(s * (-1 * z) == -1 * (s * z)) by (nonlinear_arith);
        let ww = w + s * z;
        lemma_mul_is_distributive_add_other_way(ww, s * s, 1);
        lemma_mul_is_distributive_add(s * s, w, s * z);
        assert(s * (ap * bp) == u + (s * s + 1) * ww);
        lemma_mod_absorb(u, s * s + 1, a0 * b2 + a1 * b1 + s * (a1 * b2), q);
    }
}

/// Reduction modulo `X^32 - s` (with `s^2 ≡ -1`) turns the negacyclic
/// product into the product of the residues.
proof fn lemma_fold_hom(a: Seq<int>, b: Seq<int>, s: int, sm: int, q: int)
    requires
        a.len() == D,
        b.len() == D,
        q > 1,
        (s * s + 1) % q == 0,
        sm % q == s % q,
    ensures
        half_mul(fold_half(a, s, q), fold_half(b, s, q), sm, q) == fold_half(negacyclic_seq(a, b), s, q),
{
    let af = fold_half(a, s, q);
    let bf = fold_half(b, s, q);
    let n = negacyclic_seq(a, b);
    assert forall|k: int| 0 <= k < H implies #[trigger] half_mul(af, bf, sm, q)[k] == fold_half(n, s, q)[k] by {
        let f = wrap_terms(af, bf, k, sm);
        let u = fold_terms(a, b, k, s);
        assert forall|i: int| 0 <= i < H implies #[trigger] f(i) % q == u(i) % q by {
            lemma_fold_term_congruent(a, b, k, i, s, sm, q);
        }
        lemma_sum_congruent(f, u, 0, H as int, q);
        lemma_wrap_partial_sum(af, bf, k, H as nat, sm);
        lemma_fold_coeff_sum(a, b, k, s);
    }
    assert(half_mul(af, bf, sm, q) =~= fold_half(n, s, q));
}

/// Multiplying along the CRT path agrees with the schoolbook product:
/// `crt_mul(a, b) = a · b` in `R_q` for canonical `a`, `b`.
pub proof fn law_crt_mul_matches_schoolbook(ring: Ring, a: RingElem, b: RingElem)
    requires
        ring.wf(),
        a.wf(ring.m),
        b.wf(ring.m),
    ensures
        crt_mul_spec(a, b, ring.r as int, ring.m.q as int) == ring_mul_spec(a, b, ring.m.q as int),
{
    let r = ring.r as int;
    let q = ring.m.q as int;
    let sa = ints(a.c);
    let sb = ints(b.c);
    lemma_add_mod_noop(r * r, 1, q);
    lemma_small_mod(1, q as nat);
    lemma_mod_self_0(q);
    assert((r * r + 1) % q == 0);
    lemma_fold_hom(sa, sb, r, r, q);
    assert((-r) * (-r) == r * r) by (nonlinear_arith);
    lemma_mod_twice(-r, q);
    lemma_fold_hom(sa, sb, -r, (-r) % q, q);
    let n = negacyclic_seq(sa, sb);
    lemma_unsplit_fold(n, r, q);
    assert(reduce_seq(n, q) =~= ring_mul_spec(a, b, q));
}

} // verus!
