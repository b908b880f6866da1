//! Subring embedding of the Falcon ring into the LaBRADOR ring.
//!
//! `R = Z[X]/(X^512+1)` is a free module of rank `c = 8` over
//! `S = Z[Y]/(Y^64+1)` via `Y = X^8`: every `a(X) ∈ R` decomposes uniquely
//! as `a(X) = Σ_{k<8} X^k · a_k(X^8)`, i.e. `a_k.coeffs[j] = a.coeffs[k + 8j]`.
//! Centered Falcon coefficients are reduced mod the LaBRADOR modulus `q'`
//! before they are placed into the slots.
use crate::falcon::falcon_ring::{fpoly_centered, FPoly, FALCON_N, FALCON_Q};
use crate::modring::crt::{crt_mul_seq, Ring};
use crate::modring::modulus::{centered_of, Modulus};
use crate::modring::poly::{centered_coeffs, elem_norm_sq, RingElem, D};
use crate::modring::polyspec::{ints, row_reached, sum_sq};
use vstd::prelude::*;

verus! {

/// The number of LaBRADOR-ring slots of a Falcon-ring element: `512 / 64 = 8`.
pub const C: usize = 8;

/// Coefficient-wise sum of two coefficient vectors of `S_q`.
pub open spec fn vec_add(x: Seq<int>, y: Seq<int>, q: int) -> Seq<int> {
    Seq::new(D as nat, |i: int| (x[i] + y[i]) % q)
}

/// The zero coefficient vector of `S`.
pub open spec fn zero_vec() -> Seq<int> {
    Seq::new(D as nat, |i: int| 0)
}

/// The coefficient vector of `Y` in `S`.
pub open spec fn y_vec() -> Seq<int> {
    Seq::new(D as nat, |i: int| if i == 1 { 1 } else { 0 })
}

/// The coefficient vectors of the eight slots.
pub open spec fn slots_seq(x: [RingElem; C]) -> Seq<Seq<int>> {
    Seq::new(C as nat, |k: int| ints(x[k].c))
}

/// The contribution of `a_i` to slot `k` of the product in `S^8`: the term
/// `a_i · b_j` with `i + j ≡ k (mod 8)`, multiplied by `Y` when it wraps.
pub open spec fn subring_contrib(a: Seq<Seq<int>>, b: Seq<Seq<int>>, i: int, k: int, r: int, q: int) -> Seq<int> {
    if i <= k {
        crt_mul_seq(a[i], b[k - i], r, q)
    } else {
        crt_mul_seq(y_vec(), crt_mul_seq(a[i], b[k - i + C], r, q), r, q)
    }
}

/// Slot `k` of the product, summed over the first `upto` slots of `a`.
pub open spec fn subring_partial(a: Seq<Seq<int>>, b: Seq<Seq<int>>, k: int, upto: nat, r: int, q: int) -> Seq<int>
    decreases upto,
{
    if upto == 0 {
        zero_vec()
    } else {
        vec_add(
            subring_partial(a, b, k, (upto - 1) as nat, r, q),
            subring_contrib(a, b, (upto - 1) as int, k, r, q),
            q,
        )
    }
}

/// Every slot is a canonical element of `S_q`.
pub open spec fn slots_wf(x: [RingElem; C], m: Modulus) -> bool {
    forall|k: int| 0 <= k < C ==> #[trigger] x[k].wf(m)
}

/// Embed centered Falcon coefficients into the LaBRADOR ring as an `S^8`
/// tuple: coefficient `i` goes to slot `i mod 8`, position `i div 8`,
/// reduced mod `q'`.
pub fn embed_signed(coeffs: &[i64; FALCON_N], m: &Modulus) -> (out: [RingElem; C])
    requires
        m.wf(),
    ensures
        forall|i: int| 0 <= i < FALCON_N ==> (#[trigger] out[i % 8]).c[i / 8] == (coeffs[i] as int) % (m.q as int),
        slots_wf(out, *m),
{
    let z = RingElem::zero();
    let mut out = [z, z, z, z, z, z, z, z];
    proof {
        assert forall|k: int| 0 <= k < C implies #[trigger] out[k].wf(*m) by {
            assert(out[k] == z);
        }
    }
    for i in 0..FALCON_N
        invariant
            m.wf(),
            slots_wf(out, *m),
            forall|ii: int| 0 <= ii < i ==> (#[trigger] out[ii % 8]).c[ii / 8] == (coeffs[ii] as int) % (m.q as int),
    {
        let k = i % C;
        let j = i / C;
        let ghost old_out = out;
        let v = m.from_i64(coeffs[i]);
        out[k].c[j] = v;
        proof {
            assert forall|ii: int| 0 <= ii < i + 1 implies (#[trigger] out[ii % 8]).c[ii / 8] == (coeffs[ii] as int) % (m.q as int) by {
                if ii < i {
                    assert(ii % 8 != k || ii / 8 != j);
                    assert(out[ii % 8].c[ii / 8] == old_out[ii % 8].c[ii / 8]);
                }
            }
            assert forall|kk: int| 0 <= kk < C implies #[trigger] out[kk].wf(*m) by {
                if kk != k {
                    assert(out[kk] == old_out[kk]);
                } else {
                    assert forall|jj: int| 0 <= jj < D implies #[trigger] out[kk].c[jj] < m.q by {
                        assert(old_out[kk].wf(*m));
                        if jj != j {
                            assert(out[kk].c[jj] == old_out[kk].c[jj]);
                        } else {
                            assert(out[kk].c[jj] == v);
                        }
                    }
                }
            }
        }
    }
    out
}

/// Embed an `FPoly` (Falcon residue representation) using its centered
/// coefficients.
pub fn embed_fpoly_centered(f: &FPoly, m: &Modulus) -> (out: [RingElem; C])
    requires
        m.wf(),
        f.wf(),
    ensures
        forall|i: int| 0 <= i < FALCON_N ==> (#[trigger] out[i % 8]).c[i / 8] == centered_of(f.c[i] as int, FALCON_Q as int) % (m.q as int),
        slots_wf(out, *m),
{
    let mut coeffs = [0i64; FALCON_N];
    for i in 0..FALCON_N
        invariant
            f.wf(),
            forall|ii: int| 0 <= ii < i ==> #[trigger] coeffs[ii] == centered_of(f.c[ii] as int, FALCON_Q as int),
    {
        coeffs[i] = f.centered(i) as i64;
    }
    embed_signed(&coeffs, m)
}

/// Inverse of [`embed_signed`]: the centered coefficients, slot `i mod 8`
/// position `i div 8` going back to coefficient `i`.
pub fn extract_centered(slots: &[RingElem; C], m: &Modulus) -> (out: [i64; FALCON_N])
    requires
        m.wf(),
        slots_wf(*slots, *m),
    ensures
        forall|i: int| 0 <= i < FALCON_N ==> #[trigger] out[i] == centered_of(slots[i % 8].c[i / 8] as int, m.q as int),
{
    let mut out = [0i64; FALCON_N];
    for k in 0..C
        invariant
            m.wf(),
            slots_wf(*slots, *m),
            forall|i: int| 0 <= i < FALCON_N && i % 8 < k ==> #[trigger] out[i] == centered_of(slots[i % 8].c[i / 8] as int, m.q as int),
    {
        for j in 0..D
            invariant
                m.wf(),
                k < C,
                slots_wf(*slots, *m),
                forall|i: int| 0 <= i < FALCON_N && (i % 8 < k || (i % 8 == k && i / 8 < j)) ==> #[trigger] out[i] == centered_of(slots[i % 8].c[i / 8] as int, m.q as int),
        {
            assert(slots[k as int].wf(*m));
            let v = m.centered(slots[k].c[j]);
            out[k + C * j] = v;
            proof {
                let t = k + C * j;
                assert(t % 8 == k && t / 8 == j);
            }
        }
    }
    out
}

/// Squared centered norm of an `S^8` tuple: the sum over its first `kk`
/// slots.
pub open spec fn slots_norm_sq(x: [RingElem; C], q: int, kk: nat) -> int
    decreases kk,
{
    if kk == 0 {
        0
    } else {
        slots_norm_sq(x, q, (kk - 1) as nat) + elem_norm_sq(x[kk - 1], q)
    }
}

/// Column `k` of a length-512 sequence read 8 at a time: entries `8j + k`.
spec fn column(fc: Seq<int>, k: int) -> Seq<int> {
    Seq::new(D as nat, |j: int| fc[8 * j + k])
}

/// Sum of squares of the first `n` entries of the first `kk` columns.
spec fn columns_sum(fc: Seq<int>, kk: nat, n: nat) -> int
    decreases kk,
{
    if kk == 0 {
        0
    } else {
        columns_sum(fc, (kk - 1) as nat, n) + sum_sq(column(fc, kk - 1), n)
    }
}

/// Sum of squares of entries `8n .. 8n + kk`.
spec fn row_sum(fc: Seq<int>, kk: nat, n: int) -> int
    decreases kk,
{
    if kk == 0 {
        0
    } else {
        row_sum(fc, (kk - 1) as nat, n) + fc[8 * n + kk - 1] * fc[8 * n + kk - 1]
    }
}

proof fn lemma_columns_step(fc: Seq<int>, kk: nat, n: nat)
    requires
        kk <= C,
        n < D,
    ensures
        columns_sum(fc, kk, n + 1) == columns_sum(fc, kk, n) + row_sum(fc, kk, n as int),
    decreases kk,
{
    if kk > 0 {
        lemma_columns_step(fc, (kk - 1) as nat, n);
        let col = column(fc, kk - 1);
        assert(sum_sq(col, n + 1) == sum_sq(col, n) + col[n as int] * col[n as int]);
    }
}

proof fn lemma_prefix_row(fc: Seq<int>, kk: nat, n: nat)
    ensures
        sum_sq(fc, 8 * n + kk) == sum_sq(fc, 8 * n) + row_sum(fc, kk, n as int),
    decreases kk,
{
    if kk > 0 {
        lemma_prefix_row(fc, (kk - 1) as nat, n);
        assert(sum_sq(fc, 8 * n + kk) == sum_sq(fc, (8 * n + kk - 1) as nat) + fc[8 * n + kk - 1] * fc[8 * n + kk - 1]);
    }
}

proof fn lemma_prefix_columns(fc: Seq<int>, n: nat)
    requires
        n <= D,
    ensures
        sum_sq(fc, 8 * n) == columns_sum(fc, C as nat, n),
    decreases n,
{
    if n == 0 {
        lemma_columns_zero(fc, C as nat);
    } else {
        let m = (n - 1) as nat;
        lemma_prefix_columns(fc, m);
        lemma_prefix_row(fc, C as nat, m);
        lemma_columns_step(fc, C as nat, m);
        assert(8 * m + 8 == 8 * n);
    }
}

proof fn lemma_columns_zero(fc: Seq<int>, kk: nat)
    ensures
        columns_sum(fc, kk, 0) == 0,
    decreases kk,
{
    if kk > 0 {
        lemma_columns_zero(fc, (kk - 1) as nat);
    }
}

/// A centered Falcon coefficient survives reduction mod a larger modulus.
proof fn lemma_centered_small(x: int, q: int)
    requires
        q > 2 * FALCON_Q,
        -(FALCON_Q as int) / 2 <= x <= (FALCON_Q as int) / 2,
    ensures
        centered_of(x % q, q) == x,
{
    vstd::arithmetic::div_mod::lemma_fundamental_div_mod(q, 2);
    if x >= 0 {
        vstd::arithmetic::div_mod::lemma_small_mod(x as nat, q as nat);
    } else {
        vstd::arithmetic::div_mod::lemma_fundamental_div_mod_converse(x, q, -1, q + x);
    }
}

proof fn lemma_slots_columns(out: [RingElem; C], q: int, fc: Seq<int>, kk: nat)
    requires
        kk <= C,
        forall|k: int| 0 <= k < C ==> #[trigger] centered_coeffs(out[k], q) == column(fc, k),
    ensures
        slots_norm_sq(out, q, kk) == columns_sum(fc, kk, D as nat),
    decreases kk,
{
    if kk > 0 {
        lemma_slots_columns(out, q, fc, (kk - 1) as nat);
        assert(centered_coeffs(out[kk - 1], q) == column(fc, kk - 1));
    }
}

/// Embedding keeps the norm: the slots of the centered embedding of `f`
/// have, together, the squared centered norm of `f` (for `q' > 2q`).
pub proof fn law_embed_keeps_norm(f: FPoly, m: Modulus, out: [RingElem; C])
    requires
        f.wf(),
        m.q > 2 * FALCON_Q,
        forall|i: int| 0 <= i < FALCON_N ==> (#[trigger] out[i % 8]).c[i / 8] == centered_of(f.c[i] as int, FALCON_Q as int) % (m.q as int),
    ensures
        slots_norm_sq(out, m.q as int, C as nat) == sum_sq(fpoly_centered(f), FALCON_N as nat),
{
    let q = m.q as int;
    let fc = fpoly_centered(f);
    assert forall|k: int| 0 <= k < C implies #[trigger] centered_coeffs(out[k], q) == column(fc, k) by {
        assert forall|j: int| 0 <= j < D implies #[trigger] centered_coeffs(out[k], q)[j] == column(fc, k)[j] by {
            let i = 8 * j + k;
            vstd::arithmetic::div_mod::lemma_fundamental_div_mod_converse(i, 8, j, k);
            assert(out[i % 8].c[i / 8] == centered_of(f.c[i] as int, FALCON_Q as int) % q);
            lemma_centered_small(fc[i], q);
        }
        assert(centered_coeffs(out[k], q) =~= column(fc, k));
    }
    lemma_slots_columns(out, q, fc, C as nat);
    lemma_prefix_columns(fc, D as nat);
}

/// Multiply two elements of `R` given in `S^8` form: the image of the
/// Falcon-ring product. With `Y = X^8`, `a · b = Σ_{i,j} X^{i+j} a_i b_j`;
/// for `i + j >= 8` the factor `X^{i+j} = X^{i+j-8} · Y` adds a `Y`.
pub fn mul_subring(a: &[RingElem; C], b: &[RingElem; C], ring: &Ring) -> (out: [RingElem; C])
    requires
        ring.wf(),
        slots_wf(*a, ring.m),
        slots_wf(*b, ring.m),
    ensures
        forall|k: int| 0 <= k < C ==> #[trigger] ints(out[k].c) == subring_partial(slots_seq(*a), slots_seq(*b), k, C as nat, ring.r as int, ring.m.q as int),
        slots_wf(out, ring.m),
{
    let m = &ring.m;
    let y = RingElem::monomial(m, 1);
    let ghost sa = slots_seq(*a);
    let ghost sb = slots_seq(*b);
    let ghost rr = ring.r as int;
    let ghost q = ring.m.q as int;
    assert(ints(y.c) =~= y_vec());
    let z = RingElem::zero();
    let mut out = [z, z, z, z, z, z, z, z];
    proof {
        assert(ints(z.c) =~= zero_vec());
        assert forall|k: int| 0 <= k < C implies #[trigger] out[k].wf(ring.m) by {
            assert(out[k] == z);
        }
    }
    for i in 0..C
        invariant
            ring.wf(),
            m == &ring.m,
            slots_wf(*a, ring.m),
            slots_wf(*b, ring.m),
            y.wf(ring.m),
            ints(y.c) == y_vec(),
            sa == slots_seq(*a),
            sb == slots_seq(*b),
            rr == ring.r,
            q == ring.m.q,
            slots_wf(out, ring.m),
            forall|k: int| 0 <= k < C ==> #[trigger] ints(out[k].c) == subring_partial(sa, sb, k, i as nat, rr, q),
    {
        for j in 0..C
            invariant
                ring.wf(),
                m == &ring.m,
                i < C,
                slots_wf(*a, ring.m),
                slots_wf(*b, ring.m),
                y.wf(ring.m),
                ints(y.c) == y_vec(),
                sa == slots_seq(*a),
                sb == slots_seq(*b),
                rr == ring.r,
                q == ring.m.q,
                slots_wf(out, ring.m),
                forall|k: int| 0 <= k < C ==> #[trigger] ints(out[k].c) == (
                    if row_reached(C as int, i as int, j as int, k) {
                        subring_partial(sa, sb, k, (i + 1) as nat, rr, q)
                    } else {
                        subring_partial(sa, sb, k, i as nat, rr, q)
                    }),
        {
            assert(a[i as int].wf(ring.m) && b[j as int].wf(ring.m));
            let p = ring.mul(&a[i], &b[j]);
            let s = i + j;
            let ghost old_out = out;
            if s < C {
                assert(out[s as int].wf(ring.m));
                out[s] = out[s].add(m, &p);
                proof {
                    assert(ints(out[s as int].c) =~= vec_add(ints(old_out[s as int].c), ints(p.c), q));
                    assert(subring_contrib(sa, sb, i as int, s as int, rr, q) == crt_mul_seq(sa[i as int], sb[j as int], rr, q));
                }
            } else {
                let py = ring.mul(&y, &p);
                assert(out[(s - C) as int].wf(ring.m));
                out[s - C] = out[s - C].add(m, &py);
                proof {
                    assert(ints(out[(s - C) as int].c) =~= vec_add(ints(old_out[(s - C) as int].c), ints(py.c), q));
                    assert(subring_contrib(sa, sb, i as int, (s - C) as int, rr, q) == crt_mul_seq(y_vec(), crt_mul_seq(sa[i as int], sb[j as int], rr, q), rr, q));
                }
            }
            proof {
                assert forall|kk: int| 0 <= kk < C implies #[trigger] out[kk].wf(ring.m) by {
                    if kk != (if s < C { s as int } else { s - C }) {
                        assert(out[kk] == old_out[kk]);
                    }
                }
            }
        }
    }
    out
}

} // verus!
