//! Garbage terms of a LaBRADOR iteration — the Gram matrix `g_{ij} = ⟨w_i, w_j⟩`
//! and the linear cross terms `h_{ij} = (⟨φ_i, w_j⟩ + ⟨φ_j, w_i⟩)/2` — and
//! the balanced base-`b` decomposition used to shrink them.
use crate::labrador::statement::{
    elem, elems_wf, inner_spec, lemma_add_elem, lemma_zero_is_zero, poly_add, qof,
    ring_inner_product, sparse_phi_inner_product, sparse_sum, zero_poly,
};
use crate::modring::crt::Ring;
use crate::modring::modulus::{centered_of, Modulus};
use crate::modring::poly::{RingElem, D};
use vstd::prelude::*;

verus! {

/// A `r × r` matrix of zero elements.
fn zero_matrix(r: usize) -> (g: Vec<Vec<RingElem>>)
    ensures
        g@.len() == r,
        forall|i: int| 0 <= i < r ==> (#[trigger] g@[i])@.len() == r,
        forall|i: int, j: int, k: int|
            0 <= i < r && 0 <= j < r && 0 <= k < D ==> (#[trigger] g@[i]@[j].c[k]) == 0,
{
    let mut g: Vec<Vec<RingElem>> = Vec::new();
    for i in 0..r
        invariant
            g@.len() == i,
            forall|ii: int| 0 <= ii < i ==> (#[trigger] g@[ii])@.len() == r,
            forall|ii: int, j: int, k: int|
                0 <= ii < i && 0 <= j < r && 0 <= k < D ==> (#[trigger] g@[ii]@[j].c[k]) == 0,
    {
        let mut row: Vec<RingElem> = Vec::new();
        for j in 0..r
            invariant
                row@.len() == j,
                forall|jj: int, k: int| 0 <= jj < j && 0 <= k < D ==> (#[trigger] row@[jj].c[k]) == 0,
        {
            row.push(RingElem::zero());
        }
        g.push(row);
    }
    g
}

/// All vectors have length `n` and reduced entries.
pub open spec fn vectors_fit(ws: Seq<Vec<RingElem>>, n: nat, ring: Ring) -> bool {
    forall|i: int| 0 <= i < ws.len() ==> (#[trigger] ws[i])@.len() == n && elems_wf(ws[i]@, ring.m)
}

/// The Gram matrix of the witness, upper triangle: `g_{ij} = ⟨w_i, w_j⟩`
/// for `i ≤ j`, zero below the diagonal.
pub fn compute_g(ring: &Ring, ws: &[Vec<RingElem>]) -> (g: Vec<Vec<RingElem>>)
    requires
        ring.wf(),
        exists|n: nat| vectors_fit(ws@, n, *ring),
    ensures
        g@.len() == ws@.len(),
        forall|i: int| 0 <= i < ws@.len() ==> (#[trigger] g@[i])@.len() == ws@.len() && elems_wf(g@[i]@, ring.m),
        forall|i: int, j: int|
            0 <= i <= j < ws@.len() ==> elem(#[trigger] g@[i]@[j]) == inner_spec(
                *ring,
                ws@[i]@,
                ws@[j]@,
                ws@[i]@.len(),
            ),
        forall|i: int, j: int| 0 <= j < i < ws@.len() ==> elem(#[trigger] g@[i]@[j]) == zero_poly(),
{
    let ghost n = choose|n: nat| vectors_fit(ws@, n, *ring);
    let r = ws.len();
    let mut g: Vec<Vec<RingElem>> = Vec::new();
    for i in 0..r
        invariant
            ring.wf(),
            r == ws@.len(),
            vectors_fit(ws@, n, *ring),
            g@.len() == i,
            forall|ii: int| 0 <= ii < i ==> (#[trigger] g@[ii])@.len() == r && elems_wf(g@[ii]@, ring.m),
            forall|ii: int, j: int|
                0 <= ii < i && ii <= j < r ==> elem(#[trigger] g@[ii]@[j]) == inner_spec(
                    *ring,
                    ws@[ii]@,
                    ws@[j]@,
                    ws@[ii]@.len(),
                ),
            forall|ii: int, j: int| 0 <= ii < i && 0 <= j < ii ==> elem(#[trigger] g@[ii]@[j]) == zero_poly(),
    {
        let mut row: Vec<RingElem> = Vec::new();
        for j in 0..r
            invariant
                ring.wf(),
                r == ws@.len(),
                i < r,
                vectors_fit(ws@, n, *ring),
                row@.len() == j,
                elems_wf(row@, ring.m),
                forall|jj: int|
                    i <= jj < j ==> elem(#[trigger] row@[jj]) == inner_spec(
                        *ring,
                        ws@[i as int]@,
                        ws@[jj]@,
                        ws@[i as int]@.len(),
                    ),
                forall|jj: int| 0 <= jj < j && jj < i ==> elem(#[trigger] row@[jj]) == zero_poly(),
        {
            if j < i {
                let z = RingElem::zero();
                proof {
                    lemma_zero_is_zero(z);
                }
                row.push(z);
            } else {
                assert(ws@[i as int]@.len() == n && ws@[j as int]@.len() == n);
                let ip = ring_inner_product(ring, &ws[i], &ws[j]);
                row.push(ip);
            }
        }
        g.push(row);
    }
    g
}

/// `2^{-1} mod q`, computed by Fermat inversion.
pub open spec fn half_of(q: int) -> int {
    vstd::arithmetic::power::pow(2, (q - 2) as nat) % q
}

/// The cross term `h_{ij} = (⟨φ_i, w_j⟩ + ⟨φ_j, w_i⟩) · 2^{-1}`.
pub open spec fn h_entry(
    ring: Ring,
    phis: Seq<Vec<(usize, RingElem)>>,
    ws: Seq<Vec<RingElem>>,
    i: int,
    j: int,
) -> Seq<int> {
    let a = sparse_sum(ring, ws[j]@, phis[i]@, phis[i]@.len());
    let b = sparse_sum(ring, ws[i]@, phis[j]@, phis[j]@.len());
    let s = poly_add(a, b, qof(ring));
    Seq::new(D as nat, |k: int| (s[k] * half_of(qof(ring))) % qof(ring))
}

/// Each sparse `φ_i` indexes positions below `n` with reduced entries.
pub open spec fn phis_fit(phis: Seq<Vec<(usize, RingElem)>>, n: nat, ring: Ring) -> bool {
    forall|i: int, s: int|
        0 <= i < phis.len() && 0 <= s < phis[i]@.len() ==> (#[trigger] phis[i]@[s]).0 < n
            && phis[i]@[s].1.wf(ring.m)
}

/// The linear garbage terms, upper triangle: `h_{ij} = (⟨φ_i, w_j⟩ + ⟨φ_j, w_i⟩)/2`
/// for `i ≤ j`, zero below the diagonal.
pub fn compute_h(ring: &Ring, phis: &[Vec<(usize, RingElem)>], ws: &[Vec<RingElem>]) -> (h: Vec<Vec<RingElem>>)
    requires
        ring.wf(),
        phis@.len() >= ws@.len(),
        exists|n: nat| vectors_fit(ws@, n, *ring) && phis_fit(phis@, n, *ring),
    ensures
        h@.len() == ws@.len(),
        forall|i: int| 0 <= i < ws@.len() ==> (#[trigger] h@[i])@.len() == ws@.len() && elems_wf(h@[i]@, ring.m),
        forall|i: int, j: int|
            0 <= i <= j < ws@.len() ==> elem(#[trigger] h@[i]@[j]) == h_entry(*ring, phis@, ws@, i, j),
        forall|i: int, j: int| 0 <= j < i < ws@.len() ==> elem(#[trigger] h@[i]@[j]) == zero_poly(),
{
    let ghost n = choose|n: nat| vectors_fit(ws@, n, *ring) && phis_fit(phis@, n, *ring);
    let m = &ring.m;
    let r = ws.len();
    proof {
        vstd::arithmetic::div_mod::lemma_small_mod(2, ring.m.q as nat);
    }
    let inv2 = m.inv(2);
    let mut h: Vec<Vec<RingElem>> = Vec::new();
    for i in 0..r
        invariant
            ring.wf(),
            m == &ring.m,
            r == ws@.len(),
            phis@.len() >= ws@.len(),
            vectors_fit(ws@, n, *ring),
            phis_fit(phis@, n, *ring),
            inv2 == half_of(qof(*ring)),
            h@.len() == i,
            forall|ii: int| 0 <= ii < i ==> (#[trigger] h@[ii])@.len() == r && elems_wf(h@[ii]@, ring.m),
            forall|ii: int, j: int|
                0 <= ii < i && ii <= j < r ==> elem(#[trigger] h@[ii]@[j]) == h_entry(*ring, phis@, ws@, ii, j),
            forall|ii: int, j: int| 0 <= ii < i && 0 <= j < ii ==> elem(#[trigger] h@[ii]@[j]) == zero_poly(),
    {
        let mut row: Vec<RingElem> = Vec::new();
        for j in 0..r
            invariant
                ring.wf(),
                m == &ring.m,
                r == ws@.len(),
                i < r,
                phis@.len() >= ws@.len(),
                vectors_fit(ws@, n, *ring),
                phis_fit(phis@, n, *ring),
                inv2 == half_of(qof(*ring)),
                row@.len() == j,
                elems_wf(row@, ring.m),
                forall|jj: int| i <= jj < j ==> elem(#[trigger] row@[jj]) == h_entry(*ring, phis@, ws@, i as int, jj),
                forall|jj: int| 0 <= jj < j && jj < i ==> elem(#[trigger] row@[jj]) == zero_poly(),
        {
            if j < i {
                let z = RingElem::zero();
                proof {
                    lemma_zero_is_zero(z);
                }
                row.push(z);
            } else {
                assert(ws@[i as int]@.len() == n && ws@[j as int]@.len() == n);
                assert forall|s: int| 0 <= s < phis@[i as int]@.len() implies {
                    &&& (#[trigger] phis@[i as int]@[s]).0 < ws@[j as int]@.len()
                    &&& phis@[i as int]@[s].1.wf(ring.m)
                } by {}
                assert forall|s: int| 0 <= s < phis@[j as int]@.len() implies {
                    &&& (#[trigger] phis@[j as int]@[s]).0 < ws@[i as int]@.len()
                    &&& phis@[j as int]@[s].1.wf(ring.m)
                } by {}
                let a = sparse_phi_inner_product(ring, &phis[i], &ws[j]);
                let b = sparse_phi_inner_product(ring, &phis[j], &ws[i]);
                let sum = a.add(m, &b);
                let e = sum.scale(m, inv2);
                proof {
                    lemma_add_elem(a, b, sum, qof(*ring));
                    assert(elem(e) =~= h_entry(*ring, phis@, ws@, i as int, j as int));
                }
                row.push(e);
            }
        }
        h.push(row);
    }
    h
}

// ---------------------------------------------------------------------------
// Balanced base-b decomposition
// ---------------------------------------------------------------------------

/// Rust's truncating remainder `v % b` for `b > 0`.
pub open spec fn trem(v: int, b: int) -> int {
    if v >= 0 {
        v % b
    } else {
        -((-v) % b)
    }
}

/// The balanced digit of `v` in base `b`: the truncating remainder moved into
/// `[-⌊b/2⌋, ⌊b/2⌋]`.
pub open spec fn bal_digit(v: int, b: int) -> int {
    let d0 = trem(v, b);
    if d0 > b / 2 {
        d0 - b
    } else if d0 < -(b / 2) {
        d0 + b
    } else {
        d0
    }
}

/// What remains of `v` after taking `c` balanced digits.
pub open spec fn digit_rest(v: int, b: int, c: nat) -> int
    decreases c,
{
    if c == 0 {
        v
    } else {
        let p = digit_rest(v, b, (c - 1) as nat);
        (p - bal_digit(p, b)) / b
    }
}

/// Digit `c` of `v` (the last part carries the remainder).
pub open spec fn digit_of(v: int, b: int, c: nat, parts: nat) -> int {
    if c + 1 < parts {
        bal_digit(digit_rest(v, b, c), b)
    } else {
        digit_rest(v, b, c)
    }
}

/// A balanced digit differs from `v` by a multiple of `b`, and is small.
proof fn lemma_bal_digit(v: int, b: int)
    requires
        b >= 2,
    ensures
        (v - bal_digit(v, b)) % b == 0,
        -(b / 2) <= bal_digit(v, b) <= b / 2,
{
    let d0 = trem(v, b);
    let d = bal_digit(v, b);
    if v >= 0 {
        vstd::arithmetic::div_mod::lemma_fundamental_div_mod(v, b);
        let z = v / b;
        assert(v - d0 == z * b) by (nonlinear_arith)
            requires
                v == b * z + v % b,
                d0 == v % b,
        ;
        if d0 > b / 2 {
            assert(v - d == (z + 1) * b) by (nonlinear_arith)
                requires
                    v - d0 == z * b,
                    d == d0 - b,
            ;
            vstd::arithmetic::div_mod::lemma_mod_multiples_basic(z + 1, b);
        } else {
            vstd::arithmetic::div_mod::lemma_mod_multiples_basic(z, b);
        }
    } else {
        vstd::arithmetic::div_mod::lemma_fundamental_div_mod(-v, b);
        let z = (-v) / b;
        assert(v - d0 == (-z) * b) by (nonlinear_arith)
            requires
                -v == b * z + (-v) % b,
                d0 == -((-v) % b),
        ;
        if d0 < -(b / 2) {
            assert(v - d == (-z - 1) * b) by (nonlinear_arith)
                requires
                    v - d0 == (-z) * b,
                    d == d0 + b,
            ;
            vstd::arithmetic::div_mod::lemma_mod_multiples_basic(-z - 1, b);
        } else {
            vstd::arithmetic::div_mod::lemma_mod_multiples_basic(-z, b);
        }
    }
}

/// Exact division of a multiple of `b`.
fn exact_div(x: i128, b: i128) -> (y: i128)
    requires
        b >= 2,
        (x as int) % (b as int) == 0,
        -0x1_0000_0000_0000_0000_0000_0000 <= x <= 0x1_0000_0000_0000_0000_0000_0000,
    ensures
        y == (x as int) / (b as int),
        y * b == x,
        x >= 0 ==> 0 <= y <= x,
        x < 0 ==> x <= y <= 0,
{
    let ghost xi = x as int;
    let ghost bi = b as int;
    proof {
        vstd::arithmetic::div_mod::lemma_fundamental_div_mod(xi, bi);
    }
    if x >= 0 {
        proof {
            vstd::arithmetic::div_mod::lemma_div_is_ordered_by_denominator(xi, 1, bi);
            vstd::arithmetic::div_mod::lemma_div_basics(xi);
            vstd::arithmetic::div_mod::lemma_div_pos_is_pos(xi, bi);
            assert(xi == bi * (xi / bi));
            assert((xi / bi) * bi == xi) by (nonlinear_arith)
                requires
                    xi == bi * (xi / bi),
            ;
        }
        x / b
    } else {
        let y = (-x) / b;
        proof {
            let z = xi / bi;
            assert(xi == bi * z);
            assert(-xi == bi * (-z)) by (nonlinear_arith)
                requires
                    xi == bi * z,
            ;
            vstd::arithmetic::div_mod::lemma_div_multiples_vanish(-z, bi);
            assert(y == -z);
            assert((-y) * b == x) by (nonlinear_arith)
                requires
                    xi == bi * z,
                    y == -z,
                    xi == x,
                    bi == b,
            ;
            vstd::arithmetic::div_mod::lemma_div_is_ordered_by_denominator(-xi, 1, bi);
            vstd::arithmetic::div_mod::lemma_div_basics(-xi);
            vstd::arithmetic::div_mod::lemma_div_pos_is_pos(-xi, bi);
        }
        -y
    }
}

/// Split `x` coefficient-wise into `parts` balanced base-`base` digits of its
/// centered value: `chunk_c = digit_c` for `c < parts − 1`, and the last
/// chunk carries what remains. For `base = 1` the first chunk is `x` and the
/// others are zero.
pub fn decompose(x: &RingElem, m: &Modulus, base: u64, parts: usize) -> (chunks: Vec<RingElem>)
    requires
        m.wf(),
        x.wf(*m),
        base >= 1,
        parts >= 1,
    ensures
        chunks@.len() == parts,
        elems_wf(chunks@, *m),
        base == 1 ==> chunks@[0] == *x && forall|c: int, k: int|
            1 <= c < parts && 0 <= k < D ==> (#[trigger] chunks@[c].c[k]) == 0,
        base >= 2 ==> forall|c: int, k: int|
            0 <= c < parts && 0 <= k < D ==> (#[trigger] chunks@[c].c[k]) == digit_of(
                centered_of(x.c[k] as int, m.q as int),
                base as int,
                c as nat,
                parts as nat,
            ) % (m.q as int),
{
    let mut chunks: Vec<RingElem> = Vec::new();
    for c in 0..parts
        invariant
            chunks@.len() == c,
            forall|cc: int, k: int| 0 <= cc < c && 0 <= k < D ==> (#[trigger] chunks@[cc].c[k]) == 0,
    {
        chunks.push(RingElem::zero());
    }
    if base == 1 {
        chunks.set(0, *x);
        return chunks;
    }
    let b = base as i128;
    let half: i128 = b / 2;
    for k in 0..D
        invariant
            m.wf(),
            x.wf(*m),
            base >= 2,
            b == base,
            half == b / 2,
            chunks@.len() == parts,
            parts >= 1,
            elems_wf(chunks@, *m),
            forall|c: int, kk: int|
                0 <= c < parts && 0 <= kk < k ==> (#[trigger] chunks@[c].c[kk]) == digit_of(
                    centered_of(x.c[kk] as int, m.q as int),
                    base as int,
                    c as nat,
                    parts as nat,
                ) % (m.q as int),
            forall|c: int, kk: int| 0 <= c < parts && k <= kk < D ==> (#[trigger] chunks@[c].c[kk]) == 0,
    {
        let ghost v0 = centered_of(x.c[k as int] as int, m.q as int);
        let mut v = m.centered(x.c[k]) as i128;
        for c in 0..(parts - 1)
            invariant
                m.wf(),
                x.wf(*m),
                base >= 2,
                b == base,
                half == b / 2,
                chunks@.len() == parts,
                parts >= 1,
                k < D,
                elems_wf(chunks@, *m),
                v == digit_rest(v0, b as int, c as nat),
                -0x4000_0000_0000_0000 <= v <= 0x4000_0000_0000_0000,
                forall|cc: int, kk: int|
                    0 <= cc < parts && 0 <= kk < k ==> (#[trigger] chunks@[cc].c[kk]) == digit_of(
                        centered_of(x.c[kk] as int, m.q as int),
                        base as int,
                        cc as nat,
                        parts as nat,
                    ) % (m.q as int),
                forall|cc: int|
                    0 <= cc < c ==> (#[trigger] chunks@[cc].c[k as int]) == digit_of(
                        v0,
                        base as int,
                        cc as nat,
                        parts as nat,
                    ) % (m.q as int),
                forall|cc: int, kk: int|
                    0 <= cc < parts && k <= kk < D && !(cc < c && kk == k) ==> (#[trigger] chunks@[cc].c[kk]) == 0,
        {
            proof {
                lemma_bal_digit(v as int, b as int);
            }
            let d0 = if v >= 0 {
                v % b
            } else {
                -((-v) % b)
            };
            let digit = if d0 > half {
                d0 - b
            } else if d0 < -half {
                d0 + b
            } else {
                d0
            };
            assert(digit == bal_digit(v as int, b as int));
            let nv = exact_div(v - digit, b);
            proof {
                let bb = b as int;
                let vv = v as int;
                let dd = digit as int;
                let yy = nv as int;
                assert(-0x4000_0000_0000_0000 <= yy <= 0x4000_0000_0000_0000) by (nonlinear_arith)
                    requires
                        yy * bb == vv - dd,
                        bb >= 2,
                        -(bb / 2) <= dd <= bb / 2,
                        -0x4000_0000_0000_0000 <= vv <= 0x4000_0000_0000_0000,
                ;
            }
            v = nv;
            let mut e = chunks[c];
            e.c[k] = m.from_i64(digit as i64);
            chunks.set(c, e);
        }
        let mut last = chunks[parts - 1];
        last.c[k] = m.from_i64(v as i64);
        chunks.set(parts - 1, last);
    }
    chunks
}


/// `Σ_{c < n} b^c · centered(chunk_c[k])` over the integers.
pub open spec fn recomp_value(chunks: Seq<RingElem>, q: int, b: int, k: int, n: nat) -> int
    decreases n,
{
    if n == 0 {
        0
    } else {
        recomp_value(chunks, q, b, k, (n - 1) as nat) + vstd::arithmetic::power::pow(b, (n - 1) as nat)
            * centered_of(chunks[n - 1].c[k] as int, q)
    }
}

/// Powers of a positive base up to `e2` lie in `[1, base^{e2}]`.
proof fn lemma_pow_small(base: int, e1: nat, e2: nat)
    requires
        base >= 1,
        e1 <= e2,
    ensures
        1 <= vstd::arithmetic::power::pow(base, e1) <= vstd::arithmetic::power::pow(base, e2),
{
    vstd::arithmetic::power::lemma_pow_positive(base, e1);
    vstd::arithmetic::power::lemma_pow_increases(base as nat, e1, e2);
}

/// Reassemble decomposed chunks: coefficient-wise
/// `Σ_c base^c · centered(chunk_c)`, truncated to 64 bits and reduced mod `q`.
pub fn recompose(chunks: &[RingElem], m: &Modulus, base: u64) -> (out: RingElem)
    requires
        m.wf(),
        elems_wf(chunks@, *m),
        base >= 1,
        chunks@.len() <= 64,
        vstd::arithmetic::power::pow(base as int, chunks@.len()) * m.q <= 0x0100_0000_0000_0000_0000_0000_0000_0000,
    ensures
        out.wf(*m),
        forall|k: int|
            0 <= k < D ==> (#[trigger] out.c[k]) == ((recomp_value(chunks@, m.q as int, base as int, k, chunks@.len()) as i64) as int)
                % (m.q as int),
{
    let mut out = RingElem::zero();
    let b = base as i128;
    let ghost n = chunks@.len();
    let ghost big: int = 0x0100_0000_0000_0000_0000_0000_0000_0000;
    for k in 0..D
        invariant
            m.wf(),
            elems_wf(chunks@, *m),
            n == chunks@.len(),
            n <= 64,
            b == base,
            base >= 1,
            vstd::arithmetic::power::pow(base as int, n) * m.q <= big,
            big == 0x0100_0000_0000_0000_0000_0000_0000_0000,
            out.wf(*m),
            forall|kk: int|
                0 <= kk < k ==> (#[trigger] out.c[kk]) == ((recomp_value(chunks@, m.q as int, base as int, kk, n) as i64) as int)
                    % (m.q as int),
    {
        let mut v: i128 = 0;
        let mut scale: i128 = 1;
        proof {
            vstd::arithmetic::power::lemma_pow0(base as int);
        }
        for c in 0..chunks.len()
            invariant
                m.wf(),
                elems_wf(chunks@, *m),
                n == chunks@.len(),
                n <= 64,
                b == base,
                base >= 1,
                k < D,
                vstd::arithmetic::power::pow(base as int, n) * m.q <= big,
                big == 0x0100_0000_0000_0000_0000_0000_0000_0000,
                scale == vstd::arithmetic::power::pow(base as int, c as nat),
                v == recomp_value(chunks@, m.q as int, base as int, k as int, c as nat),
                -(c as int) * big <= v <= (c as int) * big,
        {
            assert(chunks@[c as int].wf(*m));
            let cent = m.centered(chunks[c].c[k]) as i128;
            proof {
                lemma_pow_small(base as int, c as nat, n);
                assert(-(m.q as int) <= cent <= m.q);
                assert(-big <= scale * cent <= big) by (nonlinear_arith)
                    requires
                        0 <= scale,
                        scale <= vstd::arithmetic::power::pow(base as int, n),
                        vstd::arithmetic::power::pow(base as int, n) * m.q <= big,
                        -(m.q as int) <= cent <= m.q,
                ;
                assert((c + 1) as int * big == c as int * big + big) by (nonlinear_arith);
                assert(64 * big < 0x7fff_ffff_ffff_ffff_ffff_ffff_ffff_ffff);
                assert((c + 1) as int * big <= 64 * big) by (nonlinear_arith)
                    requires
                        c + 1 <= 64,
                        big > 0,
                ;
            }
            v = v + scale * cent;
            proof {
                lemma_pow_small(base as int, (c + 1) as nat, n);
                assert(vstd::arithmetic::power::pow(base as int, (c + 1) as nat) == base * scale) by {
                    vstd::arithmetic::power::lemma_pow_adds(base as int, c as nat, 1);
                    vstd::arithmetic::power::lemma_pow1(base as int);
                }
                assert(vstd::arithmetic::power::pow(base as int, (c + 1) as nat) <= big) by (nonlinear_arith)
                    requires
                        vstd::arithmetic::power::pow(base as int, (c + 1) as nat) <= vstd::arithmetic::power::pow(base as int, n),
                        vstd::arithmetic::power::pow(base as int, n) * m.q <= big,
                        m.q >= 3,
                        vstd::arithmetic::power::pow(base as int, (c + 1) as nat) >= 0,
                ;
            }
            scale = scale * b;
        }
        out.c[k] = m.from_i64(#[verifier::truncate] (v as i64));
    }
    out
}

/// `|x|`.
pub open spec fn abs_of(x: int) -> int {
    if x < 0 {
        -x
    } else {
        x
    }
}

/// `w` is `v` itself or strictly smaller in magnitude.
pub open spec fn same_or_smaller(w: int, v: int) -> bool {
    w == v || abs_of(w) < abs_of(v)
}

/// Taking a balanced digit either consumes `w` whole (digit `w`, nothing
/// left) or leaves a digit and a remainder both smaller than `w`.
proof fn lemma_bal_digit_shrinks(w: int, b: int)
    requires
        b >= 2,
    ensures
        ({
            let d = bal_digit(w, b);
            let z = (w - d) / b;
            (d == w && z == 0) || (abs_of(d) < abs_of(w) && abs_of(z) < abs_of(w))
        }),
{
    let d = bal_digit(w, b);
    let z = (w - d) / b;
    lemma_bal_digit(w, b);
    if abs_of(w) <= b / 2 {
        if w >= 0 {
            vstd::arithmetic::div_mod::lemma_small_mod(w as nat, b as nat);
        } else {
            vstd::arithmetic::div_mod::lemma_small_mod((-w) as nat, b as nat);
        }
        assert(d == w);
        assert(z == 0);
    } else {
        vstd::arithmetic::div_mod::lemma_fundamental_div_mod(w - d, b);
        assert(w - d == b * z);
        let aw = abs_of(w);
        let az = abs_of(z);
        assert(b * az <= aw + b / 2) by (nonlinear_arith)
            requires
                w - d == b * z,
                -(b / 2) <= d <= b / 2,
                aw == abs_of(w),
                az == abs_of(z),
                b >= 2,
        ;
        assert(az < aw) by (nonlinear_arith)
            requires
                b * az <= aw + b / 2,
                aw > b / 2,
                b >= 2,
                az >= 0,
        ;
    }
}

/// Every remainder and every balanced digit of `v` is `v` itself or smaller
/// in magnitude.
proof fn lemma_digits_small(v: int, b: int, c: nat)
    requires
        b >= 2,
    ensures
        same_or_smaller(digit_rest(v, b, c), v),
        same_or_smaller(bal_digit(digit_rest(v, b, c), b), v),
    decreases c,
{
    if c > 0 {
        let c1 = (c - 1) as nat;
        lemma_digits_small(v, b, c1);
        lemma_bal_digit_shrinks(digit_rest(v, b, c1), b);
        assert(digit_rest(v, b, c) == (digit_rest(v, b, c1) - bal_digit(digit_rest(v, b, c1), b)) / b);
    }
    lemma_bal_digit_shrinks(digit_rest(v, b, c), b);
}

/// A value no larger than a centered residue is its own centered residue.
proof fn lemma_centered_exact(w: int, x: int, q: int)
    requires
        q >= 3,
        0 <= x < q,
        same_or_smaller(w, centered_of(x, q)),
    ensures
        centered_of(w % q, q) == w,
{
    let v = centered_of(x, q);
    if w == v {
        if x > q / 2 {
            vstd::arithmetic::div_mod::lemma_fundamental_div_mod_converse(x - q, q, -1, x);
        } else {
            vstd::arithmetic::div_mod::lemma_small_mod(x as nat, q as nat);
        }
    } else if w >= 0 {
        vstd::arithmetic::div_mod::lemma_small_mod(w as nat, q as nat);
    } else {
        vstd::arithmetic::div_mod::lemma_fundamental_div_mod_converse(w, q, -1, w + q);
    }
}

/// Partial recompositions telescope: after `c` digits, the recomposed part
/// plus `b^c` times the remainder is `v`.
proof fn lemma_recomp_telescopes(chunks: Seq<RingElem>, q: int, b: int, k: int, v: int, c: nat)
    requires
        b >= 2,
        c < chunks.len(),
        forall|i: int|
            0 <= i < chunks.len() - 1 ==> centered_of(#[trigger] chunks[i].c[k] as int, q) == bal_digit(
                digit_rest(v, b, i as nat),
                b,
            ),
    ensures
        recomp_value(chunks, q, b, k, c) + vstd::arithmetic::power::pow(b, c) * digit_rest(v, b, c) == v,
    decreases c,
{
    reveal(vstd::arithmetic::power::pow);
    if c > 0 {
        let c1 = (c - 1) as nat;
        lemma_recomp_telescopes(chunks, q, b, k, v, c1);
        let r = digit_rest(v, b, c1);
        let d = bal_digit(r, b);
        let z = digit_rest(v, b, c);
        lemma_bal_digit(r, b);
        vstd::arithmetic::div_mod::lemma_fundamental_div_mod(r - d, b);
        assert(b * z == r - d);
        let p = vstd::arithmetic::power::pow(b, c1);
        assert(centered_of(chunks[c1 as int].c[k] as int, q) == d);
        assert(p * d + (b * p) * z == p * r) by (nonlinear_arith)
            requires
                b * z == r - d,
        ;
    }
}

/// Recomposing the digits of a decomposition gives the element back:
/// coefficient `k` of `recompose(decompose(x, b, t), b)` is `x.c[k]`, for
/// every base and number of parts.
pub proof fn law_decompose_recompose(x: RingElem, m: Modulus, base: u64, chunks: Seq<RingElem>)
    requires
        m.wf(),
        x.wf(m),
        base >= 1,
        chunks.len() >= 1,
        base == 1 ==> chunks[0] == x && forall|c: int, k: int|
            1 <= c < chunks.len() && 0 <= k < D ==> (#[trigger] chunks[c].c[k]) == 0,
        base >= 2 ==> forall|c: int, k: int|
            0 <= c < chunks.len() && 0 <= k < D ==> (#[trigger] chunks[c].c[k]) == digit_of(
                centered_of(x.c[k] as int, m.q as int),
                base as int,
                c as nat,
                chunks.len(),
            ) % (m.q as int),
    ensures
        forall|k: int|
            0 <= k < D ==> ((#[trigger] recomp_value(chunks, m.q as int, base as int, k, chunks.len())
                as i64) as int) % (m.q as int) == x.c[k],
{
    let q = m.q as int;
    let b = base as int;
    let n = chunks.len();
    assert forall|k: int| 0 <= k < D implies ((#[trigger] recomp_value(chunks, q, b, k, n) as i64) as int)
        % q == x.c[k] by {
        let v = centered_of(x.c[k] as int, q);
        if base >= 2 {
            assert forall|i: int| 0 <= i < n - 1 implies centered_of(#[trigger] chunks[i].c[k] as int, q)
                == bal_digit(digit_rest(v, b, i as nat), b) by {
                lemma_digits_small(v, b, i as nat);
                lemma_centered_exact(bal_digit(digit_rest(v, b, i as nat), b), x.c[k] as int, q);
            }
            let last = (n - 1) as nat;
            lemma_recomp_telescopes(chunks, q, b, k, v, last);
            lemma_digits_small(v, b, last);
            lemma_centered_exact(digit_rest(v, b, last), x.c[k] as int, q);
            assert(recomp_value(chunks, q, b, k, n) == recomp_value(chunks, q, b, k, last)
                + vstd::arithmetic::power::pow(b, last) * centered_of(chunks[last as int].c[k] as int, q));
            assert(recomp_value(chunks, q, b, k, n) == v);
        } else {
            assert(recomp_value(chunks, q, b, k, n) == v) by {
                lemma_recomp_ones(chunks, q, k, n);
                vstd::arithmetic::power::lemma_pow0(1);
            }
        }
        if x.c[k] as int > q / 2 {
            vstd::arithmetic::div_mod::lemma_fundamental_div_mod_converse(x.c[k] - q, q, -1, x.c[k] as int);
        } else {
            vstd::arithmetic::div_mod::lemma_small_mod(x.c[k] as nat, q as nat);
        }
    }
}

/// With base `1`, only the first chunk counts when the others are zero.
proof fn lemma_recomp_ones(chunks: Seq<RingElem>, q: int, k: int, n: nat)
    requires
        1 <= n <= chunks.len(),
        q >= 3,
        0 <= k < D,
        forall|c: int| 1 <= c < chunks.len() ==> (#[trigger] chunks[c].c[k]) == 0,
    ensures
        recomp_value(chunks, q, 1, k, n) == vstd::arithmetic::power::pow(1, 0) * centered_of(
            chunks[0].c[k] as int,
            q,
        ),
    decreases n,
{
    if n > 1 {
        lemma_recomp_ones(chunks, q, k, (n - 1) as nat);
        assert(centered_of(chunks[n - 1].c[k] as int, q) == 0);
        assert(vstd::arithmetic::power::pow(1, (n - 1) as nat) * 0 == 0);
    } else {
        assert(recomp_value(chunks, q, 1, k, 0) == 0);
    }
}

} // verus!
