//! Outer commitments: the matrices `B_{i,k}`, `C_{i,j,k}`, `D_{i,j,k}`
//! expanded from the transcript, and the commitments `Σ B_{i,k}·v_i^(k)` and
//! `Σ_{i≤j} Σ_k C_{i,j,k}·g_{ij}^(k)` built from them.
use crate::labrador::commit::{
    expand_matrix, expand_run, expanded_matrix, matmul, matmul_row, matrix_fits, BAR_I, BAR_J, BAR_K,
};
use crate::modring::poly::D;
use crate::labrador::statement::{elem, elems_wf, lemma_add_elem, lemma_zero_is_zero, poly_add, poly_mul, qof, zero_poly};
use crate::labrador::transcript::{le64, u64_le_bytes, Transcript};
use crate::modring::crt::Ring;
use crate::modring::poly::RingElem;
use vstd::prelude::*;

verus! {

/// `n` zero elements.
fn zero_elems(n: usize, ring: &Ring) -> (v: Vec<RingElem>)
    requires
        ring.wf(),
    ensures
        v@.len() == n,
        elems_wf(v@, ring.m),
        forall|x: int| 0 <= x < n ==> elem(#[trigger] v@[x]) == zero_poly(),
{
    let mut v: Vec<RingElem> = Vec::new();
    for i in 0..n
        invariant
            ring.wf(),
            v@.len() == i,
            elems_wf(v@, ring.m),
            forall|x: int| 0 <= x < i ==> elem(#[trigger] v@[x]) == zero_poly(),
    {
        let z = RingElem::zero();
        proof {
            lemma_zero_is_zero(z);
        }
        v.push(z);
    }
    v
}

/// `Σ` of row `r1` of `B_{i',k'}·v_{i'}^(k')` over the pairs `(i', k')`
/// before `(i, k)` (rows of `t1` pairs).
pub open spec fn outer_v_sum(
    ring: Ring,
    b: Seq<Vec<Vec<Vec<RingElem>>>>,
    v: Seq<Vec<Vec<RingElem>>>,
    r1: int,
    i: nat,
    k: nat,
    t1: nat,
) -> Seq<int>
    decreases i, k,
{
    if k == 0 {
        if i == 0 {
            zero_poly()
        } else {
            outer_v_sum(ring, b, v, r1, (i - 1) as nat, t1, t1)
        }
    } else {
        poly_add(
            outer_v_sum(ring, b, v, r1, i, (k - 1) as nat, t1),
            matmul_row(ring, b[i as int]@[k - 1]@, v[i as int]@[k - 1]@, r1),
            qof(ring),
        )
    }
}

/// `Σ` of `C_{i',j',k'}[r1]·chunk_{i',j'}^(k')` over the triples before
/// `(i, j, k)` in the order `i`, then `j ≥ i`, then `k`.
pub open spec fn outer_sym_sum(
    ring: Ring,
    c: Seq<Vec<Vec<Vec<RingElem>>>>,
    ch: Seq<Vec<Vec<RingElem>>>,
    r1: int,
    i: nat,
    j: nat,
    k: nat,
    r: nat,
) -> Seq<int>
    decreases i, j, k,
{
    if k > 0 {
        poly_add(
            outer_sym_sum(ring, c, ch, r1, i, j, (k - 1) as nat, r),
            poly_mul(ring, elem(c[i as int]@[j as int]@[k - 1]@[r1]), elem(ch[i as int]@[j as int]@[k - 1])),
            qof(ring),
        )
    } else if j > i {
        outer_sym_sum(ring, c, ch, r1, i, (j - 1) as nat, ch[i as int]@[j - 1]@.len(), r)
    } else if i > 0 {
        outer_sym_sum(ring, c, ch, r1, (i - 1) as nat, r, 0, r)
    } else {
        zero_poly()
    }
}

/// The shapes `outer_commit_v` works on: `r × t1` blocks, each `B_{i,k}`
/// `κ₁ × len(v_i^(k))` and reduced, each `v_i^(k)` reduced.
pub open spec fn outer_v_shapes(
    ring: Ring,
    b: Seq<Vec<Vec<Vec<RingElem>>>>,
    v: Seq<Vec<Vec<RingElem>>>,
    t1: nat,
    kappa1: nat,
) -> bool {
    &&& b.len() == v.len()
    &&& forall|i: int| 0 <= i < v.len() ==> (#[trigger] v[i])@.len() == t1 && b[i]@.len() == t1
    &&& forall|i: int, k: int|
        0 <= i < v.len() && 0 <= k < t1 ==> (#[trigger] b[i]@[k])@.len() == kappa1 && matrix_fits(
            b[i]@[k]@,
            v[i]@[k]@.len(),
            ring,
        ) && elems_wf(v[i]@[k]@, ring.m)
}

/// `u = Σ_i Σ_k B_{i,k}·v_i^(k)` (`κ₁` elements).
pub fn outer_commit_v(ring: &Ring, b_mats: &Vec<Vec<Vec<Vec<RingElem>>>>, v_chunks: &Vec<Vec<Vec<RingElem>>>) -> (u: Vec<
    RingElem,
>)
    requires
        ring.wf(),
        outer_v_shapes(
            *ring,
            b_mats@,
            v_chunks@,
            if v_chunks@.len() == 0 {
                0
            } else {
                v_chunks@[0]@.len()
            },
            if v_chunks@.len() == 0 || v_chunks@[0]@.len() == 0 {
                0
            } else {
                b_mats@[0]@[0]@.len()
            },
        ),
    ensures
        u@.len() == (if v_chunks@.len() == 0 || v_chunks@[0]@.len() == 0 {
            0
        } else {
            b_mats@[0]@[0]@.len()
        }),
        elems_wf(u@, ring.m),
        forall|r1: int|
            0 <= r1 < u@.len() ==> elem(#[trigger] u@[r1]) == outer_v_sum(
                *ring,
                b_mats@,
                v_chunks@,
                r1,
                v_chunks@.len(),
                0,
                v_chunks@[0]@.len(),
            ),
{
    let m = &ring.m;
    let r = v_chunks.len();
    let t1 = if r == 0 {
        0
    } else {
        v_chunks[0].len()
    };
    let kappa1 = if r == 0 || t1 == 0 {
        0
    } else {
        b_mats[0][0].len()
    };
    let mut u = zero_elems(kappa1, ring);
    for i in 0..r
        invariant
            ring.wf(),
            m == &ring.m,
            r == v_chunks@.len(),
            r > 0 ==> t1 == v_chunks@[0]@.len(),
            outer_v_shapes(*ring, b_mats@, v_chunks@, t1 as nat, kappa1 as nat),
            u@.len() == kappa1,
            elems_wf(u@, ring.m),
            forall|x: int|
                0 <= x < kappa1 ==> elem(#[trigger] u@[x]) == outer_v_sum(
                    *ring,
                    b_mats@,
                    v_chunks@,
                    x,
                    i as nat,
                    0,
                    t1 as nat,
                ),
    {
        for k in 0..t1
            invariant
                ring.wf(),
                m == &ring.m,
                i < r,
                r == v_chunks@.len(),
                outer_v_shapes(*ring, b_mats@, v_chunks@, t1 as nat, kappa1 as nat),
                u@.len() == kappa1,
                elems_wf(u@, ring.m),
                forall|x: int|
                    0 <= x < kappa1 ==> elem(#[trigger] u@[x]) == outer_v_sum(
                        *ring,
                        b_mats@,
                        v_chunks@,
                        x,
                        i as nat,
                        k as nat,
                        t1 as nat,
                    ),
        {
            if kappa1 > 0 {
                assert(b_mats@[i as int]@[k as int]@.len() == kappa1);
                let part = matmul(ring, &b_mats[i][k], &v_chunks[i][k]);
                let ghost before = u@;
                for r1 in 0..kappa1
                    invariant
                        ring.wf(),
                        m == &ring.m,
                        u@.len() == kappa1,
                        part@.len() == kappa1,
                        elems_wf(part@, ring.m),
                        elems_wf(u@, ring.m),
                        elems_wf(before, ring.m),
                        before.len() == kappa1,
                        forall|x: int| r1 <= x < kappa1 ==> #[trigger] u@[x] == before[x],
                        forall|x: int|
                            0 <= x < r1 ==> elem(#[trigger] u@[x]) == poly_add(
                                elem(before[x]),
                                elem(part@[x]),
                                qof(*ring),
                            ),
                {
                    let next = u[r1].add(m, &part[r1]);
                    proof {
                        lemma_add_elem(u@[r1 as int], part@[r1 as int], next, qof(*ring));
                    }
                    u.set(r1, next);
                }
            }
        }
    }
    u
}

/// The width `κ₁` of the first non-empty chunk list of a row of
/// `C`-matrices, from index `j` on (0 if none).
pub open spec fn first_width(row: Seq<Vec<Vec<RingElem>>>, j: nat) -> nat
    decreases row.len() - j,
{
    if j >= row.len() {
        0
    } else if row[j as int]@.len() > 0 {
        row[j as int]@[0]@.len()
    } else {
        first_width(row, j + 1)
    }
}

/// `κ₁` as read off the first row of `C`.
pub open spec fn sym_kappa1(c: Seq<Vec<Vec<Vec<RingElem>>>>) -> nat {
    if c.len() == 0 {
        0
    } else {
        first_width(c[0]@, 0)
    }
}

/// The shapes `outer_commit_sym` works on: for `i ≤ j < r`, one `κ₁`-column
/// per chunk, all reduced.
pub open spec fn outer_sym_shapes(
    ring: Ring,
    c: Seq<Vec<Vec<Vec<RingElem>>>>,
    ch: Seq<Vec<Vec<RingElem>>>,
    kappa1: nat,
) -> bool {
    &&& c.len() == ch.len()
    &&& forall|i: int| 0 <= i < ch.len() ==> (#[trigger] ch[i])@.len() == ch.len() && c[i]@.len() == ch.len()
    &&& forall|i: int, j: int|
        0 <= i <= j < ch.len() ==> (#[trigger] c[i]@[j])@.len() == ch[i]@[j]@.len() && elems_wf(ch[i]@[j]@, ring.m)
    &&& forall|i: int, j: int, k: int|
        0 <= i <= j < ch.len() && 0 <= k < ch[i]@[j]@.len() ==> (#[trigger] c[i]@[j]@[k])@.len() == kappa1
            && elems_wf(c[i]@[j]@[k]@, ring.m)
}

/// The width `κ₁` of the first non-empty chunk list of `row`.
fn first_nonempty_width(row: &Vec<Vec<Vec<RingElem>>>) -> (w: usize)
    ensures
        w == first_width(row@, 0),
{
    let mut j: usize = 0;
    while j < row.len()
        invariant
            j <= row@.len(),
            first_width(row@, 0) == first_width(row@, j as nat),
        decreases row@.len() - j,
    {
        if row[j].len() > 0 {
            return row[j][0].len();
        }
        j = j + 1;
    }
    0
}

/// `u = Σ_{i ≤ j} Σ_k C_{i,j,k}·chunk_{ij}^(k)` (`κ₁` elements).
pub fn outer_commit_sym(ring: &Ring, c_mats: &Vec<Vec<Vec<Vec<RingElem>>>>, chunks: &Vec<Vec<Vec<RingElem>>>) -> (u: Vec<
    RingElem,
>)
    requires
        ring.wf(),
        outer_sym_shapes(*ring, c_mats@, chunks@, sym_kappa1(c_mats@)),
    ensures
        u@.len() == sym_kappa1(c_mats@),
        elems_wf(u@, ring.m),
        forall|r1: int|
            0 <= r1 < u@.len() ==> elem(#[trigger] u@[r1]) == outer_sym_sum(
                *ring,
                c_mats@,
                chunks@,
                r1,
                chunks@.len(),
                chunks@.len(),
                0,
                chunks@.len(),
            ),
{
    let m = &ring.m;
    let r = chunks.len();
    let kappa1 = if r == 0 {
        0
    } else {
        first_nonempty_width(&c_mats[0])
    };
    let ghost rr = r as nat;
    let mut u = zero_elems(kappa1, ring);
    for i in 0..r
        invariant
            ring.wf(),
            m == &ring.m,
            r == chunks@.len(),
            rr == r,
            kappa1 == sym_kappa1(c_mats@),
            outer_sym_shapes(*ring, c_mats@, chunks@, kappa1 as nat),
            u@.len() == kappa1,
            elems_wf(u@, ring.m),
            forall|x: int|
                0 <= x < kappa1 ==> elem(#[trigger] u@[x]) == outer_sym_sum(
                    *ring,
                    c_mats@,
                    chunks@,
                    x,
                    i as nat,
                    i as nat,
                    0,
                    rr,
                ),
    {
        proof {
            assert(outer_sym_shapes(*ring, c_mats@, chunks@, kappa1 as nat));
            assert(chunks@[i as int]@.len() == chunks@.len() && c_mats@[i as int]@.len() == chunks@.len());
        }
        for j in i..r
            invariant
                ring.wf(),
                m == &ring.m,
                i < r,
                chunks@[i as int]@.len() == r,
                c_mats@[i as int]@.len() == r,
                r == chunks@.len(),
                rr == r,
                outer_sym_shapes(*ring, c_mats@, chunks@, kappa1 as nat),
                u@.len() == kappa1,
                elems_wf(u@, ring.m),
                forall|x: int|
                    0 <= x < kappa1 ==> elem(#[trigger] u@[x]) == outer_sym_sum(
                        *ring,
                        c_mats@,
                        chunks@,
                        x,
                        i as nat,
                        j as nat,
                        0,
                        rr,
                    ),
        {
            let n_chunks = chunks[i][j].len();
            for k in 0..n_chunks
                invariant
                    ring.wf(),
                    m == &ring.m,
                    i <= j < r,
                    r == chunks@.len(),
                    rr == r,
                    n_chunks == chunks@[i as int]@[j as int]@.len(),
                    outer_sym_shapes(*ring, c_mats@, chunks@, kappa1 as nat),
                    u@.len() == kappa1,
                    elems_wf(u@, ring.m),
                    forall|x: int|
                        0 <= x < kappa1 ==> elem(#[trigger] u@[x]) == outer_sym_sum(
                            *ring,
                            c_mats@,
                            chunks@,
                            x,
                            i as nat,
                            j as nat,
                            k as nat,
                            rr,
                        ),
            {
                assert(c_mats@[i as int]@[j as int]@[k as int]@.len() == kappa1);
                assert(elems_wf(chunks@[i as int]@[j as int]@, ring.m));
                let ghost before = u@;
                for r1 in 0..kappa1
                    invariant
                        ring.wf(),
                        m == &ring.m,
                        i <= j < r,
                        r == chunks@.len(),
                        k < chunks@[i as int]@[j as int]@.len(),
                        outer_sym_shapes(*ring, c_mats@, chunks@, kappa1 as nat),
                        u@.len() == kappa1,
                        before.len() == kappa1,
                        elems_wf(u@, ring.m),
                        elems_wf(before, ring.m),
                        forall|x: int| r1 <= x < kappa1 ==> #[trigger] u@[x] == before[x],
                        forall|x: int|
                            0 <= x < r1 ==> elem(#[trigger] u@[x]) == poly_add(
                                elem(before[x]),
                                poly_mul(
                                    *ring,
                                    elem(c_mats@[i as int]@[j as int]@[k as int]@[x]),
                                    elem(chunks@[i as int]@[j as int]@[k as int]),
                                ),
                                qof(*ring),
                            ),
                {
                    assert(c_mats@[i as int]@[j as int]@[k as int]@.len() == kappa1 && elems_wf(
                        c_mats@[i as int]@[j as int]@[k as int]@,
                        ring.m,
                    ));
                    let prod = ring.mul(&c_mats[i][j][k][r1], &chunks[i][j][k]);
                    let next = u[r1].add(m, &prod);
                    proof {
                        lemma_add_elem(u@[r1 as int], prod, next, qof(*ring));
                    }
                    u.set(r1, next);
                }
            }
        }
    }
    u
}

/// `label ‖ tag1 ‖ a ‖ tag2 ‖ b` with `a`, `b` as 8 little-endian bytes.
fn tagged_label2(label: &[u8], tag1: &[u8], a: u64, tag2: &[u8], b: u64) -> (out: Vec<u8>)
    ensures
        out@ == label@ + tag1@ + le64(a) + tag2@ + le64(b),
{
    let mut out: Vec<u8> = Vec::new();
    out.extend_from_slice(label);
    out.extend_from_slice(tag1);
    out.extend_from_slice(&u64_le_bytes(a));
    out.extend_from_slice(tag2);
    out.extend_from_slice(&u64_le_bytes(b));
    assert(out@ =~= label@ + tag1@ + le64(a) + tag2@ + le64(b));
    out
}

/// `label ‖ |i| ‖ i ‖ |j| ‖ j ‖ |k| ‖ k`.
fn tagged_label3(label: &[u8], i: u64, j: u64, k: u64) -> (out: Vec<u8>)
    ensures
        out@ == label@ + BAR_I@ + le64(i) + BAR_J@ + le64(j) + BAR_K@ + le64(k),
{
    let mut out = tagged_label2(label, &BAR_I, i, &BAR_J, j);
    out.extend_from_slice(&BAR_K);
    out.extend_from_slice(&u64_le_bytes(k));
    assert(out@ =~= label@ + BAR_I@ + le64(i) + BAR_J@ + le64(j) + BAR_K@ + le64(k));
    out
}

/// The label of `B_{i,k}`: `label ‖ |i| ‖ i ‖ |k| ‖ k`.
pub open spec fn b_label(label: Seq<u8>, i: int, k: int) -> Seq<u8> {
    label + BAR_I@ + le64(i as u64) + BAR_K@ + le64(k as u64)
}

/// Expanding the first `m` matrices `B_{i,k}` (in order `i`, then `k <
/// t1`), each `κ₁ × κ`, from state `st`: whether every draw succeeded, and
/// the state after.
pub open spec fn b_mats_run(st: Seq<u8>, label: Seq<u8>, t1: nat, kappa1: nat, kappa: nat, q: u64, m: nat) -> (bool, Seq<u8>)
    decreases m,
{
    if m == 0 {
        (true, st)
    } else {
        let prev = b_mats_run(st, label, t1, kappa1, kappa, q, (m - 1) as nat);
        if !prev.0 {
            prev
        } else {
            let j = m - 1;
            let run = expand_run(prev.1, b_label(label, j / (t1 as int), j % (t1 as int)), kappa, q, kappa1 * kappa * (D as nat));
            (run.0 is Some, run.1)
        }
    }
}

/// Once an expansion failed, expanding further changes nothing.
proof fn lemma_b_mats_stop(st: Seq<u8>, label: Seq<u8>, t1: nat, kappa1: nat, kappa: nat, q: u64, m: nat, m2: nat)
    requires
        m <= m2,
        !b_mats_run(st, label, t1, kappa1, kappa, q, m).0,
    ensures
        b_mats_run(st, label, t1, kappa1, kappa, q, m2) == b_mats_run(st, label, t1, kappa1, kappa, q, m),
    decreases m2,
{
    if m < m2 {
        lemma_b_mats_stop(st, label, t1, kappa1, kappa, q, m, (m2 - 1) as nat);
    }
}

/// The matrices `B_{i,k}` (`κ₁ × κ`) for `i < r`, `k < t1`, each expanded
/// under `label ‖ |i| ‖ i ‖ |k| ‖ k`. `None` if a draw fails.
pub fn expand_b_mats(
    t: &mut Transcript,
    label: &[u8],
    r: usize,
    t1: usize,
    kappa1: usize,
    kappa: usize,
    ring: &Ring,
) -> (res: Option<Vec<Vec<Vec<Vec<RingElem>>>>>)
    requires
        ring.wf(),
    ensures
        res matches Some(b) ==> {
            &&& b@.len() == r
            &&& forall|i: int| 0 <= i < r ==> (#[trigger] b@[i])@.len() == t1
            &&& forall|i: int, k: int|
                0 <= i < r && 0 <= k < t1 ==> (#[trigger] b@[i]@[k])@.len() == kappa1 && matrix_fits(
                    b@[i]@[k]@,
                    kappa as nat,
                    *ring,
                )
        },
        ({
            let run = b_mats_run(old(t).absorbed(), label@, t1 as nat, kappa1 as nat, kappa as nat, ring.m.q, (r * t1) as nat);
            &&& final(t).absorbed() == run.1
            &&& (res is Some <==> run.0)
        }),
        res matches Some(b) ==> forall|i: int, k: int|
            0 <= i < r && 0 <= k < t1 ==> expanded_matrix(
                #[trigger] b@[i]@[k]@,
                b_mats_run(old(t).absorbed(), label@, t1 as nat, kappa1 as nat, kappa as nat, ring.m.q, (i * t1 + k) as nat).1,
                b_label(label@, i, k),
                kappa1 as nat,
                kappa as nat,
                *ring,
            ),
{
    let ghost st0 = t.absorbed();
    let ghost lb = label@;
    let mut out: Vec<Vec<Vec<Vec<RingElem>>>> = Vec::new();
    assert(0 * t1 == 0) by (nonlinear_arith);
    for i in 0..r
        invariant
            ring.wf(),
            st0 == old(t).absorbed(),
            lb == label@,
            out@.len() == i,
            forall|ii: int| 0 <= ii < i ==> (#[trigger] out@[ii])@.len() == t1,
            forall|ii: int, k: int|
                0 <= ii < i && 0 <= k < t1 ==> (#[trigger] out@[ii]@[k])@.len() == kappa1 && matrix_fits(
                    out@[ii]@[k]@,
                    kappa as nat,
                    *ring,
                ),
            b_mats_run(st0, lb, t1 as nat, kappa1 as nat, kappa as nat, ring.m.q, (i * t1) as nat) == (true, t.absorbed()),
            forall|ii: int, k: int|
                0 <= ii < i && 0 <= k < t1 ==> expanded_matrix(
                    #[trigger] out@[ii]@[k]@,
                    b_mats_run(st0, lb, t1 as nat, kappa1 as nat, kappa as nat, ring.m.q, (ii * t1 + k) as nat).1,
                    b_label(lb, ii, k),
                    kappa1 as nat,
                    kappa as nat,
                    *ring,
                ),
    {
        let mut per_i: Vec<Vec<Vec<RingElem>>> = Vec::new();
        for k in 0..t1
            invariant
                ring.wf(),
                st0 == old(t).absorbed(),
                lb == label@,
                i < r,
                out@.len() == i,
                per_i@.len() == k,
                forall|kk: int|
                    0 <= kk < k ==> (#[trigger] per_i@[kk])@.len() == kappa1 && matrix_fits(
                        per_i@[kk]@,
                        kappa as nat,
                        *ring,
                    ),
                b_mats_run(st0, lb, t1 as nat, kappa1 as nat, kappa as nat, ring.m.q, (i * t1 + k) as nat) == (true, t.absorbed()),
                forall|kk: int|
                    0 <= kk < k ==> expanded_matrix(
                        #[trigger] per_i@[kk]@,
                        b_mats_run(st0, lb, t1 as nat, kappa1 as nat, kappa as nat, ring.m.q, (i * t1 + kk) as nat).1,
                        b_label(lb, i as int, kk),
                        kappa1 as nat,
                        kappa as nat,
                        *ring,
                    ),
        {
            let ghost stk = t.absorbed();
            let sub = tagged_label2(label, &BAR_I, i as u64, &BAR_K, k as u64);
            proof {
                vstd::arithmetic::div_mod::lemma_fundamental_div_mod_converse(
                    (i * t1 + k) as int,
                    t1 as int,
                    i as int,
                    k as int,
                );
                assert(sub@ == b_label(lb, i as int, k as int));
                assert(((i * t1 + k) + 1) as nat - 1 == i * t1 + k);
            }
            match expand_matrix(t, &sub, kappa1, kappa, ring) {
                Some(mat) => {
                    per_i.push(mat);
                },
                None => {
                    proof {
                        assert((i * t1 + k + 1) <= r * t1) by (nonlinear_arith)
                            requires
                                i < r,
                                k < t1,
                        ;
                        lemma_b_mats_stop(
                            st0,
                            lb,
                            t1 as nat,
                            kappa1 as nat,
                            kappa as nat,
                            ring.m.q,
                            (i * t1 + k + 1) as nat,
                            (r * t1) as nat,
                        );
                    }
                    return None;
                },
            }
        }
        let ghost prev = out@;
        out.push(per_i);
        proof {
            assert(i * t1 + t1 == (i + 1) * t1) by (nonlinear_arith);
            assert forall|ii: int, k: int|
                0 <= ii < i + 1 && 0 <= k < t1 implies (#[trigger] out@[ii]@[k])@.len() == kappa1 && matrix_fits(
                out@[ii]@[k]@,
                kappa as nat,
                *ring,
            ) && expanded_matrix(
                out@[ii]@[k]@,
                b_mats_run(st0, lb, t1 as nat, kappa1 as nat, kappa as nat, ring.m.q, (ii * t1 + k) as nat).1,
                b_label(lb, ii, k),
                kappa1 as nat,
                kappa as nat,
                *ring,
            ) by {
                if ii < i {
                    assert(out@[ii] == prev[ii]);
                }
            }
        }
    }
    Some(out)
}

/// The label of `C_{i,j,k}`: `label ‖ |i| ‖ i ‖ |j| ‖ j ‖ |k| ‖ k`.
pub open spec fn sym_label(label: Seq<u8>, i: int, j: int, k: int) -> Seq<u8> {
    label + BAR_I@ + le64(i as u64) + BAR_J@ + le64(j as u64) + BAR_K@ + le64(k as u64)
}

/// Position `(i, j, k)` in the walk over `r × r × t` cells.
pub open spec fn sym_index(r: int, t: int, i: int, j: int, k: int) -> int {
    (i * r + j) * t + k
}

/// Walking the first `m` cells `(i, j, k)` of `r × r × t` in order,
/// expanding a `1 × κ₁` matrix for each cell with `i ≤ j`, from state `st`:
/// whether every draw succeeded, and the state after.
pub open spec fn sym_run(st: Seq<u8>, label: Seq<u8>, r: nat, t: nat, kappa1: nat, q: u64, m: nat) -> (bool, Seq<u8>)
    decreases m,
{
    if m == 0 {
        (true, st)
    } else {
        let prev = sym_run(st, label, r, t, kappa1, q, (m - 1) as nat);
        let x = m - 1;
        let k = x % (t as int);
        let ij = x / (t as int);
        let i = ij / (r as int);
        let j = ij % (r as int);
        if !prev.0 || j < i {
            prev
        } else {
            let run = expand_run(prev.1, sym_label(label, i, j, k), kappa1, q, kappa1 * (D as nat));
            (run.0 is Some, run.1)
        }
    }
}

/// Once an expansion failed, walking further changes nothing.
proof fn lemma_sym_stop(st: Seq<u8>, label: Seq<u8>, r: nat, t: nat, kappa1: nat, q: u64, m: nat, m2: nat)
    requires
        m <= m2,
        !sym_run(st, label, r, t, kappa1, q, m).0,
    ensures
        sym_run(st, label, r, t, kappa1, q, m2) == sym_run(st, label, r, t, kappa1, q, m),
    decreases m2,
{
    if m < m2 {
        lemma_sym_stop(st, label, r, t, kappa1, q, m, (m2 - 1) as nat);
    }
}

/// The cell after `(i, j, k)` in the walk decodes back to `(i, j, k)`.
proof fn lemma_sym_decode(r: int, t: int, i: int, j: int, k: int)
    requires
        0 <= i < r,
        0 <= j < r,
        0 <= k < t,
    ensures
        sym_index(r, t, i, j, k) % t == k,
        sym_index(r, t, i, j, k) / t == i * r + j,
        (i * r + j) / r == i,
        (i * r + j) % r == j,
        0 <= sym_index(r, t, i, j, k),
        sym_index(r, t, i, j, k) + 1 <= r * r * t,
        sym_index(r, t, i, j, k + 1) == sym_index(r, t, i, j, k) + 1,
        sym_index(r, t, i, j, t) == sym_index(r, t, i, j + 1, 0),
        sym_index(r, t, i, r, 0) == sym_index(r, t, i + 1, 0, 0),
{
    vstd::arithmetic::div_mod::lemma_fundamental_div_mod_converse(sym_index(r, t, i, j, k), t, i * r + j, k);
    vstd::arithmetic::div_mod::lemma_fundamental_div_mod_converse(i * r + j, r, i, j);
    assert(0 <= i * r + j) by (nonlinear_arith)
        requires
            0 <= i,
            0 <= j,
            r > 0,
    ;
    assert(0 <= (i * r + j) * t) by (nonlinear_arith)
        requires
            0 <= i * r + j,
            t > 0,
    ;
    assert((i * r + j) * t + k + 1 <= r * r * t) by (nonlinear_arith)
        requires
            0 <= i < r,
            0 <= j < r,
            0 <= k < t,
    ;
    assert((i * r + j) * t + t == (i * r + j + 1) * t) by (nonlinear_arith);
    assert(i * r + r == (i + 1) * r) by (nonlinear_arith);
}

/// The columns `C_{i,j,k}` (`κ₁` elements) for `i ≤ j < r`, `k < t_chunks`,
/// each the single row of a matrix expanded under
/// `label ‖ |i| ‖ i ‖ |j| ‖ j ‖ |k| ‖ k`; the entries below the diagonal are
/// empty. `None` if a draw fails.
#[verifier::rlimit(50)]
pub fn expand_sym_mats(
    t: &mut Transcript,
    label: &[u8],
    r: usize,
    t_chunks: usize,
    kappa1: usize,
    ring: &Ring,
) -> (res: Option<Vec<Vec<Vec<Vec<RingElem>>>>>)
    requires
        ring.wf(),
    ensures
        res matches Some(c) ==> {
            &&& c@.len() == r
            &&& forall|i: int| 0 <= i < r ==> (#[trigger] c@[i])@.len() == r
            &&& forall|i: int, j: int| 0 <= i < r && 0 <= j < r ==> (#[trigger] c@[i]@[j])@.len() == t_chunks
            &&& forall|i: int, j: int, k: int|
                0 <= i <= j < r && 0 <= k < t_chunks ==> (#[trigger] c@[i]@[j]@[k])@.len() == kappa1 && elems_wf(
                    c@[i]@[j]@[k]@,
                    ring.m,
                )
            &&& forall|i: int, j: int, k: int|
                0 <= j < i < r && 0 <= k < t_chunks ==> (#[trigger] c@[i]@[j]@[k])@.len() == 0
        },
        ({
            let run = sym_run(old(t).absorbed(), label@, r as nat, t_chunks as nat, kappa1 as nat, ring.m.q, (r * r * t_chunks) as nat);
            &&& final(t).absorbed() == run.1
            &&& (res is Some <==> run.0)
        }),
        res matches Some(c) ==> forall|i: int, j: int, k: int|
            0 <= i <= j < r && 0 <= k < t_chunks ==> expanded_matrix(
                seq![#[trigger] c@[i]@[j]@[k]],
                sym_run(old(t).absorbed(), label@, r as nat, t_chunks as nat, kappa1 as nat, ring.m.q, sym_index(r as int, t_chunks as int, i, j, k) as nat).1,
                sym_label(label@, i, j, k),
                1,
                kappa1 as nat,
                *ring,
            ),
{
    let ghost st0 = t.absorbed();
    let ghost lb = label@;
    let ghost rr = r as int;
    let ghost tt = t_chunks as int;
    let mut out: Vec<Vec<Vec<Vec<RingElem>>>> = Vec::new();
    assert(sym_index(rr, tt, 0, 0, 0) == 0) by (nonlinear_arith);
    for i in 0..r
        invariant
            ring.wf(),
            st0 == old(t).absorbed(),
            lb == label@,
            rr == r,
            tt == t_chunks,
            out@.len() == i,
            forall|ii: int| 0 <= ii < i ==> (#[trigger] out@[ii])@.len() == r,
            forall|ii: int, j: int| 0 <= ii < i && 0 <= j < r ==> (#[trigger] out@[ii]@[j])@.len() == t_chunks,
            forall|ii: int, j: int, k: int|
                0 <= ii < i && ii <= j < r && 0 <= k < t_chunks ==> (#[trigger] out@[ii]@[j]@[k])@.len() == kappa1
                    && elems_wf(out@[ii]@[j]@[k]@, ring.m),
            forall|ii: int, j: int, k: int|
                0 <= j < ii < i && 0 <= k < t_chunks ==> (#[trigger] out@[ii]@[j]@[k])@.len() == 0,
            sym_run(st0, lb, r as nat, t_chunks as nat, kappa1 as nat, ring.m.q, sym_index(rr, tt, i as int, 0, 0) as nat)
                == (true, t.absorbed()),
            forall|ii: int, j: int, k: int|
                0 <= ii < i && ii <= j < r && 0 <= k < t_chunks ==> expanded_matrix(
                    seq![#[trigger] out@[ii]@[j]@[k]],
                    sym_run(st0, lb, r as nat, t_chunks as nat, kappa1 as nat, ring.m.q, sym_index(rr, tt, ii, j, k) as nat).1,
                    sym_label(lb, ii, j, k),
                    1,
                    kappa1 as nat,
                    *ring,
                ),
    {
        let mut row: Vec<Vec<Vec<RingElem>>> = Vec::new();
        for j in 0..r
            invariant
                ring.wf(),
                st0 == old(t).absorbed(),
                lb == label@,
                rr == r,
                tt == t_chunks,
                i < r,
                row@.len() == j,
                forall|jj: int| 0 <= jj < j ==> (#[trigger] row@[jj])@.len() == t_chunks,
                forall|jj: int, k: int|
                    i <= jj < j && 0 <= k < t_chunks ==> (#[trigger] row@[jj]@[k])@.len() == kappa1 && elems_wf(
                        row@[jj]@[k]@,
                        ring.m,
                    ),
                forall|jj: int, k: int| 0 <= jj < j && jj < i && 0 <= k < t_chunks ==> (#[trigger] row@[jj]@[k])@.len() == 0,
                sym_run(st0, lb, r as nat, t_chunks as nat, kappa1 as nat, ring.m.q, sym_index(rr, tt, i as int, j as int, 0) as nat)
                    == (true, t.absorbed()),
                forall|jj: int, k: int|
                    i <= jj < j && 0 <= k < t_chunks ==> expanded_matrix(
                        seq![#[trigger] row@[jj]@[k]],
                        sym_run(st0, lb, r as nat, t_chunks as nat, kappa1 as nat, ring.m.q, sym_index(rr, tt, i as int, jj, k) as nat).1,
                        sym_label(lb, i as int, jj, k),
                        1,
                        kappa1 as nat,
                        *ring,
                    ),
        {
            let mut col: Vec<Vec<RingElem>> = Vec::new();
            for k in 0..t_chunks
                invariant
                    ring.wf(),
                    st0 == old(t).absorbed(),
                    lb == label@,
                    rr == r,
                    tt == t_chunks,
                    i < r,
                    j < r,
                    col@.len() == k,
                    j >= i ==> forall|kk: int|
                        0 <= kk < k ==> (#[trigger] col@[kk])@.len() == kappa1 && elems_wf(col@[kk]@, ring.m),
                    j < i ==> forall|kk: int| 0 <= kk < k ==> (#[trigger] col@[kk])@.len() == 0,
                    sym_run(st0, lb, r as nat, t_chunks as nat, kappa1 as nat, ring.m.q, sym_index(rr, tt, i as int, j as int, k as int) as nat)
                        == (true, t.absorbed()),
                    j >= i ==> forall|kk: int|
                        0 <= kk < k ==> expanded_matrix(
                            seq![#[trigger] col@[kk]],
                            sym_run(st0, lb, r as nat, t_chunks as nat, kappa1 as nat, ring.m.q, sym_index(rr, tt, i as int, j as int, kk) as nat).1,
                            sym_label(lb, i as int, j as int, kk),
                            1,
                            kappa1 as nat,
                            *ring,
                        ),
            {
                proof {
                    lemma_sym_decode(rr, tt, i as int, j as int, k as int);
                }
                let ghost m = sym_index(rr, tt, i as int, j as int, k as int);
                if j >= i {
                    let sub = tagged_label3(label, i as u64, j as u64, k as u64);
                    assert(sub@ == sym_label(lb, i as int, j as int, k as int));
                    match expand_matrix(t, &sub, 1, kappa1, ring) {
                        Some(mut mat) => {
                            assert(mat@[0]@.len() == kappa1 && elems_wf(mat@[0]@, ring.m));
                            let ghost mat0 = mat@;
                            let first = mat.remove(0);
                            assert(mat0 =~= seq![first]);
                            assert(1 * kappa1 * D == kappa1 * D) by (nonlinear_arith);
                            col.push(first);
                        },
                        None => {
                            proof {
                                assert(1 * kappa1 * D == kappa1 * D) by (nonlinear_arith);
                                lemma_sym_stop(st0, lb, r as nat, t_chunks as nat, kappa1 as nat, ring.m.q, (m + 1) as nat, (r * r * t_chunks) as nat);
                            }
                            return None;
                        },
                    }
                } else {
                    col.push(Vec::new());
                }
            }
            proof {
                if tt > 0 {
                    lemma_sym_decode(rr, tt, i as int, j as int, tt - 1);
                } else {
                    assert(sym_index(rr, tt, i as int, j as int, 0) == sym_index(rr, tt, i as int, j + 1, 0)) by (nonlinear_arith)
                        requires
                            tt == 0,
                    ;
                }
            }
            row.push(col);
        }
        let ghost prev = out@;
        out.push(row);
        proof {
            if rr > 0 && tt > 0 {
                lemma_sym_decode(rr, tt, i as int, rr - 1, 0);
            }
            assert(sym_index(rr, tt, i as int, rr, 0) == sym_index(rr, tt, i + 1, 0, 0)) by (nonlinear_arith);
            assert forall|ii: int, j: int| 0 <= ii < i + 1 && 0 <= j < r implies (#[trigger] out@[ii]@[j])@.len()
                == t_chunks by {
                if ii < i {
                    assert(out@[ii] == prev[ii]);
                }
            }
            assert forall|ii: int, j: int, k: int|
                0 <= ii < i + 1 && ii <= j < r && 0 <= k < t_chunks implies (#[trigger] out@[ii]@[j]@[k])@.len()
                == kappa1 && elems_wf(out@[ii]@[j]@[k]@, ring.m) && expanded_matrix(
                    seq![out@[ii]@[j]@[k]],
                    sym_run(st0, lb, r as nat, t_chunks as nat, kappa1 as nat, ring.m.q, sym_index(rr, tt, ii, j, k) as nat).1,
                    sym_label(lb, ii, j, k),
                    1,
                    kappa1 as nat,
                    *ring,
                ) by {
                if ii < i {
                    assert(out@[ii] == prev[ii]);
                }
            }
            assert forall|ii: int, j: int, k: int|
                0 <= j < ii < i + 1 && 0 <= k < t_chunks implies (#[trigger] out@[ii]@[j]@[k])@.len() == 0 by {
                if ii < i {
                    assert(out@[ii] == prev[ii]);
                }
            }
            assert forall|ii: int| 0 <= ii < i + 1 implies (#[trigger] out@[ii])@.len() == r by {
                if ii < i {
                    assert(out@[ii] == prev[ii]);
                }
            }
        }
    }
    assert(sym_index(rr, tt, r as int, 0, 0) == r * r * t_chunks) by (nonlinear_arith)
        requires
            rr == r,
            tt == t_chunks,
    ;
    Some(out)
}

} // verus!
