//! Ajtai commitments over the LaBRADOR ring: public matrices expanded from
//! the transcript, and the linear maps `A·w` built from them.
use crate::labrador::statement::{
    elem, elems_wf, inner_spec, lemma_add_elem, lemma_sub_elem, lemma_zero_is_zero, poly_add,
    poly_mul, poly_sub, qof, ring_inner_product, zero_poly,
};
use crate::labrador::transcript::{derive_below_spec, le64, u64_le_bytes, Transcript};
use crate::modring::crt::Ring;
use crate::modring::poly::{RingElem, D};
use vstd::prelude::*;

verus! {

/// `|`
pub const BAR: [u8; 1] = [124u8];

/// `|i|`
pub const BAR_I: [u8; 3] = [124u8, 105, 124];

/// `|j|`
pub const BAR_J: [u8; 3] = [124u8, 106, 124];

/// `|k|`
pub const BAR_K: [u8; 3] = [124u8, 107, 124];

// ---------------------------------------------------------------------------
// Linear maps
// ---------------------------------------------------------------------------

/// The rows of a matrix as sequences.
pub open spec fn rows(a: Seq<Vec<RingElem>>) -> Seq<Seq<RingElem>> {
    a.map_values(|v: Vec<RingElem>| v@)
}

/// `A` has `w.len()` columns and reduced entries.
pub open spec fn matrix_fits(a: Seq<Vec<RingElem>>, cols: nat, ring: Ring) -> bool {
    forall|r: int| 0 <= r < a.len() ==> (#[trigger] a[r])@.len() == cols && elems_wf(a[r]@, ring.m)
}

/// Row `r` of `A·w`: `⟨A_r, w⟩`.
pub open spec fn matmul_row(ring: Ring, a: Seq<Vec<RingElem>>, w: Seq<RingElem>, r: int) -> Seq<int> {
    inner_spec(ring, a[r]@, w, w.len())
}

/// `A·w` for a non-empty matrix `A` with `w.len()` columns.
pub fn matmul(ring: &Ring, a: &[Vec<RingElem>], w: &[RingElem]) -> (out: Vec<RingElem>)
    requires
        ring.wf(),
        a@.len() > 0,
        matrix_fits(a@, w@.len(), *ring),
        elems_wf(w@, ring.m),
    ensures
        out@.len() == a@.len(),
        forall|r: int| 0 <= r < a@.len() ==> elem(#[trigger] out@[r]) == matmul_row(*ring, a@, w@, r),
        elems_wf(out@, ring.m),
{
    let mut out: Vec<RingElem> = Vec::new();
    for r in 0..a.len()
        invariant
            ring.wf(),
            matrix_fits(a@, w@.len(), *ring),
            elems_wf(w@, ring.m),
            out@.len() == r,
            forall|rr: int| 0 <= rr < r ==> elem(#[trigger] out@[rr]) == matmul_row(*ring, a@, w@, rr),
            elems_wf(out@, ring.m),
    {
        assert(a@[r as int]@.len() == w@.len() && elems_wf(a@[r as int]@, ring.m));
        let acc = ring_inner_product(ring, &a[r], w);
        out.push(acc);
    }
    out
}

/// `A·w_i` for every witness vector `w_i`.
pub fn commit_inner(ring: &Ring, a: &[Vec<RingElem>], ws: &[Vec<RingElem>]) -> (out: Vec<Vec<RingElem>>)
    requires
        ring.wf(),
        a@.len() > 0,
        forall|i: int|
            0 <= i < ws@.len() ==> matrix_fits(a@, (#[trigger] ws@[i])@.len(), *ring) && elems_wf(
                ws@[i]@,
                ring.m,
            ),
    ensures
        out@.len() == ws@.len(),
        forall|i: int|
            0 <= i < ws@.len() ==> (#[trigger] out@[i])@.len() == a@.len() && elems_wf(out@[i]@, ring.m)
                && forall|r: int|
                0 <= r < a@.len() ==> elem(#[trigger] out@[i]@[r]) == matmul_row(*ring, a@, ws@[i]@, r),
{
    let mut out: Vec<Vec<RingElem>> = Vec::new();
    for i in 0..ws.len()
        invariant
            ring.wf(),
            a@.len() > 0,
            forall|i: int|
                0 <= i < ws@.len() ==> matrix_fits(a@, (#[trigger] ws@[i])@.len(), *ring) && elems_wf(
                    ws@[i]@,
                    ring.m,
                ),
            out@.len() == i,
            forall|ii: int|
                0 <= ii < i ==> (#[trigger] out@[ii])@.len() == a@.len() && elems_wf(out@[ii]@, ring.m)
                    && forall|r: int|
                    0 <= r < a@.len() ==> elem(#[trigger] out@[ii]@[r]) == matmul_row(*ring, a@, ws@[ii]@, r),
    {
        assert(matrix_fits(a@, ws@[i as int]@.len(), *ring) && elems_wf(ws@[i as int]@, ring.m));
        let row = matmul(ring, a, &ws[i]);
        out.push(row);
    }
    out
}

/// `x + y` entry-wise.
pub fn add_vec(ring: &Ring, x: &[RingElem], y: &[RingElem]) -> (out: Vec<RingElem>)
    requires
        ring.wf(),
        x@.len() == y@.len(),
        elems_wf(x@, ring.m),
        elems_wf(y@, ring.m),
    ensures
        out@.len() == x@.len(),
        forall|i: int|
            0 <= i < x@.len() ==> elem(#[trigger] out@[i]) == poly_add(elem(x@[i]), elem(y@[i]), qof(*ring)),
        elems_wf(out@, ring.m),
{
    let mut out: Vec<RingElem> = Vec::new();
    for i in 0..x.len()
        invariant
            ring.wf(),
            x@.len() == y@.len(),
            elems_wf(x@, ring.m),
            elems_wf(y@, ring.m),
            out@.len() == i,
            forall|ii: int|
                0 <= ii < i ==> elem(#[trigger] out@[ii]) == poly_add(elem(x@[ii]), elem(y@[ii]), qof(*ring)),
            elems_wf(out@, ring.m),
    {
        assert(x@[i as int].wf(ring.m) && y@[i as int].wf(ring.m));
        let e = x[i].add(&ring.m, &y[i]);
        proof {
            lemma_add_elem(x@[i as int], y@[i as int], e, qof(*ring));
        }
        out.push(e);
    }
    out
}

/// `x − y` entry-wise.
pub fn sub_vec(ring: &Ring, x: &[RingElem], y: &[RingElem]) -> (out: Vec<RingElem>)
    requires
        ring.wf(),
        x@.len() == y@.len(),
        elems_wf(x@, ring.m),
        elems_wf(y@, ring.m),
    ensures
        out@.len() == x@.len(),
        forall|i: int|
            0 <= i < x@.len() ==> elem(#[trigger] out@[i]) == poly_sub(elem(x@[i]), elem(y@[i]), qof(*ring)),
        elems_wf(out@, ring.m),
{
    let mut out: Vec<RingElem> = Vec::new();
    for i in 0..x.len()
        invariant
            ring.wf(),
            x@.len() == y@.len(),
            elems_wf(x@, ring.m),
            elems_wf(y@, ring.m),
            out@.len() == i,
            forall|ii: int|
                0 <= ii < i ==> elem(#[trigger] out@[ii]) == poly_sub(elem(x@[ii]), elem(y@[ii]), qof(*ring)),
            elems_wf(out@, ring.m),
    {
        assert(x@[i as int].wf(ring.m) && y@[i as int].wf(ring.m));
        let e = x[i].sub(&ring.m, &y[i]);
        proof {
            lemma_sub_elem(x@[i as int], y@[i as int], e, qof(*ring));
        }
        out.push(e);
    }
    out
}

/// `s · x` entry-wise (ring product `s · x_i`).
pub fn scale_vec(ring: &Ring, s: &RingElem, x: &[RingElem]) -> (out: Vec<RingElem>)
    requires
        ring.wf(),
        s.wf(ring.m),
        elems_wf(x@, ring.m),
    ensures
        out@.len() == x@.len(),
        forall|i: int| 0 <= i < x@.len() ==> elem(#[trigger] out@[i]) == poly_mul(*ring, elem(*s), elem(x@[i])),
        elems_wf(out@, ring.m),
{
    let mut out: Vec<RingElem> = Vec::new();
    for i in 0..x.len()
        invariant
            ring.wf(),
            s.wf(ring.m),
            elems_wf(x@, ring.m),
            out@.len() == i,
            forall|ii: int| 0 <= ii < i ==> elem(#[trigger] out@[ii]) == poly_mul(*ring, elem(*s), elem(x@[ii])),
            elems_wf(out@, ring.m),
    {
        assert(x@[i as int].wf(ring.m));
        let e = ring.mul(s, &x[i]);
        out.push(e);
    }
    out
}


// ---------------------------------------------------------------------------
// Public matrices from the transcript
// ---------------------------------------------------------------------------

/// The label of coefficient `k` of entry `(r, c)`: `label ‖ "|" ‖ r ‖ c ‖ k`
/// (each index as 8 little-endian bytes).
pub open spec fn entry_label(label: Seq<u8>, r: int, c: int, k: int) -> Seq<u8> {
    label + BAR@ + le64(r as u64) + le64(c as u64) + le64(k as u64)
}

/// Expanding the first `i` coefficients (row-major over entries, then
/// coefficient by coefficient) of a `· × cols` matrix from state `st`: the
/// values drawn (or `None` at the first failed draw) and the state after.
pub open spec fn expand_run(st: Seq<u8>, label: Seq<u8>, cols: nat, q: u64, i: nat) -> (Option<
    Seq<u64>,
>, Seq<u8>)
    decreases i,
{
    if i == 0 {
        (Some(Seq::empty()), st)
    } else {
        let (prev, st1) = expand_run(st, label, cols, q, (i - 1) as nat);
        match prev {
            None => (None, st1),
            Some(v) => {
                let j = i - 1;
                let k = j % (D as int);
                let rc = j / (D as int);
                let (x, st2) = derive_below_spec(
                    st1,
                    entry_label(label, rc / (cols as int), rc % (cols as int), k),
                    q,
                );
                match x {
                    None => (None, st2),
                    Some(x) => (Some(v.push(x)), st2),
                }
            },
        }
    }
}

/// The flat index of coefficient `k` of entry `(r, c)`.
pub open spec fn flat_index(cols: int, r: int, c: int, k: int) -> int {
    (r * cols + c) * (D as int) + k
}

/// Flat indices decode back to their entry and coefficient.
proof fn lemma_flat_index(cols: int, r: int, c: int, k: int)
    requires
        cols >= 1,
        r >= 0,
        0 <= c < cols,
        0 <= k < D,
    ensures
        flat_index(cols, r, c, k) % (D as int) == k,
        (flat_index(cols, r, c, k) / (D as int)) % cols == c,
        (flat_index(cols, r, c, k) / (D as int)) / cols == r,
{
    vstd::arithmetic::div_mod::lemma_fundamental_div_mod_converse(
        flat_index(cols, r, c, k),
        D as int,
        r * cols + c,
        k,
    );
    vstd::arithmetic::div_mod::lemma_fundamental_div_mod_converse(r * cols + c, cols, r, c);
}

/// Flat indices of earlier entries come first.
proof fn lemma_flat_order(cols: int, r1: int, c1: int, k1: int, r2: int, c2: int)
    requires
        cols >= 1,
        0 <= r1,
        0 <= c1 < cols,
        0 <= k1 < D,
        0 <= c2 <= cols,
        r1 < r2 || (r1 == r2 && c1 < c2),
    ensures
        0 <= flat_index(cols, r1, c1, k1) < (r2 * cols + c2) * (D as int),
{
    assert(r1 * cols + c1 + 1 <= r2 * cols + c2) by (nonlinear_arith)
        requires
            cols >= 1,
            0 <= r1,
            0 <= c1 < cols,
            0 <= c2,
            r1 < r2 || (r1 == r2 && c1 < c2),
    ;
    assert(flat_index(cols, r1, c1, k1) < (r1 * cols + c1 + 1) * (D as int)) by (nonlinear_arith)
        requires
            0 <= k1 < D,
    ;
    assert((r1 * cols + c1 + 1) * (D as int) <= (r2 * cols + c2) * (D as int)) by (nonlinear_arith)
        requires
            r1 * cols + c1 + 1 <= r2 * cols + c2,
    ;
    assert(0 <= flat_index(cols, r1, c1, k1)) by (nonlinear_arith)
        requires
            cols >= 1,
            0 <= r1,
            0 <= c1,
            0 <= k1,
    ;
}

/// `mat` is the `rows × cols` matrix expanded under `label` from state `st`.
pub open spec fn expanded_matrix(
    mat: Seq<Vec<RingElem>>,
    st: Seq<u8>,
    label: Seq<u8>,
    rows: nat,
    cols: nat,
    ring: Ring,
) -> bool {
    let run = expand_run(st, label, cols, ring.m.q, rows * cols * (D as nat));
    &&& run.0 is Some
    &&& mat.len() == rows
    &&& matrix_fits(mat, cols, ring)
    &&& forall|r: int, c: int, k: int|
        0 <= r < rows && 0 <= c < cols && 0 <= k < D ==> (#[trigger] mat[r]@[c].c[k]) == run.0->0[flat_index(
            cols as int,
            r,
            c,
            k,
        )]
}

/// The label of one coefficient draw.
fn entry_label_bytes(label: &[u8], r: usize, c: usize, k: usize) -> (out: Vec<u8>)
    ensures
        out@ == entry_label(label@, r as int, c as int, k as int),
{
    let mut out: Vec<u8> = Vec::new();
    out.extend_from_slice(label);
    out.extend_from_slice(&BAR);
    out.extend_from_slice(&u64_le_bytes(r as u64));
    out.extend_from_slice(&u64_le_bytes(c as u64));
    out.extend_from_slice(&u64_le_bytes(k as u64));
    assert(out@ =~= entry_label(label@, r as int, c as int, k as int));
    out
}

/// Expand a `rows × cols` matrix over `S_{q'}` from the transcript: every
/// coefficient is a fresh `derive_below(·, q')` under its own label. `None`
/// when a draw fails.
pub fn expand_matrix(t: &mut Transcript, label: &[u8], rows: usize, cols: usize, ring: &Ring) -> (res:
    Option<Vec<Vec<RingElem>>>)
    requires
        ring.wf(),
    ensures
        ({
            let run = expand_run(old(t).absorbed(), label@, cols as nat, ring.m.q, (rows * cols * D) as nat);
            &&& final(t).absorbed() == run.1
            &&& match res {
                Some(mat) => expanded_matrix(mat@, old(t).absorbed(), label@, rows as nat, cols as nat, *ring),
                None => run.0 is None,
            }
        }),
{
    let q = ring.m.q;
    let ghost st0 = t.absorbed();
    let ghost mut flat: Seq<u64> = Seq::empty();
    let mut out: Vec<Vec<RingElem>> = Vec::new();
    let mut r: usize = 0;
    assert((0 * cols * D) as nat == 0) by (nonlinear_arith);
    while r < rows
        invariant
            ring.wf(),
            q == ring.m.q,
            st0 == old(t).absorbed(),
            0 <= r <= rows,
            (Some(flat), t.absorbed()) == expand_run(st0, label@, cols as nat, q, (r * cols * D) as nat),
            flat.len() == r * cols * D,
            out@.len() == r,
            matrix_fits(out@, cols as nat, *ring),
            forall|rr: int, c: int, k: int|
                0 <= rr < r && 0 <= c < cols && 0 <= k < D ==> (#[trigger] out@[rr]@[c].c[k])
                    == flat[flat_index(cols as int, rr, c, k)],
        decreases rows - r,
    {
        let mut row: Vec<RingElem> = Vec::new();
        let mut c: usize = 0;
        assert(((r * cols + 0) * D) as nat == (r * cols * D) as nat) by (nonlinear_arith);
        while c < cols
            invariant
                ring.wf(),
                q == ring.m.q,
                st0 == old(t).absorbed(),
                0 <= r < rows,
                0 <= c <= cols,
                (Some(flat), t.absorbed()) == expand_run(st0, label@, cols as nat, q, ((r * cols + c) * D) as nat),
                flat.len() == (r * cols + c) * D,
                out@.len() == r,
                matrix_fits(out@, cols as nat, *ring),
                forall|rr: int, cc: int, k: int|
                    0 <= rr < r && 0 <= cc < cols && 0 <= k < D ==> (#[trigger] out@[rr]@[cc].c[k])
                        == flat[flat_index(cols as int, rr, cc, k)],
                row@.len() == c,
                elems_wf(row@, ring.m),
                forall|cc: int, k: int|
                    0 <= cc < c && 0 <= k < D ==> (#[trigger] row@[cc].c[k]) == flat[flat_index(cols as int, r as int, cc, k)],
            decreases cols - c,
        {
            let mut e = RingElem::zero();
            let mut k: usize = 0;
            while k < D
                invariant
                    ring.wf(),
                    q == ring.m.q,
                    st0 == old(t).absorbed(),
                    0 <= r < rows,
                    0 <= c < cols,
                    0 <= k <= D,
                    (Some(flat), t.absorbed()) == expand_run(st0, label@, cols as nat, q, ((r * cols + c) * D + k) as nat),
                    flat.len() == (r * cols + c) * D + k,
                    out@.len() == r,
                    matrix_fits(out@, cols as nat, *ring),
                    forall|rr: int, cc: int, kk: int|
                        0 <= rr < r && 0 <= cc < cols && 0 <= kk < D ==> (#[trigger] out@[rr]@[cc].c[kk])
                            == flat[flat_index(cols as int, rr, cc, kk)],
                    row@.len() == c,
                    elems_wf(row@, ring.m),
                    forall|cc: int, kk: int|
                        0 <= cc < c && 0 <= kk < D ==> (#[trigger] row@[cc].c[kk]) == flat[flat_index(cols as int, r as int, cc, kk)],
                    forall|kk: int| 0 <= kk < k ==> (#[trigger] e.c[kk]) == flat[flat_index(cols as int, r as int, c as int, kk)],
                    forall|kk: int| 0 <= kk < D ==> (#[trigger] e.c[kk]) < q,
                decreases D - k,
            {
                let sub = entry_label_bytes(label, r, c, k);
                let ghost i = ((r * cols + c) * D + k) as nat;
                proof {
                    lemma_flat_index(cols as int, r as int, c as int, k as int);
                    assert(i == flat_index(cols as int, r as int, c as int, k as int));
                    assert(((i + 1) - 1) as int == i);
                    lemma_flat_order(cols as int, r as int, c as int, k as int, rows as int, 0);
                    assert(rows * cols * D == (rows * cols + 0) * D) by (nonlinear_arith);
                }
                let v = match t.derive_below(&sub, q) {
                    Some(v) => v,
                    None => {
                        proof {
                            lemma_expand_run_none(st0, label@, cols as nat, q, i + 1, (rows * cols * D) as nat);
                        }
                        return None;
                    },
                };
                let ghost old_flat = flat;
                proof {
                    flat = flat.push(v);
                    assert forall|rr: int, cc: int, kk: int|
                        0 <= rr < r && 0 <= cc < cols && 0 <= kk < D implies (#[trigger] out@[rr]@[cc].c[kk])
                            == flat[flat_index(cols as int, rr, cc, kk)] by {
                        lemma_flat_order(cols as int, rr, cc, kk, r as int, c as int);
                        assert(flat[flat_index(cols as int, rr, cc, kk)] == old_flat[flat_index(cols as int, rr, cc, kk)]);
                    }
                    assert forall|cc: int, kk: int|
                        0 <= cc < c && 0 <= kk < D implies (#[trigger] row@[cc].c[kk]) == flat[flat_index(cols as int, r as int, cc, kk)] by {
                        lemma_flat_order(cols as int, r as int, cc, kk, r as int, c as int);
                        assert(flat[flat_index(cols as int, r as int, cc, kk)] == old_flat[flat_index(cols as int, r as int, cc, kk)]);
                    }
                    assert forall|kk: int| 0 <= kk < k implies (#[trigger] e.c[kk]) == flat[flat_index(cols as int, r as int, c as int, kk)] by {
                        assert(flat_index(cols as int, r as int, c as int, kk) < i);
                    }
                }
                e.c[k] = v;
                k += 1;
            }
            row.push(e);
            proof {
                assert(((r * cols + c) * D + D) as nat == ((r * cols + (c + 1)) * D) as nat) by (nonlinear_arith);
            }
            c += 1;
        }
        proof {
            assert(((r * cols + cols) * D) as nat == ((r + 1) * cols * D) as nat) by (nonlinear_arith);
        }
        out.push(row);
        r += 1;
    }
    Some(out)
}

/// Once a draw fails, expanding further coefficients fails too (and leaves
/// the state where the failure left it).
proof fn lemma_expand_run_none(st: Seq<u8>, label: Seq<u8>, cols: nat, q: u64, i: nat, j: nat)
    requires
        i <= j,
        expand_run(st, label, cols, q, i).0 is None,
    ensures
        expand_run(st, label, cols, q, j) == expand_run(st, label, cols, q, i),
    decreases j - i,
{
    if i < j {
        lemma_expand_run_none(st, label, cols, q, i, (j - 1) as nat);
    }
}

} // verus!
