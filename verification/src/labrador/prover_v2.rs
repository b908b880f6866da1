//! The LaBRADOR prover with outer commitments and the JL projection
//! (one iteration): inner commitments `v_i = A·w_i` decomposed and
//! outer-committed with the Gram matrix `g` in `u_1`, the projection `p`
//! and its constraints, the aggregated constant-term values `b''`, the
//! linear garbage `h` outer-committed in `u_2`, and the amortized opening
//! `z = Σ c_i w_i` decomposed as `z = z^(0) + b·z^(1)`.
use crate::labrador::aggregation::aggregate_full;
use crate::labrador::binding::{absorb_ring_vec, bind_statement, statement_records};
use crate::labrador::challenge::challenge_ok;
use crate::labrador::commit::{add_vec, commit_inner, expand_matrix, expanded_matrix, matmul_row, matrix_fits};
use crate::labrador::encode::{i128_le_bytes, le128};
use crate::labrador::garbage::{compute_g, compute_h, decompose, digit_of, phis_fit, vectors_fit};
use crate::labrador::jl::{
    build_jl_constraints, combined_projection, lemma_pi_row_fits, pi_row_spec, project_combined, projections_fit,
    row_fits, sample_projection, PROJECTION_ROWS,
};
use crate::labrador::outer::{expand_b_mats, expand_sym_mats, outer_commit_sym, outer_commit_v, sym_kappa1};
use crate::labrador::proofs::{IterationLastMsg, IterationProofV2};
use crate::labrador::prover::{
    aggregate_const_all, amortize, amortized, derive_psis, is_ceil_log2, k_double_prime, label1, sample_challenges,
    sample_ring_elements, LABEL_A, LABEL_ALPHA, LABEL_BETA, LABEL_BPP, LAMBDA,
};
use crate::labrador::statement::{
    elem, elems_wf, inner_spec, phi_wf, qof, vecs, wit_shape, zero_poly, ConstTermConstraint, DotConstraint, Statement,
    Witness,
};
use crate::labrador::transcript::{absorb_record, challenge_out, Transcript};
use crate::modring::modulus::{centered_of, Modulus};
use crate::modring::poly::{RingElem, D};
use vstd::prelude::*;

verus! {

/// `labrador.B`
pub const LABEL_B: [u8; 10] = [108u8, 97, 98, 114, 97, 100, 111, 114, 46, 66];

/// `labrador.C`
pub const LABEL_CM: [u8; 10] = [108u8, 97, 98, 114, 97, 100, 111, 114, 46, 67];

/// `labrador.D`
pub const LABEL_D: [u8; 10] = [108u8, 97, 98, 114, 97, 100, 111, 114, 46, 68];

/// `labrador.u1`
pub const LABEL_U1: [u8; 11] = [108u8, 97, 98, 114, 97, 100, 111, 114, 46, 117, 49];

/// `labrador.Pi`
pub const LABEL_PI: [u8; 11] = [108u8, 97, 98, 114, 97, 100, 111, 114, 46, 80, 105];

/// `labrador.p`
pub const LABEL_P: [u8; 10] = [108u8, 97, 98, 114, 97, 100, 111, 114, 46, 112];

/// `labrador.u2`
pub const LABEL_U2: [u8; 11] = [108u8, 97, 98, 114, 97, 100, 111, 114, 46, 117, 50];

/// The integer parameters of one iteration: the amortized-opening base
/// `b`, the bases and part counts `(b1, t1)`, `(b2, t2)` of the inner
/// commitments / linear garbage and of the Gram matrix, and the Ajtai ranks
/// `κ`, `κ₁`.
#[derive(Clone, Copy, Debug)]
pub struct IterationParams {
    /// Base of `z = z^(0) + b·z^(1)`.
    pub b: u64,
    /// Base of the decomposition of `v` and `h`.
    pub b1: u64,
    /// Parts of the decomposition of `v` and `h`.
    pub t1: u64,
    /// Base of the decomposition of `g`.
    pub b2: u64,
    /// Parts of the decomposition of `g`.
    pub t2: u64,
    /// Inner Ajtai rank `κ`.
    pub kappa: u64,
    /// Outer Ajtai rank `κ₁`.
    pub kappa1: u64,
    /// The squared norm bound `β'²` on the decomposed pieces the next
    /// iteration carries.
    pub next_beta_sq: i128,
}

impl IterationParams {
    /// Usable parameters: positive bases and part counts and ranks that fit
    /// in memory.
    pub open spec fn wf(&self) -> bool {
        &&& self.b >= 1
        &&& self.b1 >= 1
        &&& self.b2 >= 1
        &&& 1 <= self.t1 <= 64
        &&& 1 <= self.t2 <= 64
        &&& 1 <= self.kappa <= 0x1_0000
        &&& 1 <= self.kappa1 <= 0x1_0000
    }
}

// ---------------------------------------------------------------------------
// Copies of constraints (field by field)
// ---------------------------------------------------------------------------

/// A copy of a sparse vector.
fn copy_sparse(sp: &Vec<(usize, RingElem)>) -> (out: Vec<(usize, RingElem)>)
    ensures
        out@ == sp@,
{
    let mut out: Vec<(usize, RingElem)> = Vec::new();
    for i in 0..sp.len()
        invariant
            out@ == sp@.subrange(0, i as int),
    {
        out.push(sp[i]);
        assert(out@ =~= sp@.subrange(0, i + 1));
    }
    assert(out@ =~= sp@);
    out
}

/// A copy of a quadratic part.
fn copy_pairs(a: &Vec<(usize, usize, RingElem)>) -> (out: Vec<(usize, usize, RingElem)>)
    ensures
        out@ == a@,
{
    let mut out: Vec<(usize, usize, RingElem)> = Vec::new();
    for i in 0..a.len()
        invariant
            out@ == a@.subrange(0, i as int),
    {
        out.push(a[i]);
        assert(out@ =~= a@.subrange(0, i + 1));
    }
    assert(out@ =~= a@);
    out
}

/// Two linear parts agree entry by entry.
pub open spec fn same_phi(x: Seq<(usize, Vec<(usize, RingElem)>)>, y: Seq<(usize, Vec<(usize, RingElem)>)>) -> bool {
    &&& x.len() == y.len()
    &&& forall|t: int| 0 <= t < x.len() ==> (#[trigger] x[t]).0 == y[t].0 && x[t].1@ == y[t].1@
}

/// A copy of a linear part.
fn copy_phi(phi: &Vec<(usize, Vec<(usize, RingElem)>)>) -> (out: Vec<(usize, Vec<(usize, RingElem)>)>)
    ensures
        same_phi(out@, phi@),
{
    let mut out: Vec<(usize, Vec<(usize, RingElem)>)> = Vec::new();
    for i in 0..phi.len()
        invariant
            out@.len() == i,
            forall|t: int| 0 <= t < i ==> (#[trigger] out@[t]).0 == phi@[t].0 && out@[t].1@ == phi@[t].1@,
    {
        let sp = copy_sparse(&phi[i].1);
        out.push((phi[i].0, sp));
    }
    out
}

/// `phi_wf` depends only on the entries' indices and views.
proof fn lemma_same_phi_wf(x: Seq<(usize, Vec<(usize, RingElem)>)>, y: Seq<(usize, Vec<(usize, RingElem)>)>, r: int, n: int, m: Modulus)
    requires
        same_phi(x, y),
        phi_wf(y, r, n, m),
    ensures
        phi_wf(x, r, n, m),
{
    assert forall|t: int| 0 <= t < x.len() implies {
        &&& (#[trigger] x[t]).0 < r
        &&& forall|s: int|
            0 <= s < x[t].1@.len() ==> {
                &&& (#[trigger] x[t].1@[s]).0 < n
                &&& x[t].1@[s].1.wf(m)
            }
    } by {
        assert(y[t].0 < r);
        assert forall|s: int| 0 <= s < x[t].1@.len() implies {
            &&& (#[trigger] x[t].1@[s]).0 < n
            &&& x[t].1@[s].1.wf(m)
        } by {
            assert(x[t].1@[s] == y[t].1@[s]);
        }
    }
}

/// A full constraint with the same content.
fn copy_dot(c: &DotConstraint) -> (out: DotConstraint)
    ensures
        out.a@ == c.a@,
        same_phi(out.phi@, c.phi@),
        out.b == c.b,
{
    DotConstraint { a: copy_pairs(&c.a), phi: copy_phi(&c.phi), b: c.b }
}

/// A constant-term constraint with the same content.
fn copy_ct(c: &ConstTermConstraint) -> (out: ConstTermConstraint)
    ensures
        out.a@ == c.a@,
        same_phi(out.phi@, c.phi@),
        out.b0 == c.b0,
{
    ConstTermConstraint { a: copy_pairs(&c.a), phi: copy_phi(&c.phi), b0: c.b0 }
}

/// `out` is `stmt` with the constant-term constraints `extra` appended:
/// same ring, shape and bound, constraints copied entry by entry.
pub open spec fn extends_with(stmt: Statement, out: Statement, extra: Seq<ConstTermConstraint>) -> bool {
    let base = stmt.const_term@.len();
    &&& out.wf()
    &&& out.ring == stmt.ring
    &&& out.n == stmt.n
    &&& out.r == stmt.r
    &&& out.beta_sq == stmt.beta_sq
    &&& out.full@.len() == stmt.full@.len()
    &&& forall|k: int|
        0 <= k < stmt.full@.len() ==> (#[trigger] out.full@[k]).a@ == stmt.full@[k].a@ && same_phi(
            out.full@[k].phi@,
            stmt.full@[k].phi@,
        ) && out.full@[k].b == stmt.full@[k].b
    &&& out.const_term@.len() == base + extra.len()
    &&& forall|k: int|
        0 <= k < base ==> (#[trigger] out.const_term@[k]).a@ == stmt.const_term@[k].a@ && same_phi(
            out.const_term@[k].phi@,
            stmt.const_term@[k].phi@,
        ) && out.const_term@[k].b0 == stmt.const_term@[k].b0
    &&& forall|k: int| 0 <= k < extra.len() ==> #[trigger] out.const_term@[base + k] == extra[k]
}

/// `stmt` with the constraints `extra` appended to its constant-term
/// constraints.
pub(crate) fn extend_statement(stmt: &Statement, extra: Vec<ConstTermConstraint>) -> (out: Statement)
    requires
        stmt.wf(),
        forall|k: int| 0 <= k < extra@.len() ==> (#[trigger] extra@[k]).wf(stmt.r as int, stmt.n as int, stmt.ring.m),
    ensures
        extends_with(*stmt, out, extra@),
{
    let ghost r = stmt.r as int;
    let ghost n = stmt.n as int;
    let mut full: Vec<DotConstraint> = Vec::new();
    for k in 0..stmt.full.len()
        invariant
            stmt.wf(),
            r == stmt.r,
            n == stmt.n,
            full@.len() == k,
            forall|t: int| 0 <= t < k ==> (#[trigger] full@[t]).wf(r, n, stmt.ring.m),
            forall|t: int|
                0 <= t < k ==> (#[trigger] full@[t]).a@ == stmt.full@[t].a@ && same_phi(full@[t].phi@, stmt.full@[t].phi@)
                    && full@[t].b == stmt.full@[t].b,
    {
        let c = copy_dot(&stmt.full[k]);
        proof {
            lemma_same_phi_wf(c.phi@, stmt.full@[k as int].phi@, r, n, stmt.ring.m);
        }
        full.push(c);
    }
    let mut cts: Vec<ConstTermConstraint> = Vec::new();
    for k in 0..stmt.const_term.len()
        invariant
            stmt.wf(),
            r == stmt.r,
            n == stmt.n,
            cts@.len() == k,
            forall|t: int| 0 <= t < k ==> (#[trigger] cts@[t]).wf(r, n, stmt.ring.m),
            forall|t: int|
                0 <= t < k ==> (#[trigger] cts@[t]).a@ == stmt.const_term@[t].a@ && same_phi(
                    cts@[t].phi@,
                    stmt.const_term@[t].phi@,
                ) && cts@[t].b0 == stmt.const_term@[t].b0,
    {
        let c = copy_ct(&stmt.const_term[k]);
        proof {
            lemma_same_phi_wf(c.phi@, stmt.const_term@[k as int].phi@, r, n, stmt.ring.m);
        }
        cts.push(c);
    }
    let ghost base_len = cts@.len();
    let mut extra = extra;
    let ghost extra0 = extra@;
    let n_extra = extra.len();
    let mut k: usize = 0;
    while k < n_extra
        invariant
            n_extra == extra0.len(),
            stmt.wf(),
            r == stmt.r,
            n == stmt.n,
            k <= extra0.len(),
            base_len == stmt.const_term@.len(),
            extra@ == extra0.subrange(k as int, extra0.len() as int),
            forall|t: int| 0 <= t < extra0.len() ==> (#[trigger] extra0[t]).wf(r, n, stmt.ring.m),
            cts@.len() == base_len + k,
            forall|t: int| 0 <= t < cts@.len() ==> (#[trigger] cts@[t]).wf(r, n, stmt.ring.m),
            forall|t: int|
                0 <= t < base_len ==> (#[trigger] cts@[t]).a@ == stmt.const_term@[t].a@ && same_phi(
                    cts@[t].phi@,
                    stmt.const_term@[t].phi@,
                ) && cts@[t].b0 == stmt.const_term@[t].b0,
            forall|t: int| 0 <= t < k ==> #[trigger] cts@[base_len + t] == extra0[t],
        decreases extra0.len() - k,
    {
        let c = extra.remove(0);
        assert(c == extra0[k as int]);
        cts.push(c);
        k = k + 1;
        assert(extra@ =~= extra0.subrange(k as int, extra0.len() as int));
    }
    Statement { ring: stmt.ring, n: stmt.n, r: stmt.r, full, const_term: cts, beta_sq: stmt.beta_sq }
}

// ---------------------------------------------------------------------------
// Decompositions
// ---------------------------------------------------------------------------

/// `ch` is chunk `c` of the `parts` base-`base` chunks of `x`: for
/// `base = 1`, `x` itself as chunk 0 and zero after it; otherwise
/// coefficient-wise digit `c` of the centered value, reduced.
pub open spec fn chunk_of(x: RingElem, ch: RingElem, q: int, base: int, c: int, parts: nat) -> bool {
    if base == 1 {
        if c == 0 {
            ch == x
        } else {
            forall|k: int| 0 <= k < D ==> (#[trigger] ch.c[k]) == 0
        }
    } else {
        forall|k: int| 0 <= k < D ==> (#[trigger] ch.c[k]) == digit_of(centered_of(x.c[k] as int, q), base, c as nat, parts) % q
    }
}

/// `decompose` gives every chunk by `chunk_of`.
fn decompose_chunks(x: &RingElem, m: &Modulus, base: u64, parts: usize) -> (chunks: Vec<RingElem>)
    requires
        m.wf(),
        x.wf(*m),
        base >= 1,
        parts >= 1,
    ensures
        chunks@.len() == parts,
        elems_wf(chunks@, *m),
        forall|c: int| 0 <= c < parts ==> chunk_of(*x, #[trigger] chunks@[c], m.q as int, base as int, c, parts as nat),
{
    let chunks = decompose(x, m, base, parts);
    proof {
        assert forall|c: int| 0 <= c < parts implies chunk_of(*x, #[trigger] chunks@[c], m.q as int, base as int, c, parts as nat) by {
            if base >= 2 {
                assert forall|k: int| 0 <= k < D implies (#[trigger] chunks@[c].c[k]) == digit_of(
                    centered_of(x.c[k] as int, m.q as int),
                    base as int,
                    c as nat,
                    parts as nat,
                ) % (m.q as int) by {}
            } else if c > 0 {
                assert forall|k: int| 0 <= k < D implies (#[trigger] chunks@[c].c[k]) == 0 by {}
            }
        }
    }
    chunks
}

/// Chunk `k` of every coordinate: `out[k][idx] = dec[idx][k]`.
fn transpose_chunks(dec: &Vec<Vec<RingElem>>, parts: usize, m: &Modulus) -> (out: Vec<Vec<RingElem>>)
    requires
        forall|idx: int| 0 <= idx < dec@.len() ==> (#[trigger] dec@[idx])@.len() == parts && elems_wf(dec@[idx]@, *m),
    ensures
        out@.len() == parts,
        forall|k: int| 0 <= k < parts ==> (#[trigger] out@[k])@.len() == dec@.len() && elems_wf(out@[k]@, *m),
        forall|k: int, idx: int|
            0 <= k < parts && 0 <= idx < dec@.len() ==> (#[trigger] out@[k]@[idx]) == dec@[idx]@[k],
{
    let mut out: Vec<Vec<RingElem>> = Vec::new();
    for k in 0..parts
        invariant
            forall|idx: int| 0 <= idx < dec@.len() ==> (#[trigger] dec@[idx])@.len() == parts && elems_wf(dec@[idx]@, *m),
            out@.len() == k,
            forall|kk: int| 0 <= kk < k ==> (#[trigger] out@[kk])@.len() == dec@.len() && elems_wf(out@[kk]@, *m),
            forall|kk: int, idx: int|
                0 <= kk < k && 0 <= idx < dec@.len() ==> (#[trigger] out@[kk]@[idx]) == dec@[idx]@[kk],
    {
        let mut row: Vec<RingElem> = Vec::new();
        for idx in 0..dec.len()
            invariant
                k < parts,
                forall|idx: int| 0 <= idx < dec@.len() ==> (#[trigger] dec@[idx])@.len() == parts && elems_wf(dec@[idx]@, *m),
                row@.len() == idx,
                forall|x: int| 0 <= x < idx ==> (#[trigger] row@[x]) == dec@[x]@[k as int],
        {
            row.push(dec[idx][k]);
        }
        proof {
            assert forall|x: int| 0 <= x < row@.len() implies (#[trigger] row@[x]).wf(*m) by {
                assert(row@[x] == dec@[x]@[k as int]);
                assert(dec@[x]@[k as int].wf(*m));
            }
        }
        out.push(row);
    }
    out
}

/// `out[i][k][idx]` is chunk `k` of `decompose(v_i[idx], base, parts)`.
pub(crate) fn decompose_commitments(v: &Vec<Vec<RingElem>>, m: &Modulus, base: u64, parts: usize) -> (out: Vec<
    Vec<Vec<RingElem>>,
>)
    requires
        m.wf(),
        base >= 1,
        parts >= 1,
        forall|i: int| 0 <= i < v@.len() ==> elems_wf((#[trigger] v@[i])@, *m),
    ensures
        out@.len() == v@.len(),
        forall|i: int| 0 <= i < v@.len() ==> (#[trigger] out@[i])@.len() == parts,
        forall|i: int, k: int|
            0 <= i < v@.len() && 0 <= k < parts ==> (#[trigger] out@[i]@[k])@.len() == v@[i]@.len() && elems_wf(
                out@[i]@[k]@,
                *m,
            ),
        forall|i: int, k: int, idx: int|
            0 <= i < v@.len() && 0 <= k < parts && 0 <= idx < v@[i]@.len() ==> chunk_of(
                v@[i]@[idx],
                #[trigger] out@[i]@[k]@[idx],
                m.q as int,
                base as int,
                k,
                parts as nat,
            ),
{
    let mut out: Vec<Vec<Vec<RingElem>>> = Vec::new();
    for i in 0..v.len()
        invariant
            m.wf(),
            base >= 1,
            parts >= 1,
            forall|i: int| 0 <= i < v@.len() ==> elems_wf((#[trigger] v@[i])@, *m),
            out@.len() == i,
            forall|ii: int| 0 <= ii < i ==> (#[trigger] out@[ii])@.len() == parts,
            forall|ii: int, k: int|
                0 <= ii < i && 0 <= k < parts ==> (#[trigger] out@[ii]@[k])@.len() == v@[ii]@.len() && elems_wf(
                    out@[ii]@[k]@,
                    *m,
                ),
            forall|ii: int, k: int, idx: int|
                0 <= ii < i && 0 <= k < parts && 0 <= idx < v@[ii]@.len() ==> chunk_of(
                    v@[ii]@[idx],
                    #[trigger] out@[ii]@[k]@[idx],
                    m.q as int,
                    base as int,
                    k,
                    parts as nat,
                ),
    {
        let mut dec: Vec<Vec<RingElem>> = Vec::new();
        let len_i = v[i].len();
        for idx in 0..len_i
            invariant
                len_i == v@[i as int]@.len(),
                m.wf(),
                base >= 1,
                parts >= 1,
                i < v@.len(),
                elems_wf(v@[i as int]@, *m),
                dec@.len() == idx,
                forall|x: int| 0 <= x < idx ==> (#[trigger] dec@[x])@.len() == parts && elems_wf(dec@[x]@, *m),
                forall|x: int, k: int|
                    0 <= x < idx && 0 <= k < parts ==> chunk_of(
                        v@[i as int]@[x],
                        #[trigger] dec@[x]@[k],
                        m.q as int,
                        base as int,
                        k,
                        parts as nat,
                    ),
        {
            assert(v@[i as int]@[idx as int].wf(*m));
            let chunks = decompose_chunks(&v[i][idx], m, base, parts);
            dec.push(chunks);
        }
        let per_i = transpose_chunks(&dec, parts, m);
        out.push(per_i);
    }
    out
}

/// `out[i][j] = decompose(x_ij, base, parts)` on the upper triangle, empty
/// below it.
pub(crate) fn decompose_upper(x: &Vec<Vec<RingElem>>, m: &Modulus, base: u64, parts: usize) -> (out: Vec<
    Vec<Vec<RingElem>>,
>)
    requires
        m.wf(),
        base >= 1,
        parts >= 1,
        forall|i: int| 0 <= i < x@.len() ==> (#[trigger] x@[i])@.len() == x@.len() && elems_wf(x@[i]@, *m),
    ensures
        out@.len() == x@.len(),
        forall|i: int| 0 <= i < x@.len() ==> (#[trigger] out@[i])@.len() == x@.len(),
        forall|i: int, j: int|
            0 <= i <= j < x@.len() ==> (#[trigger] out@[i]@[j])@.len() == parts && elems_wf(out@[i]@[j]@, *m),
        forall|i: int, j: int| 0 <= j < i < x@.len() ==> (#[trigger] out@[i]@[j])@.len() == 0,
        forall|i: int, j: int, k: int|
            0 <= i <= j < x@.len() && 0 <= k < parts ==> chunk_of(
                x@[i]@[j],
                #[trigger] out@[i]@[j]@[k],
                m.q as int,
                base as int,
                k,
                parts as nat,
            ),
{
    let r = x.len();
    let mut out: Vec<Vec<Vec<RingElem>>> = Vec::new();
    for i in 0..r
        invariant
            m.wf(),
            base >= 1,
            parts >= 1,
            r == x@.len(),
            forall|i: int| 0 <= i < x@.len() ==> (#[trigger] x@[i])@.len() == x@.len() && elems_wf(x@[i]@, *m),
            out@.len() == i,
            forall|ii: int| 0 <= ii < i ==> (#[trigger] out@[ii])@.len() == r,
            forall|ii: int, j: int|
                0 <= ii < i && ii <= j < r ==> (#[trigger] out@[ii]@[j])@.len() == parts && elems_wf(out@[ii]@[j]@, *m),
            forall|ii: int, j: int| 0 <= ii < i && 0 <= j < ii ==> (#[trigger] out@[ii]@[j])@.len() == 0,
            forall|ii: int, j: int, k: int|
                0 <= ii < i && ii <= j < r && 0 <= k < parts ==> chunk_of(
                    x@[ii]@[j],
                    #[trigger] out@[ii]@[j]@[k],
                    m.q as int,
                    base as int,
                    k,
                    parts as nat,
                ),
    {
        let mut row: Vec<Vec<RingElem>> = Vec::new();
        for j in 0..r
            invariant
                m.wf(),
                base >= 1,
                parts >= 1,
                r == x@.len(),
                i < r,
                forall|i: int| 0 <= i < x@.len() ==> (#[trigger] x@[i])@.len() == x@.len() && elems_wf(x@[i]@, *m),
                row@.len() == j,
                forall|jj: int| i <= jj < j ==> (#[trigger] row@[jj])@.len() == parts && elems_wf(row@[jj]@, *m),
                forall|jj: int| 0 <= jj < j && jj < i ==> (#[trigger] row@[jj])@.len() == 0,
                forall|jj: int, k: int|
                    i <= jj < j && 0 <= k < parts ==> chunk_of(
                        x@[i as int]@[jj],
                        #[trigger] row@[jj]@[k],
                        m.q as int,
                        base as int,
                        k,
                        parts as nat,
                    ),
        {
            if j < i {
                row.push(Vec::new());
            } else {
                assert(x@[i as int]@[j as int].wf(*m));
                let chunks = decompose_chunks(&x[i][j], m, base, parts);
                row.push(chunks);
            }
        }
        out.push(row);
    }
    out
}

// ---------------------------------------------------------------------------
// The JL projection
// ---------------------------------------------------------------------------

/// `Π_i` for `i < r`, each sampled for `cols` coordinates under
/// `labrador.Pi ‖ i`.
pub(crate) fn sample_projections(t: &mut Transcript, r: usize, cols: usize) -> (pis: Vec<Vec<Vec<(usize, i8)>>>)
    requires
        cols + 3 <= usize::MAX,
        (cols + 3) / 4 * PROJECTION_ROWS <= usize::MAX,
    ensures
        pis@.len() == r,
        forall|i: int| 0 <= i < r ==> (#[trigger] pis@[i])@.len() == PROJECTION_ROWS,
        forall|i: int, j: int|
            0 <= i < r && 0 <= j < PROJECTION_ROWS ==> row_fits((#[trigger] pis@[i]@[j])@, cols as nat),
{
    proof {
        assert forall|bytes: Seq<u8>| #[trigger] row_fits(pi_row_spec(bytes, cols as nat), cols as nat) by {
            lemma_pi_row_fits(bytes, cols as nat, cols as nat);
        }
    }
    let mut pis: Vec<Vec<Vec<(usize, i8)>>> = Vec::new();
    for i in 0..r
        invariant
            cols + 3 <= usize::MAX,
            (cols + 3) / 4 * PROJECTION_ROWS <= usize::MAX,
            forall|bytes: Seq<u8>| #[trigger] row_fits(pi_row_spec(bytes, cols as nat), cols as nat),
            pis@.len() == i,
            forall|ii: int| 0 <= ii < i ==> (#[trigger] pis@[ii])@.len() == PROJECTION_ROWS,
            forall|ii: int, j: int|
                0 <= ii < i && 0 <= j < PROJECTION_ROWS ==> row_fits((#[trigger] pis@[ii]@[j])@, cols as nat),
    {
        let label = label1(&LABEL_PI, i as u64);
        let ghost st = t.absorbed();
        let rows = sample_projection(t, &label, cols);
        proof {
            let nb = (cols + 3) / 4;
            let bytes = challenge_out(st, label@, (nb * PROJECTION_ROWS) as nat);
            assert forall|j: int| 0 <= j < PROJECTION_ROWS implies row_fits((#[trigger] rows@[j])@, cols as nat) by {
                assert(rows@[j]@ == pi_row_spec(bytes.subrange(j * nb, (j + 1) * nb), cols as nat));
            }
        }
        pis.push(rows);
    }
    pis
}

/// `p` as 16 little-endian bytes per entry, in order.
pub open spec fn projection_bytes(p: Seq<i128>) -> Seq<u8>
    decreases p.len(),
{
    if p.len() == 0 {
        Seq::empty()
    } else {
        projection_bytes(p.drop_last()) + le128(p.last())
    }
}

/// Absorb the projection `p` under `label`.
pub(crate) fn absorb_projection(t: &mut Transcript, label: &[u8], p: &Vec<i128>)
    ensures
        final(t).absorbed() == old(t).absorbed() + absorb_record(label@, projection_bytes(p@)),
{
    let mut buf: Vec<u8> = Vec::new();
    for j in 0..p.len()
        invariant
            buf@ == projection_bytes(p@.subrange(0, j as int)),
    {
        let b = i128_le_bytes(p[j]);
        buf.extend_from_slice(&b);
        proof {
            assert(p@.subrange(0, j + 1).drop_last() =~= p@.subrange(0, j as int));
        }
    }
    assert(p@.subrange(0, p@.len() as int) =~= p@);
    t.absorb(label, &buf);
}

/// The projection as a vector.
fn projection_vec(arr: &[i128; PROJECTION_ROWS]) -> (p: Vec<i128>)
    ensures
        p@ == arr@,
{
    let mut p: Vec<i128> = Vec::new();
    for j in 0..PROJECTION_ROWS
        invariant
            p@ == arr@.subrange(0, j as int),
    {
        p.push(arr[j]);
        assert(p@ =~= arr@.subrange(0, j + 1));
    }
    assert(arr@.subrange(0, PROJECTION_ROWS as int) =~= arr@);
    p
}

// ---------------------------------------------------------------------------
// The amortized opening
// ---------------------------------------------------------------------------

/// `lo`, `hi` are the two base-`b` chunks of `x`: for `b = 1`, `x` and zero;
/// otherwise coefficient-wise the low balanced digit of the centered value
/// and what remains, both reduced.
pub open spec fn split_ok(x: RingElem, lo: RingElem, hi: RingElem, q: int, b: int) -> bool {
    if b == 1 {
        lo == x && forall|k: int| 0 <= k < D ==> (#[trigger] hi.c[k]) == 0
    } else {
        forall|k: int|
            0 <= k < D ==> (#[trigger] lo.c[k]) == digit_of(centered_of(x.c[k] as int, q), b, 0, 2) % q && hi.c[k]
                == digit_of(centered_of(x.c[k] as int, q), b, 1, 2) % q
    }
}

/// Each `z_k` split into its two base-`base` chunks.
fn split_all(z: &Vec<RingElem>, m: &Modulus, base: u64) -> (res: (Vec<RingElem>, Vec<RingElem>))
    requires
        m.wf(),
        base >= 1,
        elems_wf(z@, *m),
    ensures
        res.0@.len() == z@.len(),
        res.1@.len() == z@.len(),
        forall|k: int|
            0 <= k < z@.len() ==> split_ok(z@[k], #[trigger] res.0@[k], res.1@[k], m.q as int, base as int),
{
    let mut z0: Vec<RingElem> = Vec::new();
    let mut z1: Vec<RingElem> = Vec::new();
    for k in 0..z.len()
        invariant
            m.wf(),
            base >= 1,
            elems_wf(z@, *m),
            z0@.len() == k,
            z1@.len() == k,
            forall|kk: int|
                0 <= kk < k ==> split_ok(z@[kk], #[trigger] z0@[kk], z1@[kk], m.q as int, base as int),
    {
        assert(z@[k as int].wf(*m));
        let chunks = decompose(&z[k], m, base, 2);
        proof {
            if base >= 2 {
                assert forall|c: int| 0 <= c < D implies (#[trigger] chunks@[0].c[c]) == digit_of(
                    centered_of(z@[k as int].c[c] as int, m.q as int),
                    base as int,
                    0,
                    2,
                ) % (m.q as int) && chunks@[1].c[c] == digit_of(
                    centered_of(z@[k as int].c[c] as int, m.q as int),
                    base as int,
                    1,
                    2,
                ) % (m.q as int) by {
                    assert(chunks@[1].c[c] == chunks@[1].c[c]);
                }
            } else {
                assert forall|c: int| 0 <= c < D implies (#[trigger] chunks@[1].c[c]) == 0 by {}
            }
        }
        z0.push(chunks[0]);
        z1.push(chunks[1]);
    }
    (z0, z1)
}

// ---------------------------------------------------------------------------
// The prover
// ---------------------------------------------------------------------------

/// `p` is the sum over `i` of `±1` projections of the coefficients of `w_i`.
pub open spec fn projected(w: Seq<Vec<RingElem>>, m: Modulus, p: Seq<i128>) -> bool {
    exists|pis: Seq<Vec<Vec<(usize, i8)>>>|
        #[trigger] projections_fit(pis, w, m) && forall|j: int|
            0 <= j < PROJECTION_ROWS ==> #[trigger] p[j] == combined_projection(pis, w, m.q as int, j, w.len())
}

/// `v_i = A·w_i` for the `κ × n` matrix `A` expanded under `labrador.A`
/// once `stmt` is bound onto transcript state `st`.
pub open spec fn committed(stmt: Statement, w: Seq<Vec<RingElem>>, kappa: nat, st: Seq<u8>, v: Seq<Vec<RingElem>>) -> bool {
    exists|a: Seq<Vec<RingElem>>|
        #[trigger] expanded_matrix(a, st + statement_records(stmt), LABEL_A@, kappa, stmt.n as nat, stmt.ring)
            && forall|i: int, row: int|
            0 <= i < stmt.r && 0 <= row < kappa ==> v[i]@.len() == kappa && elem(#[trigger] v[i]@[row]) == matmul_row(
                stmt.ring,
                a,
                vecs(w)[i],
                row,
            )
}

/// `z0`, `z1` are the base-`b` split of `z = Σ c_i w_i` for challenges `c_i`
/// of the required shape.
pub open spec fn opened(stmt: Statement, w: Seq<Vec<RingElem>>, b: int, z0: Seq<RingElem>, z1: Seq<RingElem>) -> bool {
    exists|cs: Seq<RingElem>, zs: Seq<RingElem>|
        #[trigger] amortized_opening(stmt, w, cs, zs) && forall|k: int|
            0 <= k < stmt.n ==> split_ok(#[trigger] zs[k], z0[k], z1[k], stmt.ring.m.q as int, b)
}

/// `zs_k = Σ_i c_i w_i[k]` for `r` challenges `c_i` of the required shape.
pub open spec fn amortized_opening(stmt: Statement, w: Seq<Vec<RingElem>>, cs: Seq<RingElem>, zs: Seq<RingElem>) -> bool {
    &&& cs.len() == stmt.r
    &&& zs.len() == stmt.n
    &&& forall|i: int| 0 <= i < stmt.r ==> challenge_ok(#[trigger] cs[i], qof(stmt.ring))
    &&& forall|k: int| 0 <= k < stmt.n ==> elem(#[trigger] zs[k]) == amortized(stmt.ring, cs, vecs(w), k, stmt.r as nat)
}

/// What an outer-committed iteration proof produced for `stmt` with witness
/// vectors `w` under `params` from transcript state `st` consists of:
/// `u_1`, `u_2` of `κ₁` elements; `p` the sum over `i` of `±1` projections
/// of the coefficients of `w_i`; `K''` values `b''`; and the last message
/// with `v_i = A·w_i` for the matrix `A` expanded after the statement is
/// bound, the Gram matrix `g` (upper triangle, zero below), `r × r` garbage
/// `h` (zero below the diagonal), and `z^(0)`, `z^(1)` the base-`b` split of
/// `z = Σ c_i w_i` for challenges `c_i` of the required shape.
pub open spec fn prove_v2_facts(
    stmt: Statement,
    w: Seq<Vec<RingElem>>,
    params: IterationParams,
    st: Seq<u8>,
    pr: IterationProofV2,
) -> bool {
    let ring = stmt.ring;
    let r = stmt.r as int;
    let n = stmt.n as int;
    let q = ring.m.q as int;
    let ws = vecs(w);
    let kappa = params.kappa as int;
    &&& pr.u1@.len() == pr.u2@.len()
    &&& (r >= 1 ==> pr.u1@.len() == params.kappa1)
    &&& pr.p@.len() == PROJECTION_ROWS
    &&& projected(w, ring.m, pr.p@)
    &&& exists|e: nat|
        is_ceil_log2(e, q) && e >= 2 && #[trigger] pr.b_double_prime@.len() == (LAMBDA + e - 1) / (e as int)
    &&& pr.last_msg matches Some(lm) && {
        &&& lm.v@.len() == r
        &&& committed(stmt, w, params.kappa as nat, st, lm.v@)
        &&& lm.g@.len() == r
        &&& lm.h@.len() == r
        &&& forall|i: int| 0 <= i < r ==> (#[trigger] lm.g@[i])@.len() == r && lm.h@[i]@.len() == r
        &&& forall|i: int, j: int|
            0 <= i <= j < r ==> elem(#[trigger] lm.g@[i]@[j]) == inner_spec(ring, ws[i], ws[j], ws[i].len())
        &&& forall|i: int, j: int| 0 <= j < i < r ==> elem(#[trigger] lm.g@[i]@[j]) == zero_poly()
        &&& forall|i: int, j: int| 0 <= j < i < r ==> elem(#[trigger] lm.h@[i]@[j]) == zero_poly()
        &&& lm.z0@.len() == n
        &&& lm.z1@.len() == n
        &&& opened(stmt, w, params.b as int, lm.z0@, lm.z1@)
    }
}

/// Prove one LaBRADOR iteration with outer commitments and the JL
/// projection for `stmt` with witness `witness` under `params`, drawing
/// every challenge from `transcript` (which first absorbs the statement).
/// The projection constraints join the constant-term constraints before
/// they are aggregated. `None` if a transcript draw fails.
#[verifier::rlimit(80)]
#[verifier::spinoff_prover]
pub fn prove_v2(
    stmt: &Statement,
    witness: &Witness,
    params: &IterationParams,
    transcript: &mut Transcript,
) -> (res: Option<IterationProofV2>)
    requires
        stmt.wf(),
        wit_shape(witness.view_vecs(), stmt.r as int, stmt.n as int, stmt.ring.m),
        params.wf(),
        stmt.n * D <= 0x1_0000_0000,
        stmt.r <= 0x1000_0000,
        (stmt.n * D + 3) / 4 * PROJECTION_ROWS <= usize::MAX,
    ensures
        res matches Some(pr) ==> prove_v2_facts(*stmt, witness.w@, *params, old(transcript).absorbed(), pr),
{
    let ghost st0 = transcript.absorbed();
    assert(st0 == old(transcript).absorbed());
    bind_statement(transcript, stmt);
    let ring = &stmt.ring;
    let m = &ring.m;
    let n = stmt.n;
    let r = stmt.r;
    let kappa = params.kappa as usize;
    let kappa1 = params.kappa1 as usize;
    let t1 = params.t1 as usize;
    let t2 = params.t2 as usize;
    let ghost ws = witness.view_vecs();
    proof {
        assert forall|i: int| 0 <= i < witness.w@.len() implies (#[trigger] witness.w@[i])@.len() == stmt.n
            && elems_wf(witness.w@[i]@, ring.m) by {
            assert(ws[i] == witness.w@[i]@);
        }
        assert(vectors_fit(witness.w@, stmt.n as nat, *ring));
    }

    // Inner commitments, decomposed and outer-committed with the Gram matrix.
    let ghost st1 = transcript.absorbed();
    let a = match expand_matrix(transcript, &LABEL_A, kappa, n, ring) {
        Some(a) => a,
        None => {
            return None;
        },
    };
    let v = commit_inner(ring, &a, &witness.w);
    let v_chunks = decompose_commitments(&v, m, params.b1, t1);
    let g = compute_g(ring, &witness.w);
    let g_chunks = decompose_upper(&g, m, params.b2, t2);
    let b_mats = match expand_b_mats(transcript, &LABEL_B, r, t1, kappa1, kappa, ring) {
        Some(b) => b,
        None => {
            return None;
        },
    };
    let c_mats = match expand_sym_mats(transcript, &LABEL_CM, r, t2, kappa1, ring) {
        Some(c) => c,
        None => {
            return None;
        },
    };
    let u1_v = outer_commit_v(ring, &b_mats, &v_chunks);
    let u1_g = outer_commit_sym(ring, &c_mats, &g_chunks);
    proof {
        if r >= 1 {
            assert(c_mats@[0]@[0]@.len() == t2);
            assert(sym_kappa1(c_mats@) == kappa1);
            assert(b_mats@[0]@[0]@.len() == kappa1);
        }
    }
    let u1 = add_vec(ring, &u1_v, &u1_g);
    absorb_ring_vec(transcript, &LABEL_U1, &u1);

    // The JL projection and its constraints.
    let pis = sample_projections(transcript, r, n * D);
    proof {
        assert(projections_fit(pis@, witness.w@, *m));
    }
    let p_arr = project_combined(&pis, &witness.w, m);
    let p = projection_vec(&p_arr);
    absorb_projection(transcript, &LABEL_P, &p);
    let jl_extra = build_jl_constraints(&pis, &p, n, m);
    let ext = extend_statement(stmt, jl_extra);

    // Aggregated constant-term constraints of the extended statement.
    let k_pp = k_double_prime(stmt, LAMBDA);
    let psis = match derive_psis(transcript, k_pp, ext.const_term.len(), m.q) {
        Some(x) => x,
        None => {
            return None;
        },
    };
    proof {
        assert(witness.view_vecs() == ws);
    }
    let (a_pp, phi_pp, b_double_prime) = aggregate_const_all(&ext, witness, &psis);
    absorb_ring_vec(transcript, &LABEL_BPP, &b_double_prime);

    // Full aggregation and the outer commitment to the linear garbage.
    let alphas = match sample_ring_elements(transcript, &LABEL_ALPHA, stmt.full.len(), ring) {
        Some(x) => x,
        None => {
            return None;
        },
    };
    let betas = match sample_ring_elements(transcript, &LABEL_BETA, k_pp, ring) {
        Some(x) => x,
        None => {
            return None;
        },
    };
    let (_a_agg, phi_agg) = aggregate_full(stmt, &alphas, &betas, &a_pp, &phi_pp);
    proof {
        assert(phis_fit(phi_agg@, stmt.n as nat, *ring));
    }
    let h = compute_h(ring, &phi_agg, &witness.w);
    let h_chunks = decompose_upper(&h, m, params.b1, t1);
    let d_mats = match expand_sym_mats(transcript, &LABEL_D, r, t1, kappa1, ring) {
        Some(d) => d,
        None => {
            return None;
        },
    };
    let u2 = outer_commit_sym(ring, &d_mats, &h_chunks);
    proof {
        if r >= 1 {
            assert(d_mats@[0]@[0]@.len() == t1);
            assert(sym_kappa1(d_mats@) == kappa1);
        }
    }
    absorb_ring_vec(transcript, &LABEL_U2, &u2);

    // The amortized opening, split in base `b`.
    let cs = match sample_challenges(transcript, r, ring) {
        Some(c) => c,
        None => {
            return None;
        },
    };
    let z = amortize(ring, &cs, &witness.w, r, n);
    let (z0, z1) = split_all(&z, m, params.b);
    let out = IterationProofV2 {
        u1,
        p,
        b_double_prime,
        u2,
        last_msg: Some(IterationLastMsg { z0, z1, v, g, h }),
    };
    proof {
        let lm = IterationLastMsg { z0, z1, v, g, h };
        assert(kappa == params.kappa);
        assert(st1 == st0 + statement_records(*stmt));
        assert forall|i: int, row: int| 0 <= i < r && 0 <= row < params.kappa as int implies lm.v@[i]@.len()
            == params.kappa as int && elem(#[trigger] lm.v@[i]@[row]) == matmul_row(
            stmt.ring,
            a@,
            vecs(witness.w@)[i],
            row,
        ) by {
            assert(vecs(witness.w@)[i] == witness.w@[i]@);
        }
        assert(committed(*stmt, witness.w@, params.kappa as nat, st0, lm.v@)) by {
            assert(expanded_matrix(
                a@,
                st0 + statement_records(*stmt),
                LABEL_A@,
                params.kappa as nat,
                stmt.n as nat,
                stmt.ring,
            ));
        }
        assert forall|i: int, j: int| 0 <= i <= j < r implies elem(#[trigger] lm.g@[i]@[j]) == inner_spec(
            *ring,
            vecs(witness.w@)[i],
            vecs(witness.w@)[j],
            vecs(witness.w@)[i].len(),
        ) by {
            assert(vecs(witness.w@)[i] == witness.w@[i]@);
            assert(vecs(witness.w@)[j] == witness.w@[j]@);
        }
        assert(projected(witness.w@, *m, out.p@)) by {
            assert(projections_fit(pis@, witness.w@, *m));
            assert forall|j: int| 0 <= j < PROJECTION_ROWS implies #[trigger] out.p@[j] == combined_projection(
                pis@,
                witness.w@,
                m.q as int,
                j,
                witness.w@.len(),
            ) by {
                assert(out.p@[j] == p_arr[j]);
            }
        }
        assert(opened(*stmt, witness.w@, params.b as int, lm.z0@, lm.z1@)) by {
            assert(amortized_opening(*stmt, witness.w@, cs@, z@));
            assert forall|k: int| 0 <= k < stmt.n implies split_ok(
                #[trigger] z@[k],
                lm.z0@[k],
                lm.z1@[k],
                stmt.ring.m.q as int,
                params.b as int,
            ) by {
                assert(split_ok(z@[k], z0@[k], z1@[k], m.q as int, params.b as int));
            }
        }
        assert(prove_v2_facts(*stmt, witness.w@, *params, st0, out));
    }
    Some(out)
}

} // verus!
