//! The LaBRADOR verifier for one iteration with outer commitments and the
//! JL projection. It mirrors `prove_v2`: it re-derives every challenge,
//! re-decomposes `v`, `g`, `h` to open the outer commitments `u_1`, `u_2`,
//! bounds the projection `p`, checks the constant terms of `b''` against the
//! statement extended by the projection constraints, recomposes
//! `z = z^(0) + b·z^(1)` for the four amortized identities, and bounds the
//! norm of every decomposed piece.
use crate::labrador::aggregation::{aggregate_full, const_aggregated, full_aggregated};
use crate::labrador::binding::{absorb_ring_vec, bind_statement, statement_records};
use crate::labrador::challenge::challenge_ok;
use crate::labrador::commit::{add_vec, expand_matrix, expanded_matrix};
use crate::labrador::garbage::{recomp_value, recompose};
use crate::labrador::jl::{build_jl_constraints, jl_constraint_ok, PROJECTION_ROWS};
use crate::labrador::outer::{
    expand_b_mats, expand_sym_mats, outer_commit_sym, outer_commit_v, outer_sym_shapes, outer_sym_sum, outer_v_shapes,
    outer_v_sum, sym_kappa1,
};
use crate::labrador::proofs::{IterationLastMsg, IterationProofV2, VerifyError};
use crate::labrador::prover::{
    derive_psis, is_ceil_log2, k_double_prime, sample_challenges, sample_ring_elements, LABEL_A, LABEL_ALPHA,
    LABEL_BETA, LABEL_BPP, LAMBDA,
};
use crate::labrador::prover_v2::{
    absorb_projection, chunk_of, decompose_commitments, decompose_upper, extend_statement, extends_with,
    sample_projections, IterationParams, LABEL_B, LABEL_CM, LABEL_D, LABEL_P, LABEL_U1, LABEL_U2,
};
use crate::labrador::statement::{
    elem, elems_wf, inner_spec, lemma_row_norm_mono, poly_add, qof, ring_inner_product, row_norm, Statement,
};
use crate::labrador::transcript::Transcript;
use crate::labrador::verification::{
    aggregate_const_forms, aggregated_relation_ok, aggregated_rhs, check_const_terms, check_inner_opening,
    elems_reduced, inner_opening_ok, is_square, k_pp_of, lemma_ceil_log2_unique, lemma_elem_eq, linear_combination,
    linear_opening_ok, pair_combination, quadratic_opening_ok, relation_lhs, rhs_spec, rows_reduced, rows_wf, square,
    ct_matches,
};
use crate::modring::modulus::Modulus;
use crate::modring::poly::{RingElem, D};
use vstd::prelude::*;

verus! {

// ---------------------------------------------------------------------------
// Shape
// ---------------------------------------------------------------------------

/// Every coefficient of the proof and of its last message is a canonical
/// residue.
pub open spec fn v2_reduced(stmt: Statement, p: IterationProofV2, lm: IterationLastMsg) -> bool {
    let m = stmt.ring.m;
    &&& elems_wf(p.u1@, m)
    &&& elems_wf(p.u2@, m)
    &&& elems_wf(p.b_double_prime@, m)
    &&& elems_wf(lm.z0@, m)
    &&& elems_wf(lm.z1@, m)
    &&& rows_wf(lm.v@, m)
    &&& rows_wf(lm.g@, m)
    &&& rows_wf(lm.h@, m)
}

/// The first shape fault of the proof, in the order the verifier checks:
/// `u_1`, `u_2` have `κ₁` elements, `p` has `2λ`, the last message is
/// present with `z^(0)`, `z^(1)` of length `n`, `v` is `r × κ`, `g` and `h`
/// are `r × r`, and every coefficient is reduced.
pub open spec fn shape_error_v2(stmt: Statement, p: IterationProofV2, params: IterationParams) -> Option<VerifyError> {
    let r = stmt.r as int;
    let n = stmt.n as int;
    if p.u1@.len() != params.kappa1 {
        Some(VerifyError::ProofShape("u1 length"))
    } else if p.u2@.len() != params.kappa1 {
        Some(VerifyError::ProofShape("u2 length"))
    } else if p.p@.len() != PROJECTION_ROWS {
        Some(VerifyError::ProofShape("p length"))
    } else {
        match p.last_msg {
            None => Some(VerifyError::ProofShape("last message")),
            Some(lm) => {
                if lm.z0@.len() != n || lm.z1@.len() != n {
                    Some(VerifyError::ProofShape("z0/z1 length"))
                } else if lm.v@.len() != r {
                    Some(VerifyError::ProofShape("v outer"))
                } else if !(forall|i: int| 0 <= i < r ==> (#[trigger] lm.v@[i])@.len() == params.kappa) {
                    Some(VerifyError::ProofShape("v inner"))
                } else if lm.g@.len() != r || lm.h@.len() != r {
                    Some(VerifyError::ProofShape("g/h outer"))
                } else if !(is_square(lm.g@, r as nat) && is_square(lm.h@, r as nat)) {
                    Some(VerifyError::ProofShape("g/h inner"))
                } else if !v2_reduced(stmt, p, lm) {
                    Some(VerifyError::ProofShape("coefficient range"))
                } else {
                    None
                }
            },
        }
    }
}

/// Every row of `v` has `width` elements.
fn rows_of_width(v: &Vec<Vec<RingElem>>, width: u64) -> (ok: bool)
    ensures
        ok == forall|i: int| 0 <= i < v@.len() ==> (#[trigger] v@[i])@.len() == width,
{
    for i in 0..v.len()
        invariant
            forall|j: int| 0 <= j < i ==> (#[trigger] v@[j])@.len() == width,
    {
        if v[i].len() as u64 != width {
            return false;
        }
    }
    true
}

/// The first shape fault of `proof`, if any.
pub fn check_shape_v2(stmt: &Statement, proof: &IterationProofV2, params: &IterationParams) -> (res: Result<
    (),
    VerifyError,
>)
    ensures
        res == (match shape_error_v2(*stmt, *proof, *params) {
            Some(e) => Err(e),
            None => Ok(()),
        }),
{
    if proof.u1.len() as u64 != params.kappa1 {
        return Err(VerifyError::ProofShape("u1 length"));
    }
    if proof.u2.len() as u64 != params.kappa1 {
        return Err(VerifyError::ProofShape("u2 length"));
    }
    if proof.p.len() != PROJECTION_ROWS {
        return Err(VerifyError::ProofShape("p length"));
    }
    let lm = match &proof.last_msg {
        None => {
            return Err(VerifyError::ProofShape("last message"));
        },
        Some(lm) => lm,
    };
    let r = stmt.r;
    if lm.z0.len() != stmt.n || lm.z1.len() != stmt.n {
        return Err(VerifyError::ProofShape("z0/z1 length"));
    }
    if lm.v.len() != r {
        return Err(VerifyError::ProofShape("v outer"));
    }
    if !rows_of_width(&lm.v, params.kappa) {
        return Err(VerifyError::ProofShape("v inner"));
    }
    if lm.g.len() != r || lm.h.len() != r {
        return Err(VerifyError::ProofShape("g/h outer"));
    }
    if !(square(&lm.g, r) && square(&lm.h, r)) {
        return Err(VerifyError::ProofShape("g/h inner"));
    }
    let m = &stmt.ring.m;
    if !(elems_reduced(m, &proof.u1) && elems_reduced(m, &proof.u2) && elems_reduced(m, &proof.b_double_prime)
        && elems_reduced(m, &lm.z0) && elems_reduced(m, &lm.z1) && rows_reduced(m, &lm.v) && rows_reduced(m, &lm.g)
        && rows_reduced(m, &lm.h)) {
        return Err(VerifyError::ProofShape("coefficient range"));
    }
    Ok(())
}

// ---------------------------------------------------------------------------
// The projection bound
// ---------------------------------------------------------------------------

/// `Σ_{j < n} p_j²`.
pub open spec fn sq_sum(p: Seq<i128>, n: nat) -> int
    decreases n,
{
    if n == 0 {
        0
    } else {
        sq_sum(p, (n - 1) as nat) + p[n - 1] * p[n - 1]
    }
}

/// `‖p‖² ≤ λ · β²` with `λ = 128`.
pub open spec fn jl_ok(stmt: Statement, p: Seq<i128>) -> bool {
    sq_sum(p, p.len()) <= 128 * stmt.beta_sq
}

/// Partial sums of squares grow.
proof fn lemma_sq_sum_mono(p: Seq<i128>, n1: nat, n2: nat)
    requires
        n1 <= n2,
    ensures
        0 <= sq_sum(p, n1) <= sq_sum(p, n2),
    decreases n2,
{
    if n2 > n1 {
        lemma_sq_sum_mono(p, n1, (n2 - 1) as nat);
        assert(p[n2 - 1] * p[n2 - 1] >= 0) by (nonlinear_arith);
    } else if n1 > 0 {
        lemma_sq_sum_mono(p, (n1 - 1) as nat, (n1 - 1) as nat);
        assert(p[n1 - 1] * p[n1 - 1] >= 0) by (nonlinear_arith);
    }
}

/// Whether `‖p‖² ≤ 128 · β²`.
pub fn jl_within(stmt: &Statement, p: &Vec<i128>) -> (ok: bool)
    requires
        i128::MIN <= 128 * stmt.beta_sq <= i128::MAX,
    ensures
        ok == jl_ok(*stmt, p@),
{
    let bound: i128 = 128i128 * stmt.beta_sq;
    proof {
        lemma_sq_sum_mono(p@, 0, p@.len());
    }
    if bound < 0 {
        return false;
    }
    let mut s: i128 = 0;
    for j in 0..p.len()
        invariant
            bound == 128 * stmt.beta_sq,
            s == sq_sum(p@, j as nat),
            0 <= s <= bound,
    {
        proof {
            lemma_sq_sum_mono(p@, (j + 1) as nat, p@.len());
        }
        let x = p[j];
        match x.checked_mul(x) {
            None => {
                return false;
            },
            Some(e) => {
                if e > i128::MAX - s {
                    return false;
                }
                s = s + e;
                if s > bound {
                    return false;
                }
            },
        }
    }
    true
}

// ---------------------------------------------------------------------------
// The decomposed pieces and their norm
// ---------------------------------------------------------------------------

/// The vectors `y_0, …, y_{n-1}` one after another.
pub open spec fn flat1(y: Seq<Vec<RingElem>>, n: nat) -> Seq<RingElem>
    decreases n,
{
    if n == 0 {
        Seq::empty()
    } else {
        flat1(y, (n - 1) as nat) + y[n - 1]@
    }
}

/// The blocks `x_0, …, x_{n-1}`, each flattened, one after another.
pub open spec fn flat2(x: Seq<Vec<Vec<RingElem>>>, n: nat) -> Seq<RingElem>
    decreases n,
{
    if n == 0 {
        Seq::empty()
    } else {
        flat2(x, (n - 1) as nat) + flat1(x[n - 1]@, x[n - 1]@.len())
    }
}

/// Every vector of every block is reduced.
pub open spec fn blocks_wf(x: Seq<Vec<Vec<RingElem>>>, m: Modulus) -> bool {
    forall|i: int, k: int| 0 <= i < x.len() && 0 <= k < x[i]@.len() ==> elems_wf((#[trigger] x[i]@[k])@, m)
}

/// Append `y_0, …, y_{n-1}` to `out`.
fn append_flat1(out: &mut Vec<RingElem>, y: &Vec<Vec<RingElem>>, m: &Modulus)
    requires
        elems_wf(old(out)@, *m),
        forall|k: int| 0 <= k < y@.len() ==> elems_wf((#[trigger] y@[k])@, *m),
    ensures
        final(out)@ == old(out)@ + flat1(y@, y@.len()),
        elems_wf(final(out)@, *m),
{
    let ghost start = out@;
    for k in 0..y.len()
        invariant
            out@ == start + flat1(y@, k as nat),
            elems_wf(out@, *m),
            forall|k: int| 0 <= k < y@.len() ==> elems_wf((#[trigger] y@[k])@, *m),
    {
        let ghost before = out@;
        assert(elems_wf(y@[k as int]@, *m));
        let len_k = y[k].len();
        for t in 0..len_k
            invariant
                len_k == y@[k as int]@.len(),
                k < y@.len(),
                out@ == before + y@[k as int]@.subrange(0, t as int),
                elems_wf(out@, *m),
                elems_wf(y@[k as int]@, *m),
        {
            out.push(y[k][t]);
            assert(out@ =~= before + y@[k as int]@.subrange(0, t + 1));
        }
        assert(y@[k as int]@.subrange(0, y@[k as int]@.len() as int) =~= y@[k as int]@);
        assert(start + flat1(y@, (k + 1) as nat) =~= start + flat1(y@, k as nat) + y@[k as int]@);
    }
}

/// Append every block of `x`, flattened, to `out`.
fn append_flat2(out: &mut Vec<RingElem>, x: &Vec<Vec<Vec<RingElem>>>, m: &Modulus)
    requires
        elems_wf(old(out)@, *m),
        blocks_wf(x@, *m),
    ensures
        final(out)@ == old(out)@ + flat2(x@, x@.len()),
        elems_wf(final(out)@, *m),
{
    let ghost start = out@;
    for i in 0..x.len()
        invariant
            out@ == start + flat2(x@, i as nat),
            elems_wf(out@, *m),
            blocks_wf(x@, *m),
    {
        let ghost before = out@;
        assert forall|k: int| 0 <= k < x@[i as int]@.len() implies elems_wf((#[trigger] x@[i as int]@[k])@, *m) by {}
        append_flat1(out, &x[i], m);
        assert(start + flat2(x@, (i + 1) as nat) =~= start + flat2(x@, i as nat) + flat1(
            x@[i as int]@,
            x@[i as int]@.len(),
        ));
    }
}

/// Whether `Σ ‖piece‖² ≤ bound`.
fn pieces_within(m: &Modulus, pieces: &Vec<RingElem>, bound: i128) -> (ok: bool)
    requires
        m.wf(),
        m.q < 0x1000_0000_0000_0000,
        elems_wf(pieces@, *m),
    ensures
        ok == (row_norm(m.q as int, pieces@, pieces@.len()) <= bound),
{
    let ghost q = m.q as int;
    proof {
        lemma_row_norm_mono(q, pieces@, 0, pieces@.len());
    }
    if bound < 0 {
        return false;
    }
    let mut s: i128 = 0;
    for k in 0..pieces.len()
        invariant
            m.wf(),
            m.q < 0x1000_0000_0000_0000,
            q == m.q as int,
            elems_wf(pieces@, *m),
            s == row_norm(q, pieces@, k as nat),
            0 <= s <= bound,
    {
        let e = pieces[k].norm_sq(m);
        proof {
            lemma_row_norm_mono(q, pieces@, (k + 1) as nat, pieces@.len());
        }
        if e > i128::MAX - s {
            return false;
        }
        s = s + e;
        if s > bound {
            return false;
        }
    }
    true
}

// ---------------------------------------------------------------------------
// Recomposing the opening
// ---------------------------------------------------------------------------

/// `z_k = z^(0)_k + b·z^(1)_k` coefficient-wise on centered values, reduced.
pub open spec fn recomposed(z0: Seq<RingElem>, z1: Seq<RingElem>, z: Seq<RingElem>, q: int, b: int) -> bool {
    &&& z.len() == z0.len()
    &&& forall|k: int, c: int|
        0 <= k < z.len() && 0 <= c < D ==> (#[trigger] z[k].c[c]) == ((recomp_value(seq![z0[k], z1[k]], q, b, c, 2) as i64) as int) % q
}

/// Recompose `z` from its two base-`b` chunks.
fn recompose_opening(z0: &Vec<RingElem>, z1: &Vec<RingElem>, m: &Modulus, b: u64) -> (z: Vec<RingElem>)
    requires
        m.wf(),
        b >= 1,
        z0@.len() == z1@.len(),
        elems_wf(z0@, *m),
        elems_wf(z1@, *m),
        vstd::arithmetic::power::pow(b as int, 2) * m.q <= 0x0100_0000_0000_0000_0000_0000_0000_0000,
    ensures
        elems_wf(z@, *m),
        recomposed(z0@, z1@, z@, m.q as int, b as int),
{
    let mut z: Vec<RingElem> = Vec::new();
    for k in 0..z0.len()
        invariant
            m.wf(),
            b >= 1,
            z0@.len() == z1@.len(),
            elems_wf(z0@, *m),
            elems_wf(z1@, *m),
            vstd::arithmetic::power::pow(b as int, 2) * m.q <= 0x0100_0000_0000_0000_0000_0000_0000_0000,
            z@.len() == k,
            elems_wf(z@, *m),
            forall|kk: int, c: int|
                0 <= kk < k && 0 <= c < D ==> (#[trigger] z@[kk].c[c]) == ((recomp_value(
                    seq![z0@[kk], z1@[kk]],
                    m.q as int,
                    b as int,
                    c,
                    2,
                ) as i64) as int) % (m.q as int),
    {
        let mut pair: Vec<RingElem> = Vec::new();
        pair.push(z0[k]);
        pair.push(z1[k]);
        assert(pair@ =~= seq![z0@[k as int], z1@[k as int]]);
        let x = recompose(pair.as_slice(), m, b);
        z.push(x);
    }
    z
}

// ---------------------------------------------------------------------------
// What an accepted proof satisfies
// ---------------------------------------------------------------------------

/// `vch[i][k][idx]` is chunk `k` of `v_i[idx]`.
pub open spec fn v_decomposed(v: Seq<Vec<RingElem>>, vch: Seq<Vec<Vec<RingElem>>>, q: int, base: int, parts: nat) -> bool {
    &&& vch.len() == v.len()
    &&& forall|i: int| 0 <= i < v.len() ==> (#[trigger] vch[i])@.len() == parts
    &&& forall|i: int, k: int| 0 <= i < v.len() && 0 <= k < parts ==> (#[trigger] vch[i]@[k])@.len() == v[i]@.len()
    &&& forall|i: int, k: int, idx: int|
        0 <= i < v.len() && 0 <= k < parts && 0 <= idx < v[i]@.len() ==> chunk_of(
            v[i]@[idx],
            #[trigger] vch[i]@[k]@[idx],
            q,
            base,
            k,
            parts,
        )
}

/// `ch[i][j]` holds the chunks of `x_ij` on the upper triangle and is
/// empty below it.
pub open spec fn upper_decomposed(x: Seq<Vec<RingElem>>, ch: Seq<Vec<Vec<RingElem>>>, q: int, base: int, parts: nat) -> bool {
    &&& ch.len() == x.len()
    &&& forall|i: int| 0 <= i < x.len() ==> (#[trigger] ch[i])@.len() == x.len()
    &&& forall|i: int, j: int| 0 <= i <= j < x.len() ==> (#[trigger] ch[i]@[j])@.len() == parts
    &&& forall|i: int, j: int| 0 <= j < i < x.len() ==> (#[trigger] ch[i]@[j])@.len() == 0
    &&& forall|i: int, j: int, k: int|
        0 <= i <= j < x.len() && 0 <= k < parts ==> chunk_of(x[i]@[j], #[trigger] ch[i]@[j]@[k], q, base, k, parts)
}

/// The decomposed pieces whose norm the next iteration bounds:
/// `z^(0)`, `z^(1)`, then the chunks of `v`, `g`, `h`.
pub open spec fn pieces_v2(
    z0: Seq<RingElem>,
    z1: Seq<RingElem>,
    vch: Seq<Vec<Vec<RingElem>>>,
    gch: Seq<Vec<Vec<RingElem>>>,
    hch: Seq<Vec<Vec<RingElem>>>,
) -> Seq<RingElem> {
    z0 + z1 + flat2(vch, vch.len()) + flat2(gch, gch.len()) + flat2(hch, hch.len())
}

/// The outer commitments open: for matrices `B`, `C`, `D` of the expanded
/// shapes and the chunks of `v`, `g`, `h`, `u_1 = Σ B·v^(k) + Σ C·g^(k)` and
/// `u_2 = Σ D·h^(k)`; and the pieces' squared norm is at most `β'²`.
pub open spec fn outer_derivation(
    stmt: Statement,
    params: IterationParams,
    p: IterationProofV2,
    lm: IterationLastMsg,
    b_mats: Seq<Vec<Vec<Vec<RingElem>>>>,
    c_mats: Seq<Vec<Vec<Vec<RingElem>>>>,
    d_mats: Seq<Vec<Vec<Vec<RingElem>>>>,
    vch: Seq<Vec<Vec<RingElem>>>,
    gch: Seq<Vec<Vec<RingElem>>>,
    hch: Seq<Vec<Vec<RingElem>>>,
) -> bool {
    let ring = stmt.ring;
    let q = ring.m.q as int;
    let r = stmt.r as nat;
    &&& v_decomposed(lm.v@, vch, q, params.b1 as int, params.t1 as nat)
    &&& upper_decomposed(lm.g@, gch, q, params.b2 as int, params.t2 as nat)
    &&& upper_decomposed(lm.h@, hch, q, params.b1 as int, params.t1 as nat)
    &&& outer_v_shapes(ring, b_mats, vch, params.t1 as nat, params.kappa1 as nat)
    &&& outer_sym_shapes(ring, c_mats, gch, params.kappa1 as nat)
    &&& outer_sym_shapes(ring, d_mats, hch, params.kappa1 as nat)
    &&& forall|k: int|
        0 <= k < params.kappa1 ==> elem(#[trigger] p.u1@[k]) == poly_add(
            outer_v_sum(ring, b_mats, vch, k, r, 0, params.t1 as nat),
            outer_sym_sum(ring, c_mats, gch, k, r, r, 0, r),
            qof(ring),
        )
    &&& forall|k: int| 0 <= k < params.kappa1 ==> elem(#[trigger] p.u2@[k]) == outer_sym_sum(ring, d_mats, hch, k, r, r, 0, r)
    &&& row_norm(q, pieces_v2(lm.z0@, lm.z1@, vch, gch, hch), pieces_v2(lm.z0@, lm.z1@, vch, gch, hch).len())
        <= params.next_beta_sq
}

/// `ext` is `stmt` with the `2λ` projection constraints of `p` appended.
pub open spec fn jl_extended(stmt: Statement, ext: Statement, p: Seq<i128>) -> bool {
    let base = stmt.const_term@.len();
    &&& ext.const_term@.len() == base + PROJECTION_ROWS
    &&& extends_with(stmt, ext, ext.const_term@.subrange(base as int, ext.const_term@.len() as int))
    &&& forall|j: int|
        0 <= j < PROJECTION_ROWS ==> jl_constraint_ok(
            #[trigger] ext.const_term@[base + j],
            p[j],
            stmt.r as int,
            stmt.n as int,
            stmt.ring.m,
        )
}

/// The values the verifier derives for the amortized checks from transcript
/// state `st` (after the statement is bound): the extended statement, the
/// matrix `A`, the scalars `ψ` (every constant term of `b''` matching the
/// extended statement), the aggregated forms, the weights `α`, `β`, the
/// challenges `c`, and the recomposed opening `z`.
pub open spec fn amortized_derivation(
    stmt: Statement,
    params: IterationParams,
    p: IterationProofV2,
    lm: IterationLastMsg,
    st: Seq<u8>,
    ext: Statement,
    a: Seq<Vec<RingElem>>,
    psis: Seq<Vec<u64>>,
    alphas: Seq<RingElem>,
    betas: Seq<RingElem>,
    a_pp: Seq<Vec<Vec<RingElem>>>,
    phi_pp: Seq<Vec<Vec<(usize, RingElem)>>>,
    a_agg: Seq<Vec<RingElem>>,
    phi_agg: Seq<Vec<(usize, RingElem)>>,
    cs: Seq<RingElem>,
    z: Seq<RingElem>,
) -> bool {
    let bpp = p.b_double_prime@;
    &&& jl_extended(stmt, ext, p.p@)
    &&& expanded_matrix(a, st, LABEL_A@, params.kappa as nat, stmt.n as nat, stmt.ring)
    &&& psis.len() == bpp.len()
    &&& forall|k: int| 0 <= k < psis.len() ==> (#[trigger] psis[k])@.len() == ext.const_term@.len()
    &&& forall|k: int| 0 <= k < bpp.len() ==> ct_matches(ext, psis[k]@, #[trigger] bpp[k])
    &&& a_pp.len() == psis.len()
    &&& phi_pp.len() == psis.len()
    &&& forall|k: int| 0 <= k < psis.len() ==> const_aggregated(ext, psis[k]@, #[trigger] a_pp[k]@, phi_pp[k]@)
    &&& alphas.len() == stmt.full@.len()
    &&& elems_wf(alphas, stmt.ring.m)
    &&& betas.len() == psis.len()
    &&& elems_wf(betas, stmt.ring.m)
    &&& full_aggregated(stmt, alphas, betas, a_pp, phi_pp, a_agg, phi_agg)
    &&& cs.len() == stmt.r
    &&& elems_wf(cs, stmt.ring.m)
    &&& forall|i: int| 0 <= i < stmt.r ==> challenge_ok(#[trigger] cs[i], qof(stmt.ring))
    &&& recomposed(lm.z0@, lm.z1@, z, stmt.ring.m.q as int, params.b as int)
}

/// The four amortized identities on the recomposed opening.
pub open spec fn amortized_checks(
    stmt: Statement,
    p: IterationProofV2,
    lm: IterationLastMsg,
    a: Seq<Vec<RingElem>>,
    alphas: Seq<RingElem>,
    betas: Seq<RingElem>,
    a_agg: Seq<Vec<RingElem>>,
    phi_agg: Seq<Vec<(usize, RingElem)>>,
    cs: Seq<RingElem>,
    z: Seq<RingElem>,
) -> bool {
    let ring = stmt.ring;
    &&& inner_opening_ok(ring, a, z, lm.v@, cs)
    &&& quadratic_opening_ok(ring, z, lm.g@, cs)
    &&& linear_opening_ok(ring, phi_agg, z, lm.h@, cs)
    &&& aggregated_relation_ok(
        ring,
        a_agg,
        lm.g@,
        lm.h@,
        rhs_spec(stmt, alphas, betas, p.b_double_prime@),
        stmt.r as nat,
    )
}

/// An accepted proof: no shape fault, `‖p‖² ≤ λβ²`, `K''` values `b''`, the
/// outer commitments open on the decomposed last message whose pieces are
/// small, and the amortized identities hold for values derived from the
/// transcript state `st` the verifier started from.
pub open spec fn accepts_v2(stmt: Statement, p: IterationProofV2, params: IterationParams, st: Seq<u8>) -> bool {
    &&& shape_error_v2(stmt, p, params) is None
    &&& jl_ok(stmt, p.p@)
    &&& k_pp_of(qof(stmt.ring), p.b_double_prime@.len() as int)
    &&& p.last_msg matches Some(lm) && {
        &&& exists|
            b_mats: Seq<Vec<Vec<Vec<RingElem>>>>,
            c_mats: Seq<Vec<Vec<Vec<RingElem>>>>,
            d_mats: Seq<Vec<Vec<Vec<RingElem>>>>,
            vch: Seq<Vec<Vec<RingElem>>>,
            gch: Seq<Vec<Vec<RingElem>>>,
            hch: Seq<Vec<Vec<RingElem>>>,
        | #[trigger] outer_derivation(stmt, params, p, lm, b_mats, c_mats, d_mats, vch, gch, hch)
        &&& exists|
            ext: Statement,
            a: Seq<Vec<RingElem>>,
            psis: Seq<Vec<u64>>,
            alphas: Seq<RingElem>,
            betas: Seq<RingElem>,
            a_pp: Seq<Vec<Vec<RingElem>>>,
            phi_pp: Seq<Vec<Vec<(usize, RingElem)>>>,
            a_agg: Seq<Vec<RingElem>>,
            phi_agg: Seq<Vec<(usize, RingElem)>>,
            cs: Seq<RingElem>,
            z: Seq<RingElem>,
        |
            #[trigger] amortized_derivation(
                stmt,
                params,
                p,
                lm,
                st + statement_records(stmt),
                ext,
                a,
                psis,
                alphas,
                betas,
                a_pp,
                phi_pp,
                a_agg,
                phi_agg,
                cs,
                z,
            ) && amortized_checks(stmt, p, lm, a, alphas, betas, a_agg, phi_agg, cs, z)
    }
}

// ---------------------------------------------------------------------------
// The verifier
// ---------------------------------------------------------------------------

/// Whether two vectors hold the same ring elements.
fn same_elems(x: &Vec<RingElem>, y: &Vec<RingElem>) -> (ok: bool)
    ensures
        ok == (x@.len() == y@.len() && forall|k: int| 0 <= k < x@.len() ==> elem(#[trigger] x@[k]) == elem(y@[k])),
{
    if x.len() != y.len() {
        return false;
    }
    for k in 0..x.len()
        invariant
            x@.len() == y@.len(),
            forall|kk: int| 0 <= kk < k ==> elem(#[trigger] x@[kk]) == elem(y@[kk]),
    {
        proof {
            lemma_elem_eq(x@[k as int], y@[k as int]);
        }
        if x[k] != y[k] {
            return false;
        }
    }
    true
}

/// Append the elements of `x` to `out`.
fn append_elems(out: &mut Vec<RingElem>, x: &Vec<RingElem>, m: &Modulus)
    requires
        elems_wf(old(out)@, *m),
        elems_wf(x@, *m),
    ensures
        final(out)@ == old(out)@ + x@,
        elems_wf(final(out)@, *m),
{
    let ghost start = out@;
    for t in 0..x.len()
        invariant
            out@ == start + x@.subrange(0, t as int),
            elems_wf(out@, *m),
            elems_wf(x@, *m),
    {
        out.push(x[t]);
        assert(out@ =~= start + x@.subrange(0, t + 1));
    }
    assert(x@.subrange(0, x@.len() as int) =~= x@);
}

/// Verify one iteration proof with outer commitments and the JL projection
/// of `stmt` under `params`, re-deriving every challenge from `transcript`
/// (which first absorbs the statement). The projection constraints of `p`
/// join the constant-term constraints before they are aggregated, as in
/// `prove_v2`.
#[verifier::rlimit(100)]
#[verifier::spinoff_prover]
pub fn verify_v2(
    stmt: &Statement,
    proof: &IterationProofV2,
    params: &IterationParams,
    transcript: &mut Transcript,
) -> (res: Result<(), VerifyError>)
    requires
        stmt.wf(),
        stmt.r >= 1,
        params.wf(),
        stmt.n * D <= 0x1_0000_0000,
        stmt.r <= 0x1000_0000,
        (stmt.n * D + 3) / 4 * PROJECTION_ROWS <= usize::MAX,
        i128::MIN <= 128 * stmt.beta_sq <= i128::MAX,
        vstd::arithmetic::power::pow(params.b as int, 2) * stmt.ring.m.q <= 0x0100_0000_0000_0000_0000_0000_0000_0000,
    ensures
        shape_error_v2(*stmt, *proof, *params) matches Some(e) ==> res == Err::<(), VerifyError>(e),
        res == Err::<(), VerifyError>(VerifyError::JlBound) ==> shape_error_v2(*stmt, *proof, *params) is None && !jl_ok(
            *stmt,
            proof.p@,
        ),
        res is Ok ==> accepts_v2(*stmt, *proof, *params, old(transcript).absorbed()),
{
    let ghost st0 = transcript.absorbed();
    bind_statement(transcript, stmt);
    let ghost st = transcript.absorbed();
    match check_shape_v2(stmt, proof, params) {
        Ok(()) => {},
        Err(e) => {
            return Err(e);
        },
    }
    let lm = match &proof.last_msg {
        Some(lm) => lm,
        None => {
            return Err(VerifyError::ProofShape("last message"));
        },
    };
    let ring = &stmt.ring;
    let m = &ring.m;
    let n = stmt.n;
    let r = stmt.r;
    let kappa = params.kappa as usize;
    let kappa1 = params.kappa1 as usize;
    let t1 = params.t1 as usize;
    let t2 = params.t2 as usize;

    // The outer commitment `u_1` to the decomposed `v` and `g`.
    let a = match expand_matrix(transcript, &LABEL_A, kappa, n, ring) {
        Some(a) => a,
        None => {
            return Err(VerifyError::TranscriptExhausted);
        },
    };
    let b_mats = match expand_b_mats(transcript, &LABEL_B, r, t1, kappa1, kappa, ring) {
        Some(b) => b,
        None => {
            return Err(VerifyError::TranscriptExhausted);
        },
    };
    let c_mats = match expand_sym_mats(transcript, &LABEL_CM, r, t2, kappa1, ring) {
        Some(c) => c,
        None => {
            return Err(VerifyError::TranscriptExhausted);
        },
    };
    proof {
        assert forall|i: int| 0 <= i < lm.v@.len() implies elems_wf((#[trigger] lm.v@[i])@, *m) by {}
        assert forall|i: int| 0 <= i < lm.g@.len() implies (#[trigger] lm.g@[i])@.len() == lm.g@.len() && elems_wf(
            lm.g@[i]@,
            *m,
        ) by {}
        assert forall|i: int| 0 <= i < lm.h@.len() implies (#[trigger] lm.h@[i])@.len() == lm.h@.len() && elems_wf(
            lm.h@[i]@,
            *m,
        ) by {}
    }
    let v_chunks = decompose_commitments(&lm.v, m, params.b1, t1);
    let g_chunks = decompose_upper(&lm.g, m, params.b2, t2);
    let u1_v = outer_commit_v(ring, &b_mats, &v_chunks);
    let u1_g = outer_commit_sym(ring, &c_mats, &g_chunks);
    proof {
        assert(c_mats@[0]@[0]@.len() == t2);
        assert(sym_kappa1(c_mats@) == kappa1);
        assert(b_mats@[0]@[0]@.len() == kappa1);
    }
    let u1 = add_vec(ring, &u1_v, &u1_g);
    if !same_elems(&u1, &proof.u1) {
        return Err(VerifyError::OuterCommitment("u_1"));
    }
    assert forall|k: int| 0 <= k < params.kappa1 implies elem(#[trigger] proof.u1@[k]) == poly_add(
        outer_v_sum(*ring, b_mats@, v_chunks@, k, r as nat, 0, params.t1 as nat),
        outer_sym_sum(*ring, c_mats@, g_chunks@, k, r as nat, r as nat, 0, r as nat),
        qof(*ring),
    ) by {
        assert(v_chunks@[0]@.len() == t1);
        assert(elem(u1@[k]) == elem(proof.u1@[k]));
    }
    absorb_ring_vec(transcript, &LABEL_U1, &proof.u1);

    // The projection and its bound.
    let pis = sample_projections(transcript, r, n * D);
    absorb_projection(transcript, &LABEL_P, &proof.p);
    if !jl_within(stmt, &proof.p) {
        return Err(VerifyError::JlBound);
    }
    let jl_extra = build_jl_constraints(&pis, &proof.p, n, m);
    let ext = extend_statement(stmt, jl_extra);

    // The constant terms of `b''` against the extended statement.
    let k_pp = k_double_prime(stmt, LAMBDA);
    proof {
        let e = choose|e: nat| is_ceil_log2(e, stmt.ring.m.q as int) && e >= 2 && k_pp == (LAMBDA + e - 1) / (e as int);
        assert forall|e2: nat| is_ceil_log2(e2, qof(stmt.ring)) implies k_pp == (LAMBDA + e2 - 1) / (e2 as int) by {
            lemma_ceil_log2_unique(e, e2, qof(stmt.ring));
        }
        assert(k_pp_of(qof(stmt.ring), k_pp as int));
    }
    if proof.b_double_prime.len() != k_pp {
        return Err(VerifyError::ProofShape("b'' length"));
    }
    let psis = match derive_psis(transcript, k_pp, ext.const_term.len(), m.q) {
        Some(x) => x,
        None => {
            return Err(VerifyError::TranscriptExhausted);
        },
    };
    match check_const_terms(&ext, &psis, &proof.b_double_prime) {
        Ok(()) => {},
        Err(e) => {
            return Err(e);
        },
    }
    absorb_ring_vec(transcript, &LABEL_BPP, &proof.b_double_prime);

    // Aggregation and the outer commitment `u_2` to the decomposed `h`.
    let (a_pp, phi_pp) = aggregate_const_forms(&ext, &psis);
    let alphas = match sample_ring_elements(transcript, &LABEL_ALPHA, stmt.full.len(), ring) {
        Some(x) => x,
        None => {
            return Err(VerifyError::TranscriptExhausted);
        },
    };
    let betas = match sample_ring_elements(transcript, &LABEL_BETA, k_pp, ring) {
        Some(x) => x,
        None => {
            return Err(VerifyError::TranscriptExhausted);
        },
    };
    let (a_agg, phi_agg) = aggregate_full(stmt, &alphas, &betas, &a_pp, &phi_pp);
    let b_agg = aggregated_rhs(stmt, &alphas, &betas, &proof.b_double_prime);
    let h_chunks = decompose_upper(&lm.h, m, params.b1, t1);
    let d_mats = match expand_sym_mats(transcript, &LABEL_D, r, t1, kappa1, ring) {
        Some(d) => d,
        None => {
            return Err(VerifyError::TranscriptExhausted);
        },
    };
    let u2 = outer_commit_sym(ring, &d_mats, &h_chunks);
    proof {
        assert(d_mats@[0]@[0]@.len() == t1);
        assert(sym_kappa1(d_mats@) == kappa1);
    }
    if !same_elems(&u2, &proof.u2) {
        return Err(VerifyError::OuterCommitment("u_2"));
    }
    assert forall|k: int| 0 <= k < params.kappa1 implies elem(#[trigger] proof.u2@[k]) == outer_sym_sum(
        *ring,
        d_mats@,
        h_chunks@,
        k,
        r as nat,
        r as nat,
        0,
        r as nat,
    ) by {
        assert(elem(u2@[k]) == elem(proof.u2@[k]));
    }
    absorb_ring_vec(transcript, &LABEL_U2, &proof.u2);

    // The amortized identities on `z = z^(0) + b·z^(1)`.
    let cs = match sample_challenges(transcript, r, ring) {
        Some(c) => c,
        None => {
            return Err(VerifyError::TranscriptExhausted);
        },
    };
    let z = recompose_opening(&lm.z0, &lm.z1, m, params.b);
    proof {
        assert forall|i: int| 0 <= i < lm.v@.len() implies (#[trigger] lm.v@[i])@.len() == a@.len() && elems_wf(
            lm.v@[i]@,
            ring.m,
        ) by {}
    }
    if !check_inner_opening(ring, &a, &z, &lm.v, &cs) {
        return Err(VerifyError::InnerCommitmentOpening);
    }
    let zz = ring_inner_product(ring, &z, &z);
    let expected_zz = pair_combination(ring, &cs, &lm.g);
    proof {
        lemma_elem_eq(zz, expected_zz);
    }
    if zz != expected_zz {
        return Err(VerifyError::QuadraticOpening);
    }
    let lhs = linear_combination(ring, &cs, &phi_agg, &z);
    let rhs = pair_combination(ring, &cs, &lm.h);
    proof {
        lemma_elem_eq(lhs, rhs);
    }
    if lhs != rhs {
        return Err(VerifyError::LinearOpening);
    }
    proof {
        assert forall|i: int| 0 <= i < r implies (#[trigger] a_agg@[i])@.len() == r && elems_wf(a_agg@[i]@, ring.m) by {}
    }
    let lhs4 = relation_lhs(ring, &a_agg, &lm.g, &lm.h, r);
    proof {
        lemma_elem_eq(lhs4, b_agg);
    }
    if lhs4 != b_agg {
        return Err(VerifyError::AggregatedRelation);
    }

    // The norm of every decomposed piece.
    let mut pieces: Vec<RingElem> = Vec::new();
    append_elems(&mut pieces, &lm.z0, m);
    append_elems(&mut pieces, &lm.z1, m);
    proof {
        assert forall|i: int, k: int| 0 <= i < g_chunks@.len() && 0 <= k < g_chunks@[i]@.len() implies elems_wf(
            (#[trigger] g_chunks@[i]@[k])@,
            *m,
        ) by {}
        assert forall|i: int, k: int| 0 <= i < h_chunks@.len() && 0 <= k < h_chunks@[i]@.len() implies elems_wf(
            (#[trigger] h_chunks@[i]@[k])@,
            *m,
        ) by {}
    }
    append_flat2(&mut pieces, &v_chunks, m);
    append_flat2(&mut pieces, &g_chunks, m);
    append_flat2(&mut pieces, &h_chunks, m);
    if !pieces_within(m, &pieces, params.next_beta_sq) {
        return Err(VerifyError::NormBound);
    }
    proof {
        assert(pieces@ =~= pieces_v2(lm.z0@, lm.z1@, v_chunks@, g_chunks@, h_chunks@));
        assert(outer_derivation(
            *stmt,
            *params,
            *proof,
            *lm,
            b_mats@,
            c_mats@,
            d_mats@,
            v_chunks@,
            g_chunks@,
            h_chunks@,
        ));
        assert(amortized_derivation(
            *stmt,
            *params,
            *proof,
            *lm,
            st0 + statement_records(*stmt),
            ext,
            a@,
            psis@,
            alphas@,
            betas@,
            a_pp@,
            phi_pp@,
            a_agg@,
            phi_agg@,
            cs@,
            z@,
        ));
        assert(amortized_checks(*stmt, *proof, *lm, a@, alphas@, betas@, a_agg@, phi_agg@, cs@, z@));
    }
    Ok(())
}

} // verus!
