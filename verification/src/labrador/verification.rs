//! The LaBRADOR verifier for one (non-recursive) iteration.
use crate::labrador::challenge::{challenge_ok, TAU_SQ};
use crate::labrador::commit::{matmul, matmul_row, matrix_fits};
use crate::labrador::proofs::{IterationProof, VerifyError};
use crate::labrador::statement::{
    elem, elems_wf, lemma_add_elem, lemma_zero_elem, lemma_row_norm_mono, lemma_zero_is_zero, poly_add, poly_mul, qof,
    row_norm, ring_inner_product, sparse_phi_inner_product, sparse_sum, zero_poly, ConstTermConstraint, DotConstraint, Statement,
};
use crate::labrador::aggregation::{aggregate_const_terms, aggregate_full, const_aggregated, full_aggregated, pp_fits};
use crate::labrador::binding::{absorb_ring_matrix, absorb_ring_vec, bind_statement, statement_records};
use crate::labrador::commit::{expand_matrix, expanded_matrix};
use crate::labrador::prover::{
    derive_psis, is_ceil_log2, k_double_prime, kappa, sample_challenges, sample_ring_elements, LABEL_A,
    LABEL_ALPHA, LABEL_BETA, LABEL_BPP, LABEL_G, LABEL_H, LABEL_V, LAMBDA,
};
use crate::labrador::transcript::Transcript;
use crate::modring::crt::Ring;
use crate::modring::modulus::Modulus;
use crate::modring::poly::{elem_norm_sq, RingElem, D};
use vstd::prelude::*;

verus! {

// ---------------------------------------------------------------------------
// What the verifier checks, mathematically
// ---------------------------------------------------------------------------

/// `Σ_{l < n} ψ_l · b'_0^(l) mod q`, accumulated left to right.
pub open spec fn ct_expected(q: int, cs: Seq<ConstTermConstraint>, psi: Seq<u64>, n: nat) -> int
    decreases n,
{
    if n == 0 {
        0
    } else {
        (ct_expected(q, cs, psi, (n - 1) as nat) + (psi[n - 1] * cs[n - 1].b0) % q) % q
    }
}

/// The constant term of `b''^(k)` is the `ψ^(k)`-combination of the
/// constant-term right-hand sides.
pub open spec fn ct_matches(stmt: Statement, psi: Seq<u64>, b: RingElem) -> bool {
    b.c[0] == ct_expected(qof(stmt.ring), stmt.const_term@, psi, stmt.const_term@.len())
}

/// `Σ_{k < n} α_k · b^(k)` over the full constraints.
pub open spec fn full_rhs(ring: Ring, full: Seq<DotConstraint>, alphas: Seq<RingElem>, n: nat) -> Seq<int>
    decreases n,
{
    if n == 0 {
        zero_poly()
    } else {
        poly_add(
            full_rhs(ring, full, alphas, (n - 1) as nat),
            poly_mul(ring, elem(alphas[n - 1]), elem(full[n - 1].b)),
            qof(ring),
        )
    }
}

/// `acc + Σ_{k < n} β_k · b''^(k)`.
pub open spec fn beta_rhs(ring: Ring, acc: Seq<int>, betas: Seq<RingElem>, bpp: Seq<RingElem>, n: nat) -> Seq<int>
    decreases n,
{
    if n == 0 {
        acc
    } else {
        poly_add(
            beta_rhs(ring, acc, betas, bpp, (n - 1) as nat),
            poly_mul(ring, elem(betas[n - 1]), elem(bpp[n - 1])),
            qof(ring),
        )
    }
}

/// The aggregated right-hand side `Σ α_k b^(k) + Σ β_k b''^(k)`.
pub open spec fn rhs_spec(stmt: Statement, alphas: Seq<RingElem>, betas: Seq<RingElem>, bpp: Seq<RingElem>) -> Seq<int> {
    beta_rhs(
        stmt.ring,
        full_rhs(stmt.ring, stmt.full@, alphas, stmt.full@.len()),
        betas,
        bpp,
        betas.len(),
    )
}

/// `Σ_{i < n} c_i · v_i[k]`.
pub open spec fn comb_at(ring: Ring, cs: Seq<RingElem>, v: Seq<Vec<RingElem>>, k: int, n: nat) -> Seq<int>
    decreases n,
{
    if n == 0 {
        zero_poly()
    } else {
        poly_add(
            comb_at(ring, cs, v, k, (n - 1) as nat),
            poly_mul(ring, elem(cs[n - 1]), elem(v[n - 1]@[k])),
            qof(ring),
        )
    }
}

/// Entry `(i, j)` of a symmetric matrix stored as its upper triangle.
pub open spec fn sym_entry(g: Seq<Vec<RingElem>>, i: int, j: int) -> RingElem {
    if i <= j {
        g[i]@[j]
    } else {
        g[j]@[i]
    }
}

/// `(c_i c_j) · g_ij`.
pub open spec fn pair_term(ring: Ring, cs: Seq<RingElem>, g: Seq<Vec<RingElem>>, i: int, j: int) -> Seq<int> {
    poly_mul(ring, poly_mul(ring, elem(cs[i]), elem(cs[j])), elem(sym_entry(g, i, j)))
}

/// `Σ (c_i c_j) g_ij` over the rows before `i` and the entries of row `i`
/// before `j` (rows of length `r`).
pub open spec fn pair_sum(ring: Ring, cs: Seq<RingElem>, g: Seq<Vec<RingElem>>, i: nat, j: nat, r: nat) -> Seq<int>
    decreases i, j,
{
    if j == 0 {
        if i == 0 {
            zero_poly()
        } else {
            pair_sum(ring, cs, g, (i - 1) as nat, r, r)
        }
    } else {
        poly_add(pair_sum(ring, cs, g, i, (j - 1) as nat, r), pair_term(ring, cs, g, i as int, j - 1), qof(ring))
    }
}

/// `Σ_{i < n} c_i · ⟨φ_i, z⟩`, skipping empty `φ_i`.
pub open spec fn lin_lhs(ring: Ring, cs: Seq<RingElem>, phi: Seq<Vec<(usize, RingElem)>>, z: Seq<RingElem>, n: nat) -> Seq<int>
    decreases n,
{
    if n == 0 {
        zero_poly()
    } else {
        let prev = lin_lhs(ring, cs, phi, z, (n - 1) as nat);
        let sp = phi[n - 1]@;
        if sp.len() == 0 {
            prev
        } else {
            poly_add(prev, poly_mul(ring, elem(cs[n - 1]), sparse_sum(ring, z, sp, sp.len())), qof(ring))
        }
    }
}

/// The contribution of upper-triangle entry `(i, j)` to `Σ a_ij g_ij`:
/// `a_ij g_ij`, twice off the diagonal.
pub open spec fn tri_term(ring: Ring, a: Seq<Vec<RingElem>>, g: Seq<Vec<RingElem>>, i: int, j: int) -> Seq<int> {
    let t = poly_mul(ring, elem(a[i]@[j]), elem(g[i]@[j]));
    if i != j {
        poly_add(t, t, qof(ring))
    } else {
        t
    }
}

/// `Σ_{i ≤ j} a_ij g_ij` (doubled off the diagonal, zero `a_ij` skipped)
/// over the rows before `i` and the entries `i ≤ j' < j` of row `i`.
pub open spec fn tri_sum(ring: Ring, a: Seq<Vec<RingElem>>, g: Seq<Vec<RingElem>>, i: nat, j: nat, r: nat) -> Seq<int>
    decreases i, j,
{
    if j <= i {
        if i == 0 {
            zero_poly()
        } else {
            tri_sum(ring, a, g, (i - 1) as nat, r, r)
        }
    } else {
        let prev = tri_sum(ring, a, g, i, (j - 1) as nat, r);
        if elem(a[i as int]@[j - 1]) == zero_poly() {
            prev
        } else {
            poly_add(prev, tri_term(ring, a, g, i as int, j - 1), qof(ring))
        }
    }
}

/// `acc + Σ_{i < n} h_ii`.
pub open spec fn diag_sum(ring: Ring, acc: Seq<int>, h: Seq<Vec<RingElem>>, n: nat) -> Seq<int>
    decreases n,
{
    if n == 0 {
        acc
    } else {
        poly_add(diag_sum(ring, acc, h, (n - 1) as nat), elem(h[n - 1]@[n - 1]), qof(ring))
    }
}

/// `A·z = Σ c_i v_i`, row by row.
pub open spec fn inner_opening_ok(ring: Ring, a: Seq<Vec<RingElem>>, z: Seq<RingElem>, v: Seq<Vec<RingElem>>, cs: Seq<RingElem>) -> bool {
    forall|k: int| 0 <= k < a.len() ==> inner_spec_row(ring, a, z, k) == #[trigger] comb_at(ring, cs, v, k, v.len())
}

/// Row `k` of `A·z`.
pub open spec fn inner_spec_row(ring: Ring, a: Seq<Vec<RingElem>>, z: Seq<RingElem>, k: int) -> Seq<int> {
    crate::labrador::commit::matmul_row(ring, a, z, k)
}

/// `⟨z, z⟩ = Σ c_i c_j g_ij`.
pub open spec fn quadratic_opening_ok(ring: Ring, z: Seq<RingElem>, g: Seq<Vec<RingElem>>, cs: Seq<RingElem>) -> bool {
    crate::labrador::statement::inner_spec(ring, z, z, z.len()) == pair_sum(ring, cs, g, cs.len(), 0, cs.len())
}

/// `Σ c_i ⟨φ_i, z⟩ = Σ c_i c_j h_ij`.
pub open spec fn linear_opening_ok(ring: Ring, phi: Seq<Vec<(usize, RingElem)>>, z: Seq<RingElem>, h: Seq<Vec<RingElem>>, cs: Seq<RingElem>) -> bool {
    lin_lhs(ring, cs, phi, z, phi.len()) == pair_sum(ring, cs, h, cs.len(), 0, cs.len())
}

/// `Σ a_ij g_ij + Σ h_ii = b`.
pub open spec fn aggregated_relation_ok(ring: Ring, a: Seq<Vec<RingElem>>, g: Seq<Vec<RingElem>>, h: Seq<Vec<RingElem>>, b: Seq<int>, r: nat) -> bool {
    diag_sum(ring, tri_sum(ring, a, g, r, r, r), h, r) == b
}

/// `‖z‖² ≤ r · τ² · β²`.
pub open spec fn norm_ok(stmt: Statement, z: Seq<RingElem>) -> bool {
    row_norm(qof(stmt.ring), z, z.len()) <= stmt.r * TAU_SQ * stmt.beta_sq
}

/// Two reduced ring elements are equal exactly when their coefficient
/// sequences are.
pub proof fn lemma_elem_eq(a: RingElem, b: RingElem)
    ensures
        (a.c@ == b.c@) <==> (elem(a) == elem(b)),
{
    if elem(a) == elem(b) {
        assert forall|i: int| 0 <= i < D implies a.c@[i] == b.c@[i] by {
            assert(elem(a)[i] == elem(b)[i]);
        }
        assert(a.c@ =~= b.c@);
    }
}

/// Every row of `g` is reduced.
pub open spec fn rows_wf(g: Seq<Vec<RingElem>>, m: Modulus) -> bool {
    forall|i: int| 0 <= i < g.len() ==> elems_wf(#[trigger] g[i]@, m)
}

/// `g` is `r × r`.
pub open spec fn is_square(g: Seq<Vec<RingElem>>, r: nat) -> bool {
    g.len() == r && forall|i: int| 0 <= i < r ==> (#[trigger] g[i])@.len() == r
}

/// Every coefficient of the proof is a canonical residue.
pub open spec fn proof_reduced(stmt: Statement, p: IterationProof) -> bool {
    &&& rows_wf(p.v@, stmt.ring.m)
    &&& elems_wf(p.z@, stmt.ring.m)
    &&& rows_wf(p.g@, stmt.ring.m)
    &&& rows_wf(p.h@, stmt.ring.m)
    &&& elems_wf(p.b_double_prime@, stmt.ring.m)
}

/// The first shape fault of the proof, in the order the verifier checks:
/// `v` is `r × κ`, `z` has length `n`, `g` and `h` are `r × r`, and every
/// coefficient is reduced.
pub open spec fn shape_error(stmt: Statement, p: IterationProof) -> Option<VerifyError> {
    if !(p.v@.len() == stmt.r && forall|i: int| 0 <= i < stmt.r ==> (#[trigger] p.v@[i])@.len() == 8) {
        Some(VerifyError::ProofShape("v shape"))
    } else if p.z@.len() != stmt.n {
        Some(VerifyError::ProofShape("z length"))
    } else if !is_square(p.g@, stmt.r as nat) {
        Some(VerifyError::ProofShape("g shape"))
    } else if !is_square(p.h@, stmt.r as nat) {
        Some(VerifyError::ProofShape("h shape"))
    } else if !proof_reduced(stmt, p) {
        Some(VerifyError::ProofShape("coefficient range"))
    } else {
        None
    }
}

/// The outcome of the opening checks, in order: inner commitments,
/// quadratic garbage, linear garbage, aggregated relation, norm.
pub open spec fn openings_result(
    stmt: Statement,
    p: IterationProof,
    a: Seq<Vec<RingElem>>,
    cs: Seq<RingElem>,
    a_agg: Seq<Vec<RingElem>>,
    phi_agg: Seq<Vec<(usize, RingElem)>>,
    b: Seq<int>,
) -> Result<(), VerifyError> {
    let ring = stmt.ring;
    if !inner_opening_ok(ring, a, p.z@, p.v@, cs) {
        Err(VerifyError::InnerCommitmentOpening)
    } else if !quadratic_opening_ok(ring, p.z@, p.g@, cs) {
        Err(VerifyError::QuadraticOpening)
    } else if !linear_opening_ok(ring, phi_agg, p.z@, p.h@, cs) {
        Err(VerifyError::LinearOpening)
    } else if !aggregated_relation_ok(ring, a_agg, p.g@, p.h@, b, stmt.r as nat) {
        Err(VerifyError::AggregatedRelation)
    } else if !norm_ok(stmt, p.z@) {
        Err(VerifyError::NormBound)
    } else {
        Ok(())
    }
}

/// The values the verifier derives for `p` from the transcript state `st`
/// (after the statement is bound): the matrix `A`, the scalars `ψ` (with
/// every constant term matching), the aggregated constant-term forms, the
/// weights `α`, `β`, the aggregated form, and the challenges `c`.
pub open spec fn derivation(
    stmt: Statement,
    p: IterationProof,
    st: Seq<u8>,
    a: Seq<Vec<RingElem>>,
    psis: Seq<Vec<u64>>,
    alphas: Seq<RingElem>,
    betas: Seq<RingElem>,
    a_pp: Seq<Vec<Vec<RingElem>>>,
    phi_pp: Seq<Vec<Vec<(usize, RingElem)>>>,
    a_agg: Seq<Vec<RingElem>>,
    phi_agg: Seq<Vec<(usize, RingElem)>>,
    cs: Seq<RingElem>,
) -> bool {
    let bpp = p.b_double_prime@;
    &&& expanded_matrix(a, st, LABEL_A@, 8, stmt.n as nat, stmt.ring)
    &&& psis.len() == bpp.len()
    &&& forall|k: int| 0 <= k < psis.len() ==> (#[trigger] psis[k])@.len() == stmt.const_term@.len()
    &&& forall|k: int| 0 <= k < bpp.len() ==> ct_matches(stmt, psis[k]@, #[trigger] bpp[k])
    &&& a_pp.len() == psis.len()
    &&& phi_pp.len() == psis.len()
    &&& forall|k: int| 0 <= k < psis.len() ==> const_aggregated(stmt, psis[k]@, #[trigger] a_pp[k]@, phi_pp[k]@)
    &&& alphas.len() == stmt.full@.len()
    &&& elems_wf(alphas, stmt.ring.m)
    &&& betas.len() == psis.len()
    &&& elems_wf(betas, stmt.ring.m)
    &&& full_aggregated(stmt, alphas, betas, a_pp, phi_pp, a_agg, phi_agg)
    &&& cs.len() == stmt.r
    &&& elems_wf(cs, stmt.ring.m)
    &&& forall|i: int| 0 <= i < stmt.r ==> challenge_ok(#[trigger] cs[i], qof(stmt.ring))
}

/// An outcome decided by the opening checks.
pub open spec fn is_opening_outcome(res: Result<(), VerifyError>) -> bool {
    match res {
        Ok(()) => true,
        Err(VerifyError::InnerCommitmentOpening) => true,
        Err(VerifyError::QuadraticOpening) => true,
        Err(VerifyError::LinearOpening) => true,
        Err(VerifyError::AggregatedRelation) => true,
        Err(VerifyError::NormBound) => true,
        _ => false,
    }
}

// ---------------------------------------------------------------------------
// The checks
// ---------------------------------------------------------------------------

/// Check `ct(b''^(k)) = Σ_l ψ^(k)_l b'_0^(l)` for every `k`; the first `k`
/// that fails is reported.
pub fn check_const_terms(stmt: &Statement, psis: &Vec<Vec<u64>>, bpp: &Vec<RingElem>) -> (res: Result<(), VerifyError>)
    requires
        stmt.wf(),
        psis@.len() == bpp@.len(),
        forall|k: int| 0 <= k < psis@.len() ==> (#[trigger] psis@[k])@.len() == stmt.const_term@.len(),
    ensures
        res is Ok <==> forall|k: int| 0 <= k < bpp@.len() ==> ct_matches(*stmt, psis@[k]@, #[trigger] bpp@[k]),
        res matches Err(e) ==> exists|k: int|
            0 <= k < bpp@.len() && e == VerifyError::ConstTermMismatch(k as usize) && !ct_matches(
                *stmt,
                psis@[k]@,
                #[trigger] bpp@[k],
            ) && forall|kk: int| 0 <= kk < k ==> ct_matches(*stmt, psis@[kk]@, #[trigger] bpp@[kk]),
{
    let m = &stmt.ring.m;
    let n_fp = stmt.const_term.len();
    for k in 0..bpp.len()
        invariant
            stmt.wf(),
            m == &stmt.ring.m,
            n_fp == stmt.const_term@.len(),
            psis@.len() == bpp@.len(),
            forall|k: int| 0 <= k < psis@.len() ==> (#[trigger] psis@[k])@.len() == stmt.const_term@.len(),
            forall|kk: int| 0 <= kk < k ==> ct_matches(*stmt, psis@[kk]@, #[trigger] bpp@[kk]),
    {
        let mut expected: u64 = 0;
        for l in 0..n_fp
            invariant
                stmt.wf(),
                m == &stmt.ring.m,
                n_fp == stmt.const_term@.len(),
                k < psis@.len(),
                psis@[k as int]@.len() == n_fp,
                expected < m.q,
                expected == ct_expected(qof(stmt.ring), stmt.const_term@, psis@[k as int]@, l as nat),
        {
            let prod = m.mul(psis[k][l], stmt.const_term[l].b0);
            expected = m.add(expected, prod);
        }
        if bpp[k].c[0] != expected {
            return Err(VerifyError::ConstTermMismatch(k));
        }
    }
    Ok(())
}

/// The aggregated right-hand side `Σ α_k b^(k) + Σ β_k b''^(k)`.
pub fn aggregated_rhs(stmt: &Statement, alphas: &Vec<RingElem>, betas: &Vec<RingElem>, bpp: &Vec<RingElem>) -> (b: RingElem)
    requires
        stmt.wf(),
        alphas@.len() == stmt.full@.len(),
        elems_wf(alphas@, stmt.ring.m),
        betas@.len() == bpp@.len(),
        elems_wf(betas@, stmt.ring.m),
        elems_wf(bpp@, stmt.ring.m),
    ensures
        b.wf(stmt.ring.m),
        elem(b) == rhs_spec(*stmt, alphas@, betas@, bpp@),
{
    let ring = &stmt.ring;
    let m = &ring.m;
    let mut b = RingElem::zero();
    proof {
        lemma_zero_is_zero(b);
    }
    for k in 0..stmt.full.len()
        invariant
            stmt.wf(),
            ring == &stmt.ring,
            m == &stmt.ring.m,
            alphas@.len() == stmt.full@.len(),
            elems_wf(alphas@, stmt.ring.m),
            b.wf(stmt.ring.m),
            elem(b) == full_rhs(*ring, stmt.full@, alphas@, k as nat),
    {
        let term = ring.mul(&alphas[k], &stmt.full[k].b);
        let next = b.add(m, &term);
        proof {
            lemma_add_elem(b, term, next, qof(*ring));
        }
        b = next;
    }
    let ghost base = full_rhs(*ring, stmt.full@, alphas@, stmt.full@.len());
    for k in 0..bpp.len()
        invariant
            stmt.wf(),
            ring == &stmt.ring,
            m == &stmt.ring.m,
            betas@.len() == bpp@.len(),
            elems_wf(betas@, stmt.ring.m),
            elems_wf(bpp@, stmt.ring.m),
            b.wf(stmt.ring.m),
            elem(b) == beta_rhs(*ring, base, betas@, bpp@, k as nat),
    {
        let term = ring.mul(&betas[k], &bpp[k]);
        let next = b.add(m, &term);
        proof {
            lemma_add_elem(b, term, next, qof(*ring));
        }
        b = next;
    }
    b
}


/// `A·z = Σ c_i v_i`, row by row.
pub fn check_inner_opening(
    ring: &Ring,
    a: &Vec<Vec<RingElem>>,
    z: &Vec<RingElem>,
    v: &Vec<Vec<RingElem>>,
    cs: &Vec<RingElem>,
) -> (ok: bool)
    requires
        ring.wf(),
        a@.len() > 0,
        matrix_fits(a@, z@.len(), *ring),
        elems_wf(z@, ring.m),
        elems_wf(cs@, ring.m),
        v@.len() == cs@.len(),
        forall|i: int| 0 <= i < v@.len() ==> (#[trigger] v@[i])@.len() == a@.len() && elems_wf(v@[i]@, ring.m),
    ensures
        ok == inner_opening_ok(*ring, a@, z@, v@, cs@),
{
    let m = &ring.m;
    let az = matmul(ring, a, z);
    for k in 0..a.len()
        invariant
            ring.wf(),
            m == &ring.m,
            az@.len() == a@.len(),
            elems_wf(az@, ring.m),
            forall|k: int| 0 <= k < a@.len() ==> elem(#[trigger] az@[k]) == matmul_row(*ring, a@, z@, k),
            elems_wf(cs@, ring.m),
            v@.len() == cs@.len(),
            forall|i: int| 0 <= i < v@.len() ==> (#[trigger] v@[i])@.len() == a@.len() && elems_wf(v@[i]@, ring.m),
            forall|kk: int| 0 <= kk < k ==> inner_spec_row(*ring, a@, z@, kk) == #[trigger] comb_at(*ring, cs@, v@, kk, v@.len()),
    {
        let mut expected = RingElem::zero();
        proof {
            lemma_zero_is_zero(expected);
        }
        for i in 0..v.len()
            invariant
                ring.wf(),
                m == &ring.m,
                k < a@.len(),
                elems_wf(cs@, ring.m),
                v@.len() == cs@.len(),
                forall|i: int| 0 <= i < v@.len() ==> (#[trigger] v@[i])@.len() == a@.len() && elems_wf(v@[i]@, ring.m),
                expected.wf(ring.m),
                elem(expected) == comb_at(*ring, cs@, v@, k as int, i as nat),
        {
            assert(v@[i as int]@.len() == a@.len() && elems_wf(v@[i as int]@, ring.m));
            let p = ring.mul(&cs[i], &v[i][k]);
            let next = expected.add(m, &p);
            proof {
                lemma_add_elem(expected, p, next, qof(*ring));
            }
            expected = next;
        }
        proof {
            lemma_elem_eq(az@[k as int], expected);
        }
        if az[k] != expected {
            return false;
        }
    }
    true
}

/// `Σ_{i, j < r} (c_i c_j) · g_ij` for a symmetric `g` stored as its upper
/// triangle.
pub fn pair_combination(ring: &Ring, cs: &Vec<RingElem>, g: &Vec<Vec<RingElem>>) -> (res: RingElem)
    requires
        ring.wf(),
        elems_wf(cs@, ring.m),
        g@.len() == cs@.len(),
        forall|i: int| 0 <= i < g@.len() ==> (#[trigger] g@[i])@.len() == cs@.len() && elems_wf(g@[i]@, ring.m),
    ensures
        res.wf(ring.m),
        elem(res) == pair_sum(*ring, cs@, g@, cs@.len(), 0, cs@.len()),
{
    let m = &ring.m;
    let r = cs.len();
    let mut acc = RingElem::zero();
    proof {
        lemma_zero_is_zero(acc);
    }
    for i in 0..r
        invariant
            ring.wf(),
            m == &ring.m,
            r == cs@.len(),
            elems_wf(cs@, ring.m),
            g@.len() == r,
            forall|i: int| 0 <= i < g@.len() ==> (#[trigger] g@[i])@.len() == r && elems_wf(g@[i]@, ring.m),
            acc.wf(ring.m),
            elem(acc) == pair_sum(*ring, cs@, g@, i as nat, 0, r as nat),
    {
        for j in 0..r
            invariant
                ring.wf(),
                m == &ring.m,
                i < r,
                r == cs@.len(),
                elems_wf(cs@, ring.m),
                g@.len() == r,
                forall|i: int| 0 <= i < g@.len() ==> (#[trigger] g@[i])@.len() == r && elems_wf(g@[i]@, ring.m),
                acc.wf(ring.m),
                elem(acc) == pair_sum(*ring, cs@, g@, i as nat, j as nat, r as nat),
        {
            let (lo, hi) = if i <= j {
                (i, j)
            } else {
                (j, i)
            };
            assert(g@[lo as int]@.len() == r && elems_wf(g@[lo as int]@, ring.m));
            let gij = &g[lo][hi];
            let cicj = ring.mul(&cs[i], &cs[j]);
            let term = ring.mul(&cicj, gij);
            let next = acc.add(m, &term);
            proof {
                lemma_add_elem(acc, term, next, qof(*ring));
            }
            acc = next;
        }
    }
    acc
}

/// `Σ_i c_i · ⟨φ_i, z⟩`, skipping empty `φ_i`.
pub fn linear_combination(ring: &Ring, cs: &Vec<RingElem>, phi: &Vec<Vec<(usize, RingElem)>>, z: &Vec<RingElem>) -> (res: RingElem)
    requires
        ring.wf(),
        elems_wf(cs@, ring.m),
        elems_wf(z@, ring.m),
        phi@.len() <= cs@.len(),
        forall|i: int, s: int|
            0 <= i < phi@.len() && 0 <= s < phi@[i]@.len() ==> (#[trigger] phi@[i]@[s]).0 < z@.len() && phi@[i]@[s].1.wf(ring.m),
    ensures
        res.wf(ring.m),
        elem(res) == lin_lhs(*ring, cs@, phi@, z@, phi@.len()),
{
    let m = &ring.m;
    let mut acc = RingElem::zero();
    proof {
        lemma_zero_is_zero(acc);
    }
    for i in 0..phi.len()
        invariant
            ring.wf(),
            m == &ring.m,
            elems_wf(cs@, ring.m),
            elems_wf(z@, ring.m),
            phi@.len() <= cs@.len(),
            forall|i: int, s: int|
                0 <= i < phi@.len() && 0 <= s < phi@[i]@.len() ==> (#[trigger] phi@[i]@[s]).0 < z@.len() && phi@[i]@[s].1.wf(ring.m),
            acc.wf(ring.m),
            elem(acc) == lin_lhs(*ring, cs@, phi@, z@, i as nat),
    {
        if phi[i].len() > 0 {
            assert forall|s: int| 0 <= s < phi@[i as int]@.len() implies {
                &&& (#[trigger] phi@[i as int]@[s]).0 < z@.len()
                &&& phi@[i as int]@[s].1.wf(ring.m)
            } by {}
            let inner = sparse_phi_inner_product(ring, &phi[i], z);
            let term = ring.mul(&cs[i], &inner);
            let next = acc.add(m, &term);
            proof {
                lemma_add_elem(acc, term, next, qof(*ring));
            }
            acc = next;
        }
    }
    acc
}

/// `Σ_{i ≤ j} a_ij g_ij` (doubled off the diagonal, zero `a_ij` skipped)
/// `+ Σ_i h_ii`.
pub fn relation_lhs(ring: &Ring, a: &Vec<Vec<RingElem>>, g: &Vec<Vec<RingElem>>, h: &Vec<Vec<RingElem>>, r: usize) -> (res: RingElem)
    requires
        ring.wf(),
        a@.len() == r,
        g@.len() == r,
        h@.len() == r,
        forall|i: int| 0 <= i < r ==> (#[trigger] a@[i])@.len() == r && elems_wf(a@[i]@, ring.m),
        forall|i: int| 0 <= i < r ==> (#[trigger] g@[i])@.len() == r && elems_wf(g@[i]@, ring.m),
        forall|i: int| 0 <= i < r ==> (#[trigger] h@[i])@.len() == r && elems_wf(h@[i]@, ring.m),
    ensures
        res.wf(ring.m),
        elem(res) == diag_sum(*ring, tri_sum(*ring, a@, g@, r as nat, r as nat, r as nat), h@, r as nat),
{
    let m = &ring.m;
    let mut acc = RingElem::zero();
    proof {
        lemma_zero_is_zero(acc);
    }
    for i in 0..r
        invariant
            ring.wf(),
            m == &ring.m,
            a@.len() == r,
            g@.len() == r,
            forall|i: int| 0 <= i < r ==> (#[trigger] a@[i])@.len() == r && elems_wf(a@[i]@, ring.m),
            forall|i: int| 0 <= i < r ==> (#[trigger] g@[i])@.len() == r && elems_wf(g@[i]@, ring.m),
            acc.wf(ring.m),
            elem(acc) == tri_sum(*ring, a@, g@, i as nat, i as nat, r as nat),
    {
        for j in i..r
            invariant
                ring.wf(),
                m == &ring.m,
                i < r,
                a@.len() == r,
                g@.len() == r,
                forall|i: int| 0 <= i < r ==> (#[trigger] a@[i])@.len() == r && elems_wf(a@[i]@, ring.m),
                forall|i: int| 0 <= i < r ==> (#[trigger] g@[i])@.len() == r && elems_wf(g@[i]@, ring.m),
                acc.wf(ring.m),
                elem(acc) == tri_sum(*ring, a@, g@, i as nat, j as nat, r as nat),
        {
            assert(a@[i as int]@.len() == r && elems_wf(a@[i as int]@, ring.m));
            assert(g@[i as int]@.len() == r && elems_wf(g@[i as int]@, ring.m));
            let aij = &a[i][j];
            proof {
                lemma_zero_elem(*aij);
            }
            if !aij.is_zero() {
                let term = ring.mul(aij, &g[i][j]);
                let share = if i != j {
                    let d = term.add(m, &term);
                    proof {
                        lemma_add_elem(term, term, d, qof(*ring));
                    }
                    d
                } else {
                    term
                };
                let next = acc.add(m, &share);
                proof {
                    lemma_add_elem(acc, share, next, qof(*ring));
                }
                acc = next;
            }
        }
    }
    let ghost base = tri_sum(*ring, a@, g@, r as nat, r as nat, r as nat);
    for i in 0..r
        invariant
            ring.wf(),
            m == &ring.m,
            h@.len() == r,
            forall|i: int| 0 <= i < r ==> (#[trigger] h@[i])@.len() == r && elems_wf(h@[i]@, ring.m),
            acc.wf(ring.m),
            elem(acc) == diag_sum(*ring, base, h@, i as nat),
    {
        assert(h@[i as int]@.len() == r && elems_wf(h@[i as int]@, ring.m));
        let next = acc.add(m, &h[i][i]);
        proof {
            lemma_add_elem(acc, h@[i as int]@[i as int], next, qof(*ring));
        }
        acc = next;
    }
    acc
}

/// `‖z‖² ≤ r · τ² · β²`.
pub fn z_norm_within(stmt: &Statement, z: &Vec<RingElem>) -> (ok: bool)
    requires
        stmt.wf(),
        elems_wf(z@, stmt.ring.m),
        i128::MIN <= stmt.r * TAU_SQ * stmt.beta_sq <= i128::MAX,
    ensures
        ok == norm_ok(*stmt, z@),
{
    let m = &stmt.ring.m;
    let ghost q = qof(stmt.ring);
    let bound: i128 = (stmt.r as i128) * (TAU_SQ as i128) * stmt.beta_sq;
    proof {
        lemma_row_norm_mono(q, z@, 0, z@.len());
    }
    if bound < 0 {
        return false;
    }
    let mut s: i128 = 0;
    for k in 0..z.len()
        invariant
            stmt.wf(),
            m == &stmt.ring.m,
            q == qof(stmt.ring),
            elems_wf(z@, stmt.ring.m),
            bound == stmt.r * TAU_SQ * stmt.beta_sq,
            s == row_norm(q, z@, k as nat),
            s <= bound,
            s >= 0,
    {
        let e = z[k].norm_sq(m);
        proof {
            lemma_row_norm_mono(q, z@, (k + 1) as nat, z@.len());
        }
        if e > i128::MAX - s {
            return false;
        }
        s = s + e;
        if s > bound {
            return false;
        }
    }
    true
}


/// Every element of `v` is reduced.
pub(crate) fn elems_reduced(m: &Modulus, v: &Vec<RingElem>) -> (ok: bool)
    ensures
        ok == elems_wf(v@, *m),
{
    for i in 0..v.len()
        invariant
            forall|j: int| 0 <= j < i ==> (#[trigger] v@[j]).wf(*m),
    {
        for k in 0..D
            invariant
                i < v@.len(),
                forall|j: int| 0 <= j < k ==> #[trigger] v@[i as int].c[j] < m.q,
        {
            if v[i].c[k] >= m.q {
                return false;
            }
        }
    }
    true
}

/// Every row of `g` is reduced.
pub(crate) fn rows_reduced(m: &Modulus, g: &Vec<Vec<RingElem>>) -> (ok: bool)
    ensures
        ok == rows_wf(g@, *m),
{
    for i in 0..g.len()
        invariant
            forall|j: int| 0 <= j < i ==> elems_wf(#[trigger] g@[j]@, *m),
    {
        if !elems_reduced(m, &g[i]) {
            return false;
        }
    }
    true
}

/// `g` is `r × r`.
pub(crate) fn square(g: &Vec<Vec<RingElem>>, r: usize) -> (ok: bool)
    ensures
        ok == is_square(g@, r as nat),
{
    if g.len() != r {
        return false;
    }
    for i in 0..r
        invariant
            g@.len() == r,
            forall|j: int| 0 <= j < i ==> (#[trigger] g@[j])@.len() == r,
    {
        if g[i].len() != r {
            return false;
        }
    }
    true
}

/// The first shape fault of `proof`, if any.
pub fn check_shape(stmt: &Statement, proof: &IterationProof) -> (res: Result<(), VerifyError>)
    ensures
        res == (match shape_error(*stmt, *proof) {
            Some(e) => Err(e),
            None => Ok(()),
        }),
{
    let r = stmt.r;
    let kap = kappa();
    let mut v_ok = proof.v.len() == r;
    if v_ok {
        for i in 0..r
            invariant
                proof.v@.len() == r,
                kap == 8,
                v_ok == forall|j: int| 0 <= j < i ==> (#[trigger] proof.v@[j])@.len() == 8,
        {
            if proof.v[i].len() != kap {
                v_ok = false;
            }
        }
    }
    if !v_ok {
        return Err(VerifyError::ProofShape("v shape"));
    }
    if proof.z.len() != stmt.n {
        return Err(VerifyError::ProofShape("z length"));
    }
    if !square(&proof.g, r) {
        return Err(VerifyError::ProofShape("g shape"));
    }
    if !square(&proof.h, r) {
        return Err(VerifyError::ProofShape("h shape"));
    }
    let m = &stmt.ring.m;
    if !(rows_reduced(m, &proof.v) && elems_reduced(m, &proof.z) && rows_reduced(m, &proof.g) && rows_reduced(
        m,
        &proof.h,
    ) && elems_reduced(m, &proof.b_double_prime)) {
        return Err(VerifyError::ProofShape("coefficient range"));
    }
    Ok(())
}


/// The opening checks of one iteration, in order, given the derived matrix
/// `A`, challenges `c`, aggregated form `(a_agg, φ_agg)` and right-hand side
/// `b`.
pub fn check_openings(
    stmt: &Statement,
    proof: &IterationProof,
    a: &Vec<Vec<RingElem>>,
    cs: &Vec<RingElem>,
    a_agg: &Vec<Vec<RingElem>>,
    phi_agg: &Vec<Vec<(usize, RingElem)>>,
    b_agg: &RingElem,
) -> (res: Result<(), VerifyError>)
    requires
        stmt.wf(),
        i128::MIN <= stmt.r * TAU_SQ * stmt.beta_sq <= i128::MAX,
        shape_error(*stmt, *proof) is None,
        a@.len() == 8,
        matrix_fits(a@, stmt.n as nat, stmt.ring),
        cs@.len() == stmt.r,
        elems_wf(cs@, stmt.ring.m),
        is_square(a_agg@, stmt.r as nat),
        rows_wf(a_agg@, stmt.ring.m),
        phi_agg@.len() == stmt.r,
        forall|i: int, s: int|
            0 <= i < phi_agg@.len() && 0 <= s < phi_agg@[i]@.len() ==> (#[trigger] phi_agg@[i]@[s]).0 < stmt.n
                && phi_agg@[i]@[s].1.wf(stmt.ring.m),
        b_agg.wf(stmt.ring.m),
    ensures
        res == openings_result(*stmt, *proof, a@, cs@, a_agg@, phi_agg@, elem(*b_agg)),
{
    let ring = &stmt.ring;
    let r = stmt.r;
    proof {
        assert forall|i: int| 0 <= i < proof.v@.len() implies (#[trigger] proof.v@[i])@.len() == a@.len() && elems_wf(
            proof.v@[i]@,
            ring.m,
        ) by {}
        assert forall|i: int| 0 <= i < r implies (#[trigger] a_agg@[i])@.len() == r && elems_wf(a_agg@[i]@, ring.m) by {}
        assert forall|i: int| 0 <= i < r implies (#[trigger] proof.g@[i])@.len() == r && elems_wf(proof.g@[i]@, ring.m) by {}
        assert forall|i: int| 0 <= i < r implies (#[trigger] proof.h@[i])@.len() == r && elems_wf(proof.h@[i]@, ring.m) by {}
    }
    if !check_inner_opening(ring, a, &proof.z, &proof.v, cs) {
        return Err(VerifyError::InnerCommitmentOpening);
    }
    let zz = ring_inner_product(ring, &proof.z, &proof.z);
    let expected_zz = pair_combination(ring, cs, &proof.g);
    proof {
        lemma_elem_eq(zz, expected_zz);
    }
    if zz != expected_zz {
        return Err(VerifyError::QuadraticOpening);
    }
    let lhs = linear_combination(ring, cs, phi_agg, &proof.z);
    let rhs = pair_combination(ring, cs, &proof.h);
    proof {
        lemma_elem_eq(lhs, rhs);
    }
    if lhs != rhs {
        return Err(VerifyError::LinearOpening);
    }
    let lhs4 = relation_lhs(ring, a_agg, &proof.g, &proof.h, r);
    proof {
        lemma_elem_eq(lhs4, *b_agg);
    }
    if lhs4 != *b_agg {
        return Err(VerifyError::AggregatedRelation);
    }
    if !z_norm_within(stmt, &proof.z) {
        return Err(VerifyError::NormBound);
    }
    Ok(())
}

/// The aggregated constant-term forms `(a''^(k), φ''^(k))`, one per row of
/// `psis`.
pub fn aggregate_const_forms(stmt: &Statement, psis: &Vec<Vec<u64>>) -> (res: (
    Vec<Vec<Vec<RingElem>>>,
    Vec<Vec<Vec<(usize, RingElem)>>>,
))
    requires
        stmt.wf(),
        forall|k: int| 0 <= k < psis@.len() ==> (#[trigger] psis@[k])@.len() == stmt.const_term@.len(),
    ensures
        res.0@.len() == psis@.len(),
        res.1@.len() == psis@.len(),
        pp_fits(*stmt, res.0@, res.1@),
        forall|k: int| 0 <= k < psis@.len() ==> const_aggregated(*stmt, psis@[k]@, #[trigger] res.0@[k]@, res.1@[k]@),
{
    let mut a_pp: Vec<Vec<Vec<RingElem>>> = Vec::new();
    let mut phi_pp: Vec<Vec<Vec<(usize, RingElem)>>> = Vec::new();
    for k in 0..psis.len()
        invariant
            stmt.wf(),
            forall|k: int| 0 <= k < psis@.len() ==> (#[trigger] psis@[k])@.len() == stmt.const_term@.len(),
            a_pp@.len() == k,
            phi_pp@.len() == k,
            pp_fits(*stmt, a_pp@, phi_pp@),
            forall|kk: int| 0 <= kk < k ==> const_aggregated(*stmt, psis@[kk]@, #[trigger] a_pp@[kk]@, phi_pp@[kk]@),
    {
        let (a_k, phi_k) = aggregate_const_terms(stmt, &psis[k]);
        assert(const_aggregated(*stmt, psis@[k as int]@, a_k@, phi_k@));
        let ghost old_a = a_pp@;
        let ghost old_phi = phi_pp@;
        a_pp.push(a_k);
        phi_pp.push(phi_k);
        proof {
            assert forall|kk: int| 0 <= kk < k + 1 implies const_aggregated(*stmt, psis@[kk]@, #[trigger] a_pp@[kk]@, phi_pp@[kk]@) by {
                if kk < k {
                    assert(a_pp@[kk] == old_a[kk] && phi_pp@[kk] == old_phi[kk]);
                }
            }
            assert forall|kk: int, i: int|
                0 <= kk < a_pp@.len() && 0 <= i < stmt.r implies (#[trigger] a_pp@[kk]@[i])@.len() == stmt.r
                    && elems_wf(a_pp@[kk]@[i]@, stmt.ring.m) by {
                if kk < k {
                    assert(a_pp@[kk] == old_a[kk]);
                }
            }
            assert forall|kk: int, i: int, s: int|
                0 <= kk < phi_pp@.len() && 0 <= i < stmt.r && 0 <= s < phi_pp@[kk]@[i]@.len() implies (
                #[trigger] phi_pp@[kk]@[i]@[s]).0 < stmt.n && phi_pp@[kk]@[i]@[s].1.wf(stmt.ring.m) by {
                if kk < k {
                    assert(phi_pp@[kk] == old_phi[kk]);
                }
            }
            assert forall|kk: int| 0 <= kk < a_pp@.len() implies (#[trigger] a_pp@[kk])@.len() == stmt.r by {
                if kk < k {
                    assert(a_pp@[kk] == old_a[kk]);
                }
            }
            assert forall|kk: int| 0 <= kk < phi_pp@.len() implies (#[trigger] phi_pp@[kk])@.len() == stmt.r by {
                if kk < k {
                    assert(phi_pp@[kk] == old_phi[kk]);
                }
            }
        }
    }
    (a_pp, phi_pp)
}


/// `⌈log₂ x⌉` is unique.
pub proof fn lemma_ceil_log2_unique(e1: nat, e2: nat, x: int)
    requires
        is_ceil_log2(e1, x),
        is_ceil_log2(e2, x),
    ensures
        e1 == e2,
{
    if e1 < e2 {
        vstd::arithmetic::power2::lemma_pow2_strictly_increases(e1, (e2 - 1) as nat);
        if e1 == (e2 - 1) as nat {
        }
    } else if e2 < e1 {
        vstd::arithmetic::power2::lemma_pow2_strictly_increases(e2, (e1 - 1) as nat);
    }
    if e1 < e2 && e1 < (e2 - 1) as nat {
        vstd::arithmetic::power2::lemma_pow2_strictly_increases(e1, (e2 - 1) as nat);
    }
    if e2 < e1 && e2 < (e1 - 1) as nat {
        vstd::arithmetic::power2::lemma_pow2_strictly_increases(e2, (e1 - 1) as nat);
    }
}

/// `p` passes every check of the verifier for `stmt` from transcript state
/// `st` (before the statement is bound): the right shape, `K''` aggregated
/// values, and for the derived values every constant term matches and every
/// opening holds.
pub open spec fn accepts(stmt: Statement, p: IterationProof, st: Seq<u8>) -> bool {
    &&& shape_error(stmt, p) is None
    &&& k_pp_of(qof(stmt.ring), p.b_double_prime@.len() as int)
    &&& exists|
        a: Seq<Vec<RingElem>>,
        psis: Seq<Vec<u64>>,
        alphas: Seq<RingElem>,
        betas: Seq<RingElem>,
        a_pp: Seq<Vec<Vec<RingElem>>>,
        phi_pp: Seq<Vec<Vec<(usize, RingElem)>>>,
        a_agg: Seq<Vec<RingElem>>,
        phi_agg: Seq<Vec<(usize, RingElem)>>,
        cs: Seq<RingElem>,
    |
        #[trigger] derivation(
            stmt,
            p,
            st + statement_records(stmt),
            a,
            psis,
            alphas,
            betas,
            a_pp,
            phi_pp,
            a_agg,
            phi_agg,
            cs,
        ) && openings_result(stmt, p, a, cs, a_agg, phi_agg, rhs_spec(stmt, alphas, betas, p.b_double_prime@))
            is Ok
}

/// For some scalars `ψ` of the right shape, `k` is the first index whose
/// constant term does not match.
pub open spec fn ct_mismatch_at(stmt: Statement, p: IterationProof, k: int) -> bool {
    let bpp = p.b_double_prime@;
    exists|psis: Seq<Vec<u64>>|
        #![trigger psis[k]]
        psis.len() == bpp.len() && (forall|kk: int|
            0 <= kk < psis.len() ==> (#[trigger] psis[kk])@.len() == stmt.const_term@.len()) && 0 <= k < psis.len()
            && !ct_matches(stmt, psis[k]@, bpp[k]) && forall|kk: int|
            0 <= kk < k ==> ct_matches(stmt, psis[kk]@, #[trigger] bpp[kk])
}

/// The number of aggregated constant-term constraints for modulus `q`.
pub open spec fn k_pp_of(q: int, k: int) -> bool {
    forall|e: nat| is_ceil_log2(e, q) ==> k == (LAMBDA + e - 1) / (e as int)
}

/// Verify one LaBRADOR iteration of `stmt` against `proof`, re-deriving every
/// challenge from `transcript` (which first absorbs the statement).
pub fn verify(stmt: &Statement, proof: &IterationProof, transcript: &mut Transcript) -> (res: Result<(), VerifyError>)
    requires
        stmt.wf(),
        i128::MIN <= stmt.r * TAU_SQ * stmt.beta_sq <= i128::MAX,
    ensures
        shape_error(*stmt, *proof) matches Some(e) ==> res == Err::<(), VerifyError>(e),
        res == Err::<(), VerifyError>(VerifyError::ProofShape("b'' length")) ==> shape_error(*stmt, *proof) is None && !k_pp_of(
            qof(stmt.ring),
            proof.b_double_prime@.len() as int,
        ),
        shape_error(*stmt, *proof) is None && !k_pp_of(qof(stmt.ring), proof.b_double_prime@.len() as int) ==> (res
            == Err::<(), VerifyError>(VerifyError::ProofShape("b'' length")) || res == Err::<(), VerifyError>(VerifyError::TranscriptExhausted)),
        res matches Err(VerifyError::ConstTermMismatch(k)) ==> shape_error(*stmt, *proof) is None
            && ct_mismatch_at(*stmt, *proof, k as int),
        res is Ok ==> accepts(*stmt, *proof, old(transcript).absorbed()),
        is_opening_outcome(res) ==> {
            &&& shape_error(*stmt, *proof) is None
            &&& k_pp_of(qof(stmt.ring), proof.b_double_prime@.len() as int)
            &&& exists|
                a: Seq<Vec<RingElem>>,
                psis: Seq<Vec<u64>>,
                alphas: Seq<RingElem>,
                betas: Seq<RingElem>,
                a_pp: Seq<Vec<Vec<RingElem>>>,
                phi_pp: Seq<Vec<Vec<(usize, RingElem)>>>,
                a_agg: Seq<Vec<RingElem>>,
                phi_agg: Seq<Vec<(usize, RingElem)>>,
                cs: Seq<RingElem>,
            |
                #[trigger] derivation(
                    *stmt,
                    *proof,
                    old(transcript).absorbed() + statement_records(*stmt),
                    a,
                    psis,
                    alphas,
                    betas,
                    a_pp,
                    phi_pp,
                    a_agg,
                    phi_agg,
                    cs,
                ) && res == openings_result(
                    *stmt,
                    *proof,
                    a,
                    cs,
                    a_agg,
                    phi_agg,
                    rhs_spec(*stmt, alphas, betas, proof.b_double_prime@),
                )
        },
{
    bind_statement(transcript, stmt);
    let ghost st = transcript.absorbed();
    let ring = &stmt.ring;
    let n = stmt.n;
    let r = stmt.r;
    match check_shape(stmt, proof) {
        Ok(()) => {},
        Err(e) => {
            return Err(e);
        },
    }
    let kap = kappa();
    let a = match expand_matrix(transcript, &LABEL_A, kap, n, ring) {
        Some(a) => a,
        None => {
            return Err(VerifyError::TranscriptExhausted);
        },
    };
    absorb_ring_matrix(transcript, &LABEL_V, &proof.v);

    let k_pp = k_double_prime(stmt, LAMBDA);
    proof {
        let e = choose|e: nat| is_ceil_log2(e, stmt.ring.m.q as int) && e >= 2 && k_pp == (LAMBDA + e - 1) / (e as int);
        assert forall|e2: nat| is_ceil_log2(e2, qof(stmt.ring)) implies k_pp == (LAMBDA + e2 - 1) / (e2 as int) by {
            lemma_ceil_log2_unique(e, e2, qof(stmt.ring));
        }
        assert(k_pp_of(qof(stmt.ring), k_pp as int));
        if !k_pp_of(qof(stmt.ring), proof.b_double_prime@.len() as int) {
            assert(proof.b_double_prime@.len() != k_pp);
        }
    }
    if proof.b_double_prime.len() != k_pp {
        proof {
            if k_pp_of(qof(stmt.ring), proof.b_double_prime@.len() as int) {
                let e = choose|e: nat| is_ceil_log2(e, stmt.ring.m.q as int) && e >= 2 && k_pp == (LAMBDA + e - 1) / (e as int);
                assert(proof.b_double_prime@.len() == (LAMBDA + e - 1) / (e as int));
            }
        }
        return Err(VerifyError::ProofShape("b'' length"));
    }
    let psis = match derive_psis(transcript, k_pp, stmt.const_term.len(), ring.m.q) {
        Some(p) => p,
        None => {
            return Err(VerifyError::TranscriptExhausted);
        },
    };
    match check_const_terms(stmt, &psis, &proof.b_double_prime) {
        Ok(()) => {},
        Err(e) => {
            proof {
                let k = choose|k: int|
                    0 <= k < proof.b_double_prime@.len() && e == VerifyError::ConstTermMismatch(k as usize) && !ct_matches(
                        *stmt,
                        psis@[k]@,
                        #[trigger] proof.b_double_prime@[k],
                    ) && forall|kk: int| 0 <= kk < k ==> ct_matches(*stmt, psis@[kk]@, #[trigger] proof.b_double_prime@[kk]);
                let ps = psis@;
                assert(ps.len() == proof.b_double_prime@.len() && (forall|kk: int|
                    0 <= kk < ps.len() ==> (#[trigger] ps[kk])@.len() == stmt.const_term@.len()) && k
                    < ps.len() && !ct_matches(*stmt, ps[k]@, proof.b_double_prime@[k]) && forall|kk: int|
                    0 <= kk < k ==> ct_matches(*stmt, ps[kk]@, #[trigger] proof.b_double_prime@[kk]));
                assert(ps[k] == psis@[k]);
                assert(ct_mismatch_at(*stmt, *proof, k));
            }
            return Err(e);
        },
    }
    absorb_ring_vec(transcript, &LABEL_BPP, &proof.b_double_prime);
    let (a_pp, phi_pp) = aggregate_const_forms(stmt, &psis);
    let alphas = match sample_ring_elements(transcript, &LABEL_ALPHA, stmt.full.len(), ring) {
        Some(x) => x,
        None => {
            return Err(VerifyError::TranscriptExhausted);
        },
    };
    let betas = match sample_ring_elements(transcript, &LABEL_BETA, k_pp, ring) {
        Some(x) => x,
        None => {
            return Err(VerifyError::TranscriptExhausted);
        },
    };
    let (a_agg, phi_agg) = aggregate_full(stmt, &alphas, &betas, &a_pp, &phi_pp);
    assert(full_aggregated(*stmt, alphas@, betas@, a_pp@, phi_pp@, a_agg@, phi_agg@));
    let b_agg = aggregated_rhs(stmt, &alphas, &betas, &proof.b_double_prime);
    absorb_ring_matrix(transcript, &LABEL_G, &proof.g);
    absorb_ring_matrix(transcript, &LABEL_H, &proof.h);
    let cs = match sample_challenges(transcript, r, ring) {
        Some(c) => c,
        None => {
            return Err(VerifyError::TranscriptExhausted);
        },
    };
    proof {
        assert forall|i: int| 0 <= i < r implies (#[trigger] a_agg@[i])@.len() == r by {}
        assert forall|i: int| 0 <= i < a_agg@.len() implies elems_wf(#[trigger] a_agg@[i]@, ring.m) by {}
        assert(derivation(*stmt, *proof, st, a@, psis@, alphas@, betas@, a_pp@, phi_pp@, a_agg@, phi_agg@, cs@));
    }
    check_openings(stmt, proof, &a, &cs, &a_agg, &phi_agg, &b_agg)
}

} // verus!
