//! The LaBRADOR prover for one (non-recursive) iteration.
use crate::labrador::aggregation::{aggregate_const_terms, aggregate_full, pp_fits};
use crate::labrador::binding::{absorb_ring_matrix, absorb_ring_vec, bind_statement, statement_records};
use crate::labrador::challenge::{challenge_ok, challenges_run, lemma_challenges_stop, sample_challenge};
use crate::labrador::commit::{commit_inner, expand_matrix, expanded_matrix, matmul_row, matrix_fits};
use crate::labrador::garbage::{compute_g, compute_h, phis_fit, vectors_fit};
use crate::labrador::proofs::IterationProof;
use crate::labrador::statement::{
    elem, elems_wf, inner_spec, lemma_add_elem, lemma_zero_is_zero, poly_add, poly_mul, qof,
    ring_inner_product, sparse_phi_inner_product, vecs, wit_shape, zero_poly, Statement, Witness,
};
use crate::labrador::transcript::{derive_below_spec, le64, u64_le_bytes, Transcript};
use crate::modring::crt::Ring;
use crate::modring::poly::{RingElem, D};
use vstd::arithmetic::power2::pow2;
use vstd::prelude::*;

verus! {

/// `labrador.A`
pub const LABEL_A: [u8; 10] = [108u8, 97, 98, 114, 97, 100, 111, 114, 46, 65];

/// `labrador.v`
pub const LABEL_V: [u8; 10] = [108u8, 97, 98, 114, 97, 100, 111, 114, 46, 118];

/// `labrador.psi`
pub const LABEL_PSI: [u8; 12] = [108u8, 97, 98, 114, 97, 100, 111, 114, 46, 112, 115, 105];

/// `labrador.b''`
pub const LABEL_BPP: [u8; 12] = [108u8, 97, 98, 114, 97, 100, 111, 114, 46, 98, 39, 39];

/// `labrador.alpha`
pub const LABEL_ALPHA: [u8; 14] = [108u8, 97, 98, 114, 97, 100, 111, 114, 46, 97, 108, 112, 104, 97];

/// `labrador.beta`
pub const LABEL_BETA: [u8; 13] = [108u8, 97, 98, 114, 97, 100, 111, 114, 46, 98, 101, 116, 97];

/// `labrador.g`
pub const LABEL_G: [u8; 10] = [108u8, 97, 98, 114, 97, 100, 111, 114, 46, 103];

/// `labrador.h`
pub const LABEL_H: [u8; 10] = [108u8, 97, 98, 114, 97, 100, 111, 114, 46, 104];

/// `labrador.c`
pub const LABEL_C: [u8; 10] = [108u8, 97, 98, 114, 97, 100, 111, 114, 46, 99];

/// The security parameter `λ`.
pub const LAMBDA: u32 = 128;

/// `⌈log₂ x⌉` (0 for `x ≤ 1`): the least `e` with `2^e ≥ x`.
pub open spec fn is_ceil_log2(e: nat, x: int) -> bool {
    &&& pow2(e) >= x
    &&& (e == 0 || pow2((e - 1) as nat) < x)
}

/// `⌈log₂ x⌉`, exactly.
pub fn ceil_log2(x: u64) -> (e: u32)
    ensures
        e <= 64,
        is_ceil_log2(e as nat, x as int),
{
    let mut e: u32 = 0;
    let mut p: u128 = 1;
    proof {
        vstd::arithmetic::power2::lemma2_to64();
    }
    while p < x as u128
        invariant
            e <= 64,
            p == pow2(e as nat),
            e == 0 || pow2((e - 1) as nat) < x,
            p <= 0x1_0000_0000_0000_0000,
        decreases 64 - e,
    {
        proof {
            vstd::arithmetic::power2::lemma_pow2_adds(e as nat, 1);
            vstd::arithmetic::power2::lemma2_to64();
            vstd::arithmetic::power2::lemma2_to64_rest();
            if e > 64 {
                vstd::arithmetic::power2::lemma_pow2_strictly_increases(64, e as nat);
            }
        }
        p = p * 2;
        e = e + 1;
    }
    e
}

/// `K'' = ⌈λ / ⌈log₂ q'⌉⌉`: how many aggregated constant-term constraints
/// give `λ` bits of soundness.
pub fn k_double_prime(stmt: &Statement, lambda: u32) -> (k: usize)
    requires
        stmt.ring.m.wf(),
    ensures
        exists|e: nat| is_ceil_log2(e, stmt.ring.m.q as int) && e >= 2 && k == (lambda + e - 1) / (e as int),
{
    let logq = ceil_log2(stmt.ring.m.q);
    proof {
        vstd::arithmetic::power2::lemma2_to64();
        if logq < 2 {
            if logq == 1 {
                assert(pow2(1) == 2);
            } else {
                assert(pow2(0) == 1);
            }
        }
    }
    let k64: u64 = ((lambda as u64) + (logq as u64) - 1) / (logq as u64);
    proof {
        let num: int = lambda + logq - 1;
        assert(k64 == num / (logq as int));
        assert(num / (logq as int) <= num / 2) by {
            vstd::arithmetic::div_mod::lemma_div_is_ordered_by_denominator(num, 2, logq as int);
        }
    }
    k64 as usize
}

/// The inner-commitment rank `κ`.
pub fn kappa() -> (k: usize)
    ensures
        k == 8,
{
    8
}

/// `label ‖ a ‖ b` with `a`, `b` as 8 little-endian bytes each.
pub fn label2(label: &[u8], a: u64, b: u64) -> (out: Vec<u8>)
    ensures
        out@ == label@ + le64(a) + le64(b),
{
    let mut out: Vec<u8> = Vec::new();
    out.extend_from_slice(label);
    out.extend_from_slice(&u64_le_bytes(a));
    out.extend_from_slice(&u64_le_bytes(b));
    assert(out@ =~= label@ + le64(a) + le64(b));
    out
}

/// `label ‖ a` with `a` as 8 little-endian bytes.
pub fn label1(label: &[u8], a: u64) -> (out: Vec<u8>)
    ensures
        out@ == label@ + le64(a),
{
    let mut out: Vec<u8> = Vec::new();
    out.extend_from_slice(label);
    out.extend_from_slice(&u64_le_bytes(a));
    assert(out@ =~= label@ + le64(a));
    out
}

/// Drawing `k` values below `q`, value `j` under `label ‖ idx ‖ j`, from
/// transcript state `st`: the values (or `None` once a draw fails) and the
/// state afterwards.
pub open spec fn row_draws(st: Seq<u8>, label: Seq<u8>, idx: u64, q: u64, k: nat) -> (Option<Seq<u64>>, Seq<u8>)
    decreases k,
{
    if k == 0 {
        (Some(Seq::empty()), st)
    } else {
        let prev = row_draws(st, label, idx, q, (k - 1) as nat);
        match prev.0 {
            None => prev,
            Some(vs) => {
                let d = derive_below_spec(prev.1, label + le64(idx) + le64((k - 1) as u64), q);
                match d.0 {
                    Some(x) => (Some(vs.push(x)), d.1),
                    None => (None, d.1),
                }
            },
        }
    }
}

/// Drawing `count` rows of `width` values below `q`, row `i` by
/// [`row_draws`] with index `i`: the rows (or `None` once a draw fails) and
/// the state afterwards.
pub open spec fn rows_draws(st: Seq<u8>, label: Seq<u8>, q: u64, width: nat, count: nat) -> (Option<Seq<Seq<u64>>>, Seq<u8>)
    decreases count,
{
    if count == 0 {
        (Some(Seq::empty()), st)
    } else {
        let prev = rows_draws(st, label, q, width, (count - 1) as nat);
        match prev.0 {
            None => prev,
            Some(rows) => {
                let d = row_draws(prev.1, label, (count - 1) as u64, q, width);
                match d.0 {
                    Some(row) => (Some(rows.push(row)), d.1),
                    None => (None, d.1),
                }
            },
        }
    }
}

/// Once a draw failed, drawing further changes nothing.
proof fn lemma_row_draws_stop(st: Seq<u8>, label: Seq<u8>, idx: u64, q: u64, k: nat, k2: nat)
    requires
        k <= k2,
        row_draws(st, label, idx, q, k).0 is None,
    ensures
        row_draws(st, label, idx, q, k2) == row_draws(st, label, idx, q, k),
    decreases k2,
{
    if k < k2 {
        lemma_row_draws_stop(st, label, idx, q, k, (k2 - 1) as nat);
    }
}

/// Once a row failed, drawing further rows changes nothing.
proof fn lemma_rows_draws_stop(st: Seq<u8>, label: Seq<u8>, q: u64, width: nat, k: nat, k2: nat)
    requires
        k <= k2,
        rows_draws(st, label, q, width, k).0 is None,
    ensures
        rows_draws(st, label, q, width, k2) == rows_draws(st, label, q, width, k),
    decreases k2,
{
    if k < k2 {
        lemma_rows_draws_stop(st, label, q, width, k, (k2 - 1) as nat);
    }
}

/// The coefficient sequences of a list of ring elements.
pub open spec fn coeff_rows(v: Seq<RingElem>) -> Seq<Seq<u64>> {
    v.map_values(|e: RingElem| e.c@)
}

/// The value sequences of a list of rows.
pub open spec fn u64_rows(v: Seq<Vec<u64>>) -> Seq<Seq<u64>> {
    v.map_values(|row: Vec<u64>| row@)
}

/// A uniformly random ring element: coefficient `k` is drawn below `q'`
/// under `label ‖ idx ‖ k`. `None` if a draw fails.
pub fn sample_ring_element(t: &mut Transcript, label: &[u8], idx: u64, ring: &Ring) -> (res: Option<RingElem>)
    requires
        ring.wf(),
    ensures
        res matches Some(e) ==> e.wf(ring.m),
        ({
            let d = row_draws(old(t).absorbed(), label@, idx, ring.m.q, D as nat);
            &&& final(t).absorbed() == d.1
            &&& match res {
                Some(e) => d.0 == Some(e.c@),
                None => d.0 is None,
            }
        }),
{
    let ghost st = t.absorbed();
    let mut e = RingElem::zero();
    assert(e.c@.subrange(0, 0) =~= Seq::<u64>::empty());
    for k in 0..D
        invariant
            ring.wf(),
            forall|j: int| 0 <= j < D ==> #[trigger] e.c[j] < ring.m.q,
            st == old(t).absorbed(),
            row_draws(st, label@, idx, ring.m.q, k as nat) == (Some(e.c@.subrange(0, k as int)), t.absorbed()),
    {
        let sub = label2(label, idx, k as u64);
        let ghost before = e.c@;
        match t.derive_below(&sub, ring.m.q) {
            Some(v) => {
                e.c[k] = v;
                assert(e.c@.subrange(0, k + 1) =~= before.subrange(0, k as int).push(v));
            },
            None => {
                proof {
                    lemma_row_draws_stop(st, label@, idx, ring.m.q, (k + 1) as nat, D as nat);
                }
                return None;
            },
        }
    }
    assert(e.c@.subrange(0, D as int) =~= e.c@);
    Some(e)
}

/// `Σ_{i < n} c_i · w_i[k]`.
pub open spec fn amortized(ring: Ring, cs: Seq<RingElem>, ws: Seq<Seq<RingElem>>, k: int, n: nat) -> Seq<int>
    decreases n,
{
    if n == 0 {
        zero_poly()
    } else {
        poly_add(
            amortized(ring, cs, ws, k, (n - 1) as nat),
            poly_mul(ring, elem(cs[n - 1]), elem(ws[n - 1][k])),
            qof(ring),
        )
    }
}

/// `Σ_{i ≤ j} a_ij ⟨w_i, w_j⟩` (doubled off the diagonal) `+ Σ_i ⟨φ_i, w_i⟩`
/// for one aggregated constant-term constraint.
fn aggregated_value(
    ring: &Ring,
    a_k: &Vec<Vec<RingElem>>,
    phi_k: &Vec<Vec<(usize, RingElem)>>,
    w: &Witness,
    r: usize,
    n: usize,
) -> (b: RingElem)
    requires
        ring.wf(),
        w.w@.len() == r,
        wit_shape(w.view_vecs(), r as int, n as int, ring.m),
        a_k@.len() == r,
        forall|i: int| 0 <= i < r ==> (#[trigger] a_k@[i])@.len() == r && elems_wf(a_k@[i]@, ring.m),
        phi_k@.len() == r,
        forall|i: int, s: int|
            0 <= i < r && 0 <= s < phi_k@[i]@.len() ==> (#[trigger] phi_k@[i]@[s]).0 < n && phi_k@[i]@[s].1.wf(ring.m),
    ensures
        b.wf(ring.m),
{
    let m = &ring.m;
    let mut b = RingElem::zero();
    for i in 0..r
        invariant
            ring.wf(),
            m == &ring.m,
            w.w@.len() == r,
            wit_shape(w.view_vecs(), r as int, n as int, ring.m),
            a_k@.len() == r,
            forall|i: int| 0 <= i < r ==> (#[trigger] a_k@[i])@.len() == r && elems_wf(a_k@[i]@, ring.m),
            b.wf(ring.m),
    {
        for j in i..r
            invariant
                ring.wf(),
                m == &ring.m,
                i < r,
                w.w@.len() == r,
                wit_shape(w.view_vecs(), r as int, n as int, ring.m),
                a_k@.len() == r,
                forall|i: int| 0 <= i < r ==> (#[trigger] a_k@[i])@.len() == r && elems_wf(a_k@[i]@, ring.m),
                b.wf(ring.m),
        {
            assert(a_k@[i as int]@[j as int].wf(ring.m));
            let coef = a_k[i][j];
            if !coef.is_zero() {
                assert(w.view_vecs()[i as int] == w.w@[i as int]@ && w.view_vecs()[j as int] == w.w@[j as int]@);
                let ip = ring_inner_product(ring, &w.w[i], &w.w[j]);
                let mut term = ring.mul(&coef, &ip);
                if i != j {
                    term = term.add(m, &term);
                }
                b = b.add(m, &term);
            }
        }
    }
    for i in 0..r
        invariant
            ring.wf(),
            m == &ring.m,
            w.w@.len() == r,
            wit_shape(w.view_vecs(), r as int, n as int, ring.m),
            phi_k@.len() == r,
            forall|i: int, s: int|
                0 <= i < r && 0 <= s < phi_k@[i]@.len() ==> (#[trigger] phi_k@[i]@[s]).0 < n && phi_k@[i]@[s].1.wf(ring.m),
            b.wf(ring.m),
    {
        if phi_k[i].len() > 0 {
            assert(w.view_vecs()[i as int] == w.w@[i as int]@);
            assert forall|s: int| 0 <= s < phi_k@[i as int]@.len() implies {
                &&& (#[trigger] phi_k@[i as int]@[s]).0 < w.w@[i as int]@.len()
                &&& phi_k@[i as int]@[s].1.wf(ring.m)
            } by {}
            let ip = sparse_phi_inner_product(ring, &phi_k[i], &w.w[i]);
            b = b.add(m, &ip);
        }
    }
    b
}

/// `ψ^(k)_l` for `k < k_pp`, `l < n_fp`, each drawn below `q` under
/// `labrador.psi ‖ k ‖ l`.
pub(crate) fn derive_psis(transcript: &mut Transcript, k_pp: usize, n_fp: usize, q: u64) -> (res: Option<Vec<Vec<u64>>>)
    requires
        q >= 1,
    ensures
        res matches Some(psis) ==> psis@.len() == k_pp && forall|k: int|
            0 <= k < k_pp ==> (#[trigger] psis@[k])@.len() == n_fp,
        ({
            let d = rows_draws(old(transcript).absorbed(), LABEL_PSI@, q, n_fp as nat, k_pp as nat);
            &&& final(transcript).absorbed() == d.1
            &&& match res {
                Some(psis) => d.0 == Some(u64_rows(psis@)),
                None => d.0 is None,
            }
        }),
{
    let ghost st = transcript.absorbed();
    let mut psis: Vec<Vec<u64>> = Vec::new();
    assert(u64_rows(psis@) =~= Seq::<Seq<u64>>::empty());
    for k in 0..k_pp
        invariant
            q >= 1,
            psis@.len() == k,
            forall|kk: int| 0 <= kk < k ==> (#[trigger] psis@[kk])@.len() == n_fp,
            st == old(transcript).absorbed(),
            rows_draws(st, LABEL_PSI@, q, n_fp as nat, k as nat) == (Some(u64_rows(psis@)), transcript.absorbed()),
    {
        let ghost st_k = transcript.absorbed();
        let mut row: Vec<u64> = Vec::new();
        for l in 0..n_fp
            invariant
                q >= 1,
                row@.len() == l,
                k < k_pp,
                st == old(transcript).absorbed(),
                rows_draws(st, LABEL_PSI@, q, n_fp as nat, k as nat) == (Some(u64_rows(psis@)), st_k),
                row_draws(st_k, LABEL_PSI@, k as u64, q, l as nat) == (Some(row@), transcript.absorbed()),
        {
            let label = label2(&LABEL_PSI, k as u64, l as u64);
            match transcript.derive_field(&label, q) {
                Some(x) => {
                    row.push(x);
                },
                None => {
                    proof {
                        lemma_row_draws_stop(st_k, LABEL_PSI@, k as u64, q, (l + 1) as nat, n_fp as nat);
                        lemma_rows_draws_stop(st, LABEL_PSI@, q, n_fp as nat, (k + 1) as nat, k_pp as nat);
                    }
                    return None;
                },
            }
        }
        let ghost before = psis@;
        psis.push(row);
        assert(u64_rows(psis@) =~= u64_rows(before).push(row@));
    }
    Some(psis)
}

/// For each row of `psis`: the aggregated constant-term constraint
/// `(a''^(k), φ''^(k))` and its value `b''^(k)` on the witness.
pub(crate) fn aggregate_const_all(stmt: &Statement, witness: &Witness, psis: &Vec<Vec<u64>>) -> (res: (
    Vec<Vec<Vec<RingElem>>>,
    Vec<Vec<Vec<(usize, RingElem)>>>,
    Vec<RingElem>,
))
    requires
        stmt.wf(),
        wit_shape(witness.view_vecs(), stmt.r as int, stmt.n as int, stmt.ring.m),
        forall|k: int| 0 <= k < psis@.len() ==> (#[trigger] psis@[k])@.len() == stmt.const_term@.len(),
    ensures
        res.0@.len() == psis@.len(),
        res.1@.len() == psis@.len(),
        res.2@.len() == psis@.len(),
        elems_wf(res.2@, stmt.ring.m),
        pp_fits(*stmt, res.0@, res.1@),
{
    let ring = &stmt.ring;
    let r = stmt.r;
    let n = stmt.n;
    let k_pp = psis.len();
    let mut a_pp: Vec<Vec<Vec<RingElem>>> = Vec::new();
    let mut phi_pp: Vec<Vec<Vec<(usize, RingElem)>>> = Vec::new();
    let mut b_double_prime: Vec<RingElem> = Vec::new();
    for k in 0..k_pp
        invariant
            stmt.wf(),
            ring == &stmt.ring,
            r == stmt.r,
            n == stmt.n,
            k_pp == psis@.len(),
            forall|kk: int| 0 <= kk < psis@.len() ==> (#[trigger] psis@[kk])@.len() == stmt.const_term@.len(),
            wit_shape(witness.view_vecs(), stmt.r as int, stmt.n as int, stmt.ring.m),
            a_pp@.len() == k,
            phi_pp@.len() == k,
            b_double_prime@.len() == k,
            elems_wf(b_double_prime@, stmt.ring.m),
            pp_fits(*stmt, a_pp@, phi_pp@),
    {
        let (a_k, phi_k) = aggregate_const_terms(stmt, &psis[k]);
        proof {
            assert(witness.w@.len() == witness.view_vecs().len());
        }
        let b_full = aggregated_value(ring, &a_k, &phi_k, witness, r, n);
        let ghost old_a = a_pp@;
        let ghost old_phi = phi_pp@;
        a_pp.push(a_k);
        phi_pp.push(phi_k);
        b_double_prime.push(b_full);
        proof {
            assert forall|kk: int, i: int|
                0 <= kk < a_pp@.len() && 0 <= i < stmt.r implies (#[trigger] a_pp@[kk]@[i])@.len() == stmt.r
                    && elems_wf(a_pp@[kk]@[i]@, stmt.ring.m) by {
                if kk < k {
                    assert(a_pp@[kk] == old_a[kk]);
                }
            }
            assert forall|kk: int, i: int, s: int|
                0 <= kk < phi_pp@.len() && 0 <= i < stmt.r && 0 <= s < phi_pp@[kk]@[i]@.len() implies (
                #[trigger] phi_pp@[kk]@[i]@[s]).0 < stmt.n && phi_pp@[kk]@[i]@[s].1.wf(stmt.ring.m) by {
                if kk < k {
                    assert(phi_pp@[kk] == old_phi[kk]);
                }
            }
            assert forall|kk: int| 0 <= kk < a_pp@.len() implies (#[trigger] a_pp@[kk])@.len() == stmt.r by {
                if kk < k {
                    assert(a_pp@[kk] == old_a[kk]);
                }
            }
            assert forall|kk: int| 0 <= kk < phi_pp@.len() implies (#[trigger] phi_pp@[kk])@.len() == stmt.r by {
                if kk < k {
                    assert(phi_pp@[kk] == old_phi[kk]);
                }
            }
        }
    }
    (a_pp, phi_pp, b_double_prime)
}

/// `count` ring elements, element `k` drawn with `sample_ring_element`
/// under `label` and index `k`.
pub(crate) fn sample_ring_elements(transcript: &mut Transcript, label: &[u8], count: usize, ring: &Ring) -> (res: Option<Vec<RingElem>>)
    requires
        ring.wf(),
    ensures
        res matches Some(v) ==> v@.len() == count && elems_wf(v@, ring.m),
        ({
            let d = rows_draws(old(transcript).absorbed(), label@, ring.m.q, D as nat, count as nat);
            &&& final(transcript).absorbed() == d.1
            &&& match res {
                Some(v) => d.0 == Some(coeff_rows(v@)),
                None => d.0 is None,
            }
        }),
{
    let ghost st = transcript.absorbed();
    let mut out: Vec<RingElem> = Vec::new();
    assert(coeff_rows(out@) =~= Seq::<Seq<u64>>::empty());
    for k in 0..count
        invariant
            ring.wf(),
            out@.len() == k,
            elems_wf(out@, ring.m),
            st == old(transcript).absorbed(),
            rows_draws(st, label@, ring.m.q, D as nat, k as nat) == (Some(coeff_rows(out@)), transcript.absorbed()),
    {
        match sample_ring_element(transcript, label, k as u64, ring) {
            Some(x) => {
                let ghost before = out@;
                out.push(x);
                assert(coeff_rows(out@) =~= coeff_rows(before).push(x.c@));
            },
            None => {
                proof {
                    lemma_rows_draws_stop(st, label@, ring.m.q, D as nat, (k + 1) as nat, count as nat);
                }
                return None;
            },
        }
    }
    Some(out)
}

/// The amortizing challenges `c_0 … c_{r-1}`, `c_i` under `labrador.c ‖ i`.
pub(crate) fn sample_challenges(transcript: &mut Transcript, r: usize, ring: &Ring) -> (res: Option<Vec<RingElem>>)
    requires
        ring.wf(),
    ensures
        res matches Some(cs) ==> {
            &&& cs@.len() == r
            &&& elems_wf(cs@, ring.m)
            &&& forall|j: int| 0 <= j < r ==> challenge_ok(#[trigger] cs@[j], qof(*ring))
        },
        ({
            let run = challenges_run(old(transcript).absorbed(), LABEL_C@, ring.m.q, r as nat);
            &&& final(transcript).absorbed() == run.1
            &&& match res {
                Some(cs) => run.0 == Some(coeff_rows(cs@)),
                None => run.0 is None,
            }
        }),
{
    let ghost st = transcript.absorbed();
    let mut cs: Vec<RingElem> = Vec::new();
    assert(coeff_rows(cs@) =~= Seq::<Seq<u64>>::empty());
    for i in 0..r
        invariant
            ring.wf(),
            cs@.len() == i,
            elems_wf(cs@, ring.m),
            forall|j: int| 0 <= j < i ==> challenge_ok(#[trigger] cs@[j], qof(*ring)),
            st == old(transcript).absorbed(),
            challenges_run(st, LABEL_C@, ring.m.q, i as nat) == (Some(coeff_rows(cs@)), transcript.absorbed()),
    {
        let label = label1(&LABEL_C, i as u64);
        match sample_challenge(transcript, &label, ring) {
            Some(c) => {
                let ghost before = cs@;
                cs.push(c);
                assert(coeff_rows(cs@) =~= coeff_rows(before).push(c.c@));
            },
            None => {
                proof {
                    lemma_challenges_stop(st, LABEL_C@, ring.m.q, (i + 1) as nat, r as nat);
                }
                return None;
            },
        }
    }
    Some(cs)
}

/// `z = Σ_i c_i · w_i`.
pub(crate) fn amortize(ring: &Ring, cs: &Vec<RingElem>, w: &Vec<Vec<RingElem>>, r: usize, n: usize) -> (z: Vec<RingElem>)
    requires
        ring.wf(),
        cs@.len() == r,
        elems_wf(cs@, ring.m),
        wit_shape(vecs(w@), r as int, n as int, ring.m),
    ensures
        z@.len() == n,
        elems_wf(z@, ring.m),
        forall|k: int| 0 <= k < n ==> elem(#[trigger] z@[k]) == amortized(*ring, cs@, vecs(w@), k, r as nat),
{
    let m = &ring.m;
    let ghost ws = vecs(w@);
    let mut z: Vec<RingElem> = Vec::new();
    for k in 0..n
        invariant
            ring.wf(),
            m == &ring.m,
            ws == vecs(w@),
            wit_shape(ws, r as int, n as int, ring.m),
            cs@.len() == r,
            elems_wf(cs@, ring.m),
            z@.len() == k,
            elems_wf(z@, ring.m),
            forall|kk: int| 0 <= kk < k ==> elem(#[trigger] z@[kk]) == amortized(*ring, cs@, ws, kk, r as nat),
    {
        let mut acc = RingElem::zero();
        proof {
            lemma_zero_is_zero(acc);
        }
        for i in 0..r
            invariant
                ring.wf(),
                m == &ring.m,
                k < n,
                ws == vecs(w@),
                wit_shape(ws, r as int, n as int, ring.m),
                cs@.len() == r,
                elems_wf(cs@, ring.m),
                acc.wf(ring.m),
                elem(acc) == amortized(*ring, cs@, ws, k as int, i as nat),
        {
            assert(ws[i as int] == w@[i as int]@);
            assert(ws[i as int][k as int].wf(ring.m));
            let p = ring.mul(&cs[i], &w[i][k]);
            let next = acc.add(m, &p);
            proof {
                lemma_add_elem(acc, p, next, qof(*ring));
            }
            acc = next;
        }
        z.push(acc);
    }
    z
}

/// What an iteration proof produced for `stmt` with witness vectors `ws`
/// from transcript state `st` consists of: `v_i = A·w_i` for the matrix `A`
/// expanded after the statement is bound, `g_ij = ⟨w_i, w_j⟩` on the upper
/// triangle (zero below), `r × r` garbage `h`, and `z = Σ c_i w_i` for
/// challenges `c_i` of the required shape.
pub open spec fn prove_facts(stmt: Statement, ws: Seq<Seq<RingElem>>, st: Seq<u8>, p: IterationProof) -> bool {
    let ring = stmt.ring;
    let r = stmt.r as int;
    &&& p.v@.len() == r
    &&& exists|a: Seq<Vec<RingElem>>|
        #[trigger] expanded_matrix(
            a,
            st + statement_records(stmt),
            LABEL_A@,
            8,
            stmt.n as nat,
            ring,
        ) && forall|i: int, row: int|
            0 <= i < r && 0 <= row < 8 ==> (#[trigger] p.v@[i]@[row]) == p.v@[i]@[row] && p.v@[i]@.len() == 8
                && elem(p.v@[i]@[row]) == matmul_row(ring, a, ws[i], row)
    &&& p.g@.len() == r
    &&& forall|i: int, j: int|
        0 <= i <= j < r ==> elem(#[trigger] p.g@[i]@[j]) == inner_spec(ring, ws[i], ws[j], ws[i].len())
    &&& forall|i: int, j: int| 0 <= j < i < r ==> elem(#[trigger] p.g@[i]@[j]) == zero_poly()
    &&& p.h@.len() == r
    &&& forall|i: int| 0 <= i < r ==> (#[trigger] p.g@[i])@.len() == r && p.h@[i]@.len() == r
    &&& p.z@.len() == stmt.n
    &&& exists|cs: Seq<RingElem>|
        cs.len() == r && (forall|i: int| 0 <= i < r ==> challenge_ok(#[trigger] cs[i], qof(ring)))
            && forall|k: int|
            0 <= k < stmt.n ==> elem(#[trigger] p.z@[k]) == amortized(ring, cs, ws, k, r as nat)
}

/// Prove one LaBRADOR iteration for `stmt` with witness `witness`, drawing
/// every challenge from `transcript` (which first absorbs the statement).
/// `None` if a transcript draw fails.
pub fn prove(stmt: &Statement, witness: &Witness, transcript: &mut Transcript) -> (res: Option<IterationProof>)
    requires
        stmt.wf(),
        wit_shape(witness.view_vecs(), stmt.r as int, stmt.n as int, stmt.ring.m),
    ensures
        res matches Some(p) ==> prove_facts(*stmt, witness.view_vecs(), old(transcript).absorbed(), p),
{
    bind_statement(transcript, stmt);
    let ring = &stmt.ring;
    let m = &ring.m;
    let n = stmt.n;
    let r = stmt.r;
    let kap = kappa();
    let a = match expand_matrix(transcript, &LABEL_A, kap, n, ring) {
        Some(a) => a,
        None => {
            return None;
        },
    };
    proof {
        let ws = witness.view_vecs();
        assert forall|i: int| 0 <= i < witness.w@.len() implies matrix_fits(a@, (#[trigger] witness.w@[i])@.len(), *ring)
            && elems_wf(witness.w@[i]@, ring.m) by {
            assert(ws[i] == witness.w@[i]@);
        }
    }
    let v = commit_inner(ring, &a, &witness.w);
    absorb_ring_matrix(transcript, &LABEL_V, &v);

    let k_pp = k_double_prime(stmt, LAMBDA);
    let psis = match derive_psis(transcript, k_pp, stmt.const_term.len(), m.q) {
        Some(p) => p,
        None => {
            return None;
        },
    };
    let (a_pp, phi_pp, b_double_prime) = aggregate_const_all(stmt, witness, &psis);
    absorb_ring_vec(transcript, &LABEL_BPP, &b_double_prime);

    let alphas = match sample_ring_elements(transcript, &LABEL_ALPHA, stmt.full.len(), ring) {
        Some(x) => x,
        None => {
            return None;
        },
    };
    let betas = match sample_ring_elements(transcript, &LABEL_BETA, k_pp, ring) {
        Some(x) => x,
        None => {
            return None;
        },
    };
    let (_a_agg, phi_agg) = aggregate_full(stmt, &alphas, &betas, &a_pp, &phi_pp);

    proof {
        let ws = witness.view_vecs();
        assert(vectors_fit(witness.w@, stmt.n as nat, *ring)) by {
            assert forall|i: int| 0 <= i < witness.w@.len() implies (#[trigger] witness.w@[i])@.len() == stmt.n
                && elems_wf(witness.w@[i]@, ring.m) by {
                assert(ws[i] == witness.w@[i]@);
            }
        }
        assert(phis_fit(phi_agg@, stmt.n as nat, *ring));
    }
    let g = compute_g(ring, &witness.w);
    let h = compute_h(ring, &phi_agg, &witness.w);
    absorb_ring_matrix(transcript, &LABEL_G, &g);
    absorb_ring_matrix(transcript, &LABEL_H, &h);

    let cs = match sample_challenges(transcript, r, ring) {
        Some(c) => c,
        None => {
            return None;
        },
    };
    let z = amortize(ring, &cs, &witness.w, r, n);
    Some(IterationProof { v, b_double_prime, z, g, h })
}

} // verus!
