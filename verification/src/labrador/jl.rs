//! Johnson–Lindenstrauss projection: `Π ∈ {−1, 0, +1}^{256 × (n·d)}` drawn
//! from the transcript (two bits per coordinate: `00`, `01` ↦ 0, `10` ↦ +1,
//! `11` ↦ −1), the projection `p_j = Σ_i ⟨Π_i^(j), w̃_i⟩` of the centered
//! witness coefficients, and the constant-term constraints tying `p` to `w`.
use crate::falcon::relation::sigma_minus_one;
use crate::labrador::statement::{elems_wf, ConstTermConstraint};
use crate::labrador::transcript::{challenge_out, Transcript};
use crate::modring::modulus::{centered_of, Modulus};
use crate::modring::poly::{RingElem, D};
use vstd::prelude::*;

verus! {

/// The security parameter `λ`.
pub const LAMBDA: usize = 128;

/// Rows of the projection: `2λ`.
pub const PROJECTION_ROWS: usize = 256;

/// Coordinate `k` of a projection row drawn as `bytes`.
pub open spec fn pi_entry(bytes: Seq<u8>, k: int) -> i8 {
    let pair = (bytes[k / 4] >> (((k % 4) * 2) as u8)) & 3u8;
    if pair == 2u8 {
        1i8
    } else if pair == 3u8 {
        -1i8
    } else {
        0i8
    }
}

/// The non-zero coordinates `(k, ±1)` among the first `n`, in order.
pub open spec fn pi_row_spec(bytes: Seq<u8>, n: nat) -> Seq<(usize, i8)>
    decreases n,
{
    if n == 0 {
        Seq::empty()
    } else {
        let prev = pi_row_spec(bytes, (n - 1) as nat);
        let e = pi_entry(bytes, n - 1);
        if e == 0i8 {
            prev
        } else {
            prev.push(((n - 1) as usize, e))
        }
    }
}

/// Parse one sparse projection row of `cols` coordinates from `⌈cols/4⌉`
/// bytes.
pub fn parse_pi_row(bytes: &[u8], cols: usize) -> (out: Vec<(usize, i8)>)
    requires
        cols <= 4 * bytes@.len(),
    ensures
        out@ == pi_row_spec(bytes@, cols as nat),
{
    let mut out: Vec<(usize, i8)> = Vec::new();
    for k in 0..cols
        invariant
            cols <= 4 * bytes@.len(),
            out@ == pi_row_spec(bytes@, k as nat),
    {
        let byte = bytes[k / 4];
        let pair = (byte >> (((k % 4) * 2) as u8)) & 3u8;
        if pair == 2u8 {
            out.push((k, 1i8));
        } else if pair == 3u8 {
            out.push((k, -1i8));
        }
    }
    out
}

/// The projection `Π` for `cols` coordinates: `PROJECTION_ROWS` sparse rows,
/// row `j` parsed from bytes `[j·b, (j+1)·b)` of one challenge of
/// `PROJECTION_ROWS · b` bytes under `label`, `b = ⌈cols/4⌉`.
pub fn sample_projection(t: &mut Transcript, label: &[u8], cols: usize) -> (rows: Vec<Vec<(usize, i8)>>)
    requires
        cols + 3 <= usize::MAX,
        (cols + 3) / 4 * PROJECTION_ROWS <= usize::MAX,
    ensures
        ({
            let nb = (cols + 3) / 4;
            let bytes = challenge_out(old(t).absorbed(), label@, (nb * PROJECTION_ROWS) as nat);
            &&& rows@.len() == PROJECTION_ROWS
            &&& forall|j: int|
                0 <= j < PROJECTION_ROWS ==> (#[trigger] rows@[j])@ == pi_row_spec(
                    bytes.subrange(j * nb, (j + 1) * nb),
                    cols as nat,
                )
        }),
{
    let nb = (cols + 3) / 4;
    let bytes = t.challenge_bytes(label, nb * PROJECTION_ROWS);
    let mut rows: Vec<Vec<(usize, i8)>> = Vec::new();
    for j in 0..PROJECTION_ROWS
        invariant
            nb == (cols + 3) / 4,
            nb * PROJECTION_ROWS <= usize::MAX,
            bytes@.len() == nb * PROJECTION_ROWS,
            rows@.len() == j,
            forall|jj: int|
                0 <= jj < j ==> (#[trigger] rows@[jj])@ == pi_row_spec(
                    bytes@.subrange(jj * nb, (jj + 1) * nb),
                    cols as nat,
                ),
    {
        proof {
            assert((j + 1) * nb <= PROJECTION_ROWS * nb) by (nonlinear_arith)
                requires
                    j < PROJECTION_ROWS,
            ;
            assert(j * nb + nb == (j + 1) * nb) by (nonlinear_arith);
        }
        let s = j * nb;
        let row = parse_pi_row(&bytes[s..s + nb], cols);
        assert(bytes@.subrange(s as int, (s + nb) as int) == bytes@.subrange(j * nb, (j + 1) * nb));
        rows.push(row);
    }
    rows
}

/// The centered coefficient at flat position `pos` of `w`.
pub open spec fn flat_centered(w: Seq<RingElem>, pos: int, q: int) -> int {
    centered_of(w[pos / (D as int)].c[pos % (D as int)] as int, q)
}

/// `Σ_{t < n} sign_t · w̃[pos_t]` over a sparse row.
pub open spec fn row_projection(row: Seq<(usize, i8)>, w: Seq<RingElem>, q: int, n: nat) -> int
    decreases n,
{
    if n == 0 {
        0
    } else {
        row_projection(row, w, q, (n - 1) as nat) + (row[n - 1].1 as int) * flat_centered(w, row[n - 1].0 as int, q)
    }
}

/// A sparse row fits `cols` coordinates: at most `cols` entries, positions
/// below `cols`, signs `±1`.
pub open spec fn row_fits(row: Seq<(usize, i8)>, cols: nat) -> bool {
    &&& row.len() <= cols
    &&& forall|t: int| 0 <= t < row.len() ==> (#[trigger] row[t]).0 < cols && (row[t].1 == 1i8 || row[t].1 == -1i8)
}

/// A parsed projection row has at most `cols` entries, each a `±1` at a
/// position below `cols`.
pub proof fn lemma_pi_row_fits(bytes: Seq<u8>, cols: nat, n: nat)
    requires
        n <= cols,
    ensures
        row_fits(pi_row_spec(bytes, n), cols),
        pi_row_spec(bytes, n).len() <= n,
    decreases n,
{
    if n > 0 {
        lemma_pi_row_fits(bytes, cols, (n - 1) as nat);
        let prev = pi_row_spec(bytes, (n - 1) as nat);
        let e = pi_entry(bytes, n - 1);
        if e != 0i8 {
            let row = prev.push(((n - 1) as usize, e));
            assert forall|t: int| 0 <= t < row.len() implies (#[trigger] row[t]).0 < cols && (row[t].1 == 1i8
                || row[t].1 == -1i8) by {
                if t < prev.len() {
                    assert(row[t] == prev[t]);
                }
            }
        }
    }
}

/// `|Σ| ≤ n · (q/2)` for a partial projection.
proof fn lemma_row_projection_bound(row: Seq<(usize, i8)>, w: Seq<RingElem>, m: Modulus, n: nat)
    requires
        m.wf(),
        n <= row.len(),
        row_fits(row, (w.len() * D) as nat),
        elems_wf(w, m),
    ensures
        row_projection(row, w, m.q as int, n) <= (n as int) * (m.q as int),
        -row_projection(row, w, m.q as int, n) <= (n as int) * (m.q as int),
    decreases n,
{
    if n > 0 {
        lemma_row_projection_bound(row, w, m, (n - 1) as nat);
        let pos = row[n - 1].0 as int;
        assert(0 <= pos / (D as int) < w.len()) by {
            vstd::arithmetic::div_mod::lemma_div_is_ordered(pos, (w.len() * D - 1) as int, D as int);
            vstd::arithmetic::div_mod::lemma_fundamental_div_mod_converse(
                (w.len() * D - 1) as int,
                D as int,
                (w.len() - 1) as int,
                (D - 1) as int,
            );
        }
        let c = w[pos / (D as int)].c[pos % (D as int)];
        assert(c < m.q);
        let fc = flat_centered(w, pos, m.q as int);
        assert(-(m.q as int) <= fc <= m.q as int);
        let sg = row[n - 1].1 as int;
        if sg == 1 {
            assert(sg * fc == fc);
        } else {
            assert(sg * fc == -fc);
        }
        assert((n as int) * (m.q as int) == ((n - 1) as int) * (m.q as int) + m.q) by (nonlinear_arith);
    }
}

/// Project one witness vector: `p_j = Σ_t sign_t · w̃[pos_t]` for every row.
pub fn project_vector(pi: &Vec<Vec<(usize, i8)>>, w: &Vec<RingElem>, m: &Modulus) -> (out: [i128; PROJECTION_ROWS])
    requires
        m.wf(),
        m.q < 0x1000_0000_0000_0000,
        pi@.len() <= PROJECTION_ROWS,
        elems_wf(w@, *m),
        w@.len() * D <= 0x1_0000_0000,
        forall|j: int| 0 <= j < pi@.len() ==> row_fits(#[trigger] pi@[j]@, (w@.len() * D) as nat),
    ensures
        forall|j: int|
            0 <= j < pi@.len() ==> (#[trigger] out[j]) == row_projection(pi@[j]@, w@, m.q as int, pi@[j]@.len()),
        forall|j: int| pi@.len() <= j < PROJECTION_ROWS ==> #[trigger] out[j] == 0,
{
    let mut out = [0i128; PROJECTION_ROWS];
    for j in 0..pi.len()
        invariant
            m.wf(),
            m.q < 0x1000_0000_0000_0000,
            pi@.len() <= PROJECTION_ROWS,
            elems_wf(w@, *m),
            w@.len() * D <= 0x1_0000_0000,
            forall|j: int| 0 <= j < pi@.len() ==> row_fits(#[trigger] pi@[j]@, (w@.len() * D) as nat),
            forall|jj: int|
                0 <= jj < j ==> (#[trigger] out[jj]) == row_projection(pi@[jj]@, w@, m.q as int, pi@[jj]@.len()),
            forall|jj: int| j <= jj < PROJECTION_ROWS ==> #[trigger] out[jj] == 0,
    {
        let row = &pi[j];
        assert(row_fits(row@, (w@.len() * D) as nat));
        let mut acc: i128 = 0;
        for t in 0..row.len()
            invariant
                m.wf(),
                m.q < 0x1000_0000_0000_0000,
                elems_wf(w@, *m),
                w@.len() * D <= 0x1_0000_0000,
                row_fits(row@, (w@.len() * D) as nat),
                acc == row_projection(row@, w@, m.q as int, t as nat),
        {
            proof {
                lemma_row_projection_bound(row@, w@, *m, (t + 1) as nat);
            }
            let (pos, sign) = row[t];
            assert(row@[t as int].0 < w@.len() * D && (row@[t as int].1 == 1i8 || row@[t as int].1 == -1i8));
            proof {
                assert(pos / D < w@.len()) by {
                    vstd::arithmetic::div_mod::lemma_div_is_ordered(pos as int, (w@.len() * D - 1) as int, D as int);
                    vstd::arithmetic::div_mod::lemma_fundamental_div_mod_converse(
                        (w@.len() * D - 1) as int,
                        D as int,
                        (w@.len() - 1) as int,
                        (D - 1) as int,
                    );
                }
            }
            let e = &w[pos / D];
            assert(e.wf(*m));
            let c = m.centered(e.c[pos % D]);
            let prod: i128 = if sign == 1i8 {
                c as i128
            } else {
                -(c as i128)
            };
            proof {
                if sign == 1i8 {
                    assert(prod == (sign as int) * (c as int)) by (nonlinear_arith)
                        requires
                            sign == 1i8,
                            prod == c,
                    ;
                } else {
                    assert(sign == -1i8);
                    assert(prod == (sign as int) * (c as int)) by (nonlinear_arith)
                        requires
                            sign == -1i8,
                            prod == -c,
                    ;
                }
                assert(row_projection(row@, w@, m.q as int, (t + 1) as nat) == acc + prod);
                assert((t + 1) * (m.q as int) <= 0x1_0000_0000_0000_0000_0000_0000) by (nonlinear_arith)
                    requires
                        t < 0x1_0000_0000,
                        m.q < 0x1000_0000_0000_0000,
                ;
            }
            acc = acc + prod;
        }
        out[j] = acc;
    }
    out
}

/// `Σ_{i < n} p^(i)_j`: row `j` of the projections of the first `n`
/// witness vectors.
pub open spec fn combined_projection(pis: Seq<Vec<Vec<(usize, i8)>>>, ws: Seq<Vec<RingElem>>, q: int, j: int, n: nat) -> int
    decreases n,
{
    if n == 0 {
        0
    } else {
        let pi = pis[n - 1]@;
        combined_projection(pis, ws, q, j, (n - 1) as nat) + if j < pi.len() {
            row_projection(pi[j]@, ws[n - 1]@, q, pi[j]@.len())
        } else {
            0
        }
    }
}

/// The projections of several witness vectors fit: one projection per
/// vector, rows fitting that vector.
pub open spec fn projections_fit(pis: Seq<Vec<Vec<(usize, i8)>>>, ws: Seq<Vec<RingElem>>, m: Modulus) -> bool {
    &&& pis.len() == ws.len()
    &&& forall|i: int|
        0 <= i < ws.len() ==> {
            &&& (#[trigger] pis[i])@.len() <= PROJECTION_ROWS
            &&& elems_wf(ws[i]@, m)
            &&& ws[i]@.len() * D <= 0x1_0000_0000
            &&& forall|j: int| 0 <= j < pis[i]@.len() ==> row_fits(#[trigger] pis[i]@[j]@, (ws[i]@.len() * D) as nat)
        }
}

/// `p_j = Σ_i ⟨Π_i^(j), w̃_i⟩`.
pub fn project_combined(pis: &Vec<Vec<Vec<(usize, i8)>>>, ws: &Vec<Vec<RingElem>>, m: &Modulus) -> (out: [i128;
    PROJECTION_ROWS])
    requires
        m.wf(),
        m.q < 0x1000_0000_0000_0000,
        ws@.len() <= 0x1000_0000,
        projections_fit(pis@, ws@, *m),
    ensures
        forall|j: int| 0 <= j < PROJECTION_ROWS ==> #[trigger] out[j] == combined_projection(pis@, ws@, m.q as int, j, ws@.len()),
{
    let mut acc = [0i128; PROJECTION_ROWS];
    for i in 0..ws.len()
        invariant
            m.wf(),
            m.q < 0x1000_0000_0000_0000,
            ws@.len() <= 0x1000_0000,
            projections_fit(pis@, ws@, *m),
            forall|j: int| 0 <= j < PROJECTION_ROWS ==> #[trigger] acc[j] == combined_projection(pis@, ws@, m.q as int, j, i as nat),
            forall|j: int|
                0 <= j < PROJECTION_ROWS ==> -(i * 0x1_0000_0000_0000_0000_0000_0000) <= #[trigger] acc[j] <= i
                    * 0x1_0000_0000_0000_0000_0000_0000,
    {
        assert(pis@[i as int]@.len() <= PROJECTION_ROWS);
        let p = project_vector(&pis[i], &ws[i], m);
        let ghost before = acc;
        for j in 0..PROJECTION_ROWS
            invariant
                m.wf(),
                m.q < 0x1000_0000_0000_0000,
                i < ws@.len(),
                ws@.len() <= 0x1000_0000,
                projections_fit(pis@, ws@, *m),
                forall|jj: int| j <= jj < PROJECTION_ROWS ==> #[trigger] acc[jj] == before[jj],
                forall|jj: int|
                    0 <= jj < PROJECTION_ROWS ==> #[trigger] before[jj] == combined_projection(pis@, ws@, m.q as int, jj, i as nat),
                forall|jj: int|
                    0 <= jj < PROJECTION_ROWS ==> -(i * 0x1_0000_0000_0000_0000_0000_0000) <= #[trigger] before[jj] <= i
                        * 0x1_0000_0000_0000_0000_0000_0000,
                forall|jj: int|
                    0 <= jj < pis@[i as int]@.len() ==> (#[trigger] p[jj]) == row_projection(
                        pis@[i as int]@[jj]@,
                        ws@[i as int]@,
                        m.q as int,
                        pis@[i as int]@[jj]@.len(),
                    ),
                forall|jj: int| pis@[i as int]@.len() <= jj < PROJECTION_ROWS ==> #[trigger] p[jj] == 0,
                forall|jj: int|
                    0 <= jj < j ==> #[trigger] acc[jj] == combined_projection(pis@, ws@, m.q as int, jj, (i + 1) as nat),
                forall|jj: int|
                    0 <= jj < j ==> -((i + 1) * 0x1_0000_0000_0000_0000_0000_0000) <= #[trigger] acc[jj] <= (i + 1)
                        * 0x1_0000_0000_0000_0000_0000_0000,
        {
            proof {
                let pi = pis@[i as int]@;
                if j < pi.len() {
                    let row = pi[j as int]@;
                    assert(row_fits(row, (ws@[i as int]@.len() * D) as nat));
                    lemma_row_projection_bound(row, ws@[i as int]@, *m, row.len());
                    assert(row.len() * (m.q as int) <= 0x1_0000_0000_0000_0000_0000_0000) by (nonlinear_arith)
                        requires
                            row.len() <= 0x1_0000_0000,
                            m.q < 0x1000_0000_0000_0000,
                    ;
                }
                assert((i + 1) * 0x1_0000_0000_0000_0000_0000_0000 == i * 0x1_0000_0000_0000_0000_0000_0000
                    + 0x1_0000_0000_0000_0000_0000_0000) by (nonlinear_arith);
                assert((i + 1) * 0x1_0000_0000_0000_0000_0000_0000 <= 0x1000_0000 * 0x1_0000_0000_0000_0000_0000_0000)
                    by (nonlinear_arith)
                    requires
                        i < 0x1000_0000,
                ;
            }
            acc[j] = acc[j] + p[j];
        }
    }
    acc
}

/// Constraint `j` of the JL tie is well formed for `r` vectors of length `n`
/// and pins `b0 = p_j mod q`.
pub open spec fn jl_constraint_ok(c: ConstTermConstraint, p_j: i128, r: int, n: int, m: Modulus) -> bool {
    &&& c.a@.len() == 0
    &&& c.wf(r, n, m)
    &&& c.b0 == (p_j as int) % (m.q as int)
}

/// The `2λ` constant-term constraints `ct(Σ_i ⟨σ_{−1}(π̂_i^(j)), w_i⟩) = p_j`,
/// where `π̂_i^(j)` packs row `j` of `Π_i` into ring elements; each vector's
/// row is streamed in position order, one `φ` entry per ring element it
/// touches.
pub fn build_jl_constraints(pis: &Vec<Vec<Vec<(usize, i8)>>>, p: &Vec<i128>, n: usize, m: &Modulus) -> (cs: Vec<
    ConstTermConstraint,
>)
    requires
        m.wf(),
        p@.len() == PROJECTION_ROWS,
        forall|i: int|
            0 <= i < pis@.len() ==> (#[trigger] pis@[i])@.len() == PROJECTION_ROWS && forall|j: int|
                0 <= j < PROJECTION_ROWS ==> row_fits(#[trigger] pis@[i]@[j]@, (n * D) as nat),
    ensures
        cs@.len() == PROJECTION_ROWS,
        forall|j: int|
            0 <= j < PROJECTION_ROWS ==> jl_constraint_ok(#[trigger] cs@[j], p@[j], pis@.len() as int, n as int, *m),
{
    let neg_one = m.from_i64(-1);
    let mut cs: Vec<ConstTermConstraint> = Vec::new();
    for j in 0..PROJECTION_ROWS
        invariant
            m.wf(),
            p@.len() == PROJECTION_ROWS,
            neg_one < m.q,
            forall|i: int|
                0 <= i < pis@.len() ==> (#[trigger] pis@[i])@.len() == PROJECTION_ROWS && forall|j: int|
                    0 <= j < PROJECTION_ROWS ==> row_fits(#[trigger] pis@[i]@[j]@, (n * D) as nat),
            cs@.len() == j,
            forall|jj: int| 0 <= jj < j ==> jl_constraint_ok(#[trigger] cs@[jj], p@[jj], pis@.len() as int, n as int, *m),
    {
        let mut phi: Vec<(usize, Vec<(usize, RingElem)>)> = Vec::new();
        for i in 0..pis.len()
            invariant
                m.wf(),
                j < PROJECTION_ROWS,
                neg_one < m.q,
                forall|i: int|
                    0 <= i < pis@.len() ==> (#[trigger] pis@[i])@.len() == PROJECTION_ROWS && forall|j: int|
                        0 <= j < PROJECTION_ROWS ==> row_fits(#[trigger] pis@[i]@[j]@, (n * D) as nat),
                crate::labrador::statement::phi_wf(phi@, pis@.len() as int, n as int, *m),
        {
            assert(pis@[i as int]@.len() == PROJECTION_ROWS);
            let row = &pis[i][j];
            assert(row_fits(row@, (n * D) as nat));
            let mut sparse: Vec<(usize, RingElem)> = Vec::new();
            let mut cur_idx: usize = usize::MAX;
            let mut cur = RingElem::zero();
            for t in 0..row.len()
                invariant
                    m.wf(),
                    neg_one < m.q,
                    row_fits(row@, (n * D) as nat),
                    cur.wf(*m),
                    cur_idx != usize::MAX ==> cur_idx < n,
                    forall|s: int| 0 <= s < sparse@.len() ==> (#[trigger] sparse@[s]).0 < n && sparse@[s].1.wf(*m),
            {
                let (flat_pos, sign) = row[t];
                assert(row@[t as int].0 < n * D);
                let idx = flat_pos / D;
                let k = flat_pos % D;
                proof {
                    vstd::arithmetic::div_mod::lemma_div_is_ordered(flat_pos as int, (n * D - 1) as int, D as int);
                    vstd::arithmetic::div_mod::lemma_fundamental_div_mod_converse(
                        (n * D - 1) as int,
                        D as int,
                        (n - 1) as int,
                        (D - 1) as int,
                    );
                }
                if idx != cur_idx {
                    if cur_idx != usize::MAX {
                        let sig = sigma_minus_one(&cur, m);
                        sparse.push((cur_idx, sig));
                    }
                    cur = RingElem::zero();
                    cur_idx = idx;
                }
                cur.c[k] = if sign == 1i8 {
                    1u64
                } else {
                    neg_one
                };
            }
            if cur_idx != usize::MAX {
                let sig = sigma_minus_one(&cur, m);
                sparse.push((cur_idx, sig));
            }
            if sparse.len() > 0 {
                phi.push((i, sparse));
            }
        }
        let b0 = crate::labrador::wire::encode_signed_modq(p[j], m.q);
        cs.push(ConstTermConstraint { a: Vec::new(), phi, b0 });
    }
    cs
}

} // verus!
