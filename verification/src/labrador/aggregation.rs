//! Aggregation of the statement's constraints into one quadratic form
//! `Σ a_ij ⟨w_i, w_j⟩ + Σ ⟨φ_i, w_i⟩`: full constraints weighted by `α_k`,
//! aggregated constant-term constraints weighted by `β_k`.
use crate::labrador::statement::{
    elem, elems_wf, lemma_add_elem, lemma_zero_elem, lemma_zero_is_zero, poly_add, poly_mul,
    qof, zero_poly, ConstTermConstraint, DotConstraint, Statement,
};
use crate::modring::crt::Ring;
use crate::modring::modulus::Modulus;
use crate::modring::poly::{RingElem, D};
use vstd::prelude::*;

verus! {

/// Add `t` to an optional running sum (absent means no term yet).
pub open spec fn add_opt(acc: Option<Seq<int>>, t: Seq<int>, q: int) -> Option<Seq<int>> {
    match acc {
        None => Some(t),
        Some(s) => Some(poly_add(s, t, q)),
    }
}

/// Fold `scalar · p` for the entries `(pos, p)` of `sp[0..n]` at position `pos`.
pub open spec fn sparse_pos_acc(
    acc: Option<Seq<int>>,
    ring: Ring,
    scalar: Seq<int>,
    sp: Seq<(usize, RingElem)>,
    pos: int,
    n: nat,
) -> Option<Seq<int>>
    decreases n,
{
    if n == 0 {
        acc
    } else {
        let prev = sparse_pos_acc(acc, ring, scalar, sp, pos, (n - 1) as nat);
        if sp[n - 1].0 == pos {
            add_opt(prev, poly_mul(ring, scalar, elem(sp[n - 1].1)), qof(ring))
        } else {
            prev
        }
    }
}

/// Fold over the entries `phi[0..n]` that belong to vector `wi`.
pub open spec fn phi_pos_acc(
    acc: Option<Seq<int>>,
    ring: Ring,
    scalar: Seq<int>,
    phi: Seq<(usize, Vec<(usize, RingElem)>)>,
    wi: int,
    pos: int,
    n: nat,
) -> Option<Seq<int>>
    decreases n,
{
    if n == 0 {
        acc
    } else {
        let prev = phi_pos_acc(acc, ring, scalar, phi, wi, pos, (n - 1) as nat);
        if phi[n - 1].0 == wi {
            sparse_pos_acc(prev, ring, scalar, phi[n - 1].1@, pos, phi[n - 1].1@.len())
        } else {
            prev
        }
    }
}

/// The `(wi, pos)` entry of `Σ_k α_k φ^(k)` over the full constraints `0..k`
/// with non-zero weight.
pub open spec fn full_phi_acc(
    ring: Ring,
    fs: Seq<DotConstraint>,
    alphas: Seq<RingElem>,
    wi: int,
    pos: int,
    k: nat,
) -> Option<Seq<int>>
    decreases k,
{
    if k == 0 {
        None
    } else {
        let prev = full_phi_acc(ring, fs, alphas, wi, pos, (k - 1) as nat);
        if elem(alphas[k - 1]) == zero_poly() {
            prev
        } else {
            phi_pos_acc(prev, ring, elem(alphas[k - 1]), fs[k - 1].phi@, wi, pos, fs[k - 1].phi@.len())
        }
    }
}

/// Continue with `Σ_k β_k φ''^(k)` over the aggregated constraints `0..k`.
pub open spec fn beta_phi_acc(
    acc: Option<Seq<int>>,
    ring: Ring,
    betas: Seq<RingElem>,
    phi_pp: Seq<Vec<Vec<(usize, RingElem)>>>,
    wi: int,
    pos: int,
    k: nat,
) -> Option<Seq<int>>
    decreases k,
{
    if k == 0 {
        acc
    } else {
        let prev = beta_phi_acc(acc, ring, betas, phi_pp, wi, pos, (k - 1) as nat);
        if elem(betas[k - 1]) == zero_poly() {
            prev
        } else {
            let sp = phi_pp[k - 1]@[wi]@;
            sparse_pos_acc(prev, ring, elem(betas[k - 1]), sp, pos, sp.len())
        }
    }
}

/// The aggregated linear coefficient at `(wi, pos)`, if any term reaches it.
pub open spec fn phi_agg_spec(
    stmt: Statement,
    alphas: Seq<RingElem>,
    betas: Seq<RingElem>,
    phi_pp: Seq<Vec<Vec<(usize, RingElem)>>>,
    wi: int,
    pos: int,
) -> Option<Seq<int>> {
    beta_phi_acc(
        full_phi_acc(stmt.ring, stmt.full@, alphas, wi, pos, stmt.full@.len()),
        stmt.ring,
        betas,
        phi_pp,
        wi,
        pos,
        betas.len(),
    )
}

/// Fold `scalar · a_ij` for the stored pairs of `a[0..n]` equal to `(i, j)`.
pub open spec fn a_list_acc(
    acc: Seq<int>,
    ring: Ring,
    scalar: Seq<int>,
    a: Seq<(usize, usize, RingElem)>,
    i: int,
    j: int,
    n: nat,
) -> Seq<int>
    decreases n,
{
    if n == 0 {
        acc
    } else {
        let prev = a_list_acc(acc, ring, scalar, a, i, j, (n - 1) as nat);
        if a[n - 1].0 == i && a[n - 1].1 == j {
            poly_add(prev, poly_mul(ring, scalar, elem(a[n - 1].2)), qof(ring))
        } else {
            prev
        }
    }
}

/// The `(i, j)` entry of `Σ_k α_k a^(k)` over the full constraints `0..k`.
pub open spec fn full_a_acc(
    ring: Ring,
    fs: Seq<DotConstraint>,
    alphas: Seq<RingElem>,
    i: int,
    j: int,
    k: nat,
) -> Seq<int>
    decreases k,
{
    if k == 0 {
        zero_poly()
    } else {
        let prev = full_a_acc(ring, fs, alphas, i, j, (k - 1) as nat);
        if elem(alphas[k - 1]) == zero_poly() {
            prev
        } else {
            a_list_acc(prev, ring, elem(alphas[k - 1]), fs[k - 1].a@, i, j, fs[k - 1].a@.len())
        }
    }
}

/// Continue with `Σ_k β_k a''^(k)` (zero entries skipped).
pub open spec fn beta_a_acc(
    acc: Seq<int>,
    ring: Ring,
    betas: Seq<RingElem>,
    a_pp: Seq<Vec<Vec<RingElem>>>,
    i: int,
    j: int,
    k: nat,
) -> Seq<int>
    decreases k,
{
    if k == 0 {
        acc
    } else {
        let prev = beta_a_acc(acc, ring, betas, a_pp, i, j, (k - 1) as nat);
        let aij = a_pp[k - 1]@[i]@[j];
        if elem(betas[k - 1]) == zero_poly() || elem(aij) == zero_poly() {
            prev
        } else {
            poly_add(prev, poly_mul(ring, elem(betas[k - 1]), elem(aij)), qof(ring))
        }
    }
}

/// The aggregated quadratic coefficient at `(i, j)`.
pub open spec fn a_agg_spec(
    stmt: Statement,
    alphas: Seq<RingElem>,
    betas: Seq<RingElem>,
    a_pp: Seq<Vec<Vec<RingElem>>>,
    i: int,
    j: int,
) -> Seq<int> {
    beta_a_acc(
        full_a_acc(stmt.ring, stmt.full@, alphas, i, j, stmt.full@.len()),
        stmt.ring,
        betas,
        a_pp,
        i,
        j,
        betas.len(),
    )
}

/// The aggregated constant-term data fits the statement: `k'' × r × r`
/// quadratic parts and `k'' × r` sparse linear parts with positions below
/// `n`, all reduced.
pub open spec fn pp_fits(
    stmt: Statement,
    a_pp: Seq<Vec<Vec<RingElem>>>,
    phi_pp: Seq<Vec<Vec<(usize, RingElem)>>>,
) -> bool {
    &&& forall|k: int| 0 <= k < a_pp.len() ==> (#[trigger] a_pp[k])@.len() == stmt.r
    &&& forall|k: int, i: int|
        0 <= k < a_pp.len() && 0 <= i < stmt.r ==> (#[trigger] a_pp[k]@[i])@.len() == stmt.r
            && elems_wf(a_pp[k]@[i]@, stmt.ring.m)
    &&& forall|k: int| 0 <= k < phi_pp.len() ==> (#[trigger] phi_pp[k])@.len() == stmt.r
    &&& forall|k: int, i: int, s: int|
        0 <= k < phi_pp.len() && 0 <= i < stmt.r && 0 <= s < phi_pp[k]@[i]@.len() ==> (
        #[trigger] phi_pp[k]@[i]@[s]).0 < stmt.n && phi_pp[k]@[i]@[s].1.wf(stmt.ring.m)
}


/// `(a_k, phi_k)` is the aggregation of the constant-term constraints of
/// `stmt` with scalars `psi`: the `r × r` quadratic part, and per witness
/// vector the sparse linear part with strictly increasing positions, each
/// entry the sum of the terms at its position, every reached position listed.
pub open spec fn const_aggregated(
    stmt: Statement,
    psi: Seq<u64>,
    a_k: Seq<Vec<RingElem>>,
    phi_k: Seq<Vec<(usize, RingElem)>>,
) -> bool {
    let q = qof(stmt.ring);
    let cs = stmt.const_term@;
    &&& a_k.len() == stmt.r
    &&& forall|i: int| 0 <= i < stmt.r ==> (#[trigger] a_k[i])@.len() == stmt.r && elems_wf(a_k[i]@, stmt.ring.m)
    &&& forall|i: int, j: int|
        0 <= i < stmt.r && 0 <= j < stmt.r ==> elem(#[trigger] a_k[i]@[j]) == ct_a_acc(q, cs, psi, i, j, cs.len())
    &&& phi_k.len() == stmt.r
    &&& forall|wi: int, s: int, t: int|
        0 <= wi < stmt.r && 0 <= s < t < phi_k[wi]@.len() ==> (#[trigger] phi_k[wi]@[s]).0 < (
        #[trigger] phi_k[wi]@[t]).0
    &&& forall|wi: int, s: int|
        0 <= wi < stmt.r && 0 <= s < phi_k[wi]@.len() ==> (#[trigger] phi_k[wi]@[s]).0 < stmt.n
            && phi_k[wi]@[s].1.wf(stmt.ring.m) && ct_phi_acc(q, cs, psi, wi, phi_k[wi]@[s].0 as int, cs.len())
            == Some(elem(phi_k[wi]@[s].1))
    &&& forall|wi: int, pos: int|
        0 <= wi < stmt.r && 0 <= pos < stmt.n && (#[trigger] ct_phi_acc(q, cs, psi, wi, pos, cs.len())) is Some
            ==> exists|s: int| 0 <= s < phi_k[wi]@.len() && (#[trigger] phi_k[wi]@[s]).0 == pos
}

/// `(a_agg, phi_agg)` is the aggregation of the full constraints of `stmt`
/// (weights `alphas`) and of the aggregated constant-term constraints
/// `(a_pp, phi_pp)` (weights `betas`).
pub open spec fn full_aggregated(
    stmt: Statement,
    alphas: Seq<RingElem>,
    betas: Seq<RingElem>,
    a_pp: Seq<Vec<Vec<RingElem>>>,
    phi_pp: Seq<Vec<Vec<(usize, RingElem)>>>,
    a_agg: Seq<Vec<RingElem>>,
    phi_agg: Seq<Vec<(usize, RingElem)>>,
) -> bool {
    &&& a_agg.len() == stmt.r
    &&& forall|i: int| 0 <= i < stmt.r ==> (#[trigger] a_agg[i])@.len() == stmt.r && elems_wf(a_agg[i]@, stmt.ring.m)
    &&& forall|i: int, j: int|
        0 <= i < stmt.r && 0 <= j < stmt.r ==> elem(#[trigger] a_agg[i]@[j]) == a_agg_spec(stmt, alphas, betas, a_pp, i, j)
    &&& phi_agg.len() == stmt.r
    &&& forall|wi: int, s: int, t: int|
        0 <= wi < stmt.r && 0 <= s < t < phi_agg[wi]@.len() ==> (#[trigger] phi_agg[wi]@[s]).0 < (
        #[trigger] phi_agg[wi]@[t]).0
    &&& forall|wi: int, s: int|
        0 <= wi < stmt.r && 0 <= s < phi_agg[wi]@.len() ==> (#[trigger] phi_agg[wi]@[s]).0 < stmt.n
            && phi_agg[wi]@[s].1.wf(stmt.ring.m) && phi_agg_spec(stmt, alphas, betas, phi_pp, wi, phi_agg[wi]@[s].0 as int)
            == Some(elem(phi_agg[wi]@[s].1))
    &&& forall|wi: int, pos: int|
        0 <= wi < stmt.r && 0 <= pos < stmt.n && (#[trigger] phi_agg_spec(stmt, alphas, betas, phi_pp, wi, pos)) is Some
            ==> exists|s: int| 0 <= s < phi_agg[wi]@.len() && (#[trigger] phi_agg[wi]@[s]).0 == pos
}

/// An optional ring element, if present, is reduced.
pub open spec fn opt_wf(o: Option<RingElem>, m: Modulus) -> bool {
    match o {
        Some(x) => x.wf(m),
        None => true,
    }
}

/// An optional ring element as an optional coefficient sequence.
pub open spec fn opt_elem(o: Option<RingElem>) -> Option<Seq<int>> {
    match o {
        None => None,
        Some(e) => Some(elem(e)),
    }
}

/// `acc[wi][pos] ← acc[wi][pos] + t` (or `t` if empty).
pub(crate) fn add_into(acc: &mut Vec<Vec<Option<RingElem>>>, wi: usize, pos: usize, t: RingElem, ring: &Ring)
    requires
        ring.wf(),
        wi < old(acc)@.len(),
        pos < old(acc)@[wi as int]@.len(),
        t.wf(ring.m),
        opt_wf(old(acc)@[wi as int]@[pos as int], ring.m),
    ensures
        final(acc)@.len() == old(acc)@.len(),
        forall|v: int| 0 <= v < old(acc)@.len() ==> (#[trigger] final(acc)@[v])@.len() == old(acc)@[v]@.len(),
        forall|v: int, p: int|
            0 <= v < old(acc)@.len() && 0 <= p < old(acc)@[v]@.len() && !(v == wi && p == pos)
                ==> #[trigger] final(acc)@[v]@[p] == old(acc)@[v]@[p],
        opt_elem(final(acc)@[wi as int]@[pos as int]) == add_opt(
            opt_elem(old(acc)@[wi as int]@[pos as int]),
            elem(t),
            qof(*ring),
        ),
        final(acc)@[wi as int]@[pos as int] is Some,
        opt_wf(final(acc)@[wi as int]@[pos as int], ring.m),
{
    let row = &mut acc[wi];
    let cur = row[pos];
    let next = match cur {
        None => t,
        Some(x) => {
            let y = x.add(&ring.m, &t);
            proof {
                lemma_add_elem(x, t, y, qof(*ring));
            }
            y
        },
    };
    row[pos] = Some(next);
}

/// Aggregate the statement into one quadratic form: full constraint `k`
/// weighted by `α_k`, aggregated constant-term constraint `k` (given by
/// `a_pp[k]`, `phi_pp[k]`) weighted by `β_k`; terms with zero weight (or a
/// zero `a''` entry) are skipped. Returns `a_agg` (`r × r`) and, per
/// witness vector, the sparse `φ_agg` sorted by position with the terms at
/// one position summed.
pub fn aggregate_full(
    stmt: &Statement,
    alphas: &[RingElem],
    betas: &[RingElem],
    a_pp: &[Vec<Vec<RingElem>>],
    phi_pp: &[Vec<Vec<(usize, RingElem)>>],
) -> (res: (Vec<Vec<RingElem>>, Vec<Vec<(usize, RingElem)>>))
    requires
        stmt.wf(),
        alphas@.len() == stmt.full@.len(),
        elems_wf(alphas@, stmt.ring.m),
        betas@.len() == a_pp@.len(),
        betas@.len() == phi_pp@.len(),
        elems_wf(betas@, stmt.ring.m),
        pp_fits(*stmt, a_pp@, phi_pp@),
    ensures
        res.0@.len() == stmt.r,
        forall|i: int| 0 <= i < stmt.r ==> (#[trigger] res.0@[i])@.len() == stmt.r && elems_wf(res.0@[i]@, stmt.ring.m),
        forall|i: int, j: int|
            0 <= i < stmt.r && 0 <= j < stmt.r ==> elem(#[trigger] res.0@[i]@[j]) == a_agg_spec(
                *stmt,
                alphas@,
                betas@,
                a_pp@,
                i,
                j,
            ),
        res.1@.len() == stmt.r,
        forall|wi: int, s: int, t: int|
            0 <= wi < stmt.r && 0 <= s < t < res.1@[wi]@.len() ==> (#[trigger] res.1@[wi]@[s]).0 < (
            #[trigger] res.1@[wi]@[t]).0,
        forall|wi: int, s: int|
            0 <= wi < stmt.r && 0 <= s < res.1@[wi]@.len() ==> (#[trigger] res.1@[wi]@[s]).0 < stmt.n
                && res.1@[wi]@[s].1.wf(stmt.ring.m) && phi_agg_spec(
                *stmt,
                alphas@,
                betas@,
                phi_pp@,
                wi,
                res.1@[wi]@[s].0 as int,
            ) == Some(elem(res.1@[wi]@[s].1)),
        forall|wi: int, pos: int|
            0 <= wi < stmt.r && 0 <= pos < stmt.n && (#[trigger] phi_agg_spec(
                *stmt,
                alphas@,
                betas@,
                phi_pp@,
                wi,
                pos,
            )) is Some ==> exists|s: int| 0 <= s < res.1@[wi]@.len() && (#[trigger] res.1@[wi]@[s]).0 == pos,
{
    let ring = &stmt.ring;
    let m = &stmt.ring.m;
    let r = stmt.r;
    let n = stmt.n;
    let ghost q = qof(*ring);
    let ghost fs = stmt.full@;
    // a_agg := 0, acc := all empty.
    let mut a_agg: Vec<Vec<RingElem>> = Vec::new();
    let mut acc: Vec<Vec<Option<RingElem>>> = Vec::new();
    for i in 0..r
        invariant
            stmt.wf(),
            a_agg@.len() == i,
            acc@.len() == i,
            forall|ii: int| 0 <= ii < i ==> (#[trigger] a_agg@[ii])@.len() == r,
            forall|ii: int, j: int| 0 <= ii < i && 0 <= j < r ==> elem(#[trigger] a_agg@[ii]@[j]) == zero_poly() && a_agg@[ii]@[j].wf(stmt.ring.m),
            forall|ii: int| 0 <= ii < i ==> (#[trigger] acc@[ii])@.len() == n,
            forall|ii: int, p: int| 0 <= ii < i && 0 <= p < n ==> (#[trigger] acc@[ii]@[p]) is None,
    {
        let mut row: Vec<RingElem> = Vec::new();
        let mut arow: Vec<Option<RingElem>> = Vec::new();
        for j in 0..r
            invariant
                stmt.wf(),
                row@.len() == j,
                forall|jj: int| 0 <= jj < j ==> elem(#[trigger] row@[jj]) == zero_poly() && row@[jj].wf(stmt.ring.m),
        {
            let z = RingElem::zero();
            proof {
                lemma_zero_is_zero(z);
            }
            row.push(z);
        }
        for p in 0..n
            invariant
                arow@.len() == p,
                forall|pp: int| 0 <= pp < p ==> (#[trigger] arow@[pp]) is None,
        {
            arow.push(None);
        }
        a_agg.push(row);
        acc.push(arow);
    }
    // Full constraints, weighted by alpha_k.
    for k in 0..stmt.full.len()
        invariant
            stmt.wf(),
            ring == &stmt.ring,
            m == &stmt.ring.m,
            r == stmt.r,
            n == stmt.n,
            q == qof(*ring),
            fs == stmt.full@,
            alphas@.len() == fs.len(),
            elems_wf(alphas@, stmt.ring.m),
            a_agg@.len() == r,
            acc@.len() == r,
            forall|i: int| 0 <= i < r ==> (#[trigger] a_agg@[i])@.len() == r,
            forall|i: int| 0 <= i < r ==> (#[trigger] acc@[i])@.len() == n,
            forall|i: int, j: int| 0 <= i < r && 0 <= j < r ==> elem(#[trigger] a_agg@[i]@[j]) == full_a_acc(*ring, fs, alphas@, i, j, k as nat) && a_agg@[i]@[j].wf(stmt.ring.m),
            forall|wi: int, p: int| 0 <= wi < r && 0 <= p < n ==> opt_elem(#[trigger] acc@[wi]@[p]) == full_phi_acc(*ring, fs, alphas@, wi, p, k as nat),
            forall|wi: int, p: int| 0 <= wi < r && 0 <= p < n ==> opt_wf(#[trigger] acc@[wi]@[p], stmt.ring.m),
    {
        let alpha = alphas[k];
        proof {
            lemma_zero_elem(alpha);
        }
        if !alpha.is_zero() {
            let c = &stmt.full[k];
            assert(c.wf(r as int, n as int, stmt.ring.m));
            let ghost a0 = a_agg@;
            for t in 0..c.a.len()
                invariant
                    stmt.wf(),
                    ring == &stmt.ring,
                    m == &stmt.ring.m,
                    r == stmt.r,
                    q == qof(*ring),
                    fs == stmt.full@,
                    k < fs.len(),
                    *c == fs[k as int],
                    alpha == alphas@[k as int],
                    alpha.wf(stmt.ring.m),
                    c.wf(r as int, n as int, stmt.ring.m),
                    a_agg@.len() == r,
                    forall|i: int| 0 <= i < r ==> (#[trigger] a_agg@[i])@.len() == r,
                    forall|i: int, j: int| 0 <= i < r && 0 <= j < r ==> elem(#[trigger] a_agg@[i]@[j]) == a_list_acc(full_a_acc(*ring, fs, alphas@, i, j, k as nat), *ring, elem(alpha), c.a@, i, j, t as nat) && a_agg@[i]@[j].wf(stmt.ring.m),
            {
                let (i, j, aij) = c.a[t];
                assert(c.a@[t as int].0 < r && c.a@[t as int].1 < r && c.a@[t as int].2.wf(stmt.ring.m));
                let scaled = ring.mul(&alpha, &aij);
                let cur = a_agg[i][j];
                let next = cur.add(m, &scaled);
                proof {
                    lemma_add_elem(cur, scaled, next, q);
                }
                let ghost before = a_agg@;
                let row = &mut a_agg[i];
                row.set(j, next);
                proof {
                    assert forall|ii: int, jj: int| 0 <= ii < r && 0 <= jj < r implies elem(#[trigger] a_agg@[ii]@[jj]) == a_list_acc(full_a_acc(*ring, fs, alphas@, ii, jj, k as nat), *ring, elem(alpha), c.a@, ii, jj, (t + 1) as nat) && a_agg@[ii]@[jj].wf(stmt.ring.m) by {
                        if ii != i || jj != j {
                            assert(a_agg@[ii]@[jj] == before[ii]@[jj]);
                        }
                    }
                }
            }
            proof {
                assert forall|i: int, j: int| 0 <= i < r && 0 <= j < r implies elem(#[trigger] a_agg@[i]@[j]) == full_a_acc(*ring, fs, alphas@, i, j, (k + 1) as nat) by {}
            }
            for t in 0..c.phi.len()
                invariant
                    stmt.wf(),
                    ring == &stmt.ring,
                    r == stmt.r,
                    n == stmt.n,
                    q == qof(*ring),
                    fs == stmt.full@,
                    k < fs.len(),
                    *c == fs[k as int],
                    alpha == alphas@[k as int],
                    alpha.wf(stmt.ring.m),
                    elem(alpha) != zero_poly(),
                    c.wf(r as int, n as int, stmt.ring.m),
                    acc@.len() == r,
                    forall|i: int| 0 <= i < r ==> (#[trigger] acc@[i])@.len() == n,
                    forall|wi: int, p: int| 0 <= wi < r && 0 <= p < n ==> opt_elem(#[trigger] acc@[wi]@[p]) == phi_pos_acc(full_phi_acc(*ring, fs, alphas@, wi, p, k as nat), *ring, elem(alpha), c.phi@, wi, p, t as nat),
                    forall|wi: int, p: int| 0 <= wi < r && 0 <= p < n ==> opt_wf(#[trigger] acc@[wi]@[p], stmt.ring.m),
            {
                let wi = c.phi[t].0;
                let sp = &c.phi[t].1;
                assert(c.phi@[t as int].0 < r);
                for s in 0..sp.len()
                    invariant
                        stmt.wf(),
                        ring == &stmt.ring,
                        r == stmt.r,
                        n == stmt.n,
                        q == qof(*ring),
                        fs == stmt.full@,
                        k < fs.len(),
                        *c == fs[k as int],
                        t < c.phi@.len(),
                        wi == c.phi@[t as int].0,
                        wi < r,
                        sp@ == c.phi@[t as int].1@,
                        alpha == alphas@[k as int],
                        alpha.wf(stmt.ring.m),
                        c.wf(r as int, n as int, stmt.ring.m),
                        acc@.len() == r,
                        forall|i: int| 0 <= i < r ==> (#[trigger] acc@[i])@.len() == n,
                        forall|w2: int, p: int| 0 <= w2 < r && 0 <= p < n ==> opt_elem(#[trigger] acc@[w2]@[p]) == (if w2 == wi {
                            sparse_pos_acc(phi_pos_acc(full_phi_acc(*ring, fs, alphas@, w2, p, k as nat), *ring, elem(alpha), c.phi@, w2, p, t as nat), *ring, elem(alpha), sp@, p, s as nat)
                        } else {
                            phi_pos_acc(full_phi_acc(*ring, fs, alphas@, w2, p, k as nat), *ring, elem(alpha), c.phi@, w2, p, t as nat)
                        }),
                        forall|w2: int, p: int| 0 <= w2 < r && 0 <= p < n ==> opt_wf(#[trigger] acc@[w2]@[p], stmt.ring.m),
                {
                    let (pos, coef) = sp[s];
                    assert(sp@[s as int].0 < n && sp@[s as int].1.wf(stmt.ring.m));
                    let term = ring.mul(&alpha, &coef);
                    let ghost before = acc@;
                    add_into(&mut acc, wi, pos, term, ring);
                    proof {
                        assert forall|w2: int, p: int| 0 <= w2 < r && 0 <= p < n implies opt_elem(#[trigger] acc@[w2]@[p]) == (if w2 == wi {
                            sparse_pos_acc(phi_pos_acc(full_phi_acc(*ring, fs, alphas@, w2, p, k as nat), *ring, elem(alpha), c.phi@, w2, p, t as nat), *ring, elem(alpha), sp@, p, (s + 1) as nat)
                        } else {
                            phi_pos_acc(full_phi_acc(*ring, fs, alphas@, w2, p, k as nat), *ring, elem(alpha), c.phi@, w2, p, t as nat)
                        }) by {
                            if w2 != wi || p != pos {
                                assert(acc@[w2]@[p] == before[w2]@[p]);
                            }
                        }
                        assert forall|w2: int, p: int| 0 <= w2 < r && 0 <= p < n implies opt_wf(#[trigger] acc@[w2]@[p], stmt.ring.m) by {
                            if w2 != wi || p != pos {
                                assert(acc@[w2]@[p] == before[w2]@[p]);
                            }
                        }
                    }
                }
            }
            proof {
                assert forall|wi: int, p: int| 0 <= wi < r && 0 <= p < n implies opt_elem(#[trigger] acc@[wi]@[p]) == full_phi_acc(*ring, fs, alphas@, wi, p, (k + 1) as nat) by {}
            }
        }
    }
    // Aggregated constant-term constraints, weighted by beta_k.
    let ghost fa = stmt.full@.len() as nat;
    for k in 0..betas.len()
        invariant
            stmt.wf(),
            ring == &stmt.ring,
            m == &stmt.ring.m,
            r == stmt.r,
            n == stmt.n,
            q == qof(*ring),
            fs == stmt.full@,
            fa == fs.len(),
            alphas@.len() == fs.len(),
            betas@.len() == a_pp@.len(),
            betas@.len() == phi_pp@.len(),
            elems_wf(betas@, stmt.ring.m),
            pp_fits(*stmt, a_pp@, phi_pp@),
            a_agg@.len() == r,
            acc@.len() == r,
            forall|i: int| 0 <= i < r ==> (#[trigger] a_agg@[i])@.len() == r,
            forall|i: int| 0 <= i < r ==> (#[trigger] acc@[i])@.len() == n,
            forall|i: int, j: int| 0 <= i < r && 0 <= j < r ==> elem(#[trigger] a_agg@[i]@[j]) == beta_a_acc(full_a_acc(*ring, fs, alphas@, i, j, fa), *ring, betas@, a_pp@, i, j, k as nat) && a_agg@[i]@[j].wf(stmt.ring.m),
            forall|wi: int, p: int| 0 <= wi < r && 0 <= p < n ==> opt_elem(#[trigger] acc@[wi]@[p]) == beta_phi_acc(full_phi_acc(*ring, fs, alphas@, wi, p, fa), *ring, betas@, phi_pp@, wi, p, k as nat),
            forall|wi: int, p: int| 0 <= wi < r && 0 <= p < n ==> opt_wf(#[trigger] acc@[wi]@[p], stmt.ring.m),
    {
        let beta = betas[k];
        proof {
            lemma_zero_elem(beta);
        }
        if !beta.is_zero() {
            for i in 0..r
                invariant
                    stmt.wf(),
                    ring == &stmt.ring,
                    m == &stmt.ring.m,
                    r == stmt.r,
                    q == qof(*ring),
                    fs == stmt.full@,
                    fa == fs.len(),
                    k < betas@.len(),
                    betas@.len() == a_pp@.len(),
                    beta == betas@[k as int],
                    beta.wf(stmt.ring.m),
                    elem(beta) != zero_poly(),
                    pp_fits(*stmt, a_pp@, phi_pp@),
                    a_agg@.len() == r,
                    forall|i: int| 0 <= i < r ==> (#[trigger] a_agg@[i])@.len() == r,
                    forall|ii: int, j: int| 0 <= ii < r && 0 <= j < r ==> elem(#[trigger] a_agg@[ii]@[j]) == beta_a_acc(full_a_acc(*ring, fs, alphas@, ii, j, fa), *ring, betas@, a_pp@, ii, j, (if ii < i { k + 1 } else { k as int }) as nat) && a_agg@[ii]@[j].wf(stmt.ring.m),
            {
                for j in 0..r
                    invariant
                        stmt.wf(),
                        ring == &stmt.ring,
                        m == &stmt.ring.m,
                        r == stmt.r,
                        q == qof(*ring),
                        fs == stmt.full@,
                        fa == fs.len(),
                        k < betas@.len(),
                        betas@.len() == a_pp@.len(),
                        i < r,
                        beta == betas@[k as int],
                        beta.wf(stmt.ring.m),
                        elem(beta) != zero_poly(),
                        pp_fits(*stmt, a_pp@, phi_pp@),
                        a_agg@.len() == r,
                        forall|i: int| 0 <= i < r ==> (#[trigger] a_agg@[i])@.len() == r,
                        forall|ii: int, jj: int| 0 <= ii < r && 0 <= jj < r ==> elem(#[trigger] a_agg@[ii]@[jj]) == beta_a_acc(full_a_acc(*ring, fs, alphas@, ii, jj, fa), *ring, betas@, a_pp@, ii, jj, (if ii < i || (ii == i && jj < j) { k + 1 } else { k as int }) as nat) && a_agg@[ii]@[jj].wf(stmt.ring.m),
                {
                    assert(a_pp@[k as int]@[i as int]@.len() == r && elems_wf(a_pp@[k as int]@[i as int]@, stmt.ring.m));
                    let aij = a_pp[k][i][j];
                    proof {
                        lemma_zero_elem(aij);
                    }
                    if !aij.is_zero() {
                        let scaled = ring.mul(&beta, &aij);
                        let cur = a_agg[i][j];
                        let next = cur.add(m, &scaled);
                        proof {
                            lemma_add_elem(cur, scaled, next, q);
                        }
                        let ghost before = a_agg@;
                        let row = &mut a_agg[i];
                        row.set(j, next);
                        proof {
                            assert forall|ii: int, jj: int| 0 <= ii < r && 0 <= jj < r implies elem(#[trigger] a_agg@[ii]@[jj]) == beta_a_acc(full_a_acc(*ring, fs, alphas@, ii, jj, fa), *ring, betas@, a_pp@, ii, jj, (if ii < i || (ii == i && jj < j + 1) { k + 1 } else { k as int }) as nat) && a_agg@[ii]@[jj].wf(stmt.ring.m) by {
                                if ii != i || jj != j {
                                    assert(a_agg@[ii]@[jj] == before[ii]@[jj]);
                                }
                            }
                        }
                    }
                }
            }
            for wi in 0..r
                invariant
                    stmt.wf(),
                    ring == &stmt.ring,
                    r == stmt.r,
                    n == stmt.n,
                    q == qof(*ring),
                    fs == stmt.full@,
                    fa == fs.len(),
                    k < betas@.len(),
                    betas@.len() == phi_pp@.len(),
                    beta == betas@[k as int],
                    beta.wf(stmt.ring.m),
                    elem(beta) != zero_poly(),
                    pp_fits(*stmt, a_pp@, phi_pp@),
                    acc@.len() == r,
                    forall|i: int| 0 <= i < r ==> (#[trigger] acc@[i])@.len() == n,
                    forall|w2: int, p: int| 0 <= w2 < r && 0 <= p < n ==> opt_elem(#[trigger] acc@[w2]@[p]) == beta_phi_acc(full_phi_acc(*ring, fs, alphas@, w2, p, fa), *ring, betas@, phi_pp@, w2, p, (if w2 < wi { k + 1 } else { k as int }) as nat),
                    forall|w2: int, p: int| 0 <= w2 < r && 0 <= p < n ==> opt_wf(#[trigger] acc@[w2]@[p], stmt.ring.m),
            {
                assert(phi_pp@[k as int]@.len() == r);
                let sp = &phi_pp[k][wi];
                for s in 0..sp.len()
                    invariant
                        stmt.wf(),
                        ring == &stmt.ring,
                        r == stmt.r,
                        n == stmt.n,
                        q == qof(*ring),
                        fs == stmt.full@,
                        fa == fs.len(),
                        k < betas@.len(),
                        betas@.len() == phi_pp@.len(),
                        wi < r,
                        sp@ == phi_pp@[k as int]@[wi as int]@,
                        beta == betas@[k as int],
                        beta.wf(stmt.ring.m),
                        elem(beta) != zero_poly(),
                        pp_fits(*stmt, a_pp@, phi_pp@),
                        acc@.len() == r,
                        forall|i: int| 0 <= i < r ==> (#[trigger] acc@[i])@.len() == n,
                        forall|w2: int, p: int| 0 <= w2 < r && 0 <= p < n ==> opt_elem(#[trigger] acc@[w2]@[p]) == (if w2 == wi {
                            sparse_pos_acc(beta_phi_acc(full_phi_acc(*ring, fs, alphas@, w2, p, fa), *ring, betas@, phi_pp@, w2, p, k as nat), *ring, elem(beta), sp@, p, s as nat)
                        } else {
                            beta_phi_acc(full_phi_acc(*ring, fs, alphas@, w2, p, fa), *ring, betas@, phi_pp@, w2, p, (if w2 < wi { k + 1 } else { k as int }) as nat)
                        }),
                        forall|w2: int, p: int| 0 <= w2 < r && 0 <= p < n ==> opt_wf(#[trigger] acc@[w2]@[p], stmt.ring.m),
                {
                    let (pos, coef) = sp[s];
                    assert(sp@[s as int].0 < n && sp@[s as int].1.wf(stmt.ring.m));
                    let term = ring.mul(&beta, &coef);
                    let ghost before = acc@;
                    add_into(&mut acc, wi, pos, term, ring);
                    proof {
                        assert forall|w2: int, p: int| 0 <= w2 < r && 0 <= p < n implies opt_elem(#[trigger] acc@[w2]@[p]) == (if w2 == wi {
                            sparse_pos_acc(beta_phi_acc(full_phi_acc(*ring, fs, alphas@, w2, p, fa), *ring, betas@, phi_pp@, w2, p, k as nat), *ring, elem(beta), sp@, p, (s + 1) as nat)
                        } else {
                            beta_phi_acc(full_phi_acc(*ring, fs, alphas@, w2, p, fa), *ring, betas@, phi_pp@, w2, p, (if w2 < wi { k + 1 } else { k as int }) as nat)
                        }) by {
                            if w2 != wi || p != pos {
                                assert(acc@[w2]@[p] == before[w2]@[p]);
                            }
                        }
                        assert forall|w2: int, p: int| 0 <= w2 < r && 0 <= p < n implies opt_wf(#[trigger] acc@[w2]@[p], stmt.ring.m) by {
                            if w2 != wi || p != pos {
                                assert(acc@[w2]@[p] == before[w2]@[p]);
                            }
                        }
                    }
                }
            }
        }
    }
    // Collect each vector's entries in position order.
    let mut phi_agg: Vec<Vec<(usize, RingElem)>> = Vec::new();
    for wi in 0..r
        invariant
            stmt.wf(),
            r == stmt.r,
            n == stmt.n,
            acc@.len() == r,
            forall|i: int| 0 <= i < r ==> (#[trigger] acc@[i])@.len() == n,
            forall|w2: int, p: int| 0 <= w2 < r && 0 <= p < n ==> opt_elem(#[trigger] acc@[w2]@[p]) == phi_agg_spec(*stmt, alphas@, betas@, phi_pp@, w2, p),
            forall|w2: int, p: int| 0 <= w2 < r && 0 <= p < n ==> opt_wf(#[trigger] acc@[w2]@[p], stmt.ring.m),
            phi_agg@.len() == wi,
            forall|w2: int, s: int, t: int| 0 <= w2 < wi && 0 <= s < t < phi_agg@[w2]@.len() ==> (#[trigger] phi_agg@[w2]@[s]).0 < (#[trigger] phi_agg@[w2]@[t]).0,
            forall|w2: int, s: int| 0 <= w2 < wi && 0 <= s < phi_agg@[w2]@.len() ==> (#[trigger] phi_agg@[w2]@[s]).0 < n && acc@[w2]@[phi_agg@[w2]@[s].0 as int] == Some(phi_agg@[w2]@[s].1),
            forall|w2: int, p: int| 0 <= w2 < wi && 0 <= p < n && (#[trigger] acc@[w2]@[p]) is Some ==> exists|s: int| 0 <= s < phi_agg@[w2]@.len() && (#[trigger] phi_agg@[w2]@[s]).0 == p,
    {
        let mut list: Vec<(usize, RingElem)> = Vec::new();
        for p in 0..n
            invariant
                wi < r,
                r == stmt.r,
                n == stmt.n,
                acc@.len() == r,
                forall|i: int| 0 <= i < r ==> (#[trigger] acc@[i])@.len() == n,
                forall|s: int, t: int| 0 <= s < t < list@.len() ==> (#[trigger] list@[s]).0 < (#[trigger] list@[t]).0,
                forall|s: int| 0 <= s < list@.len() ==> (#[trigger] list@[s]).0 < p && acc@[wi as int]@[list@[s].0 as int] == Some(list@[s].1),
                forall|pp: int| 0 <= pp < p && (#[trigger] acc@[wi as int]@[pp]) is Some ==> exists|s: int| 0 <= s < list@.len() && (#[trigger] list@[s]).0 == pp,
        {
            let entry = acc[wi][p];
            match entry {
                Some(x) => {
                    let ghost before = list@;
                    list.push((p, x));
                    proof {
                        assert(list@[before.len() as int].0 == p);
                        assert forall|pp: int| 0 <= pp < p + 1 && (#[trigger] acc@[wi as int]@[pp]) is Some implies exists|s: int| 0 <= s < list@.len() && (#[trigger] list@[s]).0 == pp by {
                            if pp < p {
                                let s0 = choose|s: int| 0 <= s < before.len() && (#[trigger] before[s]).0 == pp;
                                assert(list@[s0] == before[s0]);
                            }
                        }
                    }
                },
                None => {},
            }
        }
        let ghost lst = list@;
        let ghost before_agg = phi_agg@;
        phi_agg.push(list);
        proof {
            assert(phi_agg@[wi as int]@ == lst);
            assert forall|w2: int, p: int| 0 <= w2 < wi + 1 && 0 <= p < n && (#[trigger] acc@[w2]@[p]) is Some implies exists|s: int| 0 <= s < phi_agg@[w2]@.len() && (#[trigger] phi_agg@[w2]@[s]).0 == p by {
                if w2 == wi {
                    let s0 = choose|s: int| 0 <= s < lst.len() && (#[trigger] lst[s]).0 == p;
                    assert(phi_agg@[w2]@[s0] == lst[s0]);
                } else {
                    assert(phi_agg@[w2] == before_agg[w2]);
                    let s0 = choose|s: int| 0 <= s < before_agg[w2]@.len() && (#[trigger] before_agg[w2]@[s]).0 == p;
                    assert(phi_agg@[w2]@[s0] == before_agg[w2]@[s0]);
                }
            }
        }
    }
    proof {
        assert forall|wi: int, s: int| 0 <= wi < r && 0 <= s < phi_agg@[wi]@.len() implies (#[trigger] phi_agg@[wi]@[s]).0 < stmt.n
            && phi_agg@[wi]@[s].1.wf(stmt.ring.m) && phi_agg_spec(*stmt, alphas@, betas@, phi_pp@, wi, phi_agg@[wi]@[s].0 as int) == Some(elem(phi_agg@[wi]@[s].1)) by {
            let p = phi_agg@[wi]@[s].0 as int;
            assert(opt_elem(acc@[wi]@[p]) == phi_agg_spec(*stmt, alphas@, betas@, phi_pp@, wi, p));
        }
        assert forall|wi: int, pos: int|
            0 <= wi < r && 0 <= pos < n && (#[trigger] phi_agg_spec(*stmt, alphas@, betas@, phi_pp@, wi, pos)) is Some implies exists|s: int| 0 <= s < phi_agg@[wi]@.len() && (#[trigger] phi_agg@[wi]@[s]).0 == pos by {
            assert(opt_elem(acc@[wi]@[pos]) == phi_agg_spec(*stmt, alphas@, betas@, phi_pp@, wi, pos));
        }
    }
    (a_agg, phi_agg)
}


// ---------------------------------------------------------------------------
// Constant-term constraints weighted by scalars ψ
// ---------------------------------------------------------------------------

/// `ψ · x` coefficient-wise mod `q`.
pub open spec fn poly_scale(x: Seq<int>, psi: int, q: int) -> Seq<int> {
    Seq::new(D as nat, |i: int| (x[i] * psi) % q)
}

/// Fold `ψ · p` for the entries of `sp[0..n]` at position `pos`.
pub open spec fn sparse_pos_scaled(acc: Option<Seq<int>>, q: int, psi: int, sp: Seq<(usize, RingElem)>, pos: int, n: nat) -> Option<Seq<int>>
    decreases n,
{
    if n == 0 {
        acc
    } else {
        let prev = sparse_pos_scaled(acc, q, psi, sp, pos, (n - 1) as nat);
        if sp[n - 1].0 == pos {
            add_opt(prev, poly_scale(elem(sp[n - 1].1), psi, q), q)
        } else {
            prev
        }
    }
}

/// Fold over the entries `phi[0..n]` belonging to vector `wi`.
pub open spec fn phi_pos_scaled(acc: Option<Seq<int>>, q: int, psi: int, phi: Seq<(usize, Vec<(usize, RingElem)>)>, wi: int, pos: int, n: nat) -> Option<Seq<int>>
    decreases n,
{
    if n == 0 {
        acc
    } else {
        let prev = phi_pos_scaled(acc, q, psi, phi, wi, pos, (n - 1) as nat);
        if phi[n - 1].0 == wi {
            sparse_pos_scaled(prev, q, psi, phi[n - 1].1@, pos, phi[n - 1].1@.len())
        } else {
            prev
        }
    }
}

/// The `(wi, pos)` entry of `Σ_l ψ_l φ'^(l)` over constraints `0..l` with non-zero `ψ_l`.
pub open spec fn ct_phi_acc(q: int, cs: Seq<ConstTermConstraint>, psis: Seq<u64>, wi: int, pos: int, l: nat) -> Option<Seq<int>>
    decreases l,
{
    if l == 0 {
        None
    } else {
        let prev = ct_phi_acc(q, cs, psis, wi, pos, (l - 1) as nat);
        if psis[l - 1] == 0 {
            prev
        } else {
            phi_pos_scaled(prev, q, psis[l - 1] as int, cs[l - 1].phi@, wi, pos, cs[l - 1].phi@.len())
        }
    }
}

/// Fold `ψ · a_ij` for the stored pairs of `a[0..n]` equal to `(i, j)`.
pub open spec fn a_list_scaled(acc: Seq<int>, q: int, psi: int, a: Seq<(usize, usize, RingElem)>, i: int, j: int, n: nat) -> Seq<int>
    decreases n,
{
    if n == 0 {
        acc
    } else {
        let prev = a_list_scaled(acc, q, psi, a, i, j, (n - 1) as nat);
        if a[n - 1].0 == i && a[n - 1].1 == j {
            poly_add(prev, poly_scale(elem(a[n - 1].2), psi, q), q)
        } else {
            prev
        }
    }
}

/// The `(i, j)` entry of `Σ_l ψ_l a'^(l)` over constraints `0..l`.
pub open spec fn ct_a_acc(q: int, cs: Seq<ConstTermConstraint>, psis: Seq<u64>, i: int, j: int, l: nat) -> Seq<int>
    decreases l,
{
    if l == 0 {
        zero_poly()
    } else {
        let prev = ct_a_acc(q, cs, psis, i, j, (l - 1) as nat);
        if psis[l - 1] == 0 {
            prev
        } else {
            a_list_scaled(prev, q, psis[l - 1] as int, cs[l - 1].a@, i, j, cs[l - 1].a@.len())
        }
    }
}

/// `acc[wi][pos] ← acc[wi][pos] + t`, for a scaled term.
proof fn lemma_scale_elem(x: RingElem, psi: u64, y: RingElem, q: int)
    requires
        forall|i: int| 0 <= i < D ==> #[trigger] y.c[i] == (x.c[i] * psi) % q,
    ensures
        elem(y) == poly_scale(elem(x), psi as int, q),
{
    assert(elem(y) =~= poly_scale(elem(x), psi as int, q));
}

/// Aggregate the constant-term constraints with scalars `psis` (one per
/// constraint; zero scalars skip their constraint): the `r × r` quadratic
/// part, and per witness vector the sparse linear part sorted by position
/// with the terms at one position summed.
pub fn aggregate_const_terms(stmt: &Statement, psis: &Vec<u64>) -> (res: (Vec<Vec<RingElem>>, Vec<Vec<(usize, RingElem)>>))
    requires
        stmt.wf(),
        psis@.len() == stmt.const_term@.len(),
    ensures
        res.0@.len() == stmt.r,
        forall|i: int| 0 <= i < stmt.r ==> (#[trigger] res.0@[i])@.len() == stmt.r && elems_wf(res.0@[i]@, stmt.ring.m),
        forall|i: int, j: int|
            0 <= i < stmt.r && 0 <= j < stmt.r ==> elem(#[trigger] res.0@[i]@[j]) == ct_a_acc(
                qof(stmt.ring),
                stmt.const_term@,
                psis@,
                i,
                j,
                stmt.const_term@.len(),
            ),
        res.1@.len() == stmt.r,
        forall|wi: int, s: int, t: int|
            0 <= wi < stmt.r && 0 <= s < t < res.1@[wi]@.len() ==> (#[trigger] res.1@[wi]@[s]).0 < (
            #[trigger] res.1@[wi]@[t]).0,
        forall|wi: int, s: int|
            0 <= wi < stmt.r && 0 <= s < res.1@[wi]@.len() ==> (#[trigger] res.1@[wi]@[s]).0 < stmt.n
                && res.1@[wi]@[s].1.wf(stmt.ring.m) && ct_phi_acc(
                qof(stmt.ring),
                stmt.const_term@,
                psis@,
                wi,
                res.1@[wi]@[s].0 as int,
                stmt.const_term@.len(),
            ) == Some(elem(res.1@[wi]@[s].1)),
        forall|wi: int, pos: int|
            0 <= wi < stmt.r && 0 <= pos < stmt.n && (#[trigger] ct_phi_acc(
                qof(stmt.ring),
                stmt.const_term@,
                psis@,
                wi,
                pos,
                stmt.const_term@.len(),
            )) is Some ==> exists|s: int| 0 <= s < res.1@[wi]@.len() && (#[trigger] res.1@[wi]@[s]).0 == pos,
{
    let ring = &stmt.ring;
    let m = &stmt.ring.m;
    let r = stmt.r;
    let n = stmt.n;
    let ghost q = qof(*ring);
    let ghost cs = stmt.const_term@;
    let mut a_agg: Vec<Vec<RingElem>> = Vec::new();
    let mut acc: Vec<Vec<Option<RingElem>>> = Vec::new();
    for i in 0..r
        invariant
            stmt.wf(),
            a_agg@.len() == i,
            acc@.len() == i,
            forall|ii: int| 0 <= ii < i ==> (#[trigger] a_agg@[ii])@.len() == r,
            forall|ii: int, j: int| 0 <= ii < i && 0 <= j < r ==> elem(#[trigger] a_agg@[ii]@[j]) == zero_poly() && a_agg@[ii]@[j].wf(stmt.ring.m),
            forall|ii: int| 0 <= ii < i ==> (#[trigger] acc@[ii])@.len() == n,
            forall|ii: int, p: int| 0 <= ii < i && 0 <= p < n ==> (#[trigger] acc@[ii]@[p]) is None,
    {
        let mut row: Vec<RingElem> = Vec::new();
        let mut arow: Vec<Option<RingElem>> = Vec::new();
        for j in 0..r
            invariant
                stmt.wf(),
                row@.len() == j,
                forall|jj: int| 0 <= jj < j ==> elem(#[trigger] row@[jj]) == zero_poly() && row@[jj].wf(stmt.ring.m),
        {
            let z = RingElem::zero();
            proof {
                lemma_zero_is_zero(z);
            }
            row.push(z);
        }
        for p in 0..n
            invariant
                arow@.len() == p,
                forall|pp: int| 0 <= pp < p ==> (#[trigger] arow@[pp]) is None,
        {
            arow.push(None);
        }
        a_agg.push(row);
        acc.push(arow);
    }
    for l in 0..stmt.const_term.len()
        invariant
            stmt.wf(),
            ring == &stmt.ring,
            m == &stmt.ring.m,
            r == stmt.r,
            n == stmt.n,
            q == qof(*ring),
            cs == stmt.const_term@,
            psis@.len() == cs.len(),
            a_agg@.len() == r,
            acc@.len() == r,
            forall|i: int| 0 <= i < r ==> (#[trigger] a_agg@[i])@.len() == r,
            forall|i: int| 0 <= i < r ==> (#[trigger] acc@[i])@.len() == n,
            forall|i: int, j: int| 0 <= i < r && 0 <= j < r ==> elem(#[trigger] a_agg@[i]@[j]) == ct_a_acc(q, cs, psis@, i, j, l as nat) && a_agg@[i]@[j].wf(stmt.ring.m),
            forall|wi: int, p: int| 0 <= wi < r && 0 <= p < n ==> opt_elem(#[trigger] acc@[wi]@[p]) == ct_phi_acc(q, cs, psis@, wi, p, l as nat),
            forall|wi: int, p: int| 0 <= wi < r && 0 <= p < n ==> opt_wf(#[trigger] acc@[wi]@[p], stmt.ring.m),
    {
        let psi = psis[l];
        if psi != 0 {
            let c = &stmt.const_term[l];
            assert(c.wf(r as int, n as int, stmt.ring.m));
            for t in 0..c.a.len()
                invariant
                    stmt.wf(),
                    ring == &stmt.ring,
                    m == &stmt.ring.m,
                    r == stmt.r,
                    q == qof(*ring),
                    cs == stmt.const_term@,
                    l < cs.len(),
                    *c == cs[l as int],
                    psi == psis@[l as int],
                    c.wf(r as int, n as int, stmt.ring.m),
                    a_agg@.len() == r,
                    forall|i: int| 0 <= i < r ==> (#[trigger] a_agg@[i])@.len() == r,
                    forall|i: int, j: int| 0 <= i < r && 0 <= j < r ==> elem(#[trigger] a_agg@[i]@[j]) == a_list_scaled(ct_a_acc(q, cs, psis@, i, j, l as nat), q, psi as int, c.a@, i, j, t as nat) && a_agg@[i]@[j].wf(stmt.ring.m),
            {
                let (i, j, aij) = c.a[t];
                assert(c.a@[t as int].0 < r && c.a@[t as int].1 < r);
                let scaled = aij.scale(m, psi);
                proof {
                    lemma_scale_elem(aij, psi, scaled, q);
                }
                let cur = a_agg[i][j];
                let next = cur.add(m, &scaled);
                proof {
                    lemma_add_elem(cur, scaled, next, q);
                }
                let ghost before = a_agg@;
                let row = &mut a_agg[i];
                row.set(j, next);
                proof {
                    assert forall|ii: int, jj: int| 0 <= ii < r && 0 <= jj < r implies elem(#[trigger] a_agg@[ii]@[jj]) == a_list_scaled(ct_a_acc(q, cs, psis@, ii, jj, l as nat), q, psi as int, c.a@, ii, jj, (t + 1) as nat) && a_agg@[ii]@[jj].wf(stmt.ring.m) by {
                        if ii != i || jj != j {
                            assert(a_agg@[ii]@[jj] == before[ii]@[jj]);
                        }
                    }
                }
            }
            for t in 0..c.phi.len()
                invariant
                    stmt.wf(),
                    ring == &stmt.ring,
                    m == &stmt.ring.m,
                    r == stmt.r,
                    n == stmt.n,
                    q == qof(*ring),
                    cs == stmt.const_term@,
                    l < cs.len(),
                    *c == cs[l as int],
                    psi == psis@[l as int],
                    psi != 0,
                    c.wf(r as int, n as int, stmt.ring.m),
                    acc@.len() == r,
                    forall|i: int| 0 <= i < r ==> (#[trigger] acc@[i])@.len() == n,
                    forall|wi: int, p: int| 0 <= wi < r && 0 <= p < n ==> opt_elem(#[trigger] acc@[wi]@[p]) == phi_pos_scaled(ct_phi_acc(q, cs, psis@, wi, p, l as nat), q, psi as int, c.phi@, wi, p, t as nat),
                    forall|wi: int, p: int| 0 <= wi < r && 0 <= p < n ==> opt_wf(#[trigger] acc@[wi]@[p], stmt.ring.m),
            {
                let wi = c.phi[t].0;
                let sp = &c.phi[t].1;
                assert(c.phi@[t as int].0 < r);
                for s in 0..sp.len()
                    invariant
                        stmt.wf(),
                        ring == &stmt.ring,
                        m == &stmt.ring.m,
                        r == stmt.r,
                        n == stmt.n,
                        q == qof(*ring),
                        cs == stmt.const_term@,
                        l < cs.len(),
                        *c == cs[l as int],
                        t < c.phi@.len(),
                        wi == c.phi@[t as int].0,
                        wi < r,
                        sp@ == c.phi@[t as int].1@,
                        psi == psis@[l as int],
                        c.wf(r as int, n as int, stmt.ring.m),
                        acc@.len() == r,
                        forall|i: int| 0 <= i < r ==> (#[trigger] acc@[i])@.len() == n,
                        forall|w2: int, p: int| 0 <= w2 < r && 0 <= p < n ==> opt_elem(#[trigger] acc@[w2]@[p]) == (if w2 == wi {
                            sparse_pos_scaled(phi_pos_scaled(ct_phi_acc(q, cs, psis@, w2, p, l as nat), q, psi as int, c.phi@, w2, p, t as nat), q, psi as int, sp@, p, s as nat)
                        } else {
                            phi_pos_scaled(ct_phi_acc(q, cs, psis@, w2, p, l as nat), q, psi as int, c.phi@, w2, p, t as nat)
                        }),
                        forall|w2: int, p: int| 0 <= w2 < r && 0 <= p < n ==> opt_wf(#[trigger] acc@[w2]@[p], stmt.ring.m),
                {
                    let (pos, coef) = sp[s];
                    assert(sp@[s as int].0 < n);
                    let term = coef.scale(m, psi);
                    proof {
                        lemma_scale_elem(coef, psi, term, q);
                    }
                    let ghost before = acc@;
                    add_into(&mut acc, wi, pos, term, ring);
                    proof {
                        assert forall|w2: int, p: int| 0 <= w2 < r && 0 <= p < n implies opt_elem(#[trigger] acc@[w2]@[p]) == (if w2 == wi {
                            sparse_pos_scaled(phi_pos_scaled(ct_phi_acc(q, cs, psis@, w2, p, l as nat), q, psi as int, c.phi@, w2, p, t as nat), q, psi as int, sp@, p, (s + 1) as nat)
                        } else {
                            phi_pos_scaled(ct_phi_acc(q, cs, psis@, w2, p, l as nat), q, psi as int, c.phi@, w2, p, t as nat)
                        }) by {
                            if w2 != wi || p != pos {
                                assert(acc@[w2]@[p] == before[w2]@[p]);
                            }
                        }
                        assert forall|w2: int, p: int| 0 <= w2 < r && 0 <= p < n implies opt_wf(#[trigger] acc@[w2]@[p], stmt.ring.m) by {
                            if w2 != wi || p != pos {
                                assert(acc@[w2]@[p] == before[w2]@[p]);
                            }
                        }
                    }
                }
            }
        }
    }
    let mut phi_agg: Vec<Vec<(usize, RingElem)>> = Vec::new();
    for wi in 0..r
        invariant
            stmt.wf(),
            r == stmt.r,
            n == stmt.n,
            q == qof(stmt.ring),
            cs == stmt.const_term@,
            acc@.len() == r,
            forall|i: int| 0 <= i < r ==> (#[trigger] acc@[i])@.len() == n,
            forall|w2: int, p: int| 0 <= w2 < r && 0 <= p < n ==> opt_elem(#[trigger] acc@[w2]@[p]) == ct_phi_acc(q, cs, psis@, w2, p, cs.len()),
            forall|w2: int, p: int| 0 <= w2 < r && 0 <= p < n ==> opt_wf(#[trigger] acc@[w2]@[p], stmt.ring.m),
            phi_agg@.len() == wi,
            forall|w2: int, s: int, t: int| 0 <= w2 < wi && 0 <= s < t < phi_agg@[w2]@.len() ==> (#[trigger] phi_agg@[w2]@[s]).0 < (#[trigger] phi_agg@[w2]@[t]).0,
            forall|w2: int, s: int| 0 <= w2 < wi && 0 <= s < phi_agg@[w2]@.len() ==> (#[trigger] phi_agg@[w2]@[s]).0 < n && acc@[w2]@[phi_agg@[w2]@[s].0 as int] == Some(phi_agg@[w2]@[s].1),
            forall|w2: int, p: int| 0 <= w2 < wi && 0 <= p < n && (#[trigger] acc@[w2]@[p]) is Some ==> exists|s: int| 0 <= s < phi_agg@[w2]@.len() && (#[trigger] phi_agg@[w2]@[s]).0 == p,
    {
        let mut list: Vec<(usize, RingElem)> = Vec::new();
        for p in 0..n
            invariant
                wi < r,
                r == stmt.r,
                n == stmt.n,
                acc@.len() == r,
                forall|i: int| 0 <= i < r ==> (#[trigger] acc@[i])@.len() == n,
                forall|s: int, t: int| 0 <= s < t < list@.len() ==> (#[trigger] list@[s]).0 < (#[trigger] list@[t]).0,
                forall|s: int| 0 <= s < list@.len() ==> (#[trigger] list@[s]).0 < p && acc@[wi as int]@[list@[s].0 as int] == Some(list@[s].1),
                forall|pp: int| 0 <= pp < p && (#[trigger] acc@[wi as int]@[pp]) is Some ==> exists|s: int| 0 <= s < list@.len() && (#[trigger] list@[s]).0 == pp,
        {
            let entry = acc[wi][p];
            match entry {
                Some(x) => {
                    let ghost before = list@;
                    list.push((p, x));
                    proof {
                        assert(list@[before.len() as int].0 == p);
                        assert forall|pp: int| 0 <= pp < p + 1 && (#[trigger] acc@[wi as int]@[pp]) is Some implies exists|s: int| 0 <= s < list@.len() && (#[trigger] list@[s]).0 == pp by {
                            if pp < p {
                                let s0 = choose|s: int| 0 <= s < before.len() && (#[trigger] before[s]).0 == pp;
                                assert(list@[s0] == before[s0]);
                            }
                        }
                    }
                },
                None => {},
            }
        }
        let ghost lst = list@;
        let ghost before_agg = phi_agg@;
        phi_agg.push(list);
        proof {
            assert(phi_agg@[wi as int]@ == lst);
            assert forall|w2: int, p: int| 0 <= w2 < wi + 1 && 0 <= p < n && (#[trigger] acc@[w2]@[p]) is Some implies exists|s: int| 0 <= s < phi_agg@[w2]@.len() && (#[trigger] phi_agg@[w2]@[s]).0 == p by {
                if w2 == wi {
                    let s0 = choose|s: int| 0 <= s < lst.len() && (#[trigger] lst[s]).0 == p;
                    assert(phi_agg@[w2]@[s0] == lst[s0]);
                } else {
                    assert(phi_agg@[w2] == before_agg[w2]);
                    let s0 = choose|s: int| 0 <= s < before_agg[w2]@.len() && (#[trigger] before_agg[w2]@[s]).0 == p;
                    assert(phi_agg@[w2]@[s0] == before_agg[w2]@[s0]);
                }
            }
        }
    }
    proof {
        assert forall|wi: int, s: int| 0 <= wi < r && 0 <= s < phi_agg@[wi]@.len() implies (#[trigger] phi_agg@[wi]@[s]).0 < stmt.n
            && phi_agg@[wi]@[s].1.wf(stmt.ring.m) && ct_phi_acc(q, cs, psis@, wi, phi_agg@[wi]@[s].0 as int, cs.len()) == Some(elem(phi_agg@[wi]@[s].1)) by {
            let p = phi_agg@[wi]@[s].0 as int;
            assert(opt_elem(acc@[wi]@[p]) == ct_phi_acc(q, cs, psis@, wi, p, cs.len()));
            assert(opt_wf(acc@[wi]@[p], stmt.ring.m));
        }
        assert forall|wi: int, pos: int|
            0 <= wi < r && 0 <= pos < n && (#[trigger] ct_phi_acc(q, cs, psis@, wi, pos, cs.len())) is Some implies exists|s: int| 0 <= s < phi_agg@[wi]@.len() && (#[trigger] phi_agg@[wi]@[s]).0 == pos by {
            assert(opt_elem(acc@[wi]@[pos]) == ct_phi_acc(q, cs, psis@, wi, pos, cs.len()));
        }
    }
    (a_agg, phi_agg)
}

} // verus!
