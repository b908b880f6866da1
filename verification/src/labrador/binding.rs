//! Binding a statement into the transcript: every public value is absorbed,
//! labelled and length-prefixed, before any challenge is drawn.
use crate::labrador::encode::{
    elem_bytes, i128_le_bytes, le128, matrix_bytes, mrows, push_elem_bytes, ring_matrix_bytes,
    ring_vec_bytes, vec_bytes,
};
use crate::labrador::statement::{ConstTermConstraint, DotConstraint, Statement};
use crate::labrador::transcript::{absorb_record, le64, u64_le_bytes, Transcript};
use crate::modring::poly::RingElem;
use vstd::prelude::*;

verus! {

/// `q'`
pub const TAG_Q: [u8; 2] = [113u8, 39];

/// `n`
pub const TAG_N: [u8; 1] = [110u8];

/// `r`
pub const TAG_R: [u8; 1] = [114u8];

/// `beta_sq`
pub const TAG_BETA_SQ: [u8; 7] = [98u8, 101, 116, 97, 95, 115, 113];

/// `|F|`
pub const TAG_NUM_FULL: [u8; 3] = [124u8, 70, 124];

/// `F[k]`
pub const TAG_FULL: [u8; 4] = [70u8, 91, 107, 93];

/// `|F'|`
pub const TAG_NUM_CT: [u8; 4] = [124u8, 70, 39, 124];

/// `F'[k]`
pub const TAG_CT: [u8; 5] = [70u8, 39, 91, 107, 93];

/// `|a|`
pub const TAG_NUM_A: [u8; 3] = [124u8, 97, 124];

/// `a_ij`
pub const TAG_A: [u8; 4] = [97u8, 95, 105, 106];

/// `|phi|`
pub const TAG_NUM_PHI: [u8; 5] = [124u8, 112, 104, 105, 124];

/// `phi_i`
pub const TAG_PHI: [u8; 5] = [112u8, 104, 105, 95, 105];

/// `b`
pub const TAG_B: [u8; 1] = [98u8];

/// `b0`
pub const TAG_B0: [u8; 2] = [98u8, 48];

/// The bytes of one stored pair `(i, j, a_ij)`.
pub open spec fn pair_bytes(t: (usize, usize, RingElem)) -> Seq<u8> {
    le64(t.0 as u64) + le64(t.1 as u64) + elem_bytes(t.2)
}

/// The records of the stored pairs `a[0..n]`.
pub open spec fn pairs_records(a: Seq<(usize, usize, RingElem)>, n: nat) -> Seq<u8>
    decreases n,
{
    if n == 0 {
        Seq::empty()
    } else {
        pairs_records(a, (n - 1) as nat) + absorb_record(TAG_A@, pair_bytes(a[n - 1]))
    }
}

/// The records of a quadratic part.
pub open spec fn a_records(a: Seq<(usize, usize, RingElem)>) -> Seq<u8> {
    absorb_record(TAG_NUM_A@, le64(a.len() as u64)) + pairs_records(a, a.len())
}

/// The bytes of the sparse entries `sp[0..n]`.
pub open spec fn sparse_bytes(sp: Seq<(usize, RingElem)>, n: nat) -> Seq<u8>
    decreases n,
{
    if n == 0 {
        Seq::empty()
    } else {
        sparse_bytes(sp, (n - 1) as nat) + le64(sp[n - 1].0 as u64) + elem_bytes(sp[n - 1].1)
    }
}

/// The bytes of one sparse `φ_i`.
pub open spec fn phi_entry_bytes(e: (usize, Vec<(usize, RingElem)>)) -> Seq<u8> {
    le64(e.0 as u64) + le64(e.1@.len() as u64) + sparse_bytes(e.1@, e.1@.len())
}

/// The records of the entries `phi[0..n]`.
pub open spec fn phi_entries_records(phi: Seq<(usize, Vec<(usize, RingElem)>)>, n: nat) -> Seq<u8>
    decreases n,
{
    if n == 0 {
        Seq::empty()
    } else {
        phi_entries_records(phi, (n - 1) as nat) + absorb_record(TAG_PHI@, phi_entry_bytes(phi[n - 1]))
    }
}

/// The records of a linear part.
pub open spec fn phi_records(phi: Seq<(usize, Vec<(usize, RingElem)>)>) -> Seq<u8> {
    absorb_record(TAG_NUM_PHI@, le64(phi.len() as u64)) + phi_entries_records(phi, phi.len())
}

/// The records of the full constraints `fs[0..n]`.
pub open spec fn full_records(fs: Seq<DotConstraint>, n: nat) -> Seq<u8>
    decreases n,
{
    if n == 0 {
        Seq::empty()
    } else {
        let c = fs[n - 1];
        full_records(fs, (n - 1) as nat) + absorb_record(TAG_FULL@, le64((n - 1) as u64)) + a_records(c.a@)
            + phi_records(c.phi@) + absorb_record(TAG_B@, elem_bytes(c.b))
    }
}

/// The records of the constant-term constraints `cs[0..n]`.
pub open spec fn ct_records(cs: Seq<ConstTermConstraint>, n: nat) -> Seq<u8>
    decreases n,
{
    if n == 0 {
        Seq::empty()
    } else {
        let c = cs[n - 1];
        ct_records(cs, (n - 1) as nat) + absorb_record(TAG_CT@, le64((n - 1) as u64)) + a_records(c.a@)
            + phi_records(c.phi@) + absorb_record(TAG_B0@, le64(c.b0))
    }
}

/// Everything `bind_statement` absorbs for `stmt`.
pub open spec fn statement_records(stmt: Statement) -> Seq<u8> {
    absorb_record(TAG_Q@, le64(stmt.ring.m.q)) + absorb_record(TAG_N@, le64(stmt.n as u64))
        + absorb_record(TAG_R@, le64(stmt.r as u64)) + absorb_record(TAG_BETA_SQ@, le128(stmt.beta_sq))
        + absorb_record(TAG_NUM_FULL@, le64(stmt.full@.len() as u64)) + full_records(
        stmt.full@,
        stmt.full@.len(),
    ) + absorb_record(TAG_NUM_CT@, le64(stmt.const_term@.len() as u64)) + ct_records(
        stmt.const_term@,
        stmt.const_term@.len(),
    )
}

/// Absorb a quadratic part.
fn absorb_a(t: &mut Transcript, a: &Vec<(usize, usize, RingElem)>)
    ensures
        final(t).absorbed() == old(t).absorbed() + a_records(a@),
{
    t.absorb(&TAG_NUM_A, &u64_le_bytes(a.len() as u64));
    let ghost s0 = t.absorbed();
    for k in 0..a.len()
        invariant
            s0 == old(t).absorbed() + absorb_record(TAG_NUM_A@, le64(a@.len() as u64)),
            t.absorbed() == s0 + pairs_records(a@, k as nat),
    {
        let (i, j, coef) = a[k];
        let mut buf: Vec<u8> = Vec::new();
        buf.extend_from_slice(&u64_le_bytes(i as u64));
        buf.extend_from_slice(&u64_le_bytes(j as u64));
        push_elem_bytes(&mut buf, &coef);
        assert(buf@ =~= pair_bytes(a@[k as int]));
        t.absorb(&TAG_A, &buf);
        assert(t.absorbed() =~= s0 + pairs_records(a@, (k + 1) as nat));
    }
    assert(t.absorbed() =~= old(t).absorbed() + a_records(a@));
}

/// Absorb a linear part.
fn absorb_phi(t: &mut Transcript, phi: &Vec<(usize, Vec<(usize, RingElem)>)>)
    ensures
        final(t).absorbed() == old(t).absorbed() + phi_records(phi@),
{
    t.absorb(&TAG_NUM_PHI, &u64_le_bytes(phi.len() as u64));
    let ghost s0 = t.absorbed();
    for k in 0..phi.len()
        invariant
            s0 == old(t).absorbed() + absorb_record(TAG_NUM_PHI@, le64(phi@.len() as u64)),
            t.absorbed() == s0 + phi_entries_records(phi@, k as nat),
    {
        let wi = phi[k].0;
        let entries = &phi[k].1;
        let mut buf: Vec<u8> = Vec::new();
        buf.extend_from_slice(&u64_le_bytes(wi as u64));
        buf.extend_from_slice(&u64_le_bytes(entries.len() as u64));
        let ghost b0 = buf@;
        for e in 0..entries.len()
            invariant
                buf@ == b0 + sparse_bytes(entries@, e as nat),
        {
            let (pos, coef) = entries[e];
            buf.extend_from_slice(&u64_le_bytes(pos as u64));
            push_elem_bytes(&mut buf, &coef);
            assert(buf@ =~= b0 + sparse_bytes(entries@, (e + 1) as nat));
        }
        assert(buf@ =~= phi_entry_bytes(phi@[k as int]));
        t.absorb(&TAG_PHI, &buf);
        assert(t.absorbed() =~= s0 + phi_entries_records(phi@, (k + 1) as nat));
    }
    assert(t.absorbed() =~= old(t).absorbed() + phi_records(phi@));
}

/// Absorb a ring element under `label`.
pub fn absorb_ring_elem(t: &mut Transcript, label: &[u8], r: &RingElem)
    ensures
        final(t).absorbed() == old(t).absorbed() + absorb_record(label@, elem_bytes(*r)),
{
    let mut buf: Vec<u8> = Vec::new();
    push_elem_bytes(&mut buf, r);
    assert(buf@ =~= elem_bytes(*r));
    t.absorb(label, &buf);
}

/// Absorb a ring vector under `label`.
pub fn absorb_ring_vec(t: &mut Transcript, label: &[u8], v: &[RingElem])
    ensures
        final(t).absorbed() == old(t).absorbed() + absorb_record(label@, vec_bytes(v@)),
{
    let buf = ring_vec_bytes(v);
    t.absorb(label, &buf);
}

/// Absorb a ring matrix under `label`.
pub fn absorb_ring_matrix(t: &mut Transcript, label: &[u8], v: &[Vec<RingElem>])
    ensures
        final(t).absorbed() == old(t).absorbed() + absorb_record(label@, matrix_bytes(mrows(v@))),
{
    let buf = ring_matrix_bytes(v);
    t.absorb(label, &buf);
}

/// Absorb the whole statement: `q'`, `n`, `r`, `β²`, then every full and
/// every constant-term constraint with its index.
pub fn bind_statement(t: &mut Transcript, stmt: &Statement)
    ensures
        final(t).absorbed() == old(t).absorbed() + statement_records(*stmt),
{
    t.absorb(&TAG_Q, &u64_le_bytes(stmt.ring.m.q));
    t.absorb(&TAG_N, &u64_le_bytes(stmt.n as u64));
    t.absorb(&TAG_R, &u64_le_bytes(stmt.r as u64));
    t.absorb(&TAG_BETA_SQ, &i128_le_bytes(stmt.beta_sq));
    t.absorb(&TAG_NUM_FULL, &u64_le_bytes(stmt.full.len() as u64));
    let ghost s1 = t.absorbed();
    for k in 0..stmt.full.len()
        invariant
            t.absorbed() == s1 + full_records(stmt.full@, k as nat),
    {
        let c = &stmt.full[k];
        t.absorb(&TAG_FULL, &u64_le_bytes(k as u64));
        absorb_a(t, &c.a);
        absorb_phi(t, &c.phi);
        absorb_ring_elem(t, &TAG_B, &c.b);
        assert(t.absorbed() =~= s1 + full_records(stmt.full@, (k + 1) as nat));
    }
    t.absorb(&TAG_NUM_CT, &u64_le_bytes(stmt.const_term.len() as u64));
    let ghost s2 = t.absorbed();
    for k in 0..stmt.const_term.len()
        invariant
            t.absorbed() == s2 + ct_records(stmt.const_term@, k as nat),
    {
        let c = &stmt.const_term[k];
        t.absorb(&TAG_CT, &u64_le_bytes(k as u64));
        absorb_a(t, &c.a);
        absorb_phi(t, &c.phi);
        t.absorb(&TAG_B0, &u64_le_bytes(c.b0));
        assert(t.absorbed() =~= s2 + ct_records(stmt.const_term@, (k + 1) as nat));
    }
    assert(t.absorbed() =~= old(t).absorbed() + statement_records(*stmt));
}

} // verus!
