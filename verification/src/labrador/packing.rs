//! The packed wire form of iteration proofs: uniformly distributed ring
//! elements bit-packed at `⌈log₂ q'⌉` bits per coefficient, Gaussian ones
//! (`z^(0)`, `z^(1)`, `g`) and the projection `p` Golomb–Rice coded on their
//! centered, zigzagged values, every list behind a length prefix.
use crate::labrador::encode::{i128_le_bytes, le128};
use crate::labrador::proofs::{AggregateProofV2, IterationLastMsg, IterationProofV2, ProofBreakdown};
use crate::labrador::prover::{ceil_log2, is_ceil_log2};
use crate::labrador::verification::lemma_ceil_log2_unique;
use crate::labrador::transcript::{le64, le_value, u64_from_le_at, u64_le_bytes};
use crate::labrador::wire::{
    bits_value, decode_signed_modq, encode_signed_modq, gr_code, law_gr_roundtrip, law_len_roundtrip,
    lemma_low_bits_value, len_code, low_bits, read_gr_spec, read_len_spec, repeat_bit, stream_bits,
    unzigzag_spec, zigzag_decode, zigzag_encode, zigzag_spec, BitReader, BitWriter, WireError,
    GR_MAX_UNARY,
};
use vstd::arithmetic::power2::pow2;
use crate::modring::poly::{RingElem, D};
use vstd::prelude::*;

verus! {

/// The Golomb–Rice parameters of one iteration: for `z`, for `g`, for `p`.
#[derive(Clone, Copy, Debug)]
pub struct IterCoding {
    /// Parameter for `z^(0)`, `z^(1)`.
    pub k_z: u32,
    /// Parameter for `g`.
    pub k_g: u32,
    /// Parameter for `p`.
    pub k_p: u32,
}

impl IterCoding {
    /// Every parameter is below 64.
    pub open spec fn wf(&self) -> bool {
        &&& self.k_z < 64
        &&& self.k_g < 64
        &&& self.k_p < 64
    }
}

// ---------------------------------------------------------------------------
// The codes
// ---------------------------------------------------------------------------

/// The codes `f(0), …, f(n-1)` one after another.
pub open spec fn cat(f: spec_fn(int) -> Seq<bool>, n: nat) -> Seq<bool>
    decreases n,
{
    if n == 0 {
        Seq::empty()
    } else {
        cat(f, (n - 1) as nat) + f(n - 1)
    }
}

/// A shorter run of codes is no longer.
pub proof fn lemma_cat_mono(f: spec_fn(int) -> Seq<bool>, i: nat, n: nat)
    requires
        i <= n,
    ensures
        cat(f, i).len() <= cat(f, n).len(),
    decreases n,
{
    if i < n {
        lemma_cat_mono(f, i, (n - 1) as nat);
    }
}

/// Codes of fixed width `w` take `n·w` bits.
pub proof fn lemma_cat_fixed(f: spec_fn(int) -> Seq<bool>, w: nat, n: nat)
    requires
        forall|i: int| 0 <= i < n ==> (#[trigger] f(i)).len() == w,
    ensures
        cat(f, n).len() == n * w,
    decreases n,
{
    if n > 0 {
        lemma_cat_fixed(f, w, (n - 1) as nat);
        assert(f(n - 1).len() == w);
        assert(cat(f, n) == cat(f, (n - 1) as nat) + f(n - 1));
        let m = (n - 1) as nat;
        assert(m * w + w == n * w) by (nonlinear_arith)
            requires
                m == n - 1,
        ;
    } else {
        assert(n * w == 0) by (nonlinear_arith)
            requires
                n == 0,
        ;
    }
}

/// Coefficient `i` of `e` in `qb` bits.
pub open spec fn coeff_bits(e: RingElem, qb: nat) -> spec_fn(int) -> Seq<bool> {
    |i: int| low_bits(e.c[i], qb)
}

/// `e` bit-packed: its `D` coefficients, `qb` bits each.
pub open spec fn packed_code(e: RingElem, qb: nat) -> Seq<bool> {
    cat(coeff_bits(e, qb), D as nat)
}

/// Element `i` of `v` bit-packed.
pub open spec fn elem_bits(v: Seq<RingElem>, qb: nat) -> spec_fn(int) -> Seq<bool> {
    |i: int| packed_code(v[i], qb)
}

/// The elements of `v` bit-packed one after another.
pub open spec fn elems_code(v: Seq<RingElem>, qb: nat) -> Seq<bool> {
    cat(elem_bits(v, qb), v.len())
}

/// A packed element takes `D·qb` bits.
pub proof fn lemma_packed_len(e: RingElem, qb: nat)
    ensures
        packed_code(e, qb).len() == D * qb,
{
    lemma_cat_fixed(coeff_bits(e, qb), qb, D as nat);
}

/// Packed elements take `len·D·qb` bits.
pub proof fn lemma_elems_len(v: Seq<RingElem>, qb: nat)
    ensures
        elems_code(v, qb).len() == v.len() * (D * qb),
{
    assert forall|i: int| 0 <= i < v.len() implies (#[trigger] elem_bits(v, qb)(i)).len() == D * qb by {
        lemma_packed_len(v[i], qb);
    }
    lemma_cat_fixed(elem_bits(v, qb), (D * qb) as nat, v.len());
}

/// `x` clamped into the `i64` range.
pub open spec fn clamp_i64(x: int) -> int {
    if x < i64::MIN {
        i64::MIN as int
    } else if x > i64::MAX {
        i64::MAX as int
    } else {
        x
    }
}

/// The centered representative of residue `c`: `c` if `c ≤ q/2`, else
/// `c − q`.
pub open spec fn centered_rep(c: u64, q: u64) -> int {
    if c <= q / 2 {
        c as int
    } else {
        c - q
    }
}

/// The Golomb–Rice symbol of coefficient `c`: its centered value, clamped
/// to `i64`, zigzagged.
pub open spec fn gr_coeff(c: u64, q: u64) -> u64 {
    zigzag_spec(clamp_i64(centered_rep(c, q))) as u64
}

/// Coefficient `i` of `e` Golomb–Rice coded.
pub open spec fn gr_coeff_bits(e: RingElem, q: u64, k: u32) -> spec_fn(int) -> Seq<bool> {
    |i: int| gr_code(gr_coeff(e.c[i], q), k)
}

/// `e` Golomb–Rice coded coefficient by coefficient.
pub open spec fn gr_elem_code(e: RingElem, q: u64, k: u32) -> Seq<bool> {
    cat(gr_coeff_bits(e, q, k), D as nat)
}

/// Element `i` of `v` Golomb–Rice coded.
pub open spec fn gr_elem_bits(v: Seq<RingElem>, q: u64, k: u32) -> spec_fn(int) -> Seq<bool> {
    |i: int| gr_elem_code(v[i], q, k)
}

/// Every coefficient of every element is zero.
pub open spec fn all_zero(v: Seq<RingElem>) -> bool {
    forall|i: int, c: int| 0 <= i < v.len() && 0 <= c < D ==> #[trigger] v[i].c[c] == 0
}

/// A Gaussian list: one set bit when every element is zero, else a clear bit
/// and every element Golomb–Rice coded.
pub open spec fn gauss_code(v: Seq<RingElem>, q: u64, k: u32) -> Seq<bool> {
    if all_zero(v) {
        seq![true]
    } else {
        seq![false] + cat(gr_elem_bits(v, q, k), v.len())
    }
}

/// Entry `j` of the projection, clamped to `i64`, zigzagged and Golomb–Rice
/// coded.
pub open spec fn p_bits(p: Seq<i128>, k: u32) -> spec_fn(int) -> Seq<bool> {
    |j: int| gr_code(zigzag_spec(clamp_i64(p[j] as int)) as u64, k)
}

/// Row `i` of `v` bit-packed.
pub open spec fn row_bits(v: Seq<Vec<RingElem>>, qb: nat) -> spec_fn(int) -> Seq<bool> {
    |i: int| elems_code(v[i]@, qb)
}

/// Row `i` of `h` from the diagonal on, bit-packed.
pub open spec fn upper_row_bits(h: Seq<Vec<RingElem>>, qb: nat) -> spec_fn(int) -> Seq<bool> {
    |i: int| elems_code(h[i]@.subrange(i, h.len() as int), qb)
}

/// The upper triangle of `g`, row by row.
pub open spec fn upper_elems(g: Seq<Vec<RingElem>>, n: nat) -> Seq<RingElem>
    decreases n,
{
    if n == 0 {
        Seq::empty()
    } else {
        upper_elems(g, (n - 1) as nat) + g[n - 1]@.subrange(n - 1, g.len() as int)
    }
}

/// `κ` as read off `v`: the length of its first row (0 if none).
pub open spec fn first_row_len(v: Seq<Vec<RingElem>>) -> nat {
    if v.len() == 0 {
        0
    } else {
        v[0]@.len()
    }
}

/// The code of an opening: `z^(0)`, `z^(1)` (Gaussian), `r`, `κ` and `v`
/// (packed), `g`'s upper triangle (Gaussian), `h`'s upper triangle (packed),
/// each list behind its length.
pub open spec fn last_msg_code(lm: IterationLastMsg, q: u64, qb: nat, kz: u32, kg: u32) -> Seq<bool> {
    let r = lm.v@.len();
    len_code(lm.z0@.len() as u64) + gauss_code(lm.z0@, q, kz) + len_code(lm.z1@.len() as u64) + gauss_code(
        lm.z1@,
        q,
        kz,
    ) + len_code(r as u64) + len_code(first_row_len(lm.v@) as u64) + cat(row_bits(lm.v@, qb), r) + len_code(
        lm.g@.len() as u64,
    ) + gauss_code(upper_elems(lm.g@, lm.g@.len()), q, kg) + len_code(lm.h@.len() as u64) + cat(
        upper_row_bits(lm.h@, qb),
        lm.h@.len(),
    )
}

/// The code of an iteration proof: `u_1`, `p`, `b''`, `u_2`, a presence bit
/// and the opening if present.
pub open spec fn iter_code(it: IterationProofV2, q: u64, qb: nat, c: IterCoding) -> Seq<bool> {
    len_code(it.u1@.len() as u64) + elems_code(it.u1@, qb) + len_code(it.p@.len() as u64) + cat(
        p_bits(it.p@, c.k_p),
        it.p@.len(),
    ) + len_code(it.b_double_prime@.len() as u64) + elems_code(it.b_double_prime@, qb) + len_code(
        it.u2@.len() as u64,
    ) + elems_code(it.u2@, qb) + seq![it.last_msg is Some] + match it.last_msg {
        Some(lm) => last_msg_code(lm, q, qb, c.k_z, c.k_g),
        None => Seq::empty(),
    }
}

// ---------------------------------------------------------------------------
// Writers
// ---------------------------------------------------------------------------

/// Append `e` bit-packed, `qb` bits per coefficient.
pub fn write_ring_elem_packed(w: &mut BitWriter, e: &RingElem, qb: u32)
    requires
        old(w).wf(),
        qb <= 64,
        old(w).bits().len() + D * qb <= usize::MAX,
    ensures
        final(w).wf(),
        final(w).bits() == old(w).bits() + packed_code(*e, qb as nat),
{
    let ghost start = w.bits();
    let ghost f = coeff_bits(*e, qb as nat);
    for i in 0..D
        invariant
            w.wf(),
            qb <= 64,
            f == coeff_bits(*e, qb as nat),
            start.len() + D * qb <= usize::MAX,
            w.bits() == start + cat(f, i as nat),
    {
        proof {
            lemma_cat_fixed(f, qb as nat, i as nat);
            assert(i * qb + qb <= D * qb) by (nonlinear_arith)
                requires
                    i < D,
            ;
        }
        w.write_bits(e.c[i], qb);
        proof {
            assert(f(i as int) == low_bits(e.c[i as int], qb as nat));
            assert(w.bits() =~= start + cat(f, (i + 1) as nat));
        }
    }
}

/// Append every element of `v` bit-packed.
pub fn write_elems_packed(w: &mut BitWriter, v: &Vec<RingElem>, qb: u32)
    requires
        old(w).wf(),
        qb <= 64,
        old(w).bits().len() + elems_code(v@, qb as nat).len() <= usize::MAX,
    ensures
        final(w).wf(),
        final(w).bits() == old(w).bits() + elems_code(v@, qb as nat),
{
    let ghost start = w.bits();
    let ghost f = elem_bits(v@, qb as nat);
    proof {
        lemma_elems_len(v@, qb as nat);
    }
    for i in 0..v.len()
        invariant
            w.wf(),
            qb <= 64,
            f == elem_bits(v@, qb as nat),
            start.len() + v@.len() * (D * qb) <= usize::MAX,
            w.bits() == start + cat(f, i as nat),
    {
        proof {
            assert forall|t: int| 0 <= t < i + 1 implies (#[trigger] f(t)).len() == D * qb by {
                lemma_packed_len(v@[t], qb as nat);
            }
            lemma_cat_fixed(f, (D * qb) as nat, i as nat);
            lemma_cat_fixed(f, (D * qb) as nat, (i + 1) as nat);
            assert((i + 1) * (D * qb) <= v@.len() * (D * qb)) by (nonlinear_arith)
                requires
                    i < v@.len(),
            ;
            lemma_packed_len(v@[i as int], qb as nat);
        }
        write_ring_elem_packed(w, &v[i], qb);
        proof {
            assert(w.bits() =~= start + cat(f, (i + 1) as nat));
        }
    }
}

/// The Golomb–Rice symbol of coefficient `c`.
pub fn gr_symbol(c: u64, q: u64) -> (s: u64)
    ensures
        s == gr_coeff(c, q),
{
    let centered = decode_signed_modq(c, q);
    let clamped: i64 = if centered < -0x8000_0000_0000_0000i128 {
        -0x8000_0000_0000_0000i64
    } else if centered > 0x7fff_ffff_ffff_ffffi128 {
        0x7fff_ffff_ffff_ffffi64
    } else {
        centered as i64
    };
    zigzag_encode(clamped)
}

/// The Golomb–Rice code of `value` takes `(value >> k) + 1 + k` bits.
proof fn lemma_gr_len(value: u64, k: u32)
    ensures
        gr_code(value, k).len() == (value >> (k as u64)) + 1 + k,
{
}

/// Append `e` Golomb–Rice coded coefficient by coefficient.
pub fn write_ring_elem_gr(w: &mut BitWriter, e: &RingElem, q: u64, k: u32)
    requires
        old(w).wf(),
        k < 64,
        old(w).bits().len() + gr_elem_code(*e, q, k).len() <= usize::MAX,
    ensures
        final(w).wf(),
        final(w).bits() == old(w).bits() + gr_elem_code(*e, q, k),
{
    let ghost start = w.bits();
    let ghost f = gr_coeff_bits(*e, q, k);
    for i in 0..D
        invariant
            w.wf(),
            k < 64,
            f == gr_coeff_bits(*e, q, k),
            start.len() + cat(f, D as nat).len() <= usize::MAX,
            w.bits() == start + cat(f, i as nat),
    {
        let s = gr_symbol(e.c[i], q);
        proof {
            lemma_cat_mono(f, (i + 1) as nat, D as nat);
            assert(f(i as int) == gr_code(s, k));
            lemma_gr_len(s, k);
        }
        w.write_gr(s, k);
        proof {
            assert(w.bits() =~= start + cat(f, (i + 1) as nat));
        }
    }
}

/// Whether every coefficient of every element of `v` is zero.
pub fn elems_all_zero(v: &Vec<RingElem>) -> (ok: bool)
    ensures
        ok == all_zero(v@),
{
    for i in 0..v.len()
        invariant
            forall|ii: int, c: int| 0 <= ii < i && 0 <= c < D ==> #[trigger] v@[ii].c[c] == 0,
    {
        for c in 0..D
            invariant
                i < v@.len(),
                forall|ii: int, cc: int| 0 <= ii < i && 0 <= cc < D ==> #[trigger] v@[ii].c[cc] == 0,
                forall|cc: int| 0 <= cc < c ==> #[trigger] v@[i as int].c[cc] == 0,
        {
            if v[i].c[c] != 0 {
                return false;
            }
        }
    }
    true
}

/// Append a Gaussian list: one set bit when it is all zero, else a clear bit
/// and every element Golomb–Rice coded.
pub fn write_gauss_vec(w: &mut BitWriter, v: &Vec<RingElem>, q: u64, k: u32)
    requires
        old(w).wf(),
        k < 64,
        old(w).bits().len() + gauss_code(v@, q, k).len() <= usize::MAX,
    ensures
        final(w).wf(),
        final(w).bits() == old(w).bits() + gauss_code(v@, q, k),
{
    let ghost start = w.bits();
    if elems_all_zero(v) {
        w.write_bit(true);
        assert(w.bits() =~= start + seq![true]);
        return;
    }
    w.write_bit(false);
    let ghost f = gr_elem_bits(v@, q, k);
    for i in 0..v.len()
        invariant
            w.wf(),
            k < 64,
            !all_zero(v@),
            f == gr_elem_bits(v@, q, k),
            start.len() + 1 + cat(f, v@.len()).len() <= usize::MAX,
            w.bits() == start + seq![false] + cat(f, i as nat),
    {
        proof {
            lemma_cat_mono(f, (i + 1) as nat, v@.len());
            assert(f(i as int) == gr_elem_code(v@[i as int], q, k));
        }
        write_ring_elem_gr(w, &v[i], q, k);
        proof {
            assert(w.bits() =~= start + seq![false] + cat(f, (i + 1) as nat));
        }
    }
    assert(w.bits() =~= start + gauss_code(v@, q, k));
}

/// The Golomb–Rice symbol of a projection entry.
fn p_symbol(x: i128) -> (s: u64)
    ensures
        s == zigzag_spec(clamp_i64(x as int)) as u64,
{
    let clamped: i64 = if x < -0x8000_0000_0000_0000i128 {
        -0x8000_0000_0000_0000i64
    } else if x > 0x7fff_ffff_ffff_ffffi128 {
        0x7fff_ffff_ffff_ffffi64
    } else {
        x as i64
    };
    zigzag_encode(clamped)
}

/// Append the projection entries Golomb–Rice coded.
pub fn write_projection(w: &mut BitWriter, p: &Vec<i128>, k: u32)
    requires
        old(w).wf(),
        k < 64,
        old(w).bits().len() + cat(p_bits(p@, k), p@.len()).len() <= usize::MAX,
    ensures
        final(w).wf(),
        final(w).bits() == old(w).bits() + cat(p_bits(p@, k), p@.len()),
{
    let ghost start = w.bits();
    let ghost f = p_bits(p@, k);
    for j in 0..p.len()
        invariant
            w.wf(),
            k < 64,
            f == p_bits(p@, k),
            start.len() + cat(f, p@.len()).len() <= usize::MAX,
            w.bits() == start + cat(f, j as nat),
    {
        let s = p_symbol(p[j]);
        proof {
            lemma_cat_mono(f, (j + 1) as nat, p@.len());
            assert(f(j as int) == gr_code(s, k));
            lemma_gr_len(s, k);
        }
        w.write_gr(s, k);
        proof {
            assert(w.bits() =~= start + cat(f, (j + 1) as nat));
        }
    }
}

/// Append every row of `v` bit-packed, row by row.
pub fn write_rows_packed(w: &mut BitWriter, v: &Vec<Vec<RingElem>>, qb: u32)
    requires
        old(w).wf(),
        qb <= 64,
        old(w).bits().len() + cat(row_bits(v@, qb as nat), v@.len()).len() <= usize::MAX,
    ensures
        final(w).wf(),
        final(w).bits() == old(w).bits() + cat(row_bits(v@, qb as nat), v@.len()),
{
    let ghost start = w.bits();
    let ghost f = row_bits(v@, qb as nat);
    for i in 0..v.len()
        invariant
            w.wf(),
            qb <= 64,
            f == row_bits(v@, qb as nat),
            start.len() + cat(f, v@.len()).len() <= usize::MAX,
            w.bits() == start + cat(f, i as nat),
    {
        proof {
            lemma_cat_mono(f, (i + 1) as nat, v@.len());
            assert(f(i as int) == elems_code(v@[i as int]@, qb as nat));
        }
        write_elems_packed(w, &v[i], qb);
        proof {
            assert(w.bits() =~= start + cat(f, (i + 1) as nat));
        }
    }
}

/// Row `i` of `x` from the diagonal on.
fn row_tail(x: &Vec<Vec<RingElem>>, i: usize) -> (out: Vec<RingElem>)
    requires
        i < x@.len(),
        x@[i as int]@.len() == x@.len(),
    ensures
        out@ == x@[i as int]@.subrange(i as int, x@.len() as int),
{
    let r = x.len();
    let mut out: Vec<RingElem> = Vec::new();
    for j in i..r
        invariant
            i < x@.len(),
            r == x@.len(),
            x@[i as int]@.len() == r,
            out@ == x@[i as int]@.subrange(i as int, j as int),
    {
        out.push(x[i][j]);
        assert(out@ =~= x@[i as int]@.subrange(i as int, j + 1));
    }
    out
}

/// Append the upper triangle of `h` bit-packed, row by row.
pub fn write_upper_packed(w: &mut BitWriter, h: &Vec<Vec<RingElem>>, qb: u32)
    requires
        old(w).wf(),
        qb <= 64,
        forall|i: int| 0 <= i < h@.len() ==> (#[trigger] h@[i])@.len() == h@.len(),
        old(w).bits().len() + cat(upper_row_bits(h@, qb as nat), h@.len()).len() <= usize::MAX,
    ensures
        final(w).wf(),
        final(w).bits() == old(w).bits() + cat(upper_row_bits(h@, qb as nat), h@.len()),
{
    let ghost start = w.bits();
    let ghost f = upper_row_bits(h@, qb as nat);
    for i in 0..h.len()
        invariant
            w.wf(),
            qb <= 64,
            f == upper_row_bits(h@, qb as nat),
            forall|i: int| 0 <= i < h@.len() ==> (#[trigger] h@[i])@.len() == h@.len(),
            start.len() + cat(f, h@.len()).len() <= usize::MAX,
            w.bits() == start + cat(f, i as nat),
    {
        let tail = row_tail(h, i);
        proof {
            lemma_cat_mono(f, (i + 1) as nat, h@.len());
            assert(f(i as int) == elems_code(tail@, qb as nat));
        }
        write_elems_packed(w, &tail, qb);
        proof {
            assert(w.bits() =~= start + cat(f, (i + 1) as nat));
        }
    }
}

/// The upper triangle of `g`, row by row.
pub fn upper_flat(g: &Vec<Vec<RingElem>>) -> (out: Vec<RingElem>)
    requires
        forall|i: int| 0 <= i < g@.len() ==> (#[trigger] g@[i])@.len() == g@.len(),
    ensures
        out@ == upper_elems(g@, g@.len()),
{
    let mut out: Vec<RingElem> = Vec::new();
    for i in 0..g.len()
        invariant
            forall|i: int| 0 <= i < g@.len() ==> (#[trigger] g@[i])@.len() == g@.len(),
            out@ == upper_elems(g@, i as nat),
    {
        let tail = row_tail(g, i);
        let ghost before = out@;
        for t in 0..tail.len()
            invariant
                out@ == before + tail@.subrange(0, t as int),
        {
            out.push(tail[t]);
            assert(out@ =~= before + tail@.subrange(0, t + 1));
        }
        assert(tail@.subrange(0, tail@.len() as int) =~= tail@);
    }
    out
}

/// The length of `v`'s first row (0 if none).
fn first_row_width(v: &Vec<Vec<RingElem>>) -> (k: usize)
    ensures
        k == first_row_len(v@),
{
    if v.len() == 0 {
        0
    } else {
        v[0].len()
    }
}

/// Append the code of an opening.
#[verifier::spinoff_prover]
#[verifier::rlimit(50)]
pub fn write_last_msg(w: &mut BitWriter, lm: &IterationLastMsg, q: u64, qb: u32, kz: u32, kg: u32)
    requires
        old(w).wf(),
        qb <= 64,
        kz < 64,
        kg < 64,
        forall|i: int| 0 <= i < lm.g@.len() ==> (#[trigger] lm.g@[i])@.len() == lm.g@.len(),
        forall|i: int| 0 <= i < lm.h@.len() ==> (#[trigger] lm.h@[i])@.len() == lm.h@.len(),
        old(w).bits().len() + last_msg_code(*lm, q, qb as nat, kz, kg).len() + 71 <= usize::MAX,
    ensures
        final(w).wf(),
        final(w).bits() == old(w).bits() + last_msg_code(*lm, q, qb as nat, kz, kg),
{
    let ghost start = w.bits();
    w.write_len(lm.z0.len() as u64);
    write_gauss_vec(w, &lm.z0, q, kz);
    w.write_len(lm.z1.len() as u64);
    write_gauss_vec(w, &lm.z1, q, kz);
    w.write_len(lm.v.len() as u64);
    let kappa = first_row_width(&lm.v);
    w.write_len(kappa as u64);
    write_rows_packed(w, &lm.v, qb);
    w.write_len(lm.g.len() as u64);
    let g_flat = upper_flat(&lm.g);
    write_gauss_vec(w, &g_flat, q, kg);
    w.write_len(lm.h.len() as u64);
    write_upper_packed(w, &lm.h, qb);
    assert(w.bits() =~= start + last_msg_code(*lm, q, qb as nat, kz, kg));
}

/// Append the code of an iteration proof; `with_last_msg` states whether
/// the proof carries its opening.
#[verifier::spinoff_prover]
#[verifier::rlimit(50)]
pub fn write_iter(w: &mut BitWriter, it: &IterationProofV2, q: u64, qb: u32, c: IterCoding, with_last_msg: bool)
    requires
        old(w).wf(),
        qb <= 64,
        c.wf(),
        with_last_msg == (it.last_msg is Some),
        it.last_msg matches Some(lm) ==> {
            &&& forall|i: int| 0 <= i < lm.g@.len() ==> (#[trigger] lm.g@[i])@.len() == lm.g@.len()
            &&& forall|i: int| 0 <= i < lm.h@.len() ==> (#[trigger] lm.h@[i])@.len() == lm.h@.len()
        },
        old(w).bits().len() + iter_code(*it, q, qb as nat, c).len() + 71 <= usize::MAX,
    ensures
        final(w).wf(),
        final(w).bits() == old(w).bits() + iter_code(*it, q, qb as nat, c),
{
    let ghost start = w.bits();
    w.write_len(it.u1.len() as u64);
    write_elems_packed(w, &it.u1, qb);
    w.write_len(it.p.len() as u64);
    write_projection(w, &it.p, c.k_p);
    w.write_len(it.b_double_prime.len() as u64);
    write_elems_packed(w, &it.b_double_prime, qb);
    w.write_len(it.u2.len() as u64);
    write_elems_packed(w, &it.u2, qb);
    w.write_bit(with_last_msg);
    match &it.last_msg {
        Some(lm) => {
            write_last_msg(w, lm, q, qb, c.k_z, c.k_g);
        },
        None => {},
    }
    assert(w.bits() =~= start + iter_code(*it, q, qb as nat, c));
}

// ---------------------------------------------------------------------------
// Codes in a stream
// ---------------------------------------------------------------------------

/// `code` stands in `s` from position `p` on.
pub open spec fn code_at(s: Seq<bool>, p: int, code: Seq<bool>) -> bool {
    &&& 0 <= p
    &&& p + code.len() <= s.len()
    &&& s.subrange(p, p + code.len()) == code
}

/// A code made of two parts holds each part in turn.
proof fn lemma_code_at_split(s: Seq<bool>, p: int, a: Seq<bool>, b: Seq<bool>)
    requires
        code_at(s, p, a + b),
    ensures
        code_at(s, p, a),
        code_at(s, p + a.len(), b),
{
    let t = s.subrange(p, p + (a + b).len());
    assert(t =~= a + b);
    assert(s.subrange(p, p + a.len()) =~= t.subrange(0, a.len() as int));
    assert(t.subrange(0, a.len() as int) =~= a);
    assert(s.subrange(p + a.len(), p + a.len() + b.len()) =~= t.subrange(
        a.len() as int,
        (a + b).len() as int,
    ));
    assert(t.subrange(a.len() as int, (a + b).len() as int) =~= b);
}

/// A prefix of a code in the stream is in the stream.
proof fn lemma_code_at_prefix(s: Seq<bool>, p: int, code: Seq<bool>, pre: Seq<bool>)
    requires
        code_at(s, p, code),
        pre.len() <= code.len(),
        code.subrange(0, pre.len() as int) == pre,
    ensures
        code_at(s, p, pre),
{
    assert(s.subrange(p, p + pre.len()) =~= code.subrange(0, pre.len() as int));
}

/// The first `i` codes of a run are a prefix of the first `n`.
proof fn lemma_cat_prefix(f: spec_fn(int) -> Seq<bool>, i: nat, n: nat)
    requires
        i <= n,
    ensures
        cat(f, i).len() <= cat(f, n).len(),
        cat(f, n).subrange(0, cat(f, i).len() as int) == cat(f, i),
    decreases n,
{
    if i < n {
        let m = (n - 1) as nat;
        lemma_cat_prefix(f, i, m);
        assert(cat(f, n) == cat(f, m) + f(m as int));
        assert(cat(f, n).subrange(0, cat(f, i).len() as int) =~= cat(f, m).subrange(
            0,
            cat(f, i).len() as int,
        ));
    } else {
        assert(cat(f, n).subrange(0, cat(f, n).len() as int) =~= cat(f, n));
    }
}

/// Code `i` of a run in the stream stands right after the first `i`.
proof fn lemma_code_at_cat(s: Seq<bool>, p: int, f: spec_fn(int) -> Seq<bool>, n: nat, i: nat)
    requires
        code_at(s, p, cat(f, n)),
        i < n,
    ensures
        code_at(s, p, cat(f, i)),
        code_at(s, p + cat(f, i).len(), f(i as int)),
{
    lemma_cat_prefix(f, i + 1, n);
    lemma_code_at_prefix(s, p, cat(f, n), cat(f, i + 1));
    assert(cat(f, i + 1) == cat(f, i) + f(i as int));
    lemma_code_at_split(s, p, cat(f, i), f(i as int));
}

/// The low `n` bits of `v < 2^n` read back as `v`.
proof fn lemma_bits_at(s: Seq<bool>, p: int, v: u64, n: nat)
    requires
        code_at(s, p, low_bits(v, n)),
        n <= 64,
        (v as nat) < pow2(n),
    ensures
        bits_value(s.subrange(p, p + n), n) == v,
{
    lemma_low_bits_value(v, n);
    vstd::arithmetic::div_mod::lemma_small_mod(v as nat, pow2(n));
}

/// A length prefix in the stream reads back as its length.
proof fn lemma_len_at(s: Seq<bool>, p: int, len: u64)
    requires
        code_at(s, p, len_code(len)),
    ensures
        read_len_spec(s, p) == (Ok::<u64, WireError>(len), p + len_code(len).len()),
{
    let c = len_code(len);
    let pre = s.subrange(0, p);
    let rest = s.subrange(p + c.len(), s.len() as int);
    assert(s =~= pre + c + rest);
    law_len_roundtrip(pre, len, rest);
}

/// A Golomb–Rice code in the stream reads back as its value.
proof fn lemma_gr_at(s: Seq<bool>, p: int, value: u64, k: u32)
    requires
        code_at(s, p, gr_code(value, k)),
        k < 64,
        value >> (k as u64) <= GR_MAX_UNARY,
    ensures
        read_gr_spec(s, p, k) == (Ok::<u64, WireError>(value), p + gr_code(value, k).len()),
{
    let c = gr_code(value, k);
    let pre = s.subrange(0, p);
    let rest = s.subrange(p + c.len(), s.len() as int);
    assert(s =~= pre + c + rest);
    law_gr_roundtrip(pre, value, k, rest);
}

/// `e` bit-packed in `qb` bits per coefficient stands at `p`, and every
/// coefficient fits those bits.
pub open spec fn packed_at(s: Seq<bool>, p: int, e: RingElem, qb: nat) -> bool {
    &&& code_at(s, p, packed_code(e, qb))
    &&& forall|c: int| 0 <= c < D ==> (#[trigger] e.c[c] as nat) < pow2(qb)
}

// ---------------------------------------------------------------------------
// Readers
// ---------------------------------------------------------------------------

/// Every coefficient of every element is below `q`.
pub open spec fn elems_below(v: Seq<RingElem>, q: u64) -> bool {
    forall|i: int, c: int| 0 <= i < v.len() && 0 <= c < D ==> #[trigger] v[i].c[c] < q
}

/// `g` is square and zero below its diagonal.
pub open spec fn upper_square(g: Seq<Vec<RingElem>>) -> bool {
    &&& forall|i: int| 0 <= i < g.len() ==> (#[trigger] g[i])@.len() == g.len()
    &&& forall|i: int, j: int, c: int| 0 <= j < i < g.len() && 0 <= c < D ==> #[trigger] g[i]@[j].c[c] == 0
}

/// What a decoded opening looks like: `v` has rows of one width, `g` and `h`
/// are square and zero below the diagonal, and the Gaussian parts are
/// reduced.
pub open spec fn last_msg_shape(lm: IterationLastMsg, q: u64) -> bool {
    &&& forall|i: int| 0 <= i < lm.v@.len() ==> (#[trigger] lm.v@[i])@.len() == first_row_len(lm.v@)
    &&& upper_square(lm.g@)
    &&& upper_square(lm.h@)
    &&& elems_below(lm.z0@, q)
    &&& elems_below(lm.z1@, q)
    &&& forall|i: int| 0 <= i < lm.g@.len() ==> elems_below((#[trigger] lm.g@[i])@, q)
}

/// Read one bit-packed element: coefficient `c` is the value of bits
/// `[p + c·qb, p + (c+1)·qb)`. It fails only when fewer than `D·qb` bits
/// are left, and gives back any element whose packed code stands there.
pub fn read_ring_elem_packed(r: &mut BitReader, qb: u32) -> (res: Result<RingElem, WireError>)
    requires
        old(r).wf(),
        qb <= 64,
    ensures
        final(r).wf(),
        final(r).stream() == old(r).stream(),
        res matches Ok(e) ==> {
            let s = old(r).stream();
            let p = old(r).position();
            &&& final(r).position() == p + D * qb
            &&& forall|c: int|
                0 <= c < D ==> #[trigger] e.c[c] == bits_value(s.subrange(p + c * qb, p + c * qb + qb), qb as nat) as u64
        },
        old(r).position() + D * qb <= old(r).stream().len() ==> res is Ok,
        forall|e: RingElem|
            #[trigger] packed_at(old(r).stream(), old(r).position(), e, qb as nat) ==> res == Ok::<
                RingElem,
                WireError,
            >(e),
{
    let ghost s = r.stream();
    let ghost p = r.position();
    let mut e = RingElem::zero();
    assert(p + 0 * qb == p) by (nonlinear_arith);
    for i in 0..D
        invariant
            r.wf(),
            qb <= 64,
            r.stream() == s,
            s == old(r).stream(),
            p == old(r).position(),
            r.position() == p + i * qb,
            forall|c: int|
                0 <= c < i ==> #[trigger] e.c[c] == bits_value(s.subrange(p + c * qb, p + c * qb + qb), qb as nat) as u64,
    {
        let v = match r.read_bits(qb) {
            Ok(v) => v,
            Err(err) => {
                proof {
                    assert(i * qb + qb <= D * qb) by (nonlinear_arith)
                        requires
                            i < D,
                    ;
                    assert forall|e2: RingElem| !#[trigger] packed_at(s, p, e2, qb as nat) by {
                        lemma_packed_len(e2, qb as nat);
                    }
                }
                return Err(err);
            },
        };
        let ghost before = e;
        e.c[i] = v;
        assert(p + i * qb + qb == p + (i + 1) * qb) by (nonlinear_arith);
        assert forall|c: int| 0 <= c < i + 1 implies #[trigger] e.c[c] == bits_value(
            s.subrange(p + c * qb, p + c * qb + qb),
            qb as nat,
        ) as u64 by {
            if c < i {
                assert(e.c[c] == before.c[c]);
            }
        }
    }
    proof {
        assert forall|e2: RingElem| #[trigger] packed_at(s, p, e2, qb as nat) implies e == e2 by {
            let f = coeff_bits(e2, qb as nat);
            assert forall|c: int| 0 <= c < D implies e.c[c] == e2.c[c] by {
                lemma_code_at_cat(s, p, f, D as nat, c as nat);
                lemma_cat_fixed(f, qb as nat, c as nat);
                assert(f(c) == low_bits(e2.c[c], qb as nat));
                assert((e2.c[c] as nat) < pow2(qb as nat));
                lemma_bits_at(s, p + c * qb, e2.c[c], qb as nat);
            }
            assert(e.c@ =~= e2.c@);
            assert(e.c =~= e2.c);
        }
    }
    Ok(e)
}

/// The elements of `v` bit-packed stand at `p`, and every coefficient fits
/// `qb` bits.
pub open spec fn elems_packed_at(s: Seq<bool>, p: int, v: Seq<RingElem>, qb: nat) -> bool {
    &&& code_at(s, p, elems_code(v, qb))
    &&& forall|i: int, c: int| 0 <= i < v.len() && 0 <= c < D ==> (#[trigger] v[i].c[c] as nat) < pow2(qb)
}

/// Read `len` bit-packed elements. It fails only when fewer than
/// `len·D·qb` bits are left, and gives back any `len` elements whose packed
/// codes stand there.
pub fn read_elems_packed(r: &mut BitReader, len: usize, qb: u32) -> (res: Result<Vec<RingElem>, WireError>)
    requires
        old(r).wf(),
        qb <= 64,
    ensures
        final(r).wf(),
        final(r).stream() == old(r).stream(),
        res matches Ok(v) ==> v@.len() == len && final(r).position() == old(r).position() + len * (D * qb),
        old(r).position() + len * (D * qb) <= old(r).stream().len() ==> res is Ok,
        forall|v: Seq<RingElem>|
            #[trigger] elems_packed_at(old(r).stream(), old(r).position(), v, qb as nat) && v.len() == len
                ==> (res matches Ok(out) && out@ == v),
{
    let mut out: Vec<RingElem> = Vec::new();
    let ghost s = r.stream();
    let ghost p = r.position();
    let ghost w: int = D * qb;
    assert(p + 0 * w == p) by (nonlinear_arith);
    for i in 0..len
        invariant
            r.wf(),
            qb <= 64,
            r.stream() == s,
            s == old(r).stream(),
            p == old(r).position(),
            w == D * qb,
            r.position() == p + i * w,
            out@.len() == i,
            forall|v: Seq<RingElem>|
                #[trigger] elems_packed_at(s, p, v, qb as nat) && v.len() == len ==> out@ == v.subrange(0, i as int),
    {
        let ghost pos = r.position();
        proof {
            assert(i * w + w == (i + 1) * w) by (nonlinear_arith);
            assert((i + 1) * w <= len * w) by (nonlinear_arith)
                requires
                    i < len,
                    w >= 0,
            ;
            assert forall|v: Seq<RingElem>|
                #[trigger] elems_packed_at(s, p, v, qb as nat) && v.len() == len implies packed_at(
                s,
                pos,
                v[i as int],
                qb as nat,
            ) by {
                let f = elem_bits(v, qb as nat);
                assert forall|t: int| 0 <= t < i ==> (#[trigger] f(t)).len() == w by {
                    if 0 <= t < i {
                        lemma_packed_len(v[t], qb as nat);
                    }
                }
                lemma_cat_fixed(f, w as nat, i as nat);
                lemma_code_at_cat(s, p, f, len as nat, i as nat);
                assert(forall|c: int| 0 <= c < D ==> (#[trigger] v[i as int].c[c] as nat) < pow2(qb as nat));
            }
        }
        let e = match read_ring_elem_packed(r, qb) {
            Ok(e) => e,
            Err(err) => {
                proof {
                    assert forall|v: Seq<RingElem>|
                        !(#[trigger] elems_packed_at(s, p, v, qb as nat) && v.len() == len) by {
                        if elems_packed_at(s, p, v, qb as nat) && v.len() == len {
                            assert(packed_at(s, pos, v[i as int], qb as nat));
                        }
                    }
                }
                return Err(err);
            },
        };
        let ghost before = out@;
        out.push(e);
        proof {
            assert forall|v: Seq<RingElem>|
                #[trigger] elems_packed_at(s, p, v, qb as nat) && v.len() == len implies out@ == v.subrange(
                0,
                i + 1,
            ) by {
                assert(packed_at(s, pos, v[i as int], qb as nat));
                assert(before == v.subrange(0, i as int));
                assert(out@ =~= v.subrange(0, i + 1));
            }
        }
    }
    proof {
        assert forall|v: Seq<RingElem>|
            #[trigger] elems_packed_at(s, p, v, qb as nat) && v.len() == len implies out@ == v by {
            assert(v.subrange(0, len as int) =~= v);
        }
    }
    Ok(out)
}

/// Every coefficient of `e` is a residue mod `q ≤ 2^62` whose Golomb–Rice
/// symbol fits the reader's unary limit.
pub open spec fn gr_fits(e: RingElem, q: u64, k: u32) -> bool {
    &&& 0 < q <= 0x4000_0000_0000_0000u64
    &&& forall|c: int|
        0 <= c < D ==> #[trigger] e.c[c] < q && gr_coeff(e.c[c], q) >> (k as u64) <= GR_MAX_UNARY
}

/// `e` Golomb–Rice coded stands at `p` and can be read back.
pub open spec fn gr_elem_at(s: Seq<bool>, p: int, e: RingElem, q: u64, k: u32) -> bool {
    &&& code_at(s, p, gr_elem_code(e, q, k))
    &&& gr_fits(e, q, k)
}

/// The symbol of a residue decodes to its centered value, whose residue is
/// the coefficient again.
proof fn lemma_gr_coeff_decodes(c: u64, q: u64)
    requires
        0 < q <= 0x4000_0000_0000_0000u64,
        c < q,
    ensures
        i64::MIN <= centered_rep(c, q) <= i64::MAX,
        gr_coeff(c, q) as int == zigzag_spec(centered_rep(c, q)),
        unzigzag_spec(gr_coeff(c, q) as int) == centered_rep(c, q),
        centered_rep(c, q) % (q as int) == c,
{
    let x = centered_rep(c, q);
    assert(clamp_i64(x) == x);
    assert(0 <= zigzag_spec(x) <= u64::MAX);
    crate::labrador::wire::law_zigzag_roundtrip(x);
    if c <= q / 2 {
        vstd::arithmetic::div_mod::lemma_small_mod(c as nat, q as nat);
    } else {
        vstd::arithmetic::div_mod::lemma_fundamental_div_mod_converse(x, q as int, -1, c as int);
    }
}

/// Read one Golomb–Rice coded element; every coefficient is the residue of
/// its unzigzagged symbol. Any element whose code stands there reads back.
pub fn read_ring_elem_gr(r: &mut BitReader, q: u64, k: u32) -> (res: Result<RingElem, WireError>)
    requires
        old(r).wf(),
        q > 0,
        k < 64,
    ensures
        final(r).wf(),
        final(r).stream() == old(r).stream(),
        res matches Ok(e) ==> forall|c: int| 0 <= c < D ==> #[trigger] e.c[c] < q,
        forall|e: RingElem|
            #[trigger] gr_elem_at(old(r).stream(), old(r).position(), e, q, k) ==> res == Ok::<
                RingElem,
                WireError,
            >(e) && final(r).position() == old(r).position() + gr_elem_code(e, q, k).len(),
{
    let ghost s = r.stream();
    let ghost p = r.position();
    let mut e = RingElem::zero();
    for i in 0..D
        invariant
            r.wf(),
            q > 0,
            k < 64,
            r.stream() == s,
            s == old(r).stream(),
            p == old(r).position(),
            forall|c: int| 0 <= c < i ==> #[trigger] e.c[c] < q,
            forall|e2: RingElem|
                #[trigger] gr_elem_at(s, p, e2, q, k) ==> (forall|c: int| 0 <= c < i ==> #[trigger] e.c[c] == e2.c[c])
                    && r.position() == p + cat(gr_coeff_bits(e2, q, k), i as nat).len(),
    {
        let ghost pos = r.position();
        proof {
            assert forall|e2: RingElem| #[trigger] gr_elem_at(s, p, e2, q, k) implies read_gr_spec(s, pos, k) == (
                Ok::<u64, WireError>(gr_coeff(e2.c[i as int], q)),
                pos + gr_coeff_bits(e2, q, k)(i as int).len(),
            ) by {
                lemma_code_at_cat(s, p, gr_coeff_bits(e2, q, k), D as nat, i as nat);
                assert(e2.c[i as int] < q);
                lemma_gr_at(s, pos, gr_coeff(e2.c[i as int], q), k);
            }
        }
        let zig = match r.read_gr(k) {
            Ok(z) => z,
            Err(err) => {
                proof {
                    assert forall|e2: RingElem| !#[trigger] gr_elem_at(s, p, e2, q, k) by {}
                }
                return Err(err);
            },
        };
        let signed = zigzag_decode(zig);
        let ghost before = e;
        e.c[i] = encode_signed_modq(signed as i128, q);
        proof {
            assert forall|e2: RingElem| #[trigger] gr_elem_at(s, p, e2, q, k) implies (forall|c: int|
                0 <= c < i + 1 ==> #[trigger] e.c[c] == e2.c[c]) && r.position() == p + cat(
                gr_coeff_bits(e2, q, k),
                (i + 1) as nat,
            ).len() by {
                assert(e2.c[i as int] < q);
                lemma_gr_coeff_decodes(e2.c[i as int], q);
                assert(zig == gr_coeff(e2.c[i as int], q));
                assert(e.c[i as int] == e2.c[i as int]);
                assert forall|c: int| 0 <= c < i + 1 implies #[trigger] e.c[c] == e2.c[c] by {
                    if c < i {
                        assert(e.c[c] == before.c[c]);
                    }
                }
                assert(cat(gr_coeff_bits(e2, q, k), (i + 1) as nat) == cat(gr_coeff_bits(e2, q, k), i as nat)
                    + gr_coeff_bits(e2, q, k)(i as int));
            }
        }
    }
    proof {
        assert forall|e2: RingElem| #[trigger] gr_elem_at(s, p, e2, q, k) implies e == e2 by {
            assert(e.c@ =~= e2.c@);
            assert(e.c =~= e2.c);
        }
    }
    Ok(e)
}

/// A Gaussian list `v` coded stands at `p` and can be read back.
pub open spec fn gauss_at(s: Seq<bool>, p: int, v: Seq<RingElem>, q: u64, k: u32) -> bool {
    &&& code_at(s, p, gauss_code(v, q, k))
    &&& 0 < q <= 0x4000_0000_0000_0000u64
    &&& forall|i: int| 0 <= i < v.len() ==> gr_fits(#[trigger] v[i], q, k)
}

/// Read a Gaussian list of `len` elements. Any list of that length whose
/// code stands there reads back.
#[verifier::spinoff_prover]
pub fn read_gauss_vec(r: &mut BitReader, len: usize, q: u64, k: u32) -> (res: Result<Vec<RingElem>, WireError>)
    requires
        old(r).wf(),
        q > 0,
        k < 64,
    ensures
        final(r).wf(),
        final(r).stream() == old(r).stream(),
        res matches Ok(v) ==> v@.len() == len && elems_below(v@, q),
        forall|v: Seq<RingElem>|
            #[trigger] gauss_at(old(r).stream(), old(r).position(), v, q, k) && v.len() == len ==> (res matches Ok(
                out,
            ) && out@ == v && final(r).position() == old(r).position() + gauss_code(v, q, k).len()),
{
    let ghost s = r.stream();
    let ghost p = r.position();
    proof {
        assert forall|v: Seq<RingElem>| #[trigger] gauss_at(s, p, v, q, k) && v.len() == len implies p + 1 <= s.len()
            && bits_value(s.subrange(p, p + 1), 1) == (if all_zero(v) { 1nat } else { 0nat }) by {
            let code = gauss_code(v, q, k);
            if all_zero(v) {
                assert(code == seq![true]);
            } else {
                lemma_code_at_split(s, p, seq![false], cat(gr_elem_bits(v, q, k), v.len()));
            }
            vstd::arithmetic::power2::lemma2_to64();
            assert(code.len() >= 1);
            assert(s.subrange(p, p + code.len())[0] == code[0]);
            assert(s.subrange(p, p + 1)[0] == code[0]);
            assert(bits_value(s.subrange(p, p + 1), 0) == 0);
        }
    }
    let flag = match r.read_bits(1) {
        Ok(f) => f,
        Err(err) => {
            return Err(err);
        },
    };
    let mut out: Vec<RingElem> = Vec::new();
    if flag == 1 {
        for i in 0..len
            invariant
                q > 0,
                out@.len() == i,
                elems_below(out@, q),
                forall|c: int, t: int| 0 <= t < i && 0 <= c < D ==> #[trigger] out@[t].c[c] == 0,
        {
            let z = RingElem::zero();
            assert(forall|c: int| 0 <= c < D ==> z.c[c] == 0);
            out.push(z);
        }
        proof {
            assert forall|v: Seq<RingElem>| #[trigger] gauss_at(s, p, v, q, k) && v.len() == len implies out@ == v by {
                assert forall|t: int| 0 <= t < len implies #[trigger] out@[t] == v[t] by {
                    assert(out@[t].c@ =~= v[t].c@);
                    assert(out@[t].c =~= v[t].c);
                }
                assert(out@ =~= v);
            }
        }
        return Ok(out);
    }
    let ghost p1 = r.position();
    for i in 0..len
        invariant
            r.wf(),
            q > 0,
            k < 64,
            r.stream() == s,
            s == old(r).stream(),
            p == old(r).position(),
            p1 == p + 1,
            out@.len() == i,
            elems_below(out@, q),
            forall|v: Seq<RingElem>|
                #[trigger] gauss_at(s, p, v, q, k) && v.len() == len ==> !all_zero(v) && out@ == v.subrange(0, i as int)
                    && r.position() == p1 + cat(gr_elem_bits(v, q, k), i as nat).len(),
    {
        let ghost pos = r.position();
        proof {
            assert forall|v: Seq<RingElem>| #[trigger] gauss_at(s, p, v, q, k) && v.len() == len implies gr_elem_at(
                s,
                pos,
                v[i as int],
                q,
                k,
            ) by {
                lemma_code_at_split(s, p, seq![false], cat(gr_elem_bits(v, q, k), v.len()));
                lemma_code_at_cat(s, p1, gr_elem_bits(v, q, k), len as nat, i as nat);
            }
        }
        let e = match read_ring_elem_gr(r, q, k) {
            Ok(e) => e,
            Err(err) => {
                proof {
                    assert forall|v: Seq<RingElem>| !(#[trigger] gauss_at(s, p, v, q, k) && v.len() == len) by {
                        if gauss_at(s, p, v, q, k) && v.len() == len {
                            assert(gr_elem_at(s, pos, v[i as int], q, k));
                        }
                    }
                }
                return Err(err);
            },
        };
        let ghost before = out@;
        out.push(e);
        proof {
            assert forall|v: Seq<RingElem>| #[trigger] gauss_at(s, p, v, q, k) && v.len() == len implies out@
                == v.subrange(0, i + 1) && r.position() == p1 + cat(gr_elem_bits(v, q, k), (i + 1) as nat).len() by {
                assert(gr_elem_at(s, pos, v[i as int], q, k));
                assert(before == v.subrange(0, i as int));
                assert(out@ =~= v.subrange(0, i + 1));
                assert(cat(gr_elem_bits(v, q, k), (i + 1) as nat) == cat(gr_elem_bits(v, q, k), i as nat)
                    + gr_elem_bits(v, q, k)(i as int));
            }
        }
    }
    proof {
        assert forall|v: Seq<RingElem>| #[trigger] gauss_at(s, p, v, q, k) && v.len() == len implies out@ == v
            && r.position() == p + gauss_code(v, q, k).len() by {
            assert(v.subrange(0, len as int) =~= v);
        }
    }
    Ok(out)
}

/// The projection `pv` coded entry by entry stands at `p`, every entry fits
/// `i64` and its Golomb–Rice symbol fits the reader's unary limit.
pub open spec fn projection_at(s: Seq<bool>, p: int, pv: Seq<i128>, k: u32) -> bool {
    &&& code_at(s, p, cat(p_bits(pv, k), pv.len()))
    &&& forall|j: int|
        0 <= j < pv.len() ==> i64::MIN <= #[trigger] pv[j] <= i64::MAX && (zigzag_spec(pv[j] as int) as u64)
            >> (k as u64) <= GR_MAX_UNARY
}

/// Read `len` Golomb–Rice coded projection entries; any projection of that
/// length whose code stands there reads back.
pub fn read_projection(r: &mut BitReader, len: usize, k: u32) -> (res: Result<Vec<i128>, WireError>)
    requires
        old(r).wf(),
        k < 64,
    ensures
        final(r).wf(),
        final(r).stream() == old(r).stream(),
        res matches Ok(p) ==> p@.len() == len,
        forall|pv: Seq<i128>|
            #[trigger] projection_at(old(r).stream(), old(r).position(), pv, k) && pv.len() == len ==> (res
                matches Ok(out) && out@ == pv && final(r).position() == old(r).position() + cat(
                p_bits(pv, k),
                len as nat,
            ).len()),
{
    let ghost s = r.stream();
    let ghost p = r.position();
    let mut out: Vec<i128> = Vec::new();
    for j in 0..len
        invariant
            r.wf(),
            k < 64,
            r.stream() == s,
            s == old(r).stream(),
            p == old(r).position(),
            out@.len() == j,
            forall|pv: Seq<i128>|
                #[trigger] projection_at(s, p, pv, k) && pv.len() == len ==> out@ == pv.subrange(0, j as int)
                    && r.position() == p + cat(p_bits(pv, k), j as nat).len(),
    {
        let ghost pos = r.position();
        proof {
            assert forall|pv: Seq<i128>| #[trigger] projection_at(s, p, pv, k) && pv.len() == len implies read_gr_spec(
                s,
                pos,
                k,
            ) == (Ok::<u64, WireError>(zigzag_spec(pv[j as int] as int) as u64), pos + p_bits(pv, k)(j as int).len()) by {
                lemma_code_at_cat(s, p, p_bits(pv, k), len as nat, j as nat);
                let x = pv[j as int];
                assert(clamp_i64(x as int) == x);
                lemma_gr_at(s, pos, zigzag_spec(x as int) as u64, k);
            }
        }
        let zig = match r.read_gr(k) {
            Ok(z) => z,
            Err(err) => {
                proof {
                    assert forall|pv: Seq<i128>| !(#[trigger] projection_at(s, p, pv, k) && pv.len() == len) by {
                    }
                }
                return Err(err);
            },
        };
        let x = zigzag_decode(zig) as i128;
        let ghost before = out@;
        out.push(x);
        proof {
            assert forall|pv: Seq<i128>| #[trigger] projection_at(s, p, pv, k) && pv.len() == len implies out@
                == pv.subrange(0, j + 1) && r.position() == p + cat(p_bits(pv, k), (j + 1) as nat).len() by {
                let y = pv[j as int];
                assert(zig == zigzag_spec(y as int) as u64);
                assert(0 <= zigzag_spec(y as int) <= u64::MAX);
                crate::labrador::wire::law_zigzag_roundtrip(y as int);
                assert(x == y);
                assert(before == pv.subrange(0, j as int));
                assert(out@ =~= pv.subrange(0, j + 1));
                assert(cat(p_bits(pv, k), (j + 1) as nat) == cat(p_bits(pv, k), j as nat) + p_bits(pv, k)(j as int));
            }
        }
    }
    proof {
        assert forall|pv: Seq<i128>| #[trigger] projection_at(s, p, pv, k) && pv.len() == len implies out@ == pv by {
            assert(pv.subrange(0, len as int) =~= pv);
        }
    }
    Ok(out)
}

/// A length prefix as a `usize`: any length below `2^63` whose prefix
/// stands there reads back.
fn read_count(r: &mut BitReader) -> (res: Result<usize, WireError>)
    requires
        old(r).wf(),
    ensures
        final(r).wf(),
        final(r).stream() == old(r).stream(),
        forall|n: u64|
            #[trigger] code_at(old(r).stream(), old(r).position(), len_code(n)) && n <= usize::MAX ==> res == Ok::<usize, WireError>(n as usize) && final(r).position()
                == old(r).position() + len_code(n).len(),
{
    let ghost s = r.stream();
    let ghost p = r.position();
    proof {
        assert forall|n: u64| #[trigger] code_at(s, p, len_code(n)) implies read_len_spec(
            s,
            p,
        ) == (Ok::<u64, WireError>(n), p + len_code(n).len()) by {
            lemma_len_at(s, p, n);
        }
    }
    match r.read_len() {
        Ok(n) => {
            if n > usize::MAX as u64 {
                Err(WireError::BadShape("length beyond the address space"))
            } else {
                Ok(n as usize)
            }
        },
        Err(e) => Err(e),
    }
}

/// The rows of a matrix as sequences.
pub open spec fn rows_view(g: Seq<Vec<RingElem>>) -> Seq<Seq<RingElem>> {
    g.map_values(|row: Vec<RingElem>| row@)
}

/// `upper_elems` of `i` rows is a prefix of `upper_elems` of `n ≥ i`.
proof fn lemma_upper_elems_prefix(g: Seq<Vec<RingElem>>, i: nat, n: nat)
    requires
        i <= n,
    ensures
        upper_elems(g, i).len() <= upper_elems(g, n).len(),
        forall|t: int| 0 <= t < upper_elems(g, i).len() ==> #[trigger] upper_elems(g, n)[t] == upper_elems(g, i)[t],
    decreases n,
{
    if i < n {
        lemma_upper_elems_prefix(g, i, (n - 1) as nat);
    }
}

/// Entry `(i, i+t)` of a square matrix is element `upper_elems(g, i).len() + t`
/// of its upper triangle.
proof fn lemma_upper_index(g: Seq<Vec<RingElem>>, i: nat, t: int)
    requires
        upper_square(g),
        i < g.len(),
        0 <= t < g.len() - i,
    ensures
        upper_elems(g, i + 1).len() == upper_elems(g, i).len() + (g.len() - i),
        upper_elems(g, i).len() + t < upper_elems(g, g.len()).len(),
        upper_elems(g, g.len())[upper_elems(g, i).len() + t] == g[i as int]@[i + t],
{
    assert(g[i as int]@.len() == g.len());
    lemma_upper_elems_prefix(g, i + 1, g.len());
    let a = upper_elems(g, i);
    assert(upper_elems(g, i + 1) == a + g[i as int]@.subrange(i as int, g.len() as int));
    assert(upper_elems(g, i + 1)[a.len() + t] == g[i as int]@[i + t]);
}

/// Every entry on or above the diagonal of `g` fits the Golomb–Rice reader.
pub open spec fn upper_gr_fits(g: Seq<Vec<RingElem>>, q: u64, k: u32) -> bool {
    &&& 0 < q <= 0x4000_0000_0000_0000u64
    &&& forall|i: int, j: int| 0 <= i <= j < g.len() ==> gr_fits(#[trigger] g[i]@[j], q, k)
}

/// The Golomb–Rice coded upper triangle of the square matrix `g` stands at
/// `p` and can be read back.
pub open spec fn upper_gr_at(s: Seq<bool>, p: int, g: Seq<Vec<RingElem>>, q: u64, k: u32) -> bool {
    &&& upper_square(g)
    &&& upper_gr_fits(g, q, k)
    &&& code_at(s, p, upper_gr_code(g, q, k))
}

/// The bit-packed upper triangle of the square matrix `h` stands at `p` and
/// every entry on or above the diagonal fits `qb` bits.
pub open spec fn upper_packed_at(s: Seq<bool>, p: int, h: Seq<Vec<RingElem>>, qb: nat) -> bool {
    &&& upper_square(h)
    &&& code_at(s, p, cat(upper_row_bits(h, qb), h.len()))
    &&& forall|i: int, j: int, c: int|
        0 <= i <= j < h.len() && 0 <= c < D ==> (#[trigger] h[i]@[j].c[c] as nat) < pow2(qb)
}

/// How far into row `i` the cursor is after `j` entries: entries below the
/// diagonal are not in the stream.
pub open spec fn row_off(i: int, j: int) -> int {
    if j > i {
        j - i
    } else {
        0
    }
}

/// A zero element equals any element whose coefficients are all zero.
proof fn lemma_zero_elem_eq(z: RingElem, e: RingElem)
    requires
        forall|c: int| 0 <= c < D ==> #[trigger] z.c[c] == 0,
        forall|c: int| 0 <= c < D ==> #[trigger] e.c[c] == 0,
    ensures
        z == e,
{
    assert(z.c@ =~= e.c@);
    assert(z.c =~= e.c);
}

/// Read an `n × n` upper triangle, zero below the diagonal: each entry on
/// or above it read by `gr` (Golomb–Rice) or else bit-packed. Any square
/// matrix, zero below its diagonal, whose upper triangle is coded there
/// reads back.
#[verifier::rlimit(60)]
#[verifier::spinoff_prover]
fn read_upper(r: &mut BitReader, n: usize, gr: bool, q: u64, k: u32, qb: u32) -> (res: Result<
    Vec<Vec<RingElem>>,
    WireError,
>)
    requires
        old(r).wf(),
        q > 0,
        k < 64,
        qb <= 64,
    ensures
        final(r).wf(),
        final(r).stream() == old(r).stream(),
        res matches Ok(g) ==> g@.len() == n && upper_square(g@) && (gr ==> forall|i: int|
            0 <= i < n ==> elems_below((#[trigger] g@[i])@, q)),
        gr ==> forall|g: Seq<Vec<RingElem>>|
            #[trigger] upper_gr_at(old(r).stream(), old(r).position(), g, q, k) && g.len() == n ==> (res
                matches Ok(out) && rows_view(out@) == rows_view(g) && final(r).position() == old(r).position()
                + upper_gr_code(g, q, k).len()),
        !gr ==> forall|h: Seq<Vec<RingElem>>|
            #[trigger] upper_packed_at(old(r).stream(), old(r).position(), h, qb as nat) && h.len() == n ==> (res
                matches Ok(out) && rows_view(out@) == rows_view(h) && final(r).position() == old(r).position()
                + cat(upper_row_bits(h, qb as nat), n as nat).len()),
{
    let ghost s = r.stream();
    let ghost p = r.position();
    let ghost w: int = D * qb;
    let mut g: Vec<Vec<RingElem>> = Vec::new();
    assert(rows_view(g@) =~= Seq::<Seq<RingElem>>::empty());
    for i in 0..n
        invariant
            r.wf(),
            q > 0,
            k < 64,
            qb <= 64,
            w == D * qb,
            r.stream() == s,
            s == old(r).stream(),
            p == old(r).position(),
            g@.len() == i,
            forall|ii: int| 0 <= ii < i ==> (#[trigger] g@[ii])@.len() == n,
            forall|ii: int, j: int, c: int| 0 <= j < ii < i && 0 <= c < D ==> #[trigger] g@[ii]@[j].c[c] == 0,
            gr ==> forall|ii: int| 0 <= ii < i ==> elems_below((#[trigger] g@[ii])@, q),
            gr ==> forall|gg: Seq<Vec<RingElem>>|
                #[trigger] upper_gr_at(s, p, gg, q, k) && gg.len() == n ==> rows_view(g@) == rows_view(gg).subrange(
                    0,
                    i as int,
                ) && r.position() == p + cat(
                    gr_elem_bits(upper_elems(gg, n as nat), q, k),
                    upper_elems(gg, i as nat).len(),
                ).len(),
            !gr ==> forall|hh: Seq<Vec<RingElem>>|
                #[trigger] upper_packed_at(s, p, hh, qb as nat) && hh.len() == n ==> rows_view(g@) == rows_view(
                    hh,
                ).subrange(0, i as int) && r.position() == p + cat(upper_row_bits(hh, qb as nat), i as nat).len(),
    {
        let ghost rowpos = r.position();
        let mut row: Vec<RingElem> = Vec::new();
        for j in 0..n
            invariant
                r.wf(),
                q > 0,
                k < 64,
                qb <= 64,
                w == D * qb,
                r.stream() == s,
                s == old(r).stream(),
                p == old(r).position(),
                i < n,
                g@.len() == i,
                row@.len() == j,
                forall|jj: int, c: int| 0 <= jj < j && jj < i && 0 <= c < D ==> #[trigger] row@[jj].c[c] == 0,
                gr ==> elems_below(row@, q),
                gr ==> forall|gg: Seq<Vec<RingElem>>|
                    #[trigger] upper_gr_at(s, p, gg, q, k) && gg.len() == n ==> rows_view(g@) == rows_view(
                        gg,
                    ).subrange(0, i as int) && rowpos == p + cat(
                        gr_elem_bits(upper_elems(gg, n as nat), q, k),
                        upper_elems(gg, i as nat).len(),
                    ).len() && row@ == gg[i as int]@.subrange(0, j as int) && r.position() == p + cat(
                        gr_elem_bits(upper_elems(gg, n as nat), q, k),
                        (upper_elems(gg, i as nat).len() + row_off(i as int, j as int)) as nat,
                    ).len(),
                !gr ==> forall|hh: Seq<Vec<RingElem>>|
                    #[trigger] upper_packed_at(s, p, hh, qb as nat) && hh.len() == n ==> rows_view(g@) == rows_view(
                        hh,
                    ).subrange(0, i as int) && rowpos == p + cat(upper_row_bits(hh, qb as nat), i as nat).len()
                        && row@ == hh[i as int]@.subrange(0, j as int) && r.position() == rowpos + row_off(
                        i as int,
                        j as int,
                    ) * w,
        {
            let ghost pos = r.position();
            let ghost before = row@;
            if j < i {
                let z = RingElem::zero();
                assert(forall|c: int| 0 <= c < D ==> z.c[c] == 0);
                row.push(z);
                proof {
                    if gr {
                        assert forall|gg: Seq<Vec<RingElem>>| #[trigger] upper_gr_at(s, p, gg, q, k) && gg.len() == n
                            implies row@ == gg[i as int]@.subrange(0, j + 1) by {
                            assert(forall|c: int| 0 <= c < D ==> #[trigger] gg[i as int]@[j as int].c[c] == 0);
                            lemma_zero_elem_eq(z, gg[i as int]@[j as int]);
                            assert(row@ =~= gg[i as int]@.subrange(0, j + 1));
                        }
                    } else {
                        assert forall|hh: Seq<Vec<RingElem>>|
                            #[trigger] upper_packed_at(s, p, hh, qb as nat) && hh.len() == n implies row@
                            == hh[i as int]@.subrange(0, j + 1) by {
                            assert(forall|c: int| 0 <= c < D ==> #[trigger] hh[i as int]@[j as int].c[c] == 0);
                            lemma_zero_elem_eq(z, hh[i as int]@[j as int]);
                            assert(row@ =~= hh[i as int]@.subrange(0, j + 1));
                        }
                    }
                }
            } else if gr {
                proof {
                    assert forall|gg: Seq<Vec<RingElem>>| #[trigger] upper_gr_at(s, p, gg, q, k) && gg.len() == n
                        implies gr_elem_at(s, pos, gg[i as int]@[j as int], q, k) by {
                        let u = upper_elems(gg, n as nat);
                        let f = gr_elem_bits(u, q, k);
                        let idx = upper_elems(gg, i as nat).len() + (j - i);
                        lemma_upper_index(gg, i as nat, j - i);
                        lemma_code_at_cat(s, p, f, u.len(), idx as nat);
                    }
                }
                let e = match read_ring_elem_gr(r, q, k) {
                    Ok(e) => e,
                    Err(err) => {
                        proof {
                            assert forall|gg: Seq<Vec<RingElem>>|
                                !(#[trigger] upper_gr_at(s, p, gg, q, k) && gg.len() == n) by {
                                if upper_gr_at(s, p, gg, q, k) && gg.len() == n {
                                    assert(gr_elem_at(s, pos, gg[i as int]@[j as int], q, k));
                                }
                            }
                        }
                        return Err(err);
                    },
                };
                row.push(e);
                proof {
                    assert forall|gg: Seq<Vec<RingElem>>| #[trigger] upper_gr_at(s, p, gg, q, k) && gg.len() == n
                        implies row@ == gg[i as int]@.subrange(0, j + 1) && r.position() == p + cat(
                        gr_elem_bits(upper_elems(gg, n as nat), q, k),
                        (upper_elems(gg, i as nat).len() + row_off(i as int, j + 1)) as nat,
                    ).len() by {
                        let u = upper_elems(gg, n as nat);
                        let f = gr_elem_bits(u, q, k);
                        let idx = upper_elems(gg, i as nat).len() + (j - i);
                        lemma_upper_index(gg, i as nat, j - i);
                        assert(gr_elem_at(s, pos, gg[i as int]@[j as int], q, k));
                        assert(row@ =~= gg[i as int]@.subrange(0, j + 1));
                        assert(cat(f, (idx + 1) as nat) == cat(f, idx as nat) + f(idx));
                    }
                }
            } else {
                proof {
                    assert forall|hh: Seq<Vec<RingElem>>|
                        #[trigger] upper_packed_at(s, p, hh, qb as nat) && hh.len() == n implies packed_at(
                        s,
                        pos,
                        hh[i as int]@[j as int],
                        qb as nat,
                    ) by {
                        let sub = hh[i as int]@.subrange(i as int, n as int);
                        let f = elem_bits(sub, qb as nat);
                        assert(hh[i as int]@.len() == n);
                        lemma_code_at_cat(s, p, upper_row_bits(hh, qb as nat), n as nat, i as nat);
                        assert(upper_row_bits(hh, qb as nat)(i as int) == cat(f, sub.len()));
                        lemma_code_at_cat(s, rowpos, f, sub.len(), (j - i) as nat);
                        assert forall|t: int| 0 <= t < j - i implies (#[trigger] f(t)).len() == w by {
                            lemma_packed_len(sub[t], qb as nat);
                        }
                        lemma_cat_fixed(f, w as nat, (j - i) as nat);
                        assert(f((j - i) as int) == packed_code(hh[i as int]@[j as int], qb as nat));
                        assert(forall|c: int| 0 <= c < D ==> (#[trigger] hh[i as int]@[j as int].c[c] as nat) < pow2(qb as nat));
                    }
                }
                let e = match read_ring_elem_packed(r, qb) {
                    Ok(e) => e,
                    Err(err) => {
                        proof {
                            assert forall|hh: Seq<Vec<RingElem>>|
                                !(#[trigger] upper_packed_at(s, p, hh, qb as nat) && hh.len() == n) by {
                                if upper_packed_at(s, p, hh, qb as nat) && hh.len() == n {
                                    assert(packed_at(s, pos, hh[i as int]@[j as int], qb as nat));
                                }
                            }
                        }
                        return Err(err);
                    },
                };
                row.push(e);
                proof {
                    assert forall|hh: Seq<Vec<RingElem>>|
                        #[trigger] upper_packed_at(s, p, hh, qb as nat) && hh.len() == n implies row@
                        == hh[i as int]@.subrange(0, j + 1) && r.position() == rowpos + row_off(i as int, j + 1) * w by {
                        assert(packed_at(s, pos, hh[i as int]@[j as int], qb as nat));
                        assert(row@ =~= hh[i as int]@.subrange(0, j + 1));
                        assert(row_off(i as int, j + 1) * w == row_off(i as int, j as int) * w + w) by (nonlinear_arith)
                            requires
                                row_off(i as int, j + 1) == row_off(i as int, j as int) + 1,
                        ;
                    }
                }
            }
        }
        let ghost gbefore = g@;
        g.push(row);
        proof {
            assert(rows_view(g@) =~= rows_view(gbefore).push(row@));
            if gr {
                assert forall|gg: Seq<Vec<RingElem>>| #[trigger] upper_gr_at(s, p, gg, q, k) && gg.len() == n implies rows_view(
                    g@,
                ) == rows_view(gg).subrange(0, i + 1) && r.position() == p + cat(
                    gr_elem_bits(upper_elems(gg, n as nat), q, k),
                    upper_elems(gg, (i + 1) as nat).len(),
                ).len() by {
                    lemma_upper_index(gg, i as nat, 0);
                    assert(row@ =~= gg[i as int]@);
                    assert(rows_view(g@) =~= rows_view(gg).subrange(0, i + 1));
                }
            } else {
                assert forall|hh: Seq<Vec<RingElem>>|
                    #[trigger] upper_packed_at(s, p, hh, qb as nat) && hh.len() == n implies rows_view(g@) == rows_view(
                    hh,
                ).subrange(0, i + 1) && r.position() == p + cat(upper_row_bits(hh, qb as nat), (i + 1) as nat).len() by {
                    assert(hh[i as int]@.len() == n);
                    assert(row@ =~= hh[i as int]@);
                    assert(rows_view(g@) =~= rows_view(hh).subrange(0, i + 1));
                    let sub = hh[i as int]@.subrange(i as int, n as int);
                    lemma_elems_len(sub, qb as nat);
                    assert(cat(upper_row_bits(hh, qb as nat), (i + 1) as nat) == cat(upper_row_bits(hh, qb as nat), i as nat)
                        + upper_row_bits(hh, qb as nat)(i as int));
                    assert((n - i) * w == sub.len() * (D * qb)) by (nonlinear_arith)
                        requires
                            sub.len() == n - i,
                            w == D * qb,
                    ;
                }
            }
        }
    }
    proof {
        if gr {
            assert forall|gg: Seq<Vec<RingElem>>| #[trigger] upper_gr_at(s, p, gg, q, k) && gg.len() == n implies rows_view(
                g@,
            ) == rows_view(gg) && r.position() == p + upper_gr_code(gg, q, k).len() by {
                assert(rows_view(gg).subrange(0, n as int) =~= rows_view(gg));
            }
        } else {
            assert forall|hh: Seq<Vec<RingElem>>|
                #[trigger] upper_packed_at(s, p, hh, qb as nat) && hh.len() == n implies rows_view(g@) == rows_view(hh) by {
                assert(rows_view(hh).subrange(0, n as int) =~= rows_view(hh));
            }
        }
    }
    Ok(g)
}

/// An `n × n` zero matrix.
#[verifier::spinoff_prover]
fn zero_square(n: usize, q: u64) -> (g: Vec<Vec<RingElem>>)
    requires
        q > 0,
    ensures
        g@.len() == n,
        upper_square(g@),
        forall|i: int| 0 <= i < n ==> elems_below((#[trigger] g@[i])@, q),
        forall|i: int, j: int, c: int| 0 <= i < n && 0 <= j < n && 0 <= c < D ==> #[trigger] g@[i]@[j].c[c] == 0,
{
    let mut g: Vec<Vec<RingElem>> = Vec::new();
    for i in 0..n
        invariant
            q > 0,
            g@.len() == i,
            forall|ii: int| 0 <= ii < i ==> (#[trigger] g@[ii])@.len() == n,
            forall|ii: int, j: int, c: int| 0 <= ii < i && 0 <= j < n && 0 <= c < D ==> #[trigger] g@[ii]@[j].c[c] == 0,
            forall|ii: int| 0 <= ii < i ==> elems_below((#[trigger] g@[ii])@, q),
    {
        let mut row: Vec<RingElem> = Vec::new();
        for j in 0..n
            invariant
                q > 0,
                row@.len() == j,
                forall|jj: int, c: int| 0 <= jj < j && 0 <= c < D ==> #[trigger] row@[jj].c[c] == 0,
        {
            let z = RingElem::zero();
            assert(forall|c: int| 0 <= c < D ==> z.c[c] == 0);
            row.push(z);
        }
        g.push(row);
    }
    g
}

/// The flag bit of a Gaussian list in the stream, and the codes behind it.
proof fn lemma_gauss_flag(s: Seq<bool>, p: int, v: Seq<RingElem>, q: u64, k: u32)
    requires
        code_at(s, p, gauss_code(v, q, k)),
    ensures
        p + 1 <= s.len(),
        bits_value(s.subrange(p, p + 1), 1) == (if all_zero(v) {
            1nat
        } else {
            0nat
        }),
        !all_zero(v) ==> code_at(s, p + 1, cat(gr_elem_bits(v, q, k), v.len())),
{
    let code = gauss_code(v, q, k);
    if all_zero(v) {
        assert(code == seq![true]);
    } else {
        lemma_code_at_split(s, p, seq![false], cat(gr_elem_bits(v, q, k), v.len()));
    }
    vstd::arithmetic::power2::lemma2_to64();
    assert(s.subrange(p, p + code.len())[0] == code[0]);
    assert(s.subrange(p, p + 1)[0] == code[0]);
    assert(bits_value(s.subrange(p, p + 1), 0) == 0);
}

/// The Gaussian code of the upper triangle of the square matrix `g` stands
/// at `p` and can be read back.
pub open spec fn gauss_upper_at(s: Seq<bool>, p: int, g: Seq<Vec<RingElem>>, q: u64, k: u32) -> bool {
    &&& upper_square(g)
    &&& upper_gr_fits(g, q, k)
    &&& code_at(s, p, gauss_code(upper_elems(g, g.len()), q, k))
}

/// Read the Gaussian upper triangle of an `n × n` matrix: one set bit for
/// the zero matrix, else a clear bit and the entries on and above the
/// diagonal row by row. Any square matrix, zero below its diagonal, whose
/// code stands there reads back.
fn read_gauss_upper(r: &mut BitReader, n: usize, q: u64, k: u32) -> (res: Result<Vec<Vec<RingElem>>, WireError>)
    requires
        old(r).wf(),
        q > 0,
        k < 64,
    ensures
        final(r).wf(),
        final(r).stream() == old(r).stream(),
        res matches Ok(g) ==> g@.len() == n && upper_square(g@) && forall|i: int|
            0 <= i < n ==> elems_below((#[trigger] g@[i])@, q),
        forall|g: Seq<Vec<RingElem>>|
            #[trigger] gauss_upper_at(old(r).stream(), old(r).position(), g, q, k) && g.len() == n ==> (res
                matches Ok(out) && rows_view(out@) == rows_view(g) && final(r).position() == old(r).position()
                + gauss_code(upper_elems(g, n as nat), q, k).len()),
{
    let ghost s = r.stream();
    let ghost p = r.position();
    proof {
        assert forall|g: Seq<Vec<RingElem>>| #[trigger] gauss_upper_at(s, p, g, q, k) && g.len() == n implies p + 1
            <= s.len() by {
            lemma_gauss_flag(s, p, upper_elems(g, n as nat), q, k);
        }
    }
    let flag = match r.read_bits(1) {
        Ok(f) => f,
        Err(err) => {
            proof {
                assert forall|g: Seq<Vec<RingElem>>| !(#[trigger] gauss_upper_at(s, p, g, q, k) && g.len() == n) by {
                    if gauss_upper_at(s, p, g, q, k) && g.len() == n {
                        lemma_gauss_flag(s, p, upper_elems(g, n as nat), q, k);
                    }
                }
            }
            return Err(err);
        },
    };
    if flag == 1 {
        let out = zero_square(n, q);
        proof {
            assert forall|g: Seq<Vec<RingElem>>| #[trigger] gauss_upper_at(s, p, g, q, k) && g.len() == n implies rows_view(
                out@,
            ) == rows_view(g) && r.position() == p + gauss_code(upper_elems(g, n as nat), q, k).len() by {
                let u = upper_elems(g, n as nat);
                lemma_gauss_flag(s, p, u, q, k);
                assert(all_zero(u));
                assert forall|i: int| 0 <= i < n implies #[trigger] rows_view(out@)[i] == rows_view(g)[i] by {
                    assert(g[i]@.len() == n);
                    assert forall|j: int| 0 <= j < n implies #[trigger] out@[i]@[j] == g[i]@[j] by {
                        if j >= i {
                            lemma_upper_index(g, i as nat, j - i);
                            assert(forall|c: int| 0 <= c < D ==> #[trigger] u[upper_elems(g, i as nat).len() + (j - i)].c[c] == 0);
                        }
                        assert(forall|c: int| 0 <= c < D ==> #[trigger] g[i]@[j].c[c] == 0);
                        assert(forall|c: int| 0 <= c < D ==> #[trigger] out@[i]@[j].c[c] == 0);
                        lemma_zero_elem_eq(out@[i]@[j], g[i]@[j]);
                    }
                    assert(out@[i]@ =~= g[i]@);
                }
                assert(rows_view(out@) =~= rows_view(g));
                assert(gauss_code(u, q, k).len() == 1);
                assert(r.position() == p + gauss_code(u, q, k).len());
            }
        }
        Ok(out)
    } else {
        proof {
            assert forall|g: Seq<Vec<RingElem>>| #[trigger] gauss_upper_at(s, p, g, q, k) && g.len() == n implies upper_gr_at(
                s,
                p + 1,
                g,
                q,
                k,
            ) && p + 1 + upper_gr_code(g, q, k).len() == p + gauss_code(upper_elems(g, n as nat), q, k).len() by {
                lemma_gauss_flag(s, p, upper_elems(g, n as nat), q, k);
                assert(!all_zero(upper_elems(g, n as nat)));
            }
        }
        let res = read_upper(r, n, true, q, k, 0);
        proof {
            assert forall|g: Seq<Vec<RingElem>>| #[trigger] gauss_upper_at(s, p, g, q, k) && g.len() == n implies (res
                matches Ok(out) && rows_view(out@) == rows_view(g) && r.position() == p + gauss_code(
                upper_elems(g, n as nat),
                q,
                k,
            ).len()) by {
                assert(upper_gr_at(s, p + 1, g, q, k));
            }
        }
        res
    }
}

/// A list length the length prefix and the address space hold.
pub open spec fn count_ok(n: nat) -> bool {
    n <= usize::MAX
}

/// The opening `lm` coded with `q`, `qb`, `kz`, `kg` stands at `p`, and
/// every part can be read back: every list length fits, the Gaussian parts
/// fit the Golomb–Rice reader, `v` has rows of one width whose entries fit
/// `qb` bits, and `g`, `h` are square and zero below their diagonals (with
/// `h`'s upper entries fitting `qb` bits).
pub open spec fn last_msg_at(s: Seq<bool>, p: int, lm: IterationLastMsg, q: u64, qb: nat, kz: u32, kg: u32) -> bool {
    &&& code_at(s, p, last_msg_code(lm, q, qb, kz, kg))
    &&& last_msg_fits(lm, q, qb, kz, kg)
}

/// Every part of the opening `lm` can be read back from its code.
pub open spec fn last_msg_fits(lm: IterationLastMsg, q: u64, qb: nat, kz: u32, kg: u32) -> bool {
    &&& 0 < q <= 0x4000_0000_0000_0000u64
    &&& count_ok(lm.z0@.len())
    &&& count_ok(lm.z1@.len())
    &&& count_ok(lm.v@.len())
    &&& count_ok(first_row_len(lm.v@))
    &&& count_ok(lm.g@.len())
    &&& count_ok(lm.h@.len())
    &&& forall|i: int| 0 <= i < lm.z0@.len() ==> gr_fits(#[trigger] lm.z0@[i], q, kz)
    &&& forall|i: int| 0 <= i < lm.z1@.len() ==> gr_fits(#[trigger] lm.z1@[i], q, kz)
    &&& forall|i: int| 0 <= i < lm.v@.len() ==> (#[trigger] lm.v@[i])@.len() == first_row_len(lm.v@)
    &&& forall|i: int, j: int, c: int|
        0 <= i < lm.v@.len() && 0 <= j < lm.v@[i]@.len() && 0 <= c < D ==> (#[trigger] lm.v@[i]@[j].c[c] as nat)
            < pow2(qb)
    &&& upper_square(lm.g@)
    &&& upper_gr_fits(lm.g@, q, kg)
    &&& upper_square(lm.h@)
    &&& forall|i: int, j: int, c: int|
        0 <= i <= j < lm.h@.len() && 0 <= c < D ==> (#[trigger] lm.h@[i]@[j].c[c] as nat) < pow2(qb)
}

/// Two openings hold the same lists.
pub open spec fn same_last_msg(a: IterationLastMsg, b: IterationLastMsg) -> bool {
    &&& a.z0@ == b.z0@
    &&& a.z1@ == b.z1@
    &&& rows_view(a.v@) == rows_view(b.v@)
    &&& rows_view(a.g@) == rows_view(b.g@)
    &&& rows_view(a.h@) == rows_view(b.h@)
}

/// The parts of an opening's code, each where it stands.
proof fn lemma_last_msg_parts(s: Seq<bool>, p: int, lm: IterationLastMsg, q: u64, qb: nat, kz: u32, kg: u32)
    requires
        code_at(s, p, last_msg_code(lm, q, qb, kz, kg)),
    ensures
        ({
            let l0 = len_code(lm.z0@.len() as u64);
            let g0 = gauss_code(lm.z0@, q, kz);
            let l1 = len_code(lm.z1@.len() as u64);
            let g1 = gauss_code(lm.z1@, q, kz);
            let lr = len_code(lm.v@.len() as u64);
            let lk = len_code(first_row_len(lm.v@) as u64);
            let vc = cat(row_bits(lm.v@, qb), lm.v@.len());
            let lg = len_code(lm.g@.len() as u64);
            let gc = gauss_code(upper_elems(lm.g@, lm.g@.len()), q, kg);
            let lh = len_code(lm.h@.len() as u64);
            let hc = cat(upper_row_bits(lm.h@, qb), lm.h@.len());
            let p1 = p + l0.len();
            let p2 = p1 + g0.len();
            let p3 = p2 + l1.len();
            let p4 = p3 + g1.len();
            let p5 = p4 + lr.len();
            let p6 = p5 + lk.len();
            let p7 = p6 + vc.len();
            let p8 = p7 + lg.len();
            let p9 = p8 + gc.len();
            let p10 = p9 + lh.len();
            &&& code_at(s, p, l0)
            &&& code_at(s, p1, g0)
            &&& code_at(s, p2, l1)
            &&& code_at(s, p3, g1)
            &&& code_at(s, p4, lr)
            &&& code_at(s, p5, lk)
            &&& code_at(s, p6, vc)
            &&& code_at(s, p7, lg)
            &&& code_at(s, p8, gc)
            &&& code_at(s, p9, lh)
            &&& code_at(s, p10, hc)
            &&& p10 + hc.len() == p + last_msg_code(lm, q, qb, kz, kg).len()
        }),
{
    let l0 = len_code(lm.z0@.len() as u64);
    let g0 = gauss_code(lm.z0@, q, kz);
    let l1 = len_code(lm.z1@.len() as u64);
    let g1 = gauss_code(lm.z1@, q, kz);
    let lr = len_code(lm.v@.len() as u64);
    let lk = len_code(first_row_len(lm.v@) as u64);
    let vc = cat(row_bits(lm.v@, qb), lm.v@.len());
    let lg = len_code(lm.g@.len() as u64);
    let gc = gauss_code(upper_elems(lm.g@, lm.g@.len()), q, kg);
    let lh = len_code(lm.h@.len() as u64);
    let hc = cat(upper_row_bits(lm.h@, qb), lm.h@.len());
    let a1 = l0 + g0;
    let a2 = a1 + l1;
    let a3 = a2 + g1;
    let a4 = a3 + lr;
    let a5 = a4 + lk;
    let a6 = a5 + vc;
    let a7 = a6 + lg;
    let a8 = a7 + gc;
    let a9 = a8 + lh;
    assert(last_msg_code(lm, q, qb, kz, kg) =~= a9 + hc);
    lemma_code_at_split(s, p, a9, hc);
    lemma_code_at_split(s, p, a8, lh);
    lemma_code_at_split(s, p, a7, gc);
    lemma_code_at_split(s, p, a6, lg);
    lemma_code_at_split(s, p, a5, vc);
    lemma_code_at_split(s, p, a4, lk);
    lemma_code_at_split(s, p, a3, lr);
    lemma_code_at_split(s, p, a2, g1);
    lemma_code_at_split(s, p, a1, l1);
    lemma_code_at_split(s, p, l0, g0);
}

/// Read an opening. Any opening whose code stands there, and whose parts
/// can be read back, reads back.
#[verifier::rlimit(80)]
#[verifier::spinoff_prover]
pub fn read_last_msg(r: &mut BitReader, q: u64, qb: u32, kz: u32, kg: u32) -> (res: Result<
    IterationLastMsg,
    WireError,
>)
    requires
        old(r).wf(),
        q > 0,
        qb <= 64,
        kz < 64,
        kg < 64,
    ensures
        final(r).wf(),
        final(r).stream() == old(r).stream(),
        res matches Ok(lm) ==> last_msg_shape(lm, q),
        forall|lm: IterationLastMsg|
            #[trigger] last_msg_at(old(r).stream(), old(r).position(), lm, q, qb as nat, kz, kg) ==> (res matches Ok(
                out,
            ) && same_last_msg(out, lm) && final(r).position() == old(r).position() + last_msg_code(
                lm,
                q,
                qb as nat,
                kz,
                kg,
            ).len()),
{
    let ghost s = r.stream();
    let ghost p0 = r.position();
    let ghost qn = qb as nat;
    proof {
        assert forall|lm: IterationLastMsg| #[trigger] last_msg_at(s, p0, lm, q, qn, kz, kg) implies code_at(
            s,
            p0,
            len_code(lm.z0@.len() as u64),
        ) by {
            lemma_last_msg_parts(s, p0, lm, q, qn, kz, kg);
        }
    }
    let z0_len = match read_count(r) {
        Ok(n) => n,
        Err(e) => {
            proof {
                assert forall|lm: IterationLastMsg| !#[trigger] last_msg_at(s, p0, lm, q, qn, kz, kg) by {
                    if last_msg_at(s, p0, lm, q, qn, kz, kg) {
                        assert(code_at(s, p0, len_code(lm.z0@.len() as u64)));
                    }
                }
            }
            return Err(e);
        },
    };
    let ghost p1 = r.position();
    proof {
        assert forall|lm: IterationLastMsg| #[trigger] last_msg_at(s, p0, lm, q, qn, kz, kg) implies z0_len
            == lm.z0@.len() && gauss_at(s, p1, lm.z0@, q, kz) by {
            lemma_last_msg_parts(s, p0, lm, q, qn, kz, kg);
            assert(code_at(s, p0, len_code(lm.z0@.len() as u64)));
        }
    }
    let z0 = match read_gauss_vec(r, z0_len, q, kz) {
        Ok(v) => v,
        Err(e) => {
            proof {
                assert forall|lm: IterationLastMsg| !#[trigger] last_msg_at(s, p0, lm, q, qn, kz, kg) by {
                    if last_msg_at(s, p0, lm, q, qn, kz, kg) {
                        assert(gauss_at(s, p1, lm.z0@, q, kz));
                    }
                }
            }
            return Err(e);
        },
    };
    let ghost p2 = r.position();
    proof {
        assert forall|lm: IterationLastMsg| #[trigger] last_msg_at(s, p0, lm, q, qn, kz, kg) implies z0@ == lm.z0@
            && code_at(s, p2, len_code(lm.z1@.len() as u64)) by {
            lemma_last_msg_parts(s, p0, lm, q, qn, kz, kg);
            assert(gauss_at(s, p1, lm.z0@, q, kz));
        }
    }
    let z1_len = match read_count(r) {
        Ok(n) => n,
        Err(e) => {
            proof {
                assert forall|lm: IterationLastMsg| !#[trigger] last_msg_at(s, p0, lm, q, qn, kz, kg) by {
                    if last_msg_at(s, p0, lm, q, qn, kz, kg) {
                        assert(code_at(s, p2, len_code(lm.z1@.len() as u64)));
                    }
                }
            }
            return Err(e);
        },
    };
    let ghost p3 = r.position();
    proof {
        assert forall|lm: IterationLastMsg| #[trigger] last_msg_at(s, p0, lm, q, qn, kz, kg) implies z1_len
            == lm.z1@.len() && gauss_at(s, p3, lm.z1@, q, kz) by {
            lemma_last_msg_parts(s, p0, lm, q, qn, kz, kg);
            assert(gauss_at(s, p1, lm.z0@, q, kz));
            assert(code_at(s, p2, len_code(lm.z1@.len() as u64)));
        }
    }
    let z1 = match read_gauss_vec(r, z1_len, q, kz) {
        Ok(v) => v,
        Err(e) => {
            proof {
                assert forall|lm: IterationLastMsg| !#[trigger] last_msg_at(s, p0, lm, q, qn, kz, kg) by {
                    if last_msg_at(s, p0, lm, q, qn, kz, kg) {
                        assert(gauss_at(s, p3, lm.z1@, q, kz));
                    }
                }
            }
            return Err(e);
        },
    };
    let ghost p4 = r.position();
    proof {
        assert forall|lm: IterationLastMsg| #[trigger] last_msg_at(s, p0, lm, q, qn, kz, kg) implies z1@ == lm.z1@
            && code_at(s, p4, len_code(lm.v@.len() as u64)) by {
            lemma_last_msg_parts(s, p0, lm, q, qn, kz, kg);
            assert(gauss_at(s, p1, lm.z0@, q, kz));
            assert(gauss_at(s, p3, lm.z1@, q, kz));
        }
    }
    let rv = match read_count(r) {
        Ok(n) => n,
        Err(e) => {
            proof {
                assert forall|lm: IterationLastMsg| !#[trigger] last_msg_at(s, p0, lm, q, qn, kz, kg) by {
                    if last_msg_at(s, p0, lm, q, qn, kz, kg) {
                        assert(code_at(s, p4, len_code(lm.v@.len() as u64)));
                    }
                }
            }
            return Err(e);
        },
    };
    let ghost p5 = r.position();
    proof {
        assert forall|lm: IterationLastMsg| #[trigger] last_msg_at(s, p0, lm, q, qn, kz, kg) implies rv
            == lm.v@.len() && code_at(s, p5, len_code(first_row_len(lm.v@) as u64)) by {
            lemma_last_msg_parts(s, p0, lm, q, qn, kz, kg);
            assert(gauss_at(s, p1, lm.z0@, q, kz));
            assert(gauss_at(s, p3, lm.z1@, q, kz));
            assert(code_at(s, p4, len_code(lm.v@.len() as u64)));
        }
    }
    let kappa = match read_count(r) {
        Ok(n) => n,
        Err(e) => {
            proof {
                assert forall|lm: IterationLastMsg| !#[trigger] last_msg_at(s, p0, lm, q, qn, kz, kg) by {
                    if last_msg_at(s, p0, lm, q, qn, kz, kg) {
                        assert(code_at(s, p5, len_code(first_row_len(lm.v@) as u64)));
                    }
                }
            }
            return Err(e);
        },
    };
    let ghost p6 = r.position();
    proof {
        assert forall|lm: IterationLastMsg| #[trigger] last_msg_at(s, p0, lm, q, qn, kz, kg) implies kappa
            == first_row_len(lm.v@) && code_at(s, p6, cat(row_bits(lm.v@, qn), lm.v@.len())) by {
            lemma_last_msg_parts(s, p0, lm, q, qn, kz, kg);
            assert(gauss_at(s, p1, lm.z0@, q, kz));
            assert(gauss_at(s, p3, lm.z1@, q, kz));
            assert(code_at(s, p5, len_code(first_row_len(lm.v@) as u64)));
        }
    }
    let mut v: Vec<Vec<RingElem>> = Vec::new();
    assert(rows_view(v@) =~= Seq::<Seq<RingElem>>::empty());
    for i in 0..rv
        invariant
            r.wf(),
            qb <= 64,
            qn == qb as nat,
            r.stream() == s,
            s == old(r).stream(),
            p0 == old(r).position(),
            v@.len() == i,
            forall|ii: int| 0 <= ii < i ==> (#[trigger] v@[ii])@.len() == kappa,
            forall|lm: IterationLastMsg|
                #[trigger] last_msg_at(s, p0, lm, q, qn, kz, kg) ==> rv == lm.v@.len() && kappa == first_row_len(
                    lm.v@,
                ) && code_at(s, p6, cat(row_bits(lm.v@, qn), lm.v@.len())) && rows_view(v@) == rows_view(
                    lm.v@,
                ).subrange(0, i as int) && r.position() == p6 + cat(row_bits(lm.v@, qn), i as nat).len(),
    {
        let ghost pos = r.position();
        proof {
            assert forall|lm: IterationLastMsg| #[trigger] last_msg_at(s, p0, lm, q, qn, kz, kg) implies elems_packed_at(
                s,
                pos,
                lm.v@[i as int]@,
                qn,
            ) && lm.v@[i as int]@.len() == kappa by {
                lemma_code_at_cat(s, p6, row_bits(lm.v@, qn), lm.v@.len(), i as nat);
                assert(forall|j: int, c: int|
                    0 <= j < lm.v@[i as int]@.len() && 0 <= c < D ==> (#[trigger] lm.v@[i as int]@[j].c[c] as nat)
                        < pow2(qn));
            }
        }
        let row = match read_elems_packed(r, kappa, qb) {
            Ok(row) => row,
            Err(e) => {
                proof {
                    assert forall|lm: IterationLastMsg| !#[trigger] last_msg_at(s, p0, lm, q, qn, kz, kg) by {
                        if last_msg_at(s, p0, lm, q, qn, kz, kg) {
                            assert(elems_packed_at(s, pos, lm.v@[i as int]@, qn));
                        }
                    }
                }
                return Err(e);
            },
        };
        let ghost before = v@;
        v.push(row);
        proof {
            assert forall|lm: IterationLastMsg| #[trigger] last_msg_at(s, p0, lm, q, qn, kz, kg) implies rows_view(v@)
                == rows_view(lm.v@).subrange(0, i + 1) && r.position() == p6 + cat(row_bits(lm.v@, qn), (i + 1) as nat).len() by {
                assert(elems_packed_at(s, pos, lm.v@[i as int]@, qn));
                lemma_elems_len(lm.v@[i as int]@, qn);
                assert(rows_view(v@) =~= rows_view(lm.v@).subrange(0, i + 1));
                assert(cat(row_bits(lm.v@, qn), (i + 1) as nat) == cat(row_bits(lm.v@, qn), i as nat) + row_bits(
                    lm.v@,
                    qn,
                )(i as int));
            }
        }
    }
    let ghost p7 = r.position();
    proof {
        assert forall|lm: IterationLastMsg| #[trigger] last_msg_at(s, p0, lm, q, qn, kz, kg) implies rows_view(v@)
            == rows_view(lm.v@) && code_at(s, p7, len_code(lm.g@.len() as u64)) by {
            lemma_last_msg_parts(s, p0, lm, q, qn, kz, kg);
            assert(gauss_at(s, p1, lm.z0@, q, kz));
            assert(gauss_at(s, p3, lm.z1@, q, kz));
            assert(rows_view(lm.v@).subrange(0, lm.v@.len() as int) =~= rows_view(lm.v@));
        }
    }
    let r_g = match read_count(r) {
        Ok(n) => n,
        Err(e) => {
            proof {
                assert forall|lm: IterationLastMsg| !#[trigger] last_msg_at(s, p0, lm, q, qn, kz, kg) by {
                    if last_msg_at(s, p0, lm, q, qn, kz, kg) {
                        assert(code_at(s, p7, len_code(lm.g@.len() as u64)));
                    }
                }
            }
            return Err(e);
        },
    };
    let ghost p8 = r.position();
    proof {
        assert forall|lm: IterationLastMsg| #[trigger] last_msg_at(s, p0, lm, q, qn, kz, kg) implies r_g
            == lm.g@.len() && gauss_upper_at(s, p8, lm.g@, q, kg) by {
            lemma_last_msg_parts(s, p0, lm, q, qn, kz, kg);
            assert(gauss_at(s, p1, lm.z0@, q, kz));
            assert(gauss_at(s, p3, lm.z1@, q, kz));
            assert(code_at(s, p7, len_code(lm.g@.len() as u64)));
        }
    }
    let g = match read_gauss_upper(r, r_g, q, kg) {
        Ok(g) => g,
        Err(e) => {
            proof {
                assert forall|lm: IterationLastMsg| !#[trigger] last_msg_at(s, p0, lm, q, qn, kz, kg) by {
                    if last_msg_at(s, p0, lm, q, qn, kz, kg) {
                        assert(gauss_upper_at(s, p8, lm.g@, q, kg));
                    }
                }
            }
            return Err(e);
        },
    };
    let ghost p9 = r.position();
    proof {
        assert forall|lm: IterationLastMsg| #[trigger] last_msg_at(s, p0, lm, q, qn, kz, kg) implies rows_view(g@)
            == rows_view(lm.g@) && code_at(s, p9, len_code(lm.h@.len() as u64)) by {
            lemma_last_msg_parts(s, p0, lm, q, qn, kz, kg);
            assert(gauss_at(s, p1, lm.z0@, q, kz));
            assert(gauss_at(s, p3, lm.z1@, q, kz));
            assert(gauss_upper_at(s, p8, lm.g@, q, kg));
        }
    }
    let r_h = match read_count(r) {
        Ok(n) => n,
        Err(e) => {
            proof {
                assert forall|lm: IterationLastMsg| !#[trigger] last_msg_at(s, p0, lm, q, qn, kz, kg) by {
                    if last_msg_at(s, p0, lm, q, qn, kz, kg) {
                        assert(code_at(s, p9, len_code(lm.h@.len() as u64)));
                    }
                }
            }
            return Err(e);
        },
    };
    let ghost p10 = r.position();
    proof {
        assert forall|lm: IterationLastMsg| #[trigger] last_msg_at(s, p0, lm, q, qn, kz, kg) implies r_h
            == lm.h@.len() && upper_packed_at(s, p10, lm.h@, qn) by {
            lemma_last_msg_parts(s, p0, lm, q, qn, kz, kg);
            assert(gauss_at(s, p1, lm.z0@, q, kz));
            assert(gauss_at(s, p3, lm.z1@, q, kz));
            assert(gauss_upper_at(s, p8, lm.g@, q, kg));
            assert(code_at(s, p9, len_code(lm.h@.len() as u64)));
        }
    }
    let h = match read_upper(r, r_h, false, q, kg, qb) {
        Ok(h) => h,
        Err(e) => {
            proof {
                assert forall|lm: IterationLastMsg| !#[trigger] last_msg_at(s, p0, lm, q, qn, kz, kg) by {
                    if last_msg_at(s, p0, lm, q, qn, kz, kg) {
                        assert(upper_packed_at(s, p10, lm.h@, qn));
                    }
                }
            }
            return Err(e);
        },
    };
    let lm = IterationLastMsg { z0, z1, v, g, h };
    assert(forall|i: int| 0 <= i < lm.v@.len() ==> (#[trigger] lm.v@[i])@.len() == first_row_len(lm.v@));
    proof {
        assert forall|lm2: IterationLastMsg| #[trigger] last_msg_at(s, p0, lm2, q, qn, kz, kg) implies same_last_msg(
            lm,
            lm2,
        ) && r.position() == p0 + last_msg_code(lm2, q, qn, kz, kg).len() by {
            lemma_last_msg_parts(s, p0, lm2, q, qn, kz, kg);
            assert(upper_packed_at(s, p10, lm2.h@, qn));
        }
    }
    Ok(lm)
}

/// Every element of `v` fits `qb` bits, and the list is shorter than `2^63`.
pub open spec fn elems_fit(v: Seq<RingElem>, qb: nat) -> bool {
    &&& v.len() <= usize::MAX
    &&& forall|i: int, c: int| 0 <= i < v.len() && 0 <= c < D ==> (#[trigger] v[i].c[c] as nat) < pow2(qb)
}

/// An iteration, coded with parameters `c`, stands at `p`, and every part
/// of it can be read back: packed elements fit `qb` bits, projection
/// entries fit `i64` and the reader's unary limit, every list length fits
/// the address space, and an opening, if any, can be read back.
pub open spec fn iter_at(s: Seq<bool>, p: int, it: IterationProofV2, q: u64, qb: nat, c: IterCoding) -> bool {
    &&& code_at(s, p, iter_code(it, q, qb, c))
    &&& iter_fits(it, q, qb, c)
}

/// Every part of the iteration `it` can be read back from its code.
pub open spec fn iter_fits(it: IterationProofV2, q: u64, qb: nat, c: IterCoding) -> bool {
    &&& (it.last_msg matches Some(lm) ==> last_msg_fits(lm, q, qb, c.k_z, c.k_g))
    &&& elems_fit(it.u1@, qb)
    &&& elems_fit(it.b_double_prime@, qb)
    &&& elems_fit(it.u2@, qb)
    &&& it.p@.len() <= usize::MAX
    &&& forall|j: int|
        0 <= j < it.p@.len() ==> i64::MIN <= #[trigger] it.p@[j] <= i64::MAX && (zigzag_spec(it.p@[j] as int)
            as u64) >> (c.k_p as u64) <= GR_MAX_UNARY
}

/// Two iterations hold the same lists and the same opening, if any.
pub open spec fn same_iter(a: IterationProofV2, b: IterationProofV2) -> bool {
    &&& a.u1@ == b.u1@
    &&& a.p@ == b.p@
    &&& a.b_double_prime@ == b.b_double_prime@
    &&& a.u2@ == b.u2@
    &&& match (a.last_msg, b.last_msg) {
        (None, None) => true,
        (Some(x), Some(y)) => same_last_msg(x, y),
        _ => false,
    }
}

/// The code of an iteration's opening, if any.
pub open spec fn opening_code(it: IterationProofV2, q: u64, qb: nat, c: IterCoding) -> Seq<bool> {
    match it.last_msg {
        Some(lm) => last_msg_code(lm, q, qb, c.k_z, c.k_g),
        None => Seq::empty(),
    }
}

/// The parts of an iteration's code, each where it stands.
proof fn lemma_iter_parts(s: Seq<bool>, p: int, it: IterationProofV2, q: u64, qb: nat, c: IterCoding)
    requires
        iter_at(s, p, it, q, qb, c),
    ensures
        ({
            let l1 = len_code(it.u1@.len() as u64);
            let e1 = elems_code(it.u1@, qb);
            let l2 = len_code(it.p@.len() as u64);
            let pc = cat(p_bits(it.p@, c.k_p), it.p@.len());
            let l3 = len_code(it.b_double_prime@.len() as u64);
            let e3 = elems_code(it.b_double_prime@, qb);
            let l4 = len_code(it.u2@.len() as u64);
            let e4 = elems_code(it.u2@, qb);
            let p1 = p + l1.len();
            let p2 = p1 + e1.len();
            let p3 = p2 + l2.len();
            let p4 = p3 + pc.len();
            let p5 = p4 + l3.len();
            let p6 = p5 + e3.len();
            let p7 = p6 + l4.len();
            let p8 = p7 + e4.len();
            &&& code_at(s, p, l1)
            &&& elems_packed_at(s, p1, it.u1@, qb)
            &&& code_at(s, p2, l2)
            &&& projection_at(s, p3, it.p@, c.k_p)
            &&& code_at(s, p4, l3)
            &&& elems_packed_at(s, p5, it.b_double_prime@, qb)
            &&& code_at(s, p6, l4)
            &&& elems_packed_at(s, p7, it.u2@, qb)
            &&& code_at(s, p8, seq![it.last_msg is Some])
            &&& code_at(s, p8 + 1, opening_code(it, q, qb, c))
            &&& p8 + 1 + opening_code(it, q, qb, c).len() == p + iter_code(it, q, qb, c).len()
        }),
{
    let l1 = len_code(it.u1@.len() as u64);
    let e1 = elems_code(it.u1@, qb);
    let l2 = len_code(it.p@.len() as u64);
    let pc = cat(p_bits(it.p@, c.k_p), it.p@.len());
    let l3 = len_code(it.b_double_prime@.len() as u64);
    let e3 = elems_code(it.b_double_prime@, qb);
    let l4 = len_code(it.u2@.len() as u64);
    let e4 = elems_code(it.u2@, qb);
    let a1 = l1 + e1;
    let a2 = a1 + l2;
    let a3 = a2 + pc;
    let a4 = a3 + l3;
    let a5 = a4 + e3;
    let a6 = a5 + l4;
    let a7 = a6 + e4;
    let a8 = a7 + seq![it.last_msg is Some];
    assert(iter_code(it, q, qb, c) =~= a8 + opening_code(it, q, qb, c));
    lemma_code_at_split(s, p, a8, opening_code(it, q, qb, c));
    lemma_code_at_split(s, p, a7, seq![it.last_msg is Some]);
    lemma_code_at_split(s, p, a6, e4);
    lemma_code_at_split(s, p, a5, l4);
    lemma_code_at_split(s, p, a4, e3);
    lemma_code_at_split(s, p, a3, l3);
    lemma_code_at_split(s, p, a2, pc);
    lemma_code_at_split(s, p, a1, l2);
    lemma_code_at_split(s, p, l1, e1);
}

/// Read an iteration proof.
#[verifier::spinoff_prover]
#[verifier::rlimit(100)]
pub fn read_iter(r: &mut BitReader, q: u64, qb: u32, c: IterCoding) -> (res: Result<IterationProofV2, WireError>)
    requires
        old(r).wf(),
        q > 0,
        qb <= 64,
        c.wf(),
    ensures
        final(r).wf(),
        final(r).stream() == old(r).stream(),
        res matches Ok(it) ==> (it.last_msg matches Some(lm) ==> last_msg_shape(lm, q)),
        forall|it: IterationProofV2|
            #[trigger] iter_at(old(r).stream(), old(r).position(), it, q, qb as nat, c) ==> (res matches Ok(
                it2,
            ) && same_iter(it2, it) && final(r).position() == old(r).position() + iter_code(it, q, qb as nat, c).len()),
{
    let ghost s = r.stream();
    let ghost p0 = r.position();
    proof {
        assert forall|it: IterationProofV2| #[trigger] iter_at(s, p0, it, q, qb as nat, c) implies code_at(
            s,
            p0,
            len_code(it.u1@.len() as u64),
        ) by {
            lemma_iter_parts(s, p0, it, q, qb as nat, c);
        }
    }
    let u1_len = match read_count(r) {
        Ok(n) => n,
        Err(e) => {
            proof {
                assert forall|it: IterationProofV2| !#[trigger] iter_at(s, p0, it, q, qb as nat, c) by {
                    if iter_at(s, p0, it, q, qb as nat, c) {
                        lemma_iter_parts(s, p0, it, q, qb as nat, c);
                    }
                }
            }
            return Err(e);
        },
    };
    let ghost p1 = r.position();
    proof {
        assert forall|it: IterationProofV2| #[trigger] iter_at(s, p0, it, q, qb as nat, c) implies u1_len
            == it.u1@.len() && elems_packed_at(s, p1, it.u1@, qb as nat) by {
            lemma_iter_parts(s, p0, it, q, qb as nat, c);
        }
    }
    let u1 = match read_elems_packed(r, u1_len, qb) {
        Ok(v) => v,
        Err(e) => {
            proof {
                assert forall|it: IterationProofV2| !#[trigger] iter_at(s, p0, it, q, qb as nat, c) by {
                    if iter_at(s, p0, it, q, qb as nat, c) {
                        assert(elems_packed_at(s, p1, it.u1@, qb as nat));
                    }
                }
            }
            return Err(e);
        },
    };
    let ghost p2 = r.position();
    proof {
        assert forall|it: IterationProofV2| #[trigger] iter_at(s, p0, it, q, qb as nat, c) implies u1@
            == it.u1@ && code_at(s, p2, len_code(it.p@.len() as u64)) by {
            lemma_iter_parts(s, p0, it, q, qb as nat, c);
            assert(elems_packed_at(s, p1, it.u1@, qb as nat));
            lemma_elems_len(it.u1@, qb as nat);
        }
    }
    let p_len = match read_count(r) {
        Ok(n) => n,
        Err(e) => {
            proof {
                assert forall|it: IterationProofV2| !#[trigger] iter_at(s, p0, it, q, qb as nat, c) by {
                    if iter_at(s, p0, it, q, qb as nat, c) {
                        assert(code_at(s, p2, len_code(it.p@.len() as u64)));
                    }
                }
            }
            return Err(e);
        },
    };
    let ghost p3 = r.position();
    proof {
        assert forall|it: IterationProofV2| #[trigger] iter_at(s, p0, it, q, qb as nat, c) implies p_len
            == it.p@.len() && projection_at(s, p3, it.p@, c.k_p) by {
            lemma_iter_parts(s, p0, it, q, qb as nat, c);
            assert(code_at(s, p2, len_code(it.p@.len() as u64)));
            lemma_elems_len(it.u1@, qb as nat);
        }
    }
    let p = match read_projection(r, p_len, c.k_p) {
        Ok(v) => v,
        Err(e) => {
            proof {
                assert forall|it: IterationProofV2| !#[trigger] iter_at(s, p0, it, q, qb as nat, c) by {
                    if iter_at(s, p0, it, q, qb as nat, c) {
                        assert(projection_at(s, p3, it.p@, c.k_p));
                    }
                }
            }
            return Err(e);
        },
    };
    let ghost p4 = r.position();
    proof {
        assert forall|it: IterationProofV2| #[trigger] iter_at(s, p0, it, q, qb as nat, c) implies p@
            == it.p@ && code_at(s, p4, len_code(it.b_double_prime@.len() as u64)) by {
            lemma_iter_parts(s, p0, it, q, qb as nat, c);
            assert(projection_at(s, p3, it.p@, c.k_p));
            lemma_elems_len(it.u1@, qb as nat);
        }
    }
    let b_len = match read_count(r) {
        Ok(n) => n,
        Err(e) => {
            proof {
                assert forall|it: IterationProofV2| !#[trigger] iter_at(s, p0, it, q, qb as nat, c) by {
                    if iter_at(s, p0, it, q, qb as nat, c) {
                        assert(code_at(s, p4, len_code(it.b_double_prime@.len() as u64)));
                    }
                }
            }
            return Err(e);
        },
    };
    let ghost p5 = r.position();
    proof {
        assert forall|it: IterationProofV2| #[trigger] iter_at(s, p0, it, q, qb as nat, c) implies b_len
            == it.b_double_prime@.len() && elems_packed_at(s, p5, it.b_double_prime@, qb as nat) by {
            lemma_iter_parts(s, p0, it, q, qb as nat, c);
            assert(code_at(s, p4, len_code(it.b_double_prime@.len() as u64)));
            lemma_elems_len(it.u1@, qb as nat);
        }
    }
    let b_double_prime = match read_elems_packed(r, b_len, qb) {
        Ok(v) => v,
        Err(e) => {
            proof {
                assert forall|it: IterationProofV2| !#[trigger] iter_at(s, p0, it, q, qb as nat, c) by {
                    if iter_at(s, p0, it, q, qb as nat, c) {
                        assert(elems_packed_at(s, p5, it.b_double_prime@, qb as nat));
                    }
                }
            }
            return Err(e);
        },
    };
    let ghost p6 = r.position();
    proof {
        assert forall|it: IterationProofV2| #[trigger] iter_at(s, p0, it, q, qb as nat, c) implies b_double_prime@
            == it.b_double_prime@ && code_at(s, p6, len_code(it.u2@.len() as u64)) by {
            lemma_iter_parts(s, p0, it, q, qb as nat, c);
            assert(elems_packed_at(s, p5, it.b_double_prime@, qb as nat));
            lemma_elems_len(it.u1@, qb as nat);
            lemma_elems_len(it.b_double_prime@, qb as nat);
        }
    }
    let u2_len = match read_count(r) {
        Ok(n) => n,
        Err(e) => {
            proof {
                assert forall|it: IterationProofV2| !#[trigger] iter_at(s, p0, it, q, qb as nat, c) by {
                    if iter_at(s, p0, it, q, qb as nat, c) {
                        assert(code_at(s, p6, len_code(it.u2@.len() as u64)));
                    }
                }
            }
            return Err(e);
        },
    };
    let ghost p7 = r.position();
    proof {
        assert forall|it: IterationProofV2| #[trigger] iter_at(s, p0, it, q, qb as nat, c) implies u2_len
            == it.u2@.len() && elems_packed_at(s, p7, it.u2@, qb as nat) by {
            lemma_iter_parts(s, p0, it, q, qb as nat, c);
            assert(code_at(s, p6, len_code(it.u2@.len() as u64)));
            lemma_elems_len(it.u1@, qb as nat);
            lemma_elems_len(it.b_double_prime@, qb as nat);
        }
    }
    let u2 = match read_elems_packed(r, u2_len, qb) {
        Ok(v) => v,
        Err(e) => {
            proof {
                assert forall|it: IterationProofV2| !#[trigger] iter_at(s, p0, it, q, qb as nat, c) by {
                    if iter_at(s, p0, it, q, qb as nat, c) {
                        assert(elems_packed_at(s, p7, it.u2@, qb as nat));
                    }
                }
            }
            return Err(e);
        },
    };
    let ghost p8 = r.position();
    proof {
        assert forall|it: IterationProofV2| #[trigger] iter_at(s, p0, it, q, qb as nat, c) implies u2@
            == it.u2@ && code_at(s, p8, seq![it.last_msg is Some]) by {
            lemma_iter_parts(s, p0, it, q, qb as nat, c);
            assert(elems_packed_at(s, p7, it.u2@, qb as nat));
            lemma_elems_len(it.u1@, qb as nat);
            lemma_elems_len(it.b_double_prime@, qb as nat);
            lemma_elems_len(it.u2@, qb as nat);
        }
    }
    let has = match r.read_bits(1) {
        Ok(b) => b,
        Err(e) => {
            proof {
                assert forall|it: IterationProofV2| !#[trigger] iter_at(s, p0, it, q, qb as nat, c) by {
                    if iter_at(s, p0, it, q, qb as nat, c) {
                        assert(code_at(s, p8, seq![it.last_msg is Some]));
                    }
                }
            }
            return Err(e);
        },
    };
    proof {
        assert forall|it: IterationProofV2| #[trigger] iter_at(s, p0, it, q, qb as nat, c) implies has == (if it.last_msg is Some {
            1u64
        } else {
            0u64
        }) && (it.last_msg matches Some(lm) ==> last_msg_at(s, p8 + 1, lm, q, qb as nat, c.k_z, c.k_g)) && p8 + 1
            + opening_code(it, q, qb as nat, c).len() == p0 + iter_code(it, q, qb as nat, c).len() by {
            lemma_iter_parts(s, p0, it, q, qb as nat, c);
            assert(elems_packed_at(s, p7, it.u2@, qb as nat));
            lemma_elems_len(it.u1@, qb as nat);
            lemma_elems_len(it.b_double_prime@, qb as nat);
            lemma_elems_len(it.u2@, qb as nat);
            assert(code_at(s, p8, seq![it.last_msg is Some]));
            let sub = s.subrange(p8, p8 + 1);
            assert(sub[0] == (it.last_msg is Some));
            assert(bits_value(sub, 0) == 0);
            vstd::arithmetic::power2::lemma2_to64();
            assert(bits_value(sub, 1) == if it.last_msg is Some { 1nat } else { 0nat });
        }
    }
    let last_msg = if has == 1 {
        match read_last_msg(r, q, qb, c.k_z, c.k_g) {
            Ok(lm) => Some(lm),
            Err(e) => {
                proof {
                    assert forall|it: IterationProofV2| !#[trigger] iter_at(s, p0, it, q, qb as nat, c) by {
                        if iter_at(s, p0, it, q, qb as nat, c) {
                            let lm = it.last_msg->0;
                            assert(last_msg_at(s, p8 + 1, lm, q, qb as nat, c.k_z, c.k_g));
                        }
                    }
                }
                return Err(e);
            },
        }
    } else {
        None
    };
    proof {
        assert forall|it: IterationProofV2| #[trigger] iter_at(s, p0, it, q, qb as nat, c) implies (match (last_msg, it.last_msg) {
            (None, None) => true,
            (Some(x), Some(y)) => same_last_msg(x, y),
            _ => false,
        }) && r.position() == p0 + iter_code(it, q, qb as nat, c).len() by {
            if has == 1 {
                let lm = it.last_msg->0;
                assert(last_msg_at(s, p8 + 1, lm, q, qb as nat, c.k_z, c.k_g));
            }
        }
    }
    Ok(IterationProofV2 { u1, p, b_double_prime, u2, last_msg })
}

// ---------------------------------------------------------------------------
// Whole proofs
// ---------------------------------------------------------------------------

/// `⌈log₂ q⌉`, the bits per packed coefficient.
pub open spec fn qbits(q: u64) -> nat {
    choose|e: nat| is_ceil_log2(e, q as int)
}

/// `qbits` is the one `⌈log₂ q⌉`.
proof fn lemma_qbits(q: u64, e: nat)
    requires
        is_ceil_log2(e, q as int),
    ensures
        qbits(q) == e,
{
    lemma_ceil_log2_unique(qbits(q), e, q as int);
}

/// Iteration `k` of the intermediate ones coded with its parameters.
pub open spec fn inter_bits(p: AggregateProofV2, cs: Seq<IterCoding>, qb: nat) -> spec_fn(int) -> Seq<bool> {
    |k: int| iter_code(p.intermediate@[k], p.q_prime, qb, cs[k])
}

/// The payload bits of a proof: the intermediate iterations, then the final
/// one, each with its own Golomb–Rice parameters.
pub open spec fn proof_code(p: AggregateProofV2, cs: Seq<IterCoding>, qb: nat) -> Seq<bool> {
    cat(inter_bits(p, cs, qb), p.intermediate@.len()) + iter_code(
        p.final_iter,
        p.q_prime,
        qb,
        cs[p.intermediate@.len() as int],
    )
}

/// The fixed header: `q'`, the number of signatures, `β²`, the number of
/// intermediate iterations and the payload length in bytes.
pub open spec fn header_bytes(p: AggregateProofV2, payload_len: nat) -> Seq<u8> {
    le64(p.q_prime) + le64(p.n_sigs as u64) + le128(p.beta_sq) + le64(p.intermediate@.len() as u64) + le64(
        payload_len as u64,
    )
}

/// The openings of a proof can be written: intermediate iterations carry
/// none, the final one carries one whose `g` and `h` are square.
pub open spec fn packable(p: AggregateProofV2) -> bool {
    &&& forall|k: int| 0 <= k < p.intermediate@.len() ==> (#[trigger] p.intermediate@[k]).last_msg is None
    &&& p.final_iter.last_msg matches Some(lm) && {
        &&& forall|i: int| 0 <= i < lm.g@.len() ==> (#[trigger] lm.g@[i])@.len() == lm.g@.len()
        &&& forall|i: int| 0 <= i < lm.h@.len() ==> (#[trigger] lm.h@[i])@.len() == lm.h@.len()
    }
}

/// Append `bytes` to `out`.
fn push_bytes(out: &mut Vec<u8>, bytes: &[u8])
    ensures
        final(out)@ == old(out)@ + bytes@,
{
    let ghost start = out@;
    for i in 0..bytes.len()
        invariant
            out@ == start + bytes@.subrange(0, i as int),
    {
        out.push(bytes[i]);
        assert(out@ =~= start + bytes@.subrange(0, i + 1));
    }
    assert(bytes@.subrange(0, bytes@.len() as int) =~= bytes@);
}

/// Write the intermediate iterations, each with its parameters.
#[verifier::spinoff_prover]
fn write_intermediates(bw: &mut BitWriter, p: &AggregateProofV2, codings: &Vec<IterCoding>, qb: u32)
    requires
        old(bw).wf(),
        old(bw).bits().len() == 0,
        qb <= 64,
        codings@.len() == p.intermediate@.len() + 1,
        forall|k: int| 0 <= k < codings@.len() ==> (#[trigger] codings@[k]).wf(),
        forall|k: int| 0 <= k < p.intermediate@.len() ==> (#[trigger] p.intermediate@[k]).last_msg is None,
        proof_code(*p, codings@, qb as nat).len() + 71 <= usize::MAX,
    ensures
        final(bw).wf(),
        final(bw).bits() == cat(inter_bits(*p, codings@, qb as nat), p.intermediate@.len()),
{
    let q = p.q_prime;
    let ghost f = inter_bits(*p, codings@, qb as nat);
    let ghost bound = cat(f, p.intermediate@.len()).len();
    assert(bw.bits() =~= cat(f, 0));
    for k in 0..p.intermediate.len()
        invariant
            bw.wf(),
            qb <= 64,
            q == p.q_prime,
            codings@.len() == p.intermediate@.len() + 1,
            forall|k: int| 0 <= k < codings@.len() ==> (#[trigger] codings@[k]).wf(),
            forall|k: int| 0 <= k < p.intermediate@.len() ==> (#[trigger] p.intermediate@[k]).last_msg is None,
            f == inter_bits(*p, codings@, qb as nat),
            bound == cat(f, p.intermediate@.len()).len(),
            bound + 71 <= usize::MAX,
            bw.bits() == cat(f, k as nat),
    {
        proof {
            lemma_cat_mono(f, (k + 1) as nat, p.intermediate@.len());
            assert(f(k as int) == iter_code(p.intermediate@[k as int], q, qb as nat, codings@[k as int]));
        }
        write_iter(bw, &p.intermediate[k], q, qb, codings[k], false);
        proof {
            assert(bw.bits() =~= cat(f, (k + 1) as nat));
        }
    }
}

/// Pack a proof: the header, then the payload bit stream padded to whole
/// bytes; `codings[k]` gives the Golomb–Rice parameters of iteration `k`.
pub fn pack(p: &AggregateProofV2, codings: &Vec<IterCoding>) -> (out: Vec<u8>)
    requires
        codings@.len() == p.intermediate@.len() + 1,
        forall|k: int| 0 <= k < codings@.len() ==> (#[trigger] codings@[k]).wf(),
        packable(*p),
        proof_code(*p, codings@, qbits(p.q_prime)).len() + 71 <= usize::MAX,
    ensures
        packed_bytes(*p, codings@, out@),
{
    let q = p.q_prime;
    let qb = ceil_log2(q);
    proof {
        lemma_qbits(q, qb as nat);
    }
    let mut bw = BitWriter::new();
    let ghost total = proof_code(*p, codings@, qb as nat);
    write_intermediates(&mut bw, p, codings, qb);
    let last = p.intermediate.len();
    write_iter(&mut bw, &p.final_iter, q, qb, codings[last], true);
    assert(bw.bits() =~= total);
    let payload = bw.finish();
    let mut out: Vec<u8> = Vec::new();
    push_bytes(&mut out, &u64_le_bytes(q));
    push_bytes(&mut out, &u64_le_bytes(p.n_sigs as u64));
    push_bytes(&mut out, &i128_le_bytes(p.beta_sq));
    push_bytes(&mut out, &u64_le_bytes(p.intermediate.len() as u64));
    push_bytes(&mut out, &u64_le_bytes(payload.len() as u64));
    let ghost head = out@;
    push_bytes(&mut out, payload.as_slice());
    assert(out@.subrange(0, 48) =~= head);
    assert(out@.subrange(48, out@.len() as int) =~= payload@);
    out
}

/// The fixed header of a packed proof.
#[derive(Clone, Copy, Debug)]
pub struct WireHeader {
    /// The LaBRADOR modulus `q'`.
    pub q_prime: u64,
    /// Number of aggregated signatures.
    pub n_sigs: usize,
    /// Norm bound `β²` of the first statement.
    pub beta_sq: i128,
    /// Number of intermediate iterations.
    pub n_intermediate: usize,
    /// Length of the payload in bytes.
    pub payload_len: usize,
}

/// Length of the fixed header in bytes.
pub const HEADER_LEN: usize = 48;

/// The two's-complement value of 16 little-endian bytes.
pub open spec fn le_i128(b: Seq<u8>) -> int {
    let v = le_value(b.subrange(0, 8), 8) + le_value(b.subrange(8, 16), 8) * 0x1_0000_0000_0000_0000;
    if v < 0x8000_0000_0000_0000_0000_0000_0000_0000 {
        v
    } else {
        v - 0x1_0000_0000_0000_0000_0000_0000_0000_0000
    }
}

/// The little-endian `i128` stored at bytes `off..off+16` of `b`.
fn i128_from_le_at(b: &[u8], off: usize) -> (x: i128)
    requires
        off + 16 <= b@.len(),
    ensures
        x == le_i128(b@.subrange(off as int, off + 16)),
{
    let len = b.len();
    assert(off + 16 <= len);
    let lo = u64_from_le_at(b, off);
    let hi = u64_from_le_at(b, off + 8);
    let ghost w = b@.subrange(off as int, off + 16);
    assert(w.subrange(0, 8) =~= b@.subrange(off as int, off + 8));
    assert(w.subrange(8, 16) =~= b@.subrange(off + 8, off + 16));
    let u: u128 = (hi as u128) * 0x1_0000_0000_0000_0000u128 + (lo as u128);
    if u < 0x8000_0000_0000_0000_0000_0000_0000_0000u128 {
        u as i128
    } else {
        ((u - 0x8000_0000_0000_0000_0000_0000_0000_0000u128) as i128) - 0x7fff_ffff_ffff_ffff_ffff_ffff_ffff_ffffi128 - 1
    }
}

/// A header field as a `usize`.
fn field_count(x: u64) -> (res: Result<usize, WireError>)
    ensures
        x <= usize::MAX ==> res == Ok::<usize, WireError>(x as usize),
        x > usize::MAX ==> res == Err::<usize, WireError>(
            WireError::BadShape("header field beyond the address space"),
        ),
{
    if x > usize::MAX as u64 {
        Err(WireError::BadShape("header field beyond the address space"))
    } else {
        Ok(x as usize)
    }
}

/// Read the fixed header: `Truncated` if fewer than `HEADER_LEN` bytes.
pub fn read_header(bytes: &[u8]) -> (res: Result<WireHeader, WireError>)
    ensures
        bytes@.len() < HEADER_LEN ==> res matches Err(WireError::Truncated),
        res matches Ok(h) ==> header_read(bytes@, h),
{
    if bytes.len() < HEADER_LEN {
        return Err(WireError::Truncated);
    }
    let q_prime = u64_from_le_at(bytes, 0);
    let n_sigs = match field_count(u64_from_le_at(bytes, 8)) {
        Ok(n) => n,
        Err(e) => {
            return Err(e);
        },
    };
    let beta_sq = i128_from_le_at(bytes, 16);
    let n_intermediate = match field_count(u64_from_le_at(bytes, 32)) {
        Ok(n) => n,
        Err(e) => {
            return Err(e);
        },
    };
    let payload_len = match field_count(u64_from_le_at(bytes, 40)) {
        Ok(n) => n,
        Err(e) => {
            return Err(e);
        },
    };
    Ok(WireHeader { q_prime, n_sigs, beta_sq, n_intermediate, payload_len })
}

/// Bytes `from..to` of `bytes`.
fn byte_range(bytes: &[u8], from: usize, to: usize) -> (out: Vec<u8>)
    requires
        from <= to <= bytes@.len(),
    ensures
        out@ == bytes@.subrange(from as int, to as int),
{
    let mut out: Vec<u8> = Vec::new();
    for i in from..to
        invariant
            from <= to <= bytes@.len(),
            out@ == bytes@.subrange(from as int, i as int),
    {
        out.push(bytes[i]);
        assert(out@ =~= bytes@.subrange(from as int, i + 1));
    }
    out
}

/// What a decoded proof looks like: the header's fields, intermediate
/// iterations without openings, and a final one with a well-shaped opening.
pub open spec fn unpacked_shape(p: AggregateProofV2, h: WireHeader) -> bool {
    &&& p.q_prime == h.q_prime
    &&& p.n_sigs == h.n_sigs
    &&& p.beta_sq == h.beta_sq
    &&& p.intermediate@.len() == h.n_intermediate
    &&& forall|k: int| 0 <= k < p.intermediate@.len() ==> (#[trigger] p.intermediate@[k]).last_msg is None
    &&& p.final_iter.last_msg matches Some(lm) && last_msg_shape(lm, h.q_prime)
}

/// `bytes` with header `h` hold the packed proof `p`: the header carries
/// `p`'s fields, the payload holds `p`'s code from its first bit on, the
/// intermediate iterations carry no opening and the final one does, and
/// every iteration can be read back.
pub open spec fn unpacks_to(bytes: Seq<u8>, h: WireHeader, cs: Seq<IterCoding>, p: AggregateProofV2) -> bool {
    let qb = qbits(h.q_prime);
    &&& h.q_prime == p.q_prime
    &&& h.n_sigs == p.n_sigs
    &&& h.beta_sq == p.beta_sq
    &&& h.n_intermediate == p.intermediate@.len()
    &&& h.q_prime > 0
    &&& bytes.len() >= HEADER_LEN + h.payload_len
    &&& cs.len() == p.intermediate@.len() + 1
    &&& packable(p)
    &&& code_at(
        stream_bits(bytes.subrange(HEADER_LEN as int, HEADER_LEN + h.payload_len)),
        0,
        proof_code(p, cs, qb),
    )
    &&& forall|k: int|
        0 <= k < p.intermediate@.len() ==> iter_fits(#[trigger] p.intermediate@[k], p.q_prime, qb, cs[k])
    &&& iter_fits(p.final_iter, p.q_prime, qb, cs[p.intermediate@.len() as int])
}

/// Two proofs hold the same fields and iterations.
pub open spec fn same_proof(a: AggregateProofV2, b: AggregateProofV2) -> bool {
    &&& a.q_prime == b.q_prime
    &&& a.n_sigs == b.n_sigs
    &&& a.beta_sq == b.beta_sq
    &&& a.intermediate@.len() == b.intermediate@.len()
    &&& forall|k: int| 0 <= k < a.intermediate@.len() ==> same_iter(#[trigger] a.intermediate@[k], b.intermediate@[k])
    &&& same_iter(a.final_iter, b.final_iter)
}

/// Unpack a proof whose header is `header`, with `codings[k]` the
/// Golomb–Rice parameters of iteration `k`. Any proof packed into `bytes`
/// under that header reads back.
#[verifier::spinoff_prover]
#[verifier::rlimit(100)]
pub fn unpack_with(bytes: &[u8], header: &WireHeader, codings: &Vec<IterCoding>) -> (res: Result<
    AggregateProofV2,
    WireError,
>)
    requires
        bytes@.len() >= HEADER_LEN,
        forall|k: int| 0 <= k < codings@.len() ==> (#[trigger] codings@[k]).wf(),
    ensures
        bytes@.len() - HEADER_LEN < header.payload_len ==> res matches Err(WireError::Truncated),
        bytes@.len() - HEADER_LEN >= header.payload_len && codings@.len() != header.n_intermediate + 1 ==> res
            == Err::<AggregateProofV2, WireError>(WireError::BadShape("depth/n_intermediate mismatch")),
        res matches Ok(p) ==> unpacked_shape(p, *header),
        forall|p: AggregateProofV2|
            #[trigger] unpacks_to(bytes@, *header, codings@, p) ==> (res matches Ok(p2) && same_proof(p2, p)),
{
    if bytes.len() - HEADER_LEN < header.payload_len {
        return Err(WireError::Truncated);
    }
    let n_codings = codings.len();
    if header.n_intermediate >= usize::MAX || n_codings != header.n_intermediate + 1 {
        return Err(WireError::BadShape("depth/n_intermediate mismatch"));
    }
    let q = header.q_prime;
    if q == 0 {
        return Err(WireError::BadShape("zero modulus"));
    }
    let payload = byte_range(bytes, HEADER_LEN, HEADER_LEN + header.payload_len);
    let qb = ceil_log2(q);
    proof {
        lemma_qbits(q, qb as nat);
    }
    let mut br = BitReader::new(payload.as_slice());
    let ghost s = br.stream();
    let ghost qn = qb as nat;
    proof {
        assert forall|p: AggregateProofV2| #[trigger] unpacks_to(bytes@, *header, codings@, p) implies code_at(
            s,
            0,
            cat(inter_bits(p, codings@, qn), p.intermediate@.len()),
        ) && code_at(
            s,
            cat(inter_bits(p, codings@, qn), p.intermediate@.len()).len() as int,
            iter_code(p.final_iter, q, qn, codings@[p.intermediate@.len() as int]),
        ) by {
            lemma_code_at_split(
                s,
                0,
                cat(inter_bits(p, codings@, qn), p.intermediate@.len()),
                iter_code(p.final_iter, p.q_prime, qn, codings@[p.intermediate@.len() as int]),
            );
        }
    }
    let mut intermediate: Vec<IterationProofV2> = Vec::new();
    for k in 0..header.n_intermediate
        invariant
            br.wf(),
            q == header.q_prime,
            q > 0,
            qb <= 64,
            qn == qb as nat,
            qn == qbits(q),
            s == br.stream(),
            codings@.len() == header.n_intermediate + 1,
            forall|k: int| 0 <= k < codings@.len() ==> (#[trigger] codings@[k]).wf(),
            bytes@.len() - HEADER_LEN >= header.payload_len,
            intermediate@.len() == k,
            forall|kk: int| 0 <= kk < k ==> (#[trigger] intermediate@[kk]).last_msg is None,
            forall|p: AggregateProofV2|
                #[trigger] unpacks_to(bytes@, *header, codings@, p) ==> code_at(
                    s,
                    0,
                    cat(inter_bits(p, codings@, qn), p.intermediate@.len()),
                ) && br.position() == cat(inter_bits(p, codings@, qn), k as nat).len() && forall|kk: int|
                    0 <= kk < k ==> same_iter(#[trigger] intermediate@[kk], p.intermediate@[kk]),
    {
        let ghost pos = br.position();
        proof {
            assert forall|p: AggregateProofV2| #[trigger] unpacks_to(bytes@, *header, codings@, p) implies iter_at(
                s,
                pos,
                p.intermediate@[k as int],
                q,
                qn,
                codings@[k as int],
            ) by {
                lemma_code_at_cat(s, 0, inter_bits(p, codings@, qn), p.intermediate@.len(), k as nat);
            }
        }
        let it = match read_iter(&mut br, q, qb, codings[k]) {
            Ok(it) => it,
            Err(e) => {
                proof {
                    assert forall|p: AggregateProofV2| !#[trigger] unpacks_to(bytes@, *header, codings@, p) by {
                        if unpacks_to(bytes@, *header, codings@, p) {
                            assert(iter_at(s, pos, p.intermediate@[k as int], q, qn, codings@[k as int]));
                        }
                    }
                }
                return Err(e);
            },
        };
        if it.last_msg.is_some() {
            proof {
                assert forall|p: AggregateProofV2| !#[trigger] unpacks_to(bytes@, *header, codings@, p) by {
                    if unpacks_to(bytes@, *header, codings@, p) {
                        assert(iter_at(s, pos, p.intermediate@[k as int], q, qn, codings@[k as int]));
                        assert(p.intermediate@[k as int].last_msg is None);
                    }
                }
            }
            return Err(WireError::BadShape("intermediate iter has last_msg"));
        }
        let ghost before = intermediate@;
        intermediate.push(it);
        proof {
            assert forall|p: AggregateProofV2| #[trigger] unpacks_to(bytes@, *header, codings@, p) implies br.position()
                == cat(inter_bits(p, codings@, qn), (k + 1) as nat).len() && forall|kk: int|
                0 <= kk < k + 1 ==> same_iter(#[trigger] intermediate@[kk], p.intermediate@[kk]) by {
                assert(iter_at(s, pos, p.intermediate@[k as int], q, qn, codings@[k as int]));
                assert(cat(inter_bits(p, codings@, qn), (k + 1) as nat) == cat(inter_bits(p, codings@, qn), k as nat)
                    + inter_bits(p, codings@, qn)(k as int));
                assert forall|kk: int| 0 <= kk < k + 1 implies same_iter(#[trigger] intermediate@[kk], p.intermediate@[kk]) by {
                    if kk < k {
                        assert(intermediate@[kk] == before[kk]);
                    }
                }
            }
        }
    }
    let ghost pos = br.position();
    proof {
        assert forall|p: AggregateProofV2| #[trigger] unpacks_to(bytes@, *header, codings@, p) implies iter_at(
            s,
            pos,
            p.final_iter,
            q,
            qn,
            codings@[header.n_intermediate as int],
        ) by {
            lemma_code_at_split(
                s,
                0,
                cat(inter_bits(p, codings@, qn), p.intermediate@.len()),
                iter_code(p.final_iter, p.q_prime, qn, codings@[p.intermediate@.len() as int]),
            );
        }
    }
    let final_iter = match read_iter(&mut br, q, qb, codings[header.n_intermediate]) {
        Ok(it) => it,
        Err(e) => {
            proof {
                assert forall|p: AggregateProofV2| !#[trigger] unpacks_to(bytes@, *header, codings@, p) by {
                    if unpacks_to(bytes@, *header, codings@, p) {
                        assert(iter_at(s, pos, p.final_iter, q, qn, codings@[header.n_intermediate as int]));
                    }
                }
            }
            return Err(e);
        },
    };
    if final_iter.last_msg.is_none() {
        proof {
            assert forall|p: AggregateProofV2| !#[trigger] unpacks_to(bytes@, *header, codings@, p) by {
                if unpacks_to(bytes@, *header, codings@, p) {
                    assert(iter_at(s, pos, p.final_iter, q, qn, codings@[header.n_intermediate as int]));
                }
            }
        }
        return Err(WireError::BadShape("final iter missing last_msg"));
    }
    proof {
        assert forall|p: AggregateProofV2| #[trigger] unpacks_to(bytes@, *header, codings@, p) implies same_iter(
            final_iter,
            p.final_iter,
        ) by {
            assert(iter_at(s, pos, p.final_iter, q, qn, codings@[header.n_intermediate as int]));
        }
    }
    Ok(AggregateProofV2 {
        q_prime: q,
        n_sigs: header.n_sigs,
        beta_sq: header.beta_sq,
        intermediate,
        final_iter,
    })
}

// ---------------------------------------------------------------------------
// Sizes
// ---------------------------------------------------------------------------

/// Whole bytes a code occupies once padded.
pub open spec fn bytes_for(code: Seq<bool>) -> int {
    ((code.len() + 7) / 8) as int
}

/// The code of one field of an iteration: 0 for `u_1`, 1 for `u_2`, 2 for
/// `p`, 3 for `b''`.
pub open spec fn field_code(it: IterationProofV2, qb: nat, c: IterCoding, field: int) -> Seq<bool> {
    if field == 0 {
        elems_code(it.u1@, qb)
    } else if field == 1 {
        elems_code(it.u2@, qb)
    } else if field == 2 {
        cat(p_bits(it.p@, c.k_p), it.p@.len())
    } else {
        elems_code(it.b_double_prime@, qb)
    }
}

/// The bytes one field takes over the first `n` intermediate iterations.
pub open spec fn inter_bytes(p: AggregateProofV2, cs: Seq<IterCoding>, qb: nat, field: int, n: nat) -> int
    decreases n,
{
    if n == 0 {
        0
    } else {
        inter_bytes(p, cs, qb, field, (n - 1) as nat) + bytes_for(field_code(p.intermediate@[n - 1], qb, cs[n - 1], field))
    }
}

/// The Golomb–Rice code of the upper triangle of `g`, without the zero flag.
pub open spec fn upper_gr_code(g: Seq<Vec<RingElem>>, q: u64, k: u32) -> Seq<bool> {
    cat(gr_elem_bits(upper_elems(g, g.len()), q, k), upper_elems(g, g.len()).len())
}

/// Every size `pack_breakdown` measures fits in memory.
pub open spec fn breakdown_fits(p: AggregateProofV2, cs: Seq<IterCoding>, qb: nat) -> bool {
    let fin = p.final_iter;
    let c = cs[p.intermediate@.len() as int];
    &&& forall|k: int, field: int|
        0 <= k < p.intermediate@.len() && 0 <= field < 4 ==> #[trigger] field_code(p.intermediate@[k], qb, cs[k], field).len()
            + 71 <= usize::MAX
    &&& forall|field: int| 0 <= field < 4 ==> #[trigger] inter_bytes(p, cs, qb, field, p.intermediate@.len()) <= usize::MAX
    &&& forall|field: int| 0 <= field < 4 ==> #[trigger] field_code(fin, qb, c, field).len() + 71 <= usize::MAX
    &&& fin.last_msg matches Some(lm) ==> {
        &&& gauss_code(lm.z0@, p.q_prime, c.k_z).len() + 71 <= usize::MAX
        &&& gauss_code(lm.z1@, p.q_prime, c.k_z).len() + 71 <= usize::MAX
        &&& cat(row_bits(lm.v@, qb), lm.v@.len()).len() + 71 <= usize::MAX
        &&& upper_gr_code(lm.g@, p.q_prime, c.k_g).len() + 71 <= usize::MAX
        &&& cat(upper_row_bits(lm.h@, qb), lm.h@.len()).len() + 71 <= usize::MAX
    }
}

/// Bytes of `v` bit-packed.
fn elems_bytes(v: &Vec<RingElem>, qb: u32) -> (n: usize)
    requires
        qb <= 64,
        elems_code(v@, qb as nat).len() + 71 <= usize::MAX,
    ensures
        n == bytes_for(elems_code(v@, qb as nat)),
{
    let mut w = BitWriter::new();
    write_elems_packed(&mut w, v, qb);
    w.finish().len()
}

/// Bytes of the projection Golomb–Rice coded.
fn projection_bytes(p: &Vec<i128>, k: u32) -> (n: usize)
    requires
        k < 64,
        cat(p_bits(p@, k), p@.len()).len() + 71 <= usize::MAX,
    ensures
        n == bytes_for(cat(p_bits(p@, k), p@.len())),
{
    let mut w = BitWriter::new();
    write_projection(&mut w, p, k);
    w.finish().len()
}

/// Bytes of one field of an iteration.
fn field_bytes(it: &IterationProofV2, qb: u32, c: IterCoding, field: usize) -> (n: usize)
    requires
        qb <= 64,
        c.wf(),
        field < 4,
        field_code(*it, qb as nat, c, field as int).len() + 71 <= usize::MAX,
    ensures
        n == bytes_for(field_code(*it, qb as nat, c, field as int)),
{
    if field == 0 {
        elems_bytes(&it.u1, qb)
    } else if field == 1 {
        elems_bytes(&it.u2, qb)
    } else if field == 2 {
        projection_bytes(&it.p, c.k_p)
    } else {
        elems_bytes(&it.b_double_prime, qb)
    }
}

/// Bytes one field takes over all intermediate iterations.
fn inter_field_bytes(p: &AggregateProofV2, codings: &Vec<IterCoding>, qb: u32, field: usize) -> (n: usize)
    requires
        qb <= 64,
        field < 4,
        codings@.len() == p.intermediate@.len() + 1,
        forall|k: int| 0 <= k < codings@.len() ==> (#[trigger] codings@[k]).wf(),
        breakdown_fits(*p, codings@, qb as nat),
    ensures
        n == inter_bytes(*p, codings@, qb as nat, field as int, p.intermediate@.len()),
{
    let mut acc: usize = 0;
    for k in 0..p.intermediate.len()
        invariant
            qb <= 64,
            field < 4,
            codings@.len() == p.intermediate@.len() + 1,
            forall|k: int| 0 <= k < codings@.len() ==> (#[trigger] codings@[k]).wf(),
            breakdown_fits(*p, codings@, qb as nat),
            acc == inter_bytes(*p, codings@, qb as nat, field as int, k as nat),
    {
        proof {
            assert(field_code(p.intermediate@[k as int], qb as nat, codings@[k as int], field as int).len() + 71 <= usize::MAX);
            lemma_inter_bytes_mono(*p, codings@, qb as nat, field as int, (k + 1) as nat, p.intermediate@.len());
            assert(inter_bytes(*p, codings@, qb as nat, field as int, p.intermediate@.len()) <= usize::MAX);
        }
        let b = field_bytes(&p.intermediate[k], qb, codings[k], field);
        acc = acc + b;
    }
    acc
}

/// Partial byte sums grow.
proof fn lemma_inter_bytes_mono(p: AggregateProofV2, cs: Seq<IterCoding>, qb: nat, field: int, i: nat, n: nat)
    requires
        i <= n,
    ensures
        0 <= inter_bytes(p, cs, qb, field, i) <= inter_bytes(p, cs, qb, field, n),
    decreases n,
{
    if n > i {
        lemma_inter_bytes_mono(p, cs, qb, field, i, (n - 1) as nat);
    } else if i > 0 {
        lemma_inter_bytes_mono(p, cs, qb, field, (i - 1) as nat, (i - 1) as nat);
    }
}

/// Bytes of the Gaussian list `v`.
fn gauss_bytes(v: &Vec<RingElem>, q: u64, k: u32) -> (n: usize)
    requires
        k < 64,
        gauss_code(v@, q, k).len() + 71 <= usize::MAX,
    ensures
        n == bytes_for(gauss_code(v@, q, k)),
{
    let mut w = BitWriter::new();
    write_gauss_vec(&mut w, v, q, k);
    w.finish().len()
}

/// Bytes of the rows of `v` bit-packed.
fn rows_bytes(v: &Vec<Vec<RingElem>>, qb: u32) -> (n: usize)
    requires
        qb <= 64,
        cat(row_bits(v@, qb as nat), v@.len()).len() + 71 <= usize::MAX,
    ensures
        n == bytes_for(cat(row_bits(v@, qb as nat), v@.len())),
{
    let mut w = BitWriter::new();
    write_rows_packed(&mut w, v, qb);
    w.finish().len()
}

/// Bytes of the upper triangle of `h` bit-packed.
fn upper_bytes(h: &Vec<Vec<RingElem>>, qb: u32) -> (n: usize)
    requires
        qb <= 64,
        forall|i: int| 0 <= i < h@.len() ==> (#[trigger] h@[i])@.len() == h@.len(),
        cat(upper_row_bits(h@, qb as nat), h@.len()).len() + 71 <= usize::MAX,
    ensures
        n == bytes_for(cat(upper_row_bits(h@, qb as nat), h@.len())),
{
    let mut w = BitWriter::new();
    write_upper_packed(&mut w, h, qb);
    w.finish().len()
}

/// Bytes of the upper triangle of `g` Golomb–Rice coded, without the zero
/// flag.
fn upper_gr_bytes(g: &Vec<Vec<RingElem>>, q: u64, k: u32) -> (n: usize)
    requires
        k < 64,
        forall|i: int| 0 <= i < g@.len() ==> (#[trigger] g@[i])@.len() == g@.len(),
        upper_gr_code(g@, q, k).len() + 71 <= usize::MAX,
    ensures
        n == bytes_for(upper_gr_code(g@, q, k)),
{
    let flat = upper_flat(g);
    let ghost f = gr_elem_bits(flat@, q, k);
    let mut w = BitWriter::new();
    for i in 0..flat.len()
        invariant
            w.wf(),
            k < 64,
            f == gr_elem_bits(flat@, q, k),
            flat@ == upper_elems(g@, g@.len()),
            upper_gr_code(g@, q, k).len() + 71 <= usize::MAX,
            w.bits() == cat(f, i as nat),
    {
        proof {
            lemma_cat_mono(f, (i + 1) as nat, flat@.len());
            assert(f(i as int) == gr_elem_code(flat@[i as int], q, k));
        }
        write_ring_elem_gr(&mut w, &flat[i], q, k);
        proof {
            assert(w.bits() =~= cat(f, (i + 1) as nat));
        }
    }
    w.finish().len()
}

/// Bytes each part of the packed proof takes: the sums over intermediate
/// iterations of `u_1`, `u_2`, `p`, `b''`, and every part of the final one.
pub fn pack_breakdown(p: &AggregateProofV2, codings: &Vec<IterCoding>) -> (b: ProofBreakdown)
    requires
        codings@.len() == p.intermediate@.len() + 1,
        forall|k: int| 0 <= k < codings@.len() ==> (#[trigger] codings@[k]).wf(),
        p.final_iter.last_msg matches Some(lm) ==> {
            &&& forall|i: int| 0 <= i < lm.g@.len() ==> (#[trigger] lm.g@[i])@.len() == lm.g@.len()
            &&& forall|i: int| 0 <= i < lm.h@.len() ==> (#[trigger] lm.h@[i])@.len() == lm.h@.len()
        },
        breakdown_fits(*p, codings@, qbits(p.q_prime)),
    ensures
        ({
            let qb = qbits(p.q_prime);
            let n = p.intermediate@.len();
            let c = codings@[n as int];
            let fin = p.final_iter;
            &&& b.intermediate_u1 == inter_bytes(*p, codings@, qb, 0, n)
            &&& b.intermediate_u2 == inter_bytes(*p, codings@, qb, 1, n)
            &&& b.intermediate_p == inter_bytes(*p, codings@, qb, 2, n)
            &&& b.intermediate_bpp == inter_bytes(*p, codings@, qb, 3, n)
            &&& b.final_u1 == bytes_for(field_code(fin, qb, c, 0))
            &&& b.final_u2 == bytes_for(field_code(fin, qb, c, 1))
            &&& b.final_p == bytes_for(field_code(fin, qb, c, 2))
            &&& b.final_bpp == bytes_for(field_code(fin, qb, c, 3))
            &&& match fin.last_msg {
                Some(lm) => {
                    &&& b.final_z0 == bytes_for(gauss_code(lm.z0@, p.q_prime, c.k_z))
                    &&& b.final_z1 == bytes_for(gauss_code(lm.z1@, p.q_prime, c.k_z))
                    &&& b.final_v == bytes_for(cat(row_bits(lm.v@, qb), lm.v@.len()))
                    &&& b.final_g == bytes_for(upper_gr_code(lm.g@, p.q_prime, c.k_g))
                    &&& b.final_h == bytes_for(cat(upper_row_bits(lm.h@, qb), lm.h@.len()))
                },
                None => {
                    &&& b.final_z0 == 0
                    &&& b.final_z1 == 0
                    &&& b.final_v == 0
                    &&& b.final_g == 0
                    &&& b.final_h == 0
                },
            }
        }),
{
    let q = p.q_prime;
    let qb = ceil_log2(q);
    proof {
        lemma_qbits(q, qb as nat);
    }
    let last = p.intermediate.len();
    let c = codings[last];
    let lm = match &p.final_iter.last_msg {
        Some(lm) => lm,
        None => {
            return ProofBreakdown {
                intermediate_u1: inter_field_bytes(p, codings, qb, 0),
                intermediate_u2: inter_field_bytes(p, codings, qb, 1),
                intermediate_p: inter_field_bytes(p, codings, qb, 2),
                intermediate_bpp: inter_field_bytes(p, codings, qb, 3),
                final_u1: field_bytes(&p.final_iter, qb, c, 0),
                final_u2: field_bytes(&p.final_iter, qb, c, 1),
                final_p: field_bytes(&p.final_iter, qb, c, 2),
                final_bpp: field_bytes(&p.final_iter, qb, c, 3),
                final_z0: 0,
                final_z1: 0,
                final_v: 0,
                final_g: 0,
                final_h: 0,
            };
        },
    };
    ProofBreakdown {
        intermediate_u1: inter_field_bytes(p, codings, qb, 0),
        intermediate_u2: inter_field_bytes(p, codings, qb, 1),
        intermediate_p: inter_field_bytes(p, codings, qb, 2),
        intermediate_bpp: inter_field_bytes(p, codings, qb, 3),
        final_u1: field_bytes(&p.final_iter, qb, c, 0),
        final_u2: field_bytes(&p.final_iter, qb, c, 1),
        final_p: field_bytes(&p.final_iter, qb, c, 2),
        final_bpp: field_bytes(&p.final_iter, qb, c, 3),
        final_z0: gauss_bytes(&lm.z0, q, c.k_z),
        final_z1: gauss_bytes(&lm.z1, q, c.k_z),
        final_v: rows_bytes(&lm.v, qb),
        final_g: upper_gr_bytes(&lm.g, q, c.k_g),
        final_h: upper_bytes(&lm.h, qb),
    }
}

/// The little-endian bytes of a `u64` read back as it.
proof fn lemma_le64_value(x: u64)
    ensures
        le_value(le64(x), 8) == x,
{
    let b = le64(x);
    vstd::arithmetic::power2::lemma2_to64();
    vstd::arithmetic::power2::lemma2_to64_rest();
    reveal_with_fuel(le_value, 9);
    let y0 = (x >> 0u64) & 0xff;
    let y1 = (x >> 8u64) & 0xff;
    let y2 = (x >> 16u64) & 0xff;
    let y3 = (x >> 24u64) & 0xff;
    let y4 = (x >> 32u64) & 0xff;
    let y5 = (x >> 40u64) & 0xff;
    let y6 = (x >> 48u64) & 0xff;
    let y7 = (x >> 56u64) & 0xff;
    assert(y0 < 256 && y1 < 256 && y2 < 256 && y3 < 256 && y4 < 256 && y5 < 256 && y6 < 256 && y7 < 256) by (bit_vector)
        requires
            y0 == (x >> 0u64) & 0xff,
            y1 == (x >> 8u64) & 0xff,
            y2 == (x >> 16u64) & 0xff,
            y3 == (x >> 24u64) & 0xff,
            y4 == (x >> 32u64) & 0xff,
            y5 == (x >> 40u64) & 0xff,
            y6 == (x >> 48u64) & 0xff,
            y7 == (x >> 56u64) & 0xff,
    ;
    assert(b[0] == y0 && b[1] == y1 && b[2] == y2 && b[3] == y3 && b[4] == y4 && b[5] == y5 && b[6] == y6 && b[7] == y7);
    assert(pow2(0) == 1 && pow2(8) == 0x100 && pow2(16) == 0x1_0000 && pow2(24) == 0x100_0000 && pow2(32) == 0x1_0000_0000
        && pow2(40) == 0x100_0000_0000 && pow2(48) == 0x1_0000_0000_0000 && pow2(56) == 0x100_0000_0000_0000);
    assert(le_value(b, 0) == 0);
    assert(b[0] * pow2(0) == y0 * 1) by (nonlinear_arith)
        requires
            b[0] == y0,
            pow2(0) == 1,
    ;
    assert(le_value(b, 1) == le_value(b, 0) + b[0] * pow2(0));
    assert(b[1] * pow2(8) == y1 * 0x100) by (nonlinear_arith)
        requires
            b[1] == y1,
            pow2(8) == 0x100,
    ;
    assert(le_value(b, 2) == le_value(b, 1) + b[1] * pow2(8));
    assert(b[2] * pow2(16) == y2 * 0x1_0000) by (nonlinear_arith)
        requires
            b[2] == y2,
            pow2(16) == 0x1_0000,
    ;
    assert(le_value(b, 3) == le_value(b, 2) + b[2] * pow2(16));
    assert(b[3] * pow2(24) == y3 * 0x100_0000) by (nonlinear_arith)
        requires
            b[3] == y3,
            pow2(24) == 0x100_0000,
    ;
    assert(le_value(b, 4) == le_value(b, 3) + b[3] * pow2(24));
    assert(b[4] * pow2(32) == y4 * 0x1_0000_0000) by (nonlinear_arith)
        requires
            b[4] == y4,
            pow2(32) == 0x1_0000_0000,
    ;
    assert(le_value(b, 5) == le_value(b, 4) + b[4] * pow2(32));
    assert(b[5] * pow2(40) == y5 * 0x100_0000_0000) by (nonlinear_arith)
        requires
            b[5] == y5,
            pow2(40) == 0x100_0000_0000,
    ;
    assert(le_value(b, 6) == le_value(b, 5) + b[5] * pow2(40));
    assert(b[6] * pow2(48) == y6 * 0x1_0000_0000_0000) by (nonlinear_arith)
        requires
            b[6] == y6,
            pow2(48) == 0x1_0000_0000_0000,
    ;
    assert(le_value(b, 7) == le_value(b, 6) + b[6] * pow2(48));
    assert(b[7] * pow2(56) == y7 * 0x100_0000_0000_0000) by (nonlinear_arith)
        requires
            b[7] == y7,
            pow2(56) == 0x100_0000_0000_0000,
    ;
    assert(le_value(b, 8) == le_value(b, 7) + b[7] * pow2(56));
    assert(x == y0 + y1 * 0x100 + y2 * 0x1_0000 + y3 * 0x100_0000 + y4 * 0x1_0000_0000 + y5 * 0x100_0000_0000 + y6
        * 0x1_0000_0000_0000 + y7 * 0x100_0000_0000_0000) by (bit_vector)
        requires
            y0 == (x >> 0u64) & 0xff,
            y1 == (x >> 8u64) & 0xff,
            y2 == (x >> 16u64) & 0xff,
            y3 == (x >> 24u64) & 0xff,
            y4 == (x >> 32u64) & 0xff,
            y5 == (x >> 40u64) & 0xff,
            y6 == (x >> 48u64) & 0xff,
            y7 == (x >> 56u64) & 0xff,
    ;
}

/// The sixteen little-endian bytes of an `i128` read back as it.
proof fn lemma_le128_value(x: i128)
    ensures
        le_i128(le128(x)) == x,
{
    let b = le128(x);
    let u = x as u128;
    let lo = (u & 0xffff_ffff_ffff_ffffu128) as u64;
    let hi = (u >> 64u128) as u64;
    assert forall|i: int| 0 <= i < 8 implies #[trigger] b.subrange(0, 8)[i] == le64(lo)[i] by {
        let k = (8 * i) as u64;
        let kk = (8 * i) as u128;
        assert(((u >> kk) & 0xff) as u8 == ((lo >> k) & 0xff) as u8) by (bit_vector)
            requires
                lo == (u & 0xffff_ffff_ffff_ffffu128) as u64,
                k <= 56,
                kk == k as u128,
        ;
    }
    assert forall|i: int| 0 <= i < 8 implies #[trigger] b.subrange(8, 16)[i] == le64(hi)[i] by {
        let k = (8 * i) as u64;
        let kk = (8 * (i + 8)) as u128;
        assert(((u >> kk) & 0xff) as u8 == ((hi >> k) & 0xff) as u8) by (bit_vector)
            requires
                hi == (u >> 64u128) as u64,
                k < 64,
                kk == k + 64,
        ;
    }
    assert(b.subrange(0, 8) =~= le64(lo));
    assert(b.subrange(8, 16) =~= le64(hi));
    lemma_le64_value(lo);
    lemma_le64_value(hi);
    assert(u == lo as u128 + (hi as u128) * 0x1_0000_0000_0000_0000u128) by (bit_vector)
        requires
            lo == (u & 0xffff_ffff_ffff_ffffu128) as u64,
            hi == (u >> 64u128) as u64,
    ;
    assert(x >= 0 ==> u == x as u128 && u < 0x8000_0000_0000_0000_0000_0000_0000_0000u128) by (bit_vector)
        requires
            u == x as u128,
    ;
    assert(x < 0 ==> u >= 0x8000_0000_0000_0000_0000_0000_0000_0000u128 && (u - 0x8000_0000_0000_0000_0000_0000_0000_0000u128) as i128 == x + 0x7fff_ffff_ffff_ffff_ffff_ffff_ffff_ffffi128 + 1) by (bit_vector)
        requires
            u == x as u128,
    ;
}

/// The bytes `pack` writes for `p` under parameters `cs`.
pub open spec fn packed_bytes(p: AggregateProofV2, cs: Seq<IterCoding>, out: Seq<u8>) -> bool {
    let code = proof_code(p, cs, qbits(p.q_prime));
    let payload = out.subrange(48, out.len() as int);
    &&& out.len() == 48 + (code.len() + 7) / 8
    &&& out.subrange(0, 48) == header_bytes(p, ((code.len() + 7) / 8) as nat)
    &&& stream_bits(payload) == code + repeat_bit(false, (8 * payload.len() - code.len()) as nat)
}

/// The header `read_header` reads from `bytes`.
pub open spec fn header_read(bytes: Seq<u8>, h: WireHeader) -> bool {
    &&& bytes.len() >= HEADER_LEN
    &&& h.q_prime == le_value(bytes.subrange(0, 8), 8)
    &&& h.n_sigs == le_value(bytes.subrange(8, 16), 8)
    &&& h.beta_sq == le_i128(bytes.subrange(16, 32))
    &&& h.n_intermediate == le_value(bytes.subrange(32, 40), 8)
    &&& h.payload_len == le_value(bytes.subrange(40, 48), 8)
}

/// What `pack` writes unpacks to the proof it packed: the header read from
/// the packed bytes carries the proof's fields, and its payload holds the
/// proof's code, so [`unpack_with`] gives the proof back. This holds for
/// every proof whose openings sit where `pack` puts them and whose parts
/// the readers can hold (see [`iter_fits`]).
#[verifier::spinoff_prover]
#[verifier::rlimit(100)]
pub proof fn law_pack_unpack_roundtrip(p: AggregateProofV2, cs: Seq<IterCoding>, bytes: Seq<u8>, h: WireHeader)
    requires
        packable(p),
        p.q_prime > 0,
        cs.len() == p.intermediate@.len() + 1,
        forall|k: int|
            0 <= k < p.intermediate@.len() ==> iter_fits(#[trigger] p.intermediate@[k], p.q_prime, qbits(p.q_prime), cs[k]),
        iter_fits(p.final_iter, p.q_prime, qbits(p.q_prime), cs[p.intermediate@.len() as int]),
        p.intermediate@.len() <= usize::MAX,
        proof_code(p, cs, qbits(p.q_prime)).len() + 71 <= usize::MAX,
        packed_bytes(p, cs, bytes),
        header_read(bytes, h),
    ensures
        unpacks_to(bytes, h, cs, p),
{
    let code = proof_code(p, cs, qbits(p.q_prime));
    let plen = ((code.len() + 7) / 8) as nat;
    let head = bytes.subrange(0, 48);
    let hb = header_bytes(p, plen);
    assert(head == hb);
    let a0 = le64(p.q_prime);
    let a1 = le64(p.n_sigs as u64);
    let a2 = le128(p.beta_sq);
    let a3 = le64(p.intermediate@.len() as u64);
    let a4 = le64(plen as u64);
    assert(hb == a0 + a1 + a2 + a3 + a4);
    assert(hb.subrange(8, 16) =~= a1);
    assert(hb.subrange(16, 32) =~= a2);
    assert(bytes.subrange(16, 32) =~= le128(p.beta_sq));
    lemma_le128_value(p.beta_sq);
    assert(hb.subrange(32, 40) =~= a3);
    assert(hb.subrange(40, 48) =~= a4);
    assert(bytes.subrange(0, 8) =~= le64(p.q_prime));
    assert(bytes.subrange(8, 16) =~= le64(p.n_sigs as u64));
    assert(bytes.subrange(32, 40) =~= le64(p.intermediate@.len() as u64));
    assert(bytes.subrange(40, 48) =~= le64(plen as u64));
    lemma_le64_value(p.q_prime);
    lemma_le64_value(p.n_sigs as u64);
    lemma_le64_value(p.intermediate@.len() as u64);
    lemma_le64_value(plen as u64);
    let payload = bytes.subrange(48, bytes.len() as int);
    assert(h.payload_len == plen);
    assert(h.q_prime == p.q_prime);
    assert(h.n_sigs == p.n_sigs);
    assert(h.n_intermediate == p.intermediate@.len());
    assert(bytes.subrange(HEADER_LEN as int, HEADER_LEN + h.payload_len) =~= payload);
    assert(stream_bits(payload).subrange(0, code.len() as int) =~= code);
}

} // verus!
