//! Folding one finished iteration into the next iteration's statement and
//! witness. The verifier's checks on the last message become dot-product
//! constraints over a new witness `(z^(0), z^(1), ê)`, with
//! `ê = v ‖ g-chunks ‖ h-chunks`; `z^(0)`, `z^(1)` are chopped into `ν`
//! pieces and `ê` into `μ`, each padded to a common length `n'`.
use crate::labrador::aggregation::{add_into, add_opt, aggregate_full, opt_elem, opt_wf};
use crate::labrador::binding::{absorb_ring_vec, bind_statement};
use crate::labrador::commit::{expand_matrix, matrix_fits};
use crate::labrador::jl::{build_jl_constraints, PROJECTION_ROWS};
use crate::labrador::outer::{expand_b_mats, expand_sym_mats};
use crate::labrador::proofs::{IterationProofV2, VerifyError};
use crate::labrador::prover::{
    derive_psis, k_double_prime, sample_challenges, sample_ring_elements, LABEL_A, LABEL_ALPHA, LABEL_BETA,
    LABEL_BPP, LAMBDA,
};
use crate::labrador::prover_v2::{
    absorb_projection, decompose_commitments, decompose_upper, extend_statement, sample_projections,
    IterationParams, LABEL_B, LABEL_CM, LABEL_D, LABEL_P, LABEL_U1, LABEL_U2,
};
use crate::labrador::statement::{
    a_wf, elem, elems_wf, phi_wf, qof, vecs, wit_shape, ConstTermConstraint, DotConstraint, Statement, Witness,
};
use crate::labrador::verification::{is_square, rows_wf};
use crate::labrador::transcript::Transcript;
use crate::labrador::verification::{aggregate_const_forms, aggregated_rhs, elems_reduced, rows_reduced, square};
use crate::modring::crt::{crt_mul_seq, Ring};
use crate::modring::modulus::Modulus;
use crate::modring::poly::{RingElem, D};
use vstd::prelude::*;

verus! {

// ---------------------------------------------------------------------------
// Layouts
// ---------------------------------------------------------------------------

/// Where a chunk sits inside `ê = v ‖ g-chunks ‖ h-chunks`.
#[derive(Clone, Copy, Debug)]
pub enum EIdx {
    /// Coordinate `idx` of chunk `k` of `v_i`.
    V(usize, usize, usize),
    /// Chunk `k` of `g_ij`, `i ≤ j`.
    G(usize, usize, usize),
    /// Chunk `k` of `h_ij`, `i ≤ j`.
    H(usize, usize, usize),
}

/// The layout of `ê`: `r·t₁·κ` coordinates of `v`, then `t₂` blocks and
/// `t₁` blocks of the `r(r+1)/2` upper-triangle pairs for `g` and `h`.
#[derive(Clone, Copy, Debug)]
pub struct ELayout {
    /// Number of witness vectors.
    pub r: usize,
    /// Chunks of `v` and `h`.
    pub t1: usize,
    /// Chunks of `g`.
    pub t2: usize,
    /// Inner commitment rank.
    pub kappa: usize,
    /// Length of `ê`.
    pub m: usize,
    /// Offset of the `g` block.
    pub g_off: usize,
    /// Offset of the `h` block.
    pub h_off: usize,
    /// Number of pairs `i ≤ j < r`.
    pub n_upper: usize,
}

/// Pairs `(i', j')` with `i' ≤ j' < r` in the rows before row `i`.
pub open spec fn row_offset(r: int, i: int) -> int
    decreases i,
{
    if i <= 0 {
        0
    } else {
        row_offset(r, i - 1) + (r - (i - 1))
    }
}

/// `row_offset` in closed form: `2·row_offset(r, i) = 2ir − i(i−1)`, and it
/// grows with `i` up to `r(r+1)/2`.
pub proof fn lemma_row_offset(r: int, i: int)
    requires
        0 <= i <= r,
    ensures
        2 * row_offset(r, i) == 2 * i * r - i * (i - 1),
        0 <= row_offset(r, i),
        row_offset(r, i) + (r - i) * (r - i + 1) / 2 == r * (r + 1) / 2,
    decreases i,
{
    if i > 0 {
        lemma_row_offset(r, i - 1);
        assert(2 * (i - 1) * r - (i - 1) * (i - 2) + 2 * (r - (i - 1)) == 2 * i * r - i * (i - 1)) by (nonlinear_arith);
        let a = r - i;
        assert((a + 1) * (a + 2) == a * (a + 1) + 2 * (a + 1)) by (nonlinear_arith);
        assert((a + 1) * (a + 2) / 2 == a * (a + 1) / 2 + (a + 1)) by {
            vstd::arithmetic::div_mod::lemma_fundamental_div_mod_converse(
                (a + 1) * (a + 2),
                2,
                a * (a + 1) / 2 + (a + 1),
                a * (a + 1) % 2,
            );
            vstd::arithmetic::div_mod::lemma_fundamental_div_mod(a * (a + 1), 2);
        }
    } else {
        assert(r * (r + 1) / 2 == (r - 0) * (r - 0 + 1) / 2);
        assert(2 * 0 * r - 0 * (0 - 1) == 0) by (nonlinear_arith);
    }
}

/// The product of two consecutive naturals is even.
proof fn lemma_consecutive_even(i: int)
    requires
        i >= 0,
    ensures
        (i * (i - 1)) % 2 == 0,
{
    let a = i / 2;
    vstd::arithmetic::div_mod::lemma_fundamental_div_mod(i, 2);
    if i % 2 == 0 {
        assert(i * (i - 1) == (a * (i - 1)) * 2) by (nonlinear_arith)
            requires
                i == 2 * a,
        ;
        vstd::arithmetic::div_mod::lemma_mod_multiples_basic(a * (i - 1), 2);
    } else {
        assert(i * (i - 1) == (i * a) * 2) by (nonlinear_arith)
            requires
                i == 2 * a + 1,
        ;
        vstd::arithmetic::div_mod::lemma_mod_multiples_basic(i * a, 2);
    }
}

/// The sizes of a layout fit in memory.
pub open spec fn e_fits(r: int, t1: int, t2: int, kappa: int) -> bool {
    &&& r * (r + 1) <= usize::MAX
    &&& r * t1 <= usize::MAX
    &&& r * t1 * kappa + t2 * (r * (r + 1) / 2) + t1 * (r * (r + 1) / 2) <= usize::MAX
}

impl ELayout {
    /// The layout for `r` vectors, `t₁`, `t₂` chunks and rank `κ`.
    pub fn new(r: usize, t1: usize, t2: usize, kappa: usize) -> (l: Self)
        requires
            e_fits(r as int, t1 as int, t2 as int, kappa as int),
        ensures
            l.r == r,
            l.t1 == t1,
            l.t2 == t2,
            l.kappa == kappa,
            l.n_upper == r * (r + 1) / 2,
            l.g_off == r * t1 * kappa,
            l.h_off == l.g_off + t2 * l.n_upper,
            l.m == l.h_off + t1 * l.n_upper,
    {
        proof {
            assert(0 <= r * (r + 1)) by (nonlinear_arith);
            assert(r + 1 <= usize::MAX) by (nonlinear_arith)
                requires
                    r * (r + 1) <= usize::MAX,
                    r >= 0,
            ;
            assert(0 <= r * t1 * kappa) by (nonlinear_arith);
            assert(0 <= t2 * (r * (r + 1) / 2)) by (nonlinear_arith);
            assert(0 <= t1 * (r * (r + 1) / 2)) by (nonlinear_arith);
        }
        let n_upper = r * (r + 1) / 2;
        let g_off = r * t1 * kappa;
        let h_off = g_off + t2 * n_upper;
        let m = h_off + t1 * n_upper;
        ELayout { r, t1, t2, kappa, m, g_off, h_off, n_upper }
    }

    /// The sizes agree with `new`.
    pub open spec fn wf(&self) -> bool {
        &&& e_fits(self.r as int, self.t1 as int, self.t2 as int, self.kappa as int)
        &&& self.n_upper == self.r * (self.r + 1) / 2
        &&& self.g_off == self.r * self.t1 * self.kappa
        &&& self.h_off == self.g_off + self.t2 * self.n_upper
        &&& self.m == self.h_off + self.t1 * self.n_upper
    }

    /// `idx` names a chunk of this layout.
    pub open spec fn holds(&self, idx: EIdx) -> bool {
        match idx {
            EIdx::V(i, k, p) => i < self.r && k < self.t1 && p < self.kappa,
            EIdx::G(i, j, k) => i <= j < self.r && k < self.t2,
            EIdx::H(i, j, k) => i <= j < self.r && k < self.t1,
        }
    }

    /// The position of `idx` in `ê`.
    pub open spec fn pos_spec(&self, idx: EIdx) -> int {
        match idx {
            EIdx::V(i, k, p) => i * self.t1 * self.kappa + k * self.kappa + p,
            EIdx::G(i, j, k) => self.g_off + k * self.n_upper + row_offset(self.r as int, i as int) + (j - i),
            EIdx::H(i, j, k) => self.h_off + k * self.n_upper + row_offset(self.r as int, i as int) + (j - i),
        }
    }

    /// Index of the pair `(i, j)`, `i ≤ j`, in the upper triangle.
    fn upper(&self, i: usize, j: usize) -> (u: usize)
        requires
            self.wf(),
            i <= j < self.r,
        ensures
            u == row_offset(self.r as int, i as int) + (j - i),
            u < self.n_upper,
    {
        let r = self.r;
        proof {
            lemma_row_offset(r as int, i as int);
            lemma_row_offset(r as int, (i + 1) as int);
            assert(i * r <= r * (r + 1)) by (nonlinear_arith)
                requires
                    i <= r,
            ;
            assert(0 <= i * r) by (nonlinear_arith);
            let im = if i == 0 { 0int } else { i - 1 };
            assert(0 <= i * im <= i * r) by (nonlinear_arith)
                requires
                    0 <= im <= r,
                    0 <= i,
            ;
            assert(i * (i - 1) == i * im) by (nonlinear_arith)
                requires
                    im == if i == 0 { 0int } else { i - 1 },
            ;
            assert(0 <= (r - (i + 1)) * (r - (i + 1) + 1)) by (nonlinear_arith)
                requires
                    i < r,
            ;
        }
        let im = if i == 0 {
            0
        } else {
            i - 1
        };
        let row = i * r - i * im / 2;
        proof {
            vstd::arithmetic::div_mod::lemma_fundamental_div_mod(i * im, 2);
            lemma_consecutive_even(i as int);
            assert(i * (i - 1) == i * im) by (nonlinear_arith)
                requires
                    im == if i == 0 {
                        0int
                    } else {
                        i - 1
                    },
            ;
            assert((i * im) % 2 == 0);
            assert(2 * i * r == 2 * (i * r)) by (nonlinear_arith);
            assert(2 * row_offset(r as int, i as int) == 2 * i * r - i * im);
            assert(row == row_offset(r as int, i as int));
            assert(row_offset(r as int, (i + 1) as int) == row_offset(r as int, i as int) + (r - i));
            assert(r * (r + 1) / 2 <= usize::MAX);
        }
        row + (j - i)
    }

    /// The position of `idx` in `ê`.
    pub fn pos(&self, idx: EIdx) -> (p: usize)
        requires
            self.wf(),
            self.holds(idx),
        ensures
            p == self.pos_spec(idx),
            p < self.m,
            match idx {
                EIdx::V(..) => p < self.g_off,
                EIdx::G(..) => self.g_off <= p < self.h_off,
                EIdx::H(..) => self.h_off <= p,
            },
    {
        match idx {
            EIdx::V(i, k, p) => {
                proof {
                    assert(i * self.t1 * self.kappa + k * self.kappa + p < self.r * self.t1 * self.kappa) by (nonlinear_arith)
                        requires
                            i < self.r,
                            k < self.t1,
                            p < self.kappa,
                    ;
                    assert(0 <= i * self.t1 * self.kappa) by (nonlinear_arith);
                    assert(0 <= k * self.kappa) by (nonlinear_arith);
                    assert(i * self.t1 <= self.r * self.t1) by (nonlinear_arith)
                        requires
                            i < self.r,
                    ;
                    assert(k * self.kappa <= i * self.t1 * self.kappa + k * self.kappa) by (nonlinear_arith)
                        requires
                            0 <= i * self.t1 * self.kappa,
                    ;
                    assert(0 <= self.t2 * self.n_upper) by (nonlinear_arith);
                    assert(0 <= self.t1 * self.n_upper) by (nonlinear_arith);
                }
                i * self.t1 * self.kappa + k * self.kappa + p
            },
            EIdx::G(i, j, k) => {
                let u = self.upper(i, j);
                proof {
                    assert(k * self.n_upper + self.n_upper <= self.t2 * self.n_upper) by (nonlinear_arith)
                        requires
                            k < self.t2,
                    ;
                    assert(0 <= k * self.n_upper) by (nonlinear_arith);
                    assert(0 <= self.t1 * self.n_upper) by (nonlinear_arith);
                }
                self.g_off + k * self.n_upper + u
            },
            EIdx::H(i, j, k) => {
                let u = self.upper(i, j);
                proof {
                    assert(k * self.n_upper + self.n_upper <= self.t1 * self.n_upper) by (nonlinear_arith)
                        requires
                            k < self.t1,
                    ;
                    assert(0 <= k * self.n_upper) by (nonlinear_arith);
                }
                self.h_off + k * self.n_upper + u
            },
        }
    }
}

/// Each row of the upper triangle starts after the previous rows end.
proof fn lemma_row_offset_mono(r: int, i1: int, i2: int)
    requires
        0 <= i1 < i2 <= r,
    ensures
        row_offset(r, i1) + (r - i1) <= row_offset(r, i2),
    decreases i2 - i1,
{
    if i2 > i1 + 1 {
        lemma_row_offset_mono(r, i1, i2 - 1);
    }
}

/// Distinct pairs `i ≤ j < r` get distinct triangle indices, all below
/// `r(r+1)/2`.
proof fn lemma_upper_injective(r: int, i1: int, j1: int, i2: int, j2: int)
    requires
        0 <= i1 <= j1 < r,
        0 <= i2 <= j2 < r,
    ensures
        0 <= row_offset(r, i1) + (j1 - i1) < r * (r + 1) / 2,
        (i1, j1) != (i2, j2) ==> row_offset(r, i1) + (j1 - i1) != row_offset(r, i2) + (j2 - i2),
{
    lemma_row_offset(r, i1);
    lemma_row_offset(r, r);
    if i1 + 1 < r {
        lemma_row_offset_mono(r, i1, r);
    } else {
        assert(row_offset(r, i1 + 1) == row_offset(r, i1) + (r - i1));
    }
    if i1 < i2 {
        lemma_row_offset_mono(r, i1, i2);
        lemma_row_offset(r, i2);
    } else if i2 < i1 {
        lemma_row_offset_mono(r, i2, i1);
        lemma_row_offset(r, i2);
    }
}

/// `k·n + u` with `u < n` determines `k` and `u`.
proof fn lemma_mixed_radix(k1: int, u1: int, k2: int, u2: int, n: int)
    requires
        0 <= k1,
        0 <= k2,
        0 <= u1 < n,
        0 <= u2 < n,
        (k1, u1) != (k2, u2),
    ensures
        k1 * n + u1 != k2 * n + u2,
{
    if k1 < k2 {
        assert(k1 * n + n <= k2 * n) by (nonlinear_arith)
            requires
                k1 + 1 <= k2,
                n >= 0,
        ;
    } else if k2 < k1 {
        assert(k2 * n + n <= k1 * n) by (nonlinear_arith)
            requires
                k2 + 1 <= k1,
                n >= 0,
        ;
    }
}

/// `k·n + u` with `k < t` and `u < n` lies below `t·n`.
proof fn lemma_radix_bound(k: int, u: int, t: int, n: int)
    requires
        0 <= k < t,
        0 <= u < n,
    ensures
        0 <= k * n + u < t * n,
{
    assert(0 <= k * n) by (nonlinear_arith)
        requires
            0 <= k,
            0 <= n,
    ;
    assert(k * n + n <= t * n) by (nonlinear_arith)
        requires
            k + 1 <= t,
            n >= 0,
    ;
}

impl ELayout {
    /// Where the `v`, `g` and `h` chunks of a layout lie.
    proof fn lemma_pos_block(&self, idx: EIdx)
        requires
            self.wf(),
            self.holds(idx),
        ensures
            match idx {
                EIdx::V(..) => 0 <= self.pos_spec(idx) < self.g_off,
                EIdx::G(..) => self.g_off <= self.pos_spec(idx) < self.h_off,
                EIdx::H(..) => self.h_off <= self.pos_spec(idx) < self.m,
            },
    {
        let r = self.r as int;
        let nu = self.n_upper as int;
        match idx {
            EIdx::V(i, k, p) => {
                let ka = self.kappa as int;
                let t1 = self.t1 as int;
                lemma_radix_bound(k as int, p as int, t1, ka);
                lemma_radix_bound(i as int, k * ka + p, r, t1 * ka);
                assert(i * t1 * ka == i * (t1 * ka)) by (nonlinear_arith);
                assert(r * t1 * ka == r * (t1 * ka)) by (nonlinear_arith);
            },
            EIdx::G(i, j, k) => {
                lemma_upper_injective(r, i as int, j as int, i as int, j as int);
                lemma_radix_bound(k as int, row_offset(r, i as int) + (j - i), self.t2 as int, nu);
            },
            EIdx::H(i, j, k) => {
                lemma_upper_injective(r, i as int, j as int, i as int, j as int);
                lemma_radix_bound(k as int, row_offset(r, i as int) + (j - i), self.t1 as int, nu);
            },
        }
    }
}

/// Every chunk of a layout has a position of its own: `pos` is one-to-one
/// on the indices the layout holds, `v` chunks come first, then `g`, then
/// `h`, and all lie below `m`.
pub proof fn law_pos_injective(l: ELayout, a: EIdx, b: EIdx)
    requires
        l.wf(),
        l.holds(a),
        l.holds(b),
        a != b,
    ensures
        l.pos_spec(a) != l.pos_spec(b),
        0 <= l.pos_spec(a) < l.m,
{
    l.lemma_pos_block(a);
    l.lemma_pos_block(b);
    let r = l.r as int;
    let nu = l.n_upper as int;
    match (a, b) {
        (EIdx::V(i1, k1, p1), EIdx::V(i2, k2, p2)) => {
            let ka = l.kappa as int;
            let t1 = l.t1 as int;
            assert(i1 * t1 * ka == i1 * (t1 * ka)) by (nonlinear_arith);
            assert(i2 * t1 * ka == i2 * (t1 * ka)) by (nonlinear_arith);
            lemma_radix_bound(k1 as int, p1 as int, t1, ka);
            lemma_radix_bound(k2 as int, p2 as int, t1, ka);
            if (k1, p1) != (k2, p2) {
                lemma_mixed_radix(k1 as int, p1 as int, k2 as int, p2 as int, ka);
            }
            if (i1, k1 * ka + p1) != (i2, k2 * ka + p2) {
                lemma_mixed_radix(i1 as int, k1 * ka + p1, i2 as int, k2 * ka + p2, t1 * ka);
            }
        },
        (EIdx::G(i1, j1, k1), EIdx::G(i2, j2, k2)) => {
            lemma_upper_injective(r, i1 as int, j1 as int, i2 as int, j2 as int);
            lemma_upper_injective(r, i2 as int, j2 as int, i1 as int, j1 as int);
            let u1 = row_offset(r, i1 as int) + (j1 - i1);
            let u2 = row_offset(r, i2 as int) + (j2 - i2);
            if (k1 as int, u1) != (k2 as int, u2) {
                lemma_mixed_radix(k1 as int, u1, k2 as int, u2, nu);
            }
        },
        (EIdx::H(i1, j1, k1), EIdx::H(i2, j2, k2)) => {
            lemma_upper_injective(r, i1 as int, j1 as int, i2 as int, j2 as int);
            lemma_upper_injective(r, i2 as int, j2 as int, i1 as int, j1 as int);
            let u1 = row_offset(r, i1 as int) + (j1 - i1);
            let u2 = row_offset(r, i2 as int) + (j2 - i2);
            if (k1 as int, u1) != (k2 as int, u2) {
                lemma_mixed_radix(k1 as int, u1, k2 as int, u2, nu);
            }
        },
        _ => {},
    }
}

/// Chopping a vector into `pieces` pieces of `piece_len` entries.
#[derive(Clone, Copy, Debug)]
pub struct ChopLayout {
    /// Number of pieces.
    pub pieces: usize,
    /// Length of each unpadded piece.
    pub piece_len: usize,
}

impl ChopLayout {
    /// Chop `total` entries into `pieces` pieces of `⌈total / pieces⌉`.
    pub fn new(total: usize, pieces: usize) -> (c: Self)
        requires
            pieces >= 1,
        ensures
            c.pieces == pieces,
            c.piece_len == (total + pieces - 1) / (pieces as int),
    {
        let q = total / pieces;
        let rem = total % pieces;
        proof {
            vstd::arithmetic::div_mod::lemma_fundamental_div_mod(total as int, pieces as int);
            if rem == 0 {
                vstd::arithmetic::div_mod::lemma_fundamental_div_mod_converse(
                    total + pieces - 1,
                    pieces as int,
                    q as int,
                    pieces - 1,
                );
            } else {
                assert((q + 1) * pieces == q * pieces + pieces) by (nonlinear_arith);
                vstd::arithmetic::div_mod::lemma_fundamental_div_mod_converse(
                    total + pieces - 1,
                    pieces as int,
                    q + 1,
                    rem - 1,
                );
                assert(pieces >= 2);
                assert(q * 2 <= q * pieces) by (nonlinear_arith)
                    requires
                        pieces >= 2,
                        q >= 0,
                ;
            }
            assert(q * pieces <= total) by (nonlinear_arith)
                requires
                    q * pieces + rem == total,
                    rem >= 0,
            ;
        }
        let piece_len = if rem == 0 {
            q
        } else {
            q + 1
        };
        ChopLayout { pieces, piece_len }
    }

    /// The piece and offset of entry `p`.
    pub fn locate(&self, p: usize) -> (res: (usize, usize))
        requires
            self.piece_len > 0,
        ensures
            res.0 == (p as int) / (self.piece_len as int),
            res.1 == (p as int) % (self.piece_len as int),
            res.1 < self.piece_len,
            p < self.pieces * self.piece_len ==> res.0 < self.pieces,
    {
        proof {
            vstd::arithmetic::div_mod::lemma_fundamental_div_mod(p as int, self.piece_len as int);
            if p < self.pieces * self.piece_len {
                let d = (p as int) / (self.piece_len as int);
                assert(d < self.pieces) by (nonlinear_arith)
                    requires
                        d * self.piece_len <= p,
                        p < self.pieces * self.piece_len,
                        self.piece_len > 0,
                ;
            }
        }
        (p / self.piece_len, p % self.piece_len)
    }
}

/// The folded witness: `z^(0)` in pieces `0..ν`, `z^(1)` in `ν..2ν`, `ê` in
/// `2ν..2ν+μ`, every vector of length `n'`.
#[derive(Clone, Copy, Debug)]
pub struct FoldedLayout {
    /// Length of each new witness vector after padding.
    pub n_prime: usize,
    /// Number of new witness vectors, `2ν + μ`.
    pub r_prime: usize,
    /// Pieces of `z^(0)` and of `z^(1)`.
    pub nu: usize,
    /// Pieces of `ê`.
    pub mu: usize,
    /// The chopping of `z^(0)`, `z^(1)`.
    pub z: ChopLayout,
    /// The chopping of `ê`.
    pub e: ChopLayout,
}

impl FoldedLayout {
    /// The layout folding `n`-long `z`'s into `ν` pieces and an `m`-long `ê`
    /// into `μ`.
    pub fn new(n: usize, m: usize, nu: usize, mu: usize) -> (f: Self)
        requires
            nu >= 1,
            mu >= 1,
            2 * nu + mu <= usize::MAX,
        ensures
            f.nu == nu,
            f.mu == mu,
            f.r_prime == 2 * nu + mu,
            f.z.pieces == nu,
            f.z.piece_len == (n + nu - 1) / (nu as int),
            f.e.pieces == mu,
            f.e.piece_len == (m + mu - 1) / (mu as int),
            f.n_prime == if f.z.piece_len >= f.e.piece_len {
                f.z.piece_len
            } else {
                f.e.piece_len
            },
    {
        let z = ChopLayout::new(n, nu);
        let e = ChopLayout::new(m, mu);
        let n_prime = if z.piece_len >= e.piece_len {
            z.piece_len
        } else {
            e.piece_len
        };
        FoldedLayout { n_prime, r_prime: 2 * nu + mu, nu, mu, z, e }
    }

    /// The layout's pieces cover `n` and `m` entries.
    pub open spec fn covers(&self, n: int, m: int) -> bool {
        &&& self.z.pieces == self.nu
        &&& self.e.pieces == self.mu
        &&& self.r_prime == 2 * self.nu + self.mu
        &&& (n > 0 ==> self.z.piece_len > 0)
        &&& (m > 0 ==> self.e.piece_len > 0)
        &&& n <= self.nu * self.z.piece_len
        &&& m <= self.mu * self.e.piece_len
        &&& self.z.piece_len <= self.n_prime
        &&& self.e.piece_len <= self.n_prime
    }

    /// Witness index and position of entry `p` of `z^(0)`.
    pub fn z0(&self, p: usize) -> (res: (usize, usize))
        requires
            self.z.piece_len > 0,
        ensures
            res.0 == (p as int) / (self.z.piece_len as int),
            res.1 == (p as int) % (self.z.piece_len as int),
            res.1 < self.z.piece_len,
            p < self.z.pieces * self.z.piece_len ==> res.0 < self.z.pieces,
    {
        self.z.locate(p)
    }

    /// Witness index and position of entry `p` of `z^(1)`.
    pub fn z1(&self, p: usize) -> (res: (usize, usize))
        requires
            self.z.piece_len > 0,
            p < self.z.pieces * self.z.piece_len,
            self.z.pieces == self.nu,
            2 * self.nu + self.mu <= usize::MAX,
        ensures
            res.0 == self.nu + (p as int) / (self.z.piece_len as int),
            res.1 == (p as int) % (self.z.piece_len as int),
            res.1 < self.z.piece_len,
            res.0 < 2 * self.nu,
    {
        let (piece, off) = self.z.locate(p);
        (self.nu + piece, off)
    }

    /// Witness index and position of entry `p` of `ê`.
    pub fn e(&self, p: usize) -> (res: (usize, usize))
        requires
            self.e.piece_len > 0,
            p < self.e.pieces * self.e.piece_len,
            self.e.pieces == self.mu,
            2 * self.nu + self.mu <= usize::MAX,
        ensures
            res.0 == 2 * self.nu + (p as int) / (self.e.piece_len as int),
            res.1 == (p as int) % (self.e.piece_len as int),
            res.1 < self.e.piece_len,
            2 * self.nu <= res.0 < 2 * self.nu + self.mu,
    {
        let (piece, off) = self.e.locate(p);
        (2 * self.nu + piece, off)
    }
}

// ---------------------------------------------------------------------------
// Sparse linear parts, accumulated densely
// ---------------------------------------------------------------------------

/// A dense accumulator of `r'` rows of `n'` optional reduced coefficients.
pub open spec fn acc_ok(acc: Seq<Vec<Option<RingElem>>>, rp: int, np: int, m: Modulus) -> bool {
    &&& acc.len() == rp
    &&& forall|wi: int| 0 <= wi < rp ==> (#[trigger] acc[wi])@.len() == np
    &&& forall|wi: int, p: int| 0 <= wi < rp && 0 <= p < np ==> opt_wf(#[trigger] acc[wi]@[p], m)
}

/// An empty accumulator.
fn acc_new(rp: usize, np: usize, m: &Modulus) -> (acc: Vec<Vec<Option<RingElem>>>)
    ensures
        acc_ok(acc@, rp as int, np as int, *m),
{
    let mut acc: Vec<Vec<Option<RingElem>>> = Vec::new();
    for wi in 0..rp
        invariant
            acc@.len() == wi,
            forall|v: int| 0 <= v < wi ==> (#[trigger] acc@[v])@.len() == np,
            forall|v: int, p: int| 0 <= v < wi && 0 <= p < np ==> opt_wf(#[trigger] acc@[v]@[p], *m),
    {
        let mut row: Vec<Option<RingElem>> = Vec::new();
        for p in 0..np
            invariant
                row@.len() == p,
                forall|t: int| 0 <= t < p ==> opt_wf(#[trigger] row@[t], *m),
        {
            row.push(None);
        }
        acc.push(row);
    }
    acc
}

/// Add `coef` at position `off` of vector `wi`.
fn acc_add(acc: &mut Vec<Vec<Option<RingElem>>>, wi: usize, off: usize, coef: RingElem, ring: &Ring, rp: Ghost<int>, np: Ghost<int>)
    requires
        ring.wf(),
        acc_ok(old(acc)@, rp@, np@, ring.m),
        wi < rp@,
        off < np@,
        coef.wf(ring.m),
    ensures
        acc_ok(final(acc)@, rp@, np@, ring.m),
        forall|v: int, p: int|
            0 <= v < rp@ && 0 <= p < np@ && !(v == wi && p == off) ==> #[trigger] final(acc)@[v]@[p]
                == old(acc)@[v]@[p],
        opt_elem(final(acc)@[wi as int]@[off as int]) == add_opt(
            opt_elem(old(acc)@[wi as int]@[off as int]),
            elem(coef),
            qof(*ring),
        ),
        final(acc)@[wi as int]@[off as int] is Some,
{
    add_into(acc, wi, off, coef, ring);
    proof {
        assert forall|v: int, p: int| 0 <= v < rp@ && 0 <= p < np@ implies opt_wf(#[trigger] acc@[v]@[p], ring.m) by {
            if !(v == wi && p == off) {
                assert(acc@[v]@[p] == old(acc)@[v]@[p]);
            }
        }
    }
}

/// Every coefficient of `e` is zero.
pub open spec fn elem_is_zero(e: RingElem) -> bool {
    forall|i: int| 0 <= i < D ==> #[trigger] e.c[i] == 0
}

/// The non-zero entries among the first `upto` positions of an accumulator
/// row, in position order.
pub open spec fn row_entries(row: Seq<Option<RingElem>>, upto: nat) -> Seq<(usize, RingElem)>
    decreases upto,
{
    if upto == 0 {
        Seq::empty()
    } else {
        let prev = row_entries(row, (upto - 1) as nat);
        match row[upto - 1] {
            Some(c) => if elem_is_zero(c) {
                prev
            } else {
                prev.push(((upto - 1) as usize, c))
            },
            None => prev,
        }
    }
}

/// The rows among the first `upto` of an accumulator of width `np` that
/// hold a non-zero entry, each with its entries.
pub open spec fn acc_entries(acc: Seq<Vec<Option<RingElem>>>, np: nat, upto: nat) -> Seq<(usize, Seq<(usize, RingElem)>)>
    decreases upto,
{
    if upto == 0 {
        Seq::empty()
    } else {
        let prev = acc_entries(acc, np, (upto - 1) as nat);
        let b = row_entries(acc[upto - 1]@, np);
        if b.len() > 0 {
            prev.push(((upto - 1) as usize, b))
        } else {
            prev
        }
    }
}

/// A sparse form with its entry lists as sequences.
pub open spec fn phi_view(phi: Seq<(usize, Vec<(usize, RingElem)>)>) -> Seq<(usize, Seq<(usize, RingElem)>)> {
    phi.map_values(|e: (usize, Vec<(usize, RingElem)>)| (e.0, e.1@))
}

/// The non-zero entries of the accumulator, per vector in position order;
/// vectors without any are left out.
fn acc_finish(acc: &Vec<Vec<Option<RingElem>>>, rp: usize, np: usize, m: &Modulus) -> (phi: Vec<(usize, Vec<(usize, RingElem)>)>)
    requires
        acc_ok(acc@, rp as int, np as int, *m),
    ensures
        phi_wf(phi@, rp as int, np as int, *m),
        phi_view(phi@) == acc_entries(acc@, np as nat, rp as nat),
{
    let mut phi: Vec<(usize, Vec<(usize, RingElem)>)> = Vec::new();
    for wi in 0..rp
        invariant
            acc_ok(acc@, rp as int, np as int, *m),
            phi_wf(phi@, rp as int, np as int, *m),
            phi_view(phi@) == acc_entries(acc@, np as nat, wi as nat),
    {
        let mut bucket: Vec<(usize, RingElem)> = Vec::new();
        for p in 0..np
            invariant
                wi < rp,
                acc_ok(acc@, rp as int, np as int, *m),
                forall|s: int| 0 <= s < bucket@.len() ==> (#[trigger] bucket@[s]).0 < np && bucket@[s].1.wf(*m),
                bucket@ == row_entries(acc@[wi as int]@, p as nat),
        {
            assert(opt_wf(acc@[wi as int]@[p as int], *m));
            match acc[wi][p] {
                Some(c) => {
                    if !c.is_zero() {
                        bucket.push((p, c));
                    }
                },
                None => {},
            }
        }
        if bucket.len() > 0 {
            let ghost before = phi@;
            phi.push((wi, bucket));
            proof {
                assert forall|t: int| 0 <= t < phi@.len() implies {
                    &&& (#[trigger] phi@[t]).0 < rp
                    &&& forall|s: int|
                        0 <= s < phi@[t].1@.len() ==> {
                            &&& (#[trigger] phi@[t].1@[s]).0 < np
                            &&& phi@[t].1@[s].1.wf(*m)
                        }
                } by {
                    if t < before.len() {
                        assert(phi@[t] == before[t]);
                    }
                }
                assert(phi_view(phi@) =~= phi_view(before).push((wi, bucket@)));
            }
        }
    }
    phi
}

// ---------------------------------------------------------------------------
// The folded constraints
// ---------------------------------------------------------------------------

/// The layouts agree: `el` is a layout of `ê` and `fl` covers `n`-long
/// `z`'s and `ê`.
pub open spec fn fold_ctx(fl: FoldedLayout, el: ELayout, n: int) -> bool {
    &&& el.wf()
    &&& fl.covers(n, el.m as int)
    &&& 2 * fl.nu + fl.mu <= usize::MAX
}

/// Position of entry `p < n` of `z^(0)` (`which = 0`) or `z^(1)`
/// (`which = 1`) in the folded witness.
fn z_slot(fl: &FoldedLayout, el: &ELayout, n: usize, p: usize, which: usize) -> (res: (usize, usize))
    requires
        fold_ctx(*fl, *el, n as int),
        p < n,
    ensures
        res.0 < fl.r_prime,
        res.1 < fl.n_prime,
{
    proof {
        assert(p < fl.z.pieces * fl.z.piece_len);
        assert(fl.z.piece_len > 0);
    }
    if which == 0 {
        fl.z0(p)
    } else {
        fl.z1(p)
    }
}

/// Witness index and position of chunk `idx` of `ê`.
pub open spec fn e_slot_spec(fl: FoldedLayout, el: ELayout, idx: EIdx) -> (usize, usize) {
    (
        (2 * fl.nu + el.pos_spec(idx) / (fl.e.piece_len as int)) as usize,
        (el.pos_spec(idx) % (fl.e.piece_len as int)) as usize,
    )
}

/// Position of chunk `idx` of `ê` in the folded witness.
fn e_slot(fl: &FoldedLayout, el: &ELayout, n: usize, idx: EIdx) -> (res: (usize, usize))
    requires
        fold_ctx(*fl, *el, n as int),
        el.holds(idx),
    ensures
        res.0 < fl.r_prime,
        res.1 < fl.n_prime,
        res == e_slot_spec(*fl, *el, idx),
{
    let pos = el.pos(idx);
    assert(fl.e.piece_len > 0);
    fl.e(pos)
}

/// Check 3, row `k`: `Σ_j A[k][j]·(z^(0)_j + b·z^(1)_j) − Σ_i c_i Σ_l b₁^l·v_i^(l)[k] = 0`.
fn build_check3_row(
    k: usize,
    a_mat: &Vec<Vec<RingElem>>,
    cs: &Vec<RingElem>,
    fl: &FoldedLayout,
    el: &ELayout,
    b_re: &RingElem,
    b1: u64,
    ring: &Ring,
    n: usize,
) -> (c: DotConstraint)
    requires
        ring.wf(),
        fold_ctx(*fl, *el, n as int),
        k < el.kappa,
        k < a_mat@.len(),
        a_mat@[k as int]@.len() == n,
        elems_wf(a_mat@[k as int]@, ring.m),
        cs@.len() == el.r,
        elems_wf(cs@, ring.m),
        b_re.wf(ring.m),
    ensures
        c.wf(fl.r_prime as int, fl.n_prime as int, ring.m),
{
    let m = &ring.m;
    let rp = fl.r_prime;
    let np = fl.n_prime;
    let mut acc = acc_new(rp, np, m);
    for j in 0..n
        invariant
            ring.wf(),
            m == &ring.m,
            rp == fl.r_prime,
            np == fl.n_prime,
            fold_ctx(*fl, *el, n as int),
            k < a_mat@.len(),
            a_mat@[k as int]@.len() == n,
            elems_wf(a_mat@[k as int]@, ring.m),
            b_re.wf(ring.m),
            acc_ok(acc@, rp as int, np as int, ring.m),
    {
        let coef = a_mat[k][j];
        assert(coef.wf(ring.m));
        if !coef.is_zero() {
            let (wi0, off0) = z_slot(fl, el, n, j, 0);
            acc_add(&mut acc, wi0, off0, coef, ring, Ghost(rp as int), Ghost(np as int));
            let (wi1, off1) = z_slot(fl, el, n, j, 1);
            let coef_b = ring.mul(&coef, b_re);
            acc_add(&mut acc, wi1, off1, coef_b, ring, Ghost(rp as int), Ghost(np as int));
        }
    }
    let one = RingElem::constant(m, 1);
    let mut pow_b1: u64 = 1;
    for l in 0..el.t1
        invariant
            ring.wf(),
            m == &ring.m,
            rp == fl.r_prime,
            np == fl.n_prime,
            fold_ctx(*fl, *el, n as int),
            k < el.kappa,
            cs@.len() == el.r,
            elems_wf(cs@, ring.m),
            one.wf(ring.m),
            acc_ok(acc@, rp as int, np as int, ring.m),
    {
        let pow_re = RingElem::constant(m, pow_b1);
        for i in 0..el.r
            invariant
                ring.wf(),
                m == &ring.m,
                rp == fl.r_prime,
                np == fl.n_prime,
                fold_ctx(*fl, *el, n as int),
                k < el.kappa,
                l < el.t1,
                cs@.len() == el.r,
                elems_wf(cs@, ring.m),
                one.wf(ring.m),
                pow_re.wf(ring.m),
                acc_ok(acc@, rp as int, np as int, ring.m),
        {
            assert(cs@[i as int].wf(ring.m));
            let scalar = ring.mul(&cs[i], &pow_re);
            let neg_scalar = scalar.neg(m);
            let (wi, off) = e_slot(fl, el, n, EIdx::V(i, l, k));
            let t = ring.mul(&one, &neg_scalar);
            acc_add(&mut acc, wi, off, t, ring, Ghost(rp as int), Ghost(np as int));
        }
        pow_b1 = m.mul(pow_b1, b1);
    }
    let phi = acc_finish(&acc, rp, np, m);
    let z = RingElem::zero();
    assert(z.wf(ring.m));
    DotConstraint { a: Vec::new(), phi, b: z }
}

/// Chunk `l` of the pair `(i, j)` in the `h` block (`h_block`) or the `g`
/// block.
pub open spec fn pair_idx(i: usize, j: usize, h_block: bool, l: usize) -> EIdx {
    if h_block {
        EIdx::H(i, j, l)
    } else {
        EIdx::G(i, j, l)
    }
}

/// The constant polynomial `x`.
pub open spec fn const_seq(x: int) -> Seq<int> {
    Seq::new(D as nat, |k: int| if k == 0 { x } else { 0 })
}

/// The term added at chunk `l`: `scalar · base^l`.
pub open spec fn chunk_term(scalar: RingElem, base: u64, l: nat, ring: Ring) -> Seq<int> {
    crt_mul_seq(
        elem(scalar),
        const_seq(vstd::arithmetic::power::pow(base as int, l) % (ring.m.q as int)),
        ring.r as int,
        ring.m.q as int,
    )
}

/// Distinct chunks of one pair sit at distinct slots.
proof fn lemma_pair_slots_distinct(fl: FoldedLayout, el: ELayout, n: int, i: usize, j: usize, h_block: bool, l1: usize, l2: usize)
    requires
        fold_ctx(fl, el, n),
        i <= j < el.r,
        l1 != l2,
        l1 < (if h_block { el.t1 } else { el.t2 }),
        l2 < (if h_block { el.t1 } else { el.t2 }),
    ensures
        e_slot_spec(fl, el, pair_idx(i, j, h_block, l1)) != e_slot_spec(fl, el, pair_idx(i, j, h_block, l2)),
{
    let p1 = el.pos_spec(pair_idx(i, j, h_block, l1));
    let p2 = el.pos_spec(pair_idx(i, j, h_block, l2));
    let len = fl.e.piece_len as int;
    let nu = el.n_upper as int;
    assert(nu >= 1) by (nonlinear_arith)
        requires
            nu == el.r * (el.r + 1) / 2,
            el.r >= 1,
    ;
    assert(el.m > 0) by (nonlinear_arith)
        requires
            el.m == el.h_off + el.t1 * nu,
            el.h_off == el.g_off + el.t2 * nu,
            el.g_off >= 0,
            nu >= 1,
            el.t1 >= 1 || el.t2 >= 1,
    ;
    assert(len > 0);
    assert(p1 - p2 == (l1 - l2) * nu) by (nonlinear_arith)
        requires
            p1 - p2 == l1 * nu - l2 * nu,
    ;
    assert(p1 != p2) by (nonlinear_arith)
        requires
            p1 - p2 == (l1 - l2) * nu,
            l1 != l2,
            nu >= 1,
    ;
    lemma_row_offset(el.r as int, i as int);
    let c = row_offset(el.r as int, i as int) + (j - i);
    let a = el.r - i;
    assert(j - i < a * (a + 1) / 2) by (nonlinear_arith)
        requires
            0 <= j - i < a,
            a >= 1,
    ;
    assert(0 <= c < nu);
    let tt: int = if h_block { el.t1 as int } else { el.t2 as int };
    let off: int = if h_block { el.h_off as int } else { el.g_off as int };
    assert(p1 == off + l1 * nu + c && p2 == off + l2 * nu + c);
    assert(off + tt * nu <= el.m);
    assert(0 <= p1 < el.m && 0 <= p2 < el.m) by (nonlinear_arith)
        requires
            p1 == off + l1 * nu + c,
            p2 == off + l2 * nu + c,
            0 <= c < nu,
            0 <= l1 < tt,
            0 <= l2 < tt,
            off >= 0,
            off + tt * nu <= el.m,
    ;
    let mu = fl.mu as int;
    assert(el.m <= mu * len);
    vstd::arithmetic::div_mod::lemma_fundamental_div_mod(p1, len);
    vstd::arithmetic::div_mod::lemma_fundamental_div_mod(p2, len);
    assert(0 <= p1 / len < mu) by (nonlinear_arith)
        requires
            p1 == len * (p1 / len) + p1 % len,
            0 <= p1 % len < len,
            0 <= p1 < mu * len,
            len > 0,
    ;
    assert(0 <= p2 / len < mu) by (nonlinear_arith)
        requires
            p2 == len * (p2 / len) + p2 % len,
            0 <= p2 % len < len,
            0 <= p2 < mu * len,
            len > 0,
    ;
    assert(2 * fl.nu + mu <= usize::MAX);
    if p1 / len == p2 / len && p1 % len == p2 % len {
        assert(p1 == p2);
    }
}

/// Add `Σ_l base^l·scalar` at the chunks `l < parts` of the pair `(i, j)`
/// of the `g` block (`h_block = false`) or the `h` block: the slot of chunk
/// `l` gains `scalar · base^l`, every other entry stays.
#[verifier::rlimit(40)]
fn add_pair_chunks(
    acc: &mut Vec<Vec<Option<RingElem>>>,
    fl: &FoldedLayout,
    el: &ELayout,
    n: usize,
    i: usize,
    j: usize,
    h_block: bool,
    scalar: &RingElem,
    base: u64,
    ring: &Ring,
)
    requires
        ring.wf(),
        fold_ctx(*fl, *el, n as int),
        i <= j < el.r,
        scalar.wf(ring.m),
        acc_ok(old(acc)@, fl.r_prime as int, fl.n_prime as int, ring.m),
    ensures
        acc_ok(final(acc)@, fl.r_prime as int, fl.n_prime as int, ring.m),
        forall|l: usize|
            l < (if h_block { el.t1 } else { el.t2 }) ==> ({
                let sl = #[trigger] e_slot_spec(*fl, *el, pair_idx(i, j, h_block, l));
                opt_elem(final(acc)@[sl.0 as int]@[sl.1 as int]) == add_opt(
                    opt_elem(old(acc)@[sl.0 as int]@[sl.1 as int]),
                    chunk_term(*scalar, base, l as nat, *ring),
                    qof(*ring),
                )
            }),
        forall|v: int, p: int|
            0 <= v < fl.r_prime && 0 <= p < fl.n_prime && (forall|l: usize|
                l < (if h_block { el.t1 } else { el.t2 }) ==> #[trigger] e_slot_spec(
                    *fl,
                    *el,
                    pair_idx(i, j, h_block, l),
                ) != (v as usize, p as usize)) ==> #[trigger] final(acc)@[v]@[p] == old(acc)@[v]@[p],
{
    let m = &ring.m;
    let parts = if h_block {
        el.t1
    } else {
        el.t2
    };
    let ghost acc0 = acc@;
    let mut pow: u64 = 1;
    proof {
        vstd::arithmetic::power::lemma_pow0(base as int);
        vstd::arithmetic::div_mod::lemma_small_mod(1, m.q as nat);
    }
    for l in 0..parts
        invariant
            ring.wf(),
            m == &ring.m,
            fold_ctx(*fl, *el, n as int),
            i <= j < el.r,
            parts == if h_block {
                el.t1
            } else {
                el.t2
            },
            scalar.wf(ring.m),
            acc_ok(acc@, fl.r_prime as int, fl.n_prime as int, ring.m),
            acc0 == old(acc)@,
            pow == vstd::arithmetic::power::pow(base as int, l as nat) % (m.q as int),
            forall|ll: usize|
                ll < l ==> (#[trigger] e_slot_spec(*fl, *el, pair_idx(i, j, h_block, ll))).0 < fl.r_prime
                    && e_slot_spec(*fl, *el, pair_idx(i, j, h_block, ll)).1 < fl.n_prime,
            forall|ll: usize|
                ll < l ==> ({
                    let sl = #[trigger] e_slot_spec(*fl, *el, pair_idx(i, j, h_block, ll));
                    opt_elem(acc@[sl.0 as int]@[sl.1 as int]) == add_opt(
                        opt_elem(acc0[sl.0 as int]@[sl.1 as int]),
                        chunk_term(*scalar, base, ll as nat, *ring),
                        qof(*ring),
                    )
                }),
            forall|v: int, p: int|
                0 <= v < fl.r_prime && 0 <= p < fl.n_prime && (forall|ll: usize|
                    ll < l ==> #[trigger] e_slot_spec(*fl, *el, pair_idx(i, j, h_block, ll)) != (v as usize, p as usize))
                    ==> #[trigger] acc@[v]@[p] == acc0[v]@[p],
    {
        let pow_re = RingElem::constant(m, pow);
        let coef = ring.mul(scalar, &pow_re);
        let idx = if h_block {
            EIdx::H(i, j, l)
        } else {
            EIdx::G(i, j, l)
        };
        assert(idx == pair_idx(i, j, h_block, l));
        let (wi, off) = e_slot(fl, el, n, idx);
        proof {
            vstd::arithmetic::div_mod::lemma_small_mod(pow as nat, m.q as nat);
            assert(elem(pow_re) =~= const_seq(vstd::arithmetic::power::pow(base as int, l as nat) % (m.q as int)));
            assert(elem(coef) == chunk_term(*scalar, base, l as nat, *ring));
            assert forall|ll: usize| ll < l implies #[trigger] e_slot_spec(*fl, *el, pair_idx(i, j, h_block, ll))
                != (wi, off) by {
                lemma_pair_slots_distinct(*fl, *el, n as int, i, j, h_block, ll, l);
            }
        }
        let ghost before = acc@;
        acc_add(acc, wi, off, coef, ring, Ghost(fl.r_prime as int), Ghost(fl.n_prime as int));
        proof {
            assert forall|ll: usize| ll < l + 1 implies ({
                let sl = #[trigger] e_slot_spec(*fl, *el, pair_idx(i, j, h_block, ll));
                opt_elem(acc@[sl.0 as int]@[sl.1 as int]) == add_opt(
                    opt_elem(acc0[sl.0 as int]@[sl.1 as int]),
                    chunk_term(*scalar, base, ll as nat, *ring),
                    qof(*ring),
                )
            }) by {
                if ll < l {
                    let sl = e_slot_spec(*fl, *el, pair_idx(i, j, h_block, ll));
                    assert(sl != (wi, off));
                    assert(acc@[sl.0 as int]@[sl.1 as int] == before[sl.0 as int]@[sl.1 as int]);
                } else {
                    assert(before[wi as int]@[off as int] == acc0[wi as int]@[off as int]);
                }
            }
            assert forall|v: int, p: int|
                0 <= v < fl.r_prime && 0 <= p < fl.n_prime && (forall|ll: usize|
                    ll < l + 1 ==> #[trigger] e_slot_spec(*fl, *el, pair_idx(i, j, h_block, ll)) != (v as usize, p as usize))
                    implies #[trigger] acc@[v]@[p] == acc0[v]@[p] by {
                assert(e_slot_spec(*fl, *el, pair_idx(i, j, h_block, l)) != (v as usize, p as usize));
                assert(!(v == wi && p == off));
                assert(acc@[v]@[p] == before[v]@[p]);
            }
        }
        proof {
            vstd::arithmetic::power::lemma_pow_adds(base as int, l as nat, 1);
            vstd::arithmetic::power::lemma_pow1(base as int);
            vstd::arithmetic::div_mod::lemma_mul_mod_noop_left(
                vstd::arithmetic::power::pow(base as int, l as nat),
                base as int,
                m.q as int,
            );
        }
        pow = m.mul(pow, base);
    }
}

/// `c_i·c_j`, doubled off the diagonal, negated.
fn neg_pair_weight(cs: &Vec<RingElem>, i: usize, j: usize, ring: &Ring) -> (w: RingElem)
    requires
        ring.wf(),
        i < cs@.len(),
        j < cs@.len(),
        elems_wf(cs@, ring.m),
    ensures
        w.wf(ring.m),
{
    let m = &ring.m;
    assert(cs@[i as int].wf(ring.m) && cs@[j as int].wf(ring.m));
    let mut cicj = ring.mul(&cs[i], &cs[j]);
    if i != j {
        cicj = cicj.add(m, &cicj);
    }
    cicj.neg(m)
}

/// Check 4: `⟨z, z⟩ − Σ_{i,j} c_i c_j Σ_l b₂^l·g_ij^(l) = 0` with
/// `z = z^(0) + b·z^(1)` expanded over the `ν` pairs of pieces.
fn build_check4(
    cs: &Vec<RingElem>,
    fl: &FoldedLayout,
    el: &ELayout,
    b_re: &RingElem,
    b_sq: &RingElem,
    b2: u64,
    ring: &Ring,
    n: usize,
) -> (c: DotConstraint)
    requires
        ring.wf(),
        fold_ctx(*fl, *el, n as int),
        cs@.len() == el.r,
        elems_wf(cs@, ring.m),
        b_re.wf(ring.m),
        b_sq.wf(ring.m),
    ensures
        c.wf(fl.r_prime as int, fl.n_prime as int, ring.m),
{
    let m = &ring.m;
    let nu = fl.nu;
    let one = RingElem::constant(m, 1);
    let mut a: Vec<(usize, usize, RingElem)> = Vec::new();
    for ai in 0..nu
        invariant
            nu == fl.nu,
            fold_ctx(*fl, *el, n as int),
            one.wf(ring.m),
            b_re.wf(ring.m),
            b_sq.wf(ring.m),
            a_wf(a@, fl.r_prime as int, ring.m),
    {
        let ghost before = a@;
        a.push((ai, ai, one));
        a.push((ai, nu + ai, *b_re));
        a.push((nu + ai, nu + ai, *b_sq));
        proof {
            assert forall|t: int| 0 <= t < a@.len() implies {
                &&& (#[trigger] a@[t]).0 < fl.r_prime
                &&& a@[t].1 < fl.r_prime
                &&& a@[t].2.wf(ring.m)
            } by {
                if t < before.len() {
                    assert(a@[t] == before[t]);
                }
            }
        }
    }
    let rp = fl.r_prime;
    let np = fl.n_prime;
    let mut acc = acc_new(rp, np, m);
    for i in 0..el.r
        invariant
            ring.wf(),
            rp == fl.r_prime,
            np == fl.n_prime,
            fold_ctx(*fl, *el, n as int),
            cs@.len() == el.r,
            elems_wf(cs@, ring.m),
            acc_ok(acc@, rp as int, np as int, ring.m),
    {
        for j in i..el.r
            invariant
                ring.wf(),
                rp == fl.r_prime,
                np == fl.n_prime,
                fold_ctx(*fl, *el, n as int),
                i < el.r,
                cs@.len() == el.r,
                elems_wf(cs@, ring.m),
                acc_ok(acc@, rp as int, np as int, ring.m),
        {
            let w = neg_pair_weight(cs, i, j, ring);
            add_pair_chunks(&mut acc, fl, el, n, i, j, false, &w, b2, ring);
        }
    }
    let phi = acc_finish(&acc, rp, np, m);
    DotConstraint { a, phi, b: RingElem::zero() }
}

/// Check 5: `Σ_i c_i⟨φ_i, z⟩ − Σ_{i,j} c_i c_j Σ_l b₁^l·h_ij^(l) = 0`.
fn build_check5(
    cs: &Vec<RingElem>,
    phi_agg: &Vec<Vec<(usize, RingElem)>>,
    fl: &FoldedLayout,
    el: &ELayout,
    b_re: &RingElem,
    b1: u64,
    ring: &Ring,
    n: usize,
) -> (c: DotConstraint)
    requires
        ring.wf(),
        fold_ctx(*fl, *el, n as int),
        cs@.len() == el.r,
        elems_wf(cs@, ring.m),
        phi_agg@.len() <= cs@.len(),
        forall|i: int, s: int|
            0 <= i < phi_agg@.len() && 0 <= s < phi_agg@[i]@.len() ==> (#[trigger] phi_agg@[i]@[s]).0 < n
                && phi_agg@[i]@[s].1.wf(ring.m),
        b_re.wf(ring.m),
    ensures
        c.wf(fl.r_prime as int, fl.n_prime as int, ring.m),
{
    let m = &ring.m;
    let rp = fl.r_prime;
    let np = fl.n_prime;
    let mut acc = acc_new(rp, np, m);
    for i in 0..phi_agg.len()
        invariant
            ring.wf(),
            rp == fl.r_prime,
            np == fl.n_prime,
            fold_ctx(*fl, *el, n as int),
            cs@.len() == el.r,
            elems_wf(cs@, ring.m),
            phi_agg@.len() <= cs@.len(),
            forall|i: int, s: int|
                0 <= i < phi_agg@.len() && 0 <= s < phi_agg@[i]@.len() ==> (#[trigger] phi_agg@[i]@[s]).0 < n
                    && phi_agg@[i]@[s].1.wf(ring.m),
            b_re.wf(ring.m),
            acc_ok(acc@, rp as int, np as int, ring.m),
    {
        assert(cs@[i as int].wf(ring.m));
        let len_i = phi_agg[i].len();
        for s in 0..len_i
            invariant
                ring.wf(),
                rp == fl.r_prime,
                np == fl.n_prime,
                fold_ctx(*fl, *el, n as int),
                i < phi_agg@.len(),
                len_i == phi_agg@[i as int]@.len(),
                cs@.len() == el.r,
                elems_wf(cs@, ring.m),
                phi_agg@.len() <= cs@.len(),
                forall|i: int, s: int|
                    0 <= i < phi_agg@.len() && 0 <= s < phi_agg@[i]@.len() ==> (#[trigger] phi_agg@[i]@[s]).0 < n
                        && phi_agg@[i]@[s].1.wf(ring.m),
                cs@[i as int].wf(ring.m),
                b_re.wf(ring.m),
                acc_ok(acc@, rp as int, np as int, ring.m),
        {
            let (pos, coef) = phi_agg[i][s];
            assert(phi_agg@[i as int]@[s as int].1.wf(ring.m));
            let ci_coef = ring.mul(&cs[i], &coef);
            let (wi0, off0) = z_slot(fl, el, n, pos, 0);
            acc_add(&mut acc, wi0, off0, ci_coef, ring, Ghost(rp as int), Ghost(np as int));
            let (wi1, off1) = z_slot(fl, el, n, pos, 1);
            let ci_coef_b = ring.mul(&ci_coef, b_re);
            acc_add(&mut acc, wi1, off1, ci_coef_b, ring, Ghost(rp as int), Ghost(np as int));
        }
    }
    for i in 0..el.r
        invariant
            ring.wf(),
            rp == fl.r_prime,
            np == fl.n_prime,
            fold_ctx(*fl, *el, n as int),
            cs@.len() == el.r,
            elems_wf(cs@, ring.m),
            acc_ok(acc@, rp as int, np as int, ring.m),
    {
        for j in i..el.r
            invariant
                ring.wf(),
                rp == fl.r_prime,
                np == fl.n_prime,
                fold_ctx(*fl, *el, n as int),
                i < el.r,
                cs@.len() == el.r,
                elems_wf(cs@, ring.m),
                acc_ok(acc@, rp as int, np as int, ring.m),
        {
            let w = neg_pair_weight(cs, i, j, ring);
            add_pair_chunks(&mut acc, fl, el, n, i, j, true, &w, b1, ring);
        }
    }
    let phi = acc_finish(&acc, rp, np, m);
    DotConstraint { a: Vec::new(), phi, b: RingElem::zero() }
}

/// Check 6: `Σ_{i ≤ j} a_ij·g_ij` (doubled off the diagonal) `+ Σ_i h_ii = b`.
fn build_check6(
    a_agg: &Vec<Vec<RingElem>>,
    fl: &FoldedLayout,
    el: &ELayout,
    b1: u64,
    b2: u64,
    b_agg: &RingElem,
    ring: &Ring,
    n: usize,
) -> (c: DotConstraint)
    requires
        ring.wf(),
        fold_ctx(*fl, *el, n as int),
        a_agg@.len() == el.r,
        forall|i: int| 0 <= i < el.r ==> (#[trigger] a_agg@[i])@.len() == el.r && elems_wf(a_agg@[i]@, ring.m),
        b_agg.wf(ring.m),
    ensures
        c.wf(fl.r_prime as int, fl.n_prime as int, ring.m),
{
    let m = &ring.m;
    let rp = fl.r_prime;
    let np = fl.n_prime;
    let mut acc = acc_new(rp, np, m);
    for i in 0..el.r
        invariant
            ring.wf(),
            m == &ring.m,
            rp == fl.r_prime,
            np == fl.n_prime,
            fold_ctx(*fl, *el, n as int),
            a_agg@.len() == el.r,
            forall|i: int| 0 <= i < el.r ==> (#[trigger] a_agg@[i])@.len() == el.r && elems_wf(a_agg@[i]@, ring.m),
            acc_ok(acc@, rp as int, np as int, ring.m),
    {
        for j in i..el.r
            invariant
                ring.wf(),
                m == &ring.m,
                rp == fl.r_prime,
                np == fl.n_prime,
                fold_ctx(*fl, *el, n as int),
                i < el.r,
                a_agg@.len() == el.r,
                forall|i: int| 0 <= i < el.r ==> (#[trigger] a_agg@[i])@.len() == el.r && elems_wf(a_agg@[i]@, ring.m),
                acc_ok(acc@, rp as int, np as int, ring.m),
        {
            assert(a_agg@[i as int]@[j as int].wf(ring.m));
            let aij = a_agg[i][j];
            if !aij.is_zero() {
                let mut coef = aij;
                if i != j {
                    coef = coef.add(m, &aij);
                }
                add_pair_chunks(&mut acc, fl, el, n, i, j, false, &coef, b2, ring);
            }
        }
    }
    let one = RingElem::constant(m, 1);
    for i in 0..el.r
        invariant
            ring.wf(),
            m == &ring.m,
            rp == fl.r_prime,
            np == fl.n_prime,
            fold_ctx(*fl, *el, n as int),
            one.wf(ring.m),
            acc_ok(acc@, rp as int, np as int, ring.m),
    {
        add_pair_chunks(&mut acc, fl, el, n, i, i, true, &one, b1, ring);
    }
    let phi = acc_finish(&acc, rp, np, m);
    DotConstraint { a: Vec::new(), phi, b: *b_agg }
}

/// Check 8, row `r1` of `u_1`: `Σ B_{i,k}[r1]·v_i^(k) + Σ C_{i,j,k}[r1]·g_ij^(k) = u_1[r1]`.
fn build_check8_row(
    r1: usize,
    u1: &Vec<RingElem>,
    b_mats: &Vec<Vec<Vec<Vec<RingElem>>>>,
    c_mats: &Vec<Vec<Vec<Vec<RingElem>>>>,
    fl: &FoldedLayout,
    el: &ELayout,
    ring: &Ring,
    n: usize,
) -> (c: DotConstraint)
    requires
        ring.wf(),
        fold_ctx(*fl, *el, n as int),
        r1 < u1@.len(),
        elems_wf(u1@, ring.m),
        b_mats@.len() == el.r,
        forall|i: int| 0 <= i < el.r ==> (#[trigger] b_mats@[i])@.len() == el.t1,
        forall|i: int, k: int|
            0 <= i < el.r && 0 <= k < el.t1 ==> r1 < (#[trigger] b_mats@[i]@[k])@.len() && b_mats@[i]@[k]@[r1 as int]@.len()
                == el.kappa && elems_wf(b_mats@[i]@[k]@[r1 as int]@, ring.m),
        c_mats@.len() == el.r,
        forall|i: int| 0 <= i < el.r ==> (#[trigger] c_mats@[i])@.len() == el.r,
        forall|i: int, j: int| 0 <= i <= j < el.r ==> (#[trigger] c_mats@[i]@[j])@.len() == el.t2,
        forall|i: int, j: int, k: int|
            0 <= i <= j < el.r && 0 <= k < el.t2 ==> r1 < (#[trigger] c_mats@[i]@[j]@[k])@.len() && elems_wf(
                c_mats@[i]@[j]@[k]@,
                ring.m,
            ),
    ensures
        c.wf(fl.r_prime as int, fl.n_prime as int, ring.m),
{
    let m = &ring.m;
    let rp = fl.r_prime;
    let np = fl.n_prime;
    let mut acc = acc_new(rp, np, m);
    for i in 0..el.r
        invariant
            ring.wf(),
            rp == fl.r_prime,
            np == fl.n_prime,
            fold_ctx(*fl, *el, n as int),
            b_mats@.len() == el.r,
            forall|i: int| 0 <= i < el.r ==> (#[trigger] b_mats@[i])@.len() == el.t1,
            forall|i: int, k: int|
                0 <= i < el.r && 0 <= k < el.t1 ==> r1 < (#[trigger] b_mats@[i]@[k])@.len()
                    && b_mats@[i]@[k]@[r1 as int]@.len() == el.kappa && elems_wf(b_mats@[i]@[k]@[r1 as int]@, ring.m),
            acc_ok(acc@, rp as int, np as int, ring.m),
    {
        for k in 0..el.t1
            invariant
                ring.wf(),
                rp == fl.r_prime,
                np == fl.n_prime,
                fold_ctx(*fl, *el, n as int),
                i < el.r,
                b_mats@.len() == el.r,
                forall|i: int| 0 <= i < el.r ==> (#[trigger] b_mats@[i])@.len() == el.t1,
                forall|i: int, k: int|
                    0 <= i < el.r && 0 <= k < el.t1 ==> r1 < (#[trigger] b_mats@[i]@[k])@.len()
                        && b_mats@[i]@[k]@[r1 as int]@.len() == el.kappa && elems_wf(
                        b_mats@[i]@[k]@[r1 as int]@,
                        ring.m,
                    ),
                acc_ok(acc@, rp as int, np as int, ring.m),
        {
            assert(r1 < b_mats@[i as int]@[k as int]@.len());
            for idx in 0..el.kappa
                invariant
                    ring.wf(),
                    rp == fl.r_prime,
                    np == fl.n_prime,
                    fold_ctx(*fl, *el, n as int),
                    i < el.r,
                    k < el.t1,
                    b_mats@.len() == el.r,
                    forall|i: int| 0 <= i < el.r ==> (#[trigger] b_mats@[i])@.len() == el.t1,
                    r1 < b_mats@[i as int]@[k as int]@.len(),
                    b_mats@[i as int]@[k as int]@[r1 as int]@.len() == el.kappa,
                    elems_wf(b_mats@[i as int]@[k as int]@[r1 as int]@, ring.m),
                    acc_ok(acc@, rp as int, np as int, ring.m),
            {
                let coef = b_mats[i][k][r1][idx];
                assert(coef.wf(ring.m));
                if !coef.is_zero() {
                    let (wi, off) = e_slot(fl, el, n, EIdx::V(i, k, idx));
                    acc_add(&mut acc, wi, off, coef, ring, Ghost(rp as int), Ghost(np as int));
                }
            }
        }
    }
    for i in 0..el.r
        invariant
            ring.wf(),
            rp == fl.r_prime,
            np == fl.n_prime,
            fold_ctx(*fl, *el, n as int),
            c_mats@.len() == el.r,
            forall|i: int| 0 <= i < el.r ==> (#[trigger] c_mats@[i])@.len() == el.r,
            forall|i: int, j: int| 0 <= i <= j < el.r ==> (#[trigger] c_mats@[i]@[j])@.len() == el.t2,
            forall|i: int, j: int, k: int|
                0 <= i <= j < el.r && 0 <= k < el.t2 ==> r1 < (#[trigger] c_mats@[i]@[j]@[k])@.len() && elems_wf(
                    c_mats@[i]@[j]@[k]@,
                    ring.m,
                ),
            acc_ok(acc@, rp as int, np as int, ring.m),
    {
        for j in i..el.r
            invariant
                ring.wf(),
                rp == fl.r_prime,
                np == fl.n_prime,
                fold_ctx(*fl, *el, n as int),
                i < el.r,
                c_mats@.len() == el.r,
                forall|i: int| 0 <= i < el.r ==> (#[trigger] c_mats@[i])@.len() == el.r,
                forall|i: int, j: int| 0 <= i <= j < el.r ==> (#[trigger] c_mats@[i]@[j])@.len() == el.t2,
                forall|i: int, j: int, k: int|
                    0 <= i <= j < el.r && 0 <= k < el.t2 ==> r1 < (#[trigger] c_mats@[i]@[j]@[k])@.len() && elems_wf(
                        c_mats@[i]@[j]@[k]@,
                        ring.m,
                    ),
                acc_ok(acc@, rp as int, np as int, ring.m),
        {
            for k in 0..el.t2
                invariant
                    ring.wf(),
                    rp == fl.r_prime,
                    np == fl.n_prime,
                    fold_ctx(*fl, *el, n as int),
                    i <= j < el.r,
                    c_mats@.len() == el.r,
                    forall|i: int| 0 <= i < el.r ==> (#[trigger] c_mats@[i])@.len() == el.r,
                    forall|i: int, j: int| 0 <= i <= j < el.r ==> (#[trigger] c_mats@[i]@[j])@.len() == el.t2,
                    forall|i: int, j: int, k: int|
                        0 <= i <= j < el.r && 0 <= k < el.t2 ==> r1 < (#[trigger] c_mats@[i]@[j]@[k])@.len()
                            && elems_wf(c_mats@[i]@[j]@[k]@, ring.m),
                    acc_ok(acc@, rp as int, np as int, ring.m),
            {
                assert(r1 < c_mats@[i as int]@[j as int]@[k as int]@.len());
                let coef = c_mats[i][j][k][r1];
                assert(coef.wf(ring.m));
                if !coef.is_zero() {
                    let (wi, off) = e_slot(fl, el, n, EIdx::G(i, j, k));
                    acc_add(&mut acc, wi, off, coef, ring, Ghost(rp as int), Ghost(np as int));
                }
            }
        }
    }
    let phi = acc_finish(&acc, rp, np, m);
    assert(u1@[r1 as int].wf(ring.m));
    DotConstraint { a: Vec::new(), phi, b: u1[r1] }
}

/// Check 9, row `r1` of `u_2`: `Σ D_{i,j,k}[r1]·h_ij^(k) = u_2[r1]`.
fn build_check9_row(
    r1: usize,
    u2: &Vec<RingElem>,
    d_mats: &Vec<Vec<Vec<Vec<RingElem>>>>,
    fl: &FoldedLayout,
    el: &ELayout,
    ring: &Ring,
    n: usize,
) -> (c: DotConstraint)
    requires
        ring.wf(),
        fold_ctx(*fl, *el, n as int),
        r1 < u2@.len(),
        elems_wf(u2@, ring.m),
        d_mats@.len() == el.r,
        forall|i: int| 0 <= i < el.r ==> (#[trigger] d_mats@[i])@.len() == el.r,
        forall|i: int, j: int| 0 <= i <= j < el.r ==> (#[trigger] d_mats@[i]@[j])@.len() == el.t1,
        forall|i: int, j: int, k: int|
            0 <= i <= j < el.r && 0 <= k < el.t1 ==> r1 < (#[trigger] d_mats@[i]@[j]@[k])@.len() && elems_wf(
                d_mats@[i]@[j]@[k]@,
                ring.m,
            ),
    ensures
        c.wf(fl.r_prime as int, fl.n_prime as int, ring.m),
{
    let m = &ring.m;
    let rp = fl.r_prime;
    let np = fl.n_prime;
    let mut acc = acc_new(rp, np, m);
    for i in 0..el.r
        invariant
            ring.wf(),
            rp == fl.r_prime,
            np == fl.n_prime,
            fold_ctx(*fl, *el, n as int),
            d_mats@.len() == el.r,
            forall|i: int| 0 <= i < el.r ==> (#[trigger] d_mats@[i])@.len() == el.r,
            forall|i: int, j: int| 0 <= i <= j < el.r ==> (#[trigger] d_mats@[i]@[j])@.len() == el.t1,
            forall|i: int, j: int, k: int|
                0 <= i <= j < el.r && 0 <= k < el.t1 ==> r1 < (#[trigger] d_mats@[i]@[j]@[k])@.len() && elems_wf(
                    d_mats@[i]@[j]@[k]@,
                    ring.m,
                ),
            acc_ok(acc@, rp as int, np as int, ring.m),
    {
        for j in i..el.r
            invariant
                ring.wf(),
                rp == fl.r_prime,
                np == fl.n_prime,
                fold_ctx(*fl, *el, n as int),
                i < el.r,
                d_mats@.len() == el.r,
                forall|i: int| 0 <= i < el.r ==> (#[trigger] d_mats@[i])@.len() == el.r,
                forall|i: int, j: int| 0 <= i <= j < el.r ==> (#[trigger] d_mats@[i]@[j])@.len() == el.t1,
                forall|i: int, j: int, k: int|
                    0 <= i <= j < el.r && 0 <= k < el.t1 ==> r1 < (#[trigger] d_mats@[i]@[j]@[k])@.len() && elems_wf(
                        d_mats@[i]@[j]@[k]@,
                        ring.m,
                    ),
                acc_ok(acc@, rp as int, np as int, ring.m),
        {
            for k in 0..el.t1
                invariant
                    ring.wf(),
                    rp == fl.r_prime,
                    np == fl.n_prime,
                    fold_ctx(*fl, *el, n as int),
                    i <= j < el.r,
                    d_mats@.len() == el.r,
                    forall|i: int| 0 <= i < el.r ==> (#[trigger] d_mats@[i])@.len() == el.r,
                    forall|i: int, j: int| 0 <= i <= j < el.r ==> (#[trigger] d_mats@[i]@[j])@.len() == el.t1,
                    forall|i: int, j: int, k: int|
                        0 <= i <= j < el.r && 0 <= k < el.t1 ==> r1 < (#[trigger] d_mats@[i]@[j]@[k])@.len()
                            && elems_wf(d_mats@[i]@[j]@[k]@, ring.m),
                    acc_ok(acc@, rp as int, np as int, ring.m),
            {
                assert(r1 < d_mats@[i as int]@[j as int]@[k as int]@.len());
                let coef = d_mats[i][j][k][r1];
                assert(coef.wf(ring.m));
                if !coef.is_zero() {
                    let (wi, off) = e_slot(fl, el, n, EIdx::H(i, j, k));
                    acc_add(&mut acc, wi, off, coef, ring, Ghost(rp as int), Ghost(np as int));
                }
            }
        }
    }
    let phi = acc_finish(&acc, rp, np, m);
    assert(u2@[r1 as int].wf(ring.m));
    DotConstraint { a: Vec::new(), phi, b: u2[r1] }
}

// ---------------------------------------------------------------------------
// Replaying an iteration's challenges
// ---------------------------------------------------------------------------

/// The challenges and aggregated quantities of one iteration.
pub struct IterationReplay {
    /// The inner commitment matrix `A` (`κ × n`).
    pub a_mat: Vec<Vec<RingElem>>,
    /// The matrices `B_{i,k}`.
    pub b_mats: Vec<Vec<Vec<Vec<RingElem>>>>,
    /// The columns `C_{i,j,k}`.
    pub c_mats: Vec<Vec<Vec<Vec<RingElem>>>>,
    /// The columns `D_{i,j,k}`.
    pub d_mats: Vec<Vec<Vec<Vec<RingElem>>>>,
    /// The amortizing challenges `c_i`.
    pub cs: Vec<RingElem>,
    /// The aggregated quadratic part.
    pub a_agg: Vec<Vec<RingElem>>,
    /// The aggregated linear part.
    pub phi_agg: Vec<Vec<(usize, RingElem)>>,
    /// The aggregated right-hand side.
    pub b_agg: RingElem,
}

/// The shapes of a replay for `stmt` under `params`.
pub open spec fn replay_shape(stmt: Statement, params: IterationParams, rep: IterationReplay) -> bool {
    let r = stmt.r as int;
    let m = stmt.ring.m;
    let kappa = params.kappa as int;
    let kappa1 = params.kappa1 as int;
    let t1 = params.t1 as int;
    let t2 = params.t2 as int;
    &&& rep.a_mat@.len() == kappa
    &&& matrix_fits(rep.a_mat@, stmt.n as nat, stmt.ring)
    &&& rep.b_mats@.len() == r
    &&& forall|i: int| 0 <= i < r ==> (#[trigger] rep.b_mats@[i])@.len() == t1
    &&& forall|i: int, k: int|
        0 <= i < r && 0 <= k < t1 ==> (#[trigger] rep.b_mats@[i]@[k])@.len() == kappa1 && matrix_fits(
            rep.b_mats@[i]@[k]@,
            kappa as nat,
            stmt.ring,
        )
    &&& sym_mats_shape(rep.c_mats@, r, t2, kappa1, m)
    &&& sym_mats_shape(rep.d_mats@, r, t1, kappa1, m)
    &&& rep.cs@.len() == r
    &&& elems_wf(rep.cs@, m)
    &&& rep.a_agg@.len() == r
    &&& forall|i: int| 0 <= i < r ==> (#[trigger] rep.a_agg@[i])@.len() == r && elems_wf(rep.a_agg@[i]@, m)
    &&& rep.phi_agg@.len() == r
    &&& forall|i: int, s: int|
        0 <= i < r && 0 <= s < rep.phi_agg@[i]@.len() ==> (#[trigger] rep.phi_agg@[i]@[s]).0 < stmt.n
            && rep.phi_agg@[i]@[s].1.wf(m)
    &&& rep.b_agg.wf(m)
}

/// The shapes `expand_sym_mats` gives: `r × r` lists of `t` columns of `κ₁`
/// reduced elements on the upper triangle.
pub open spec fn sym_mats_shape(c: Seq<Vec<Vec<Vec<RingElem>>>>, r: int, t: int, kappa1: int, m: Modulus) -> bool {
    &&& c.len() == r
    &&& forall|i: int| 0 <= i < r ==> (#[trigger] c[i])@.len() == r
    &&& forall|i: int, j: int| 0 <= i < r && 0 <= j < r ==> (#[trigger] c[i]@[j])@.len() == t
    &&& forall|i: int, j: int, k: int|
        0 <= i <= j < r && 0 <= k < t ==> (#[trigger] c[i]@[j]@[k])@.len() == kappa1 && elems_wf(c[i]@[j]@[k]@, m)
}

/// What `replay_iteration` asks of the statement and parameters.
pub open spec fn replay_ready(stmt: Statement, params: IterationParams) -> bool {
    &&& stmt.wf()
    &&& stmt.r >= 1
    &&& params.wf()
    &&& stmt.n * D <= 0x1_0000_0000
    &&& stmt.r <= 0x1000_0000
    &&& (stmt.n * D + 3) / 4 * PROJECTION_ROWS <= usize::MAX
}

/// Replay every challenge of an iteration on `transcript`, which must be at
/// the state `prove_v2` started from: the projection constraints of `p`
/// join the constant-term constraints before they are aggregated, exactly as
/// the prover did. The commitments must have their shapes: `p` of `2λ`
/// entries and `K''` reduced values `b''`.
#[verifier::rlimit(100)]
#[verifier::spinoff_prover]
pub fn replay_iteration(
    stmt: &Statement,
    proof: &IterationProofV2,
    params: &IterationParams,
    transcript: &mut Transcript,
) -> (res: Result<IterationReplay, VerifyError>)
    requires
        replay_ready(*stmt, *params),
    ensures
        res matches Ok(rep) ==> replay_shape(*stmt, *params, rep),
{
    bind_statement(transcript, stmt);
    let ring = &stmt.ring;
    let m = &ring.m;
    let n = stmt.n;
    let r = stmt.r;
    let kappa = params.kappa as usize;
    let kappa1 = params.kappa1 as usize;
    let t1 = params.t1 as usize;
    let t2 = params.t2 as usize;
    if proof.p.len() != PROJECTION_ROWS {
        return Err(VerifyError::ProofShape("p length"));
    }
    if !elems_reduced(m, &proof.b_double_prime) {
        return Err(VerifyError::ProofShape("coefficient range"));
    }
    let a_mat = match expand_matrix(transcript, &LABEL_A, kappa, n, ring) {
        Some(a) => a,
        None => {
            return Err(VerifyError::TranscriptExhausted);
        },
    };
    let b_mats = match expand_b_mats(transcript, &LABEL_B, r, t1, kappa1, kappa, ring) {
        Some(b) => b,
        None => {
            return Err(VerifyError::TranscriptExhausted);
        },
    };
    let c_mats = match expand_sym_mats(transcript, &LABEL_CM, r, t2, kappa1, ring) {
        Some(c) => c,
        None => {
            return Err(VerifyError::TranscriptExhausted);
        },
    };
    absorb_ring_vec(transcript, &LABEL_U1, &proof.u1);
    let pis = sample_projections(transcript, r, n * D);
    absorb_projection(transcript, &LABEL_P, &proof.p);
    let jl_extra = build_jl_constraints(&pis, &proof.p, n, m);
    let ext = extend_statement(stmt, jl_extra);
    let k_pp = k_double_prime(stmt, LAMBDA);
    if proof.b_double_prime.len() != k_pp {
        return Err(VerifyError::ProofShape("b'' length"));
    }
    let psis = match derive_psis(transcript, k_pp, ext.const_term.len(), m.q) {
        Some(x) => x,
        None => {
            return Err(VerifyError::TranscriptExhausted);
        },
    };
    absorb_ring_vec(transcript, &LABEL_BPP, &proof.b_double_prime);
    let alphas = match sample_ring_elements(transcript, &LABEL_ALPHA, stmt.full.len(), ring) {
        Some(x) => x,
        None => {
            return Err(VerifyError::TranscriptExhausted);
        },
    };
    let betas = match sample_ring_elements(transcript, &LABEL_BETA, k_pp, ring) {
        Some(x) => x,
        None => {
            return Err(VerifyError::TranscriptExhausted);
        },
    };
    let (a_pp, phi_pp) = aggregate_const_forms(&ext, &psis);
    let (a_agg, phi_agg) = aggregate_full(stmt, &alphas, &betas, &a_pp, &phi_pp);
    let b_agg = aggregated_rhs(stmt, &alphas, &betas, &proof.b_double_prime);
    let d_mats = match expand_sym_mats(transcript, &LABEL_D, r, t1, kappa1, ring) {
        Some(d) => d,
        None => {
            return Err(VerifyError::TranscriptExhausted);
        },
    };
    absorb_ring_vec(transcript, &LABEL_U2, &proof.u2);
    let cs = match sample_challenges(transcript, r, ring) {
        Some(c) => c,
        None => {
            return Err(VerifyError::TranscriptExhausted);
        },
    };
    Ok(IterationReplay { a_mat, b_mats, c_mats, d_mats, cs, a_agg, phi_agg, b_agg })
}

// ---------------------------------------------------------------------------
// The fold
// ---------------------------------------------------------------------------

/// `⌈n/d⌉` pieces of `d` cover `n`.
proof fn lemma_ceil_cover(n: int, d: int)
    requires
        n >= 0,
        d >= 1,
    ensures
        n <= d * ((n + d - 1) / d),
        n > 0 ==> (n + d - 1) / d > 0,
{
    vstd::arithmetic::div_mod::lemma_fundamental_div_mod(n + d - 1, d);
    let q = (n + d - 1) / d;
    assert(d * q == q * d) by (nonlinear_arith);
    if n > 0 {
        assert(q > 0) by (nonlinear_arith)
            requires
                q * d + (n + d - 1) % d == n + d - 1,
                (n + d - 1) % d < d,
                n > 0,
                d >= 1,
        ;
    }
}

/// The length of `ê` for `r` vectors, `t₁`, `t₂` chunks and rank `κ`.
pub open spec fn e_len(r: int, t1: int, t2: int, kappa: int) -> int {
    r * t1 * kappa + t2 * (r * (r + 1) / 2) + t1 * (r * (r + 1) / 2)
}

/// The folded vector length: the longer of `⌈n/ν⌉` and `⌈m/μ⌉`.
pub open spec fn folded_n(n: int, m: int, nu: int, mu: int) -> int {
    let a = (n + nu - 1) / nu;
    let b = (m + mu - 1) / mu;
    if a >= b {
        a
    } else {
        b
    }
}

/// The folding layouts for `stmt` under `params` with `ν`, `μ` pieces.
fn layouts(stmt: &Statement, params: &IterationParams, nu: usize, mu: usize) -> (res: (ELayout, FoldedLayout))
    requires
        nu >= 1,
        mu >= 1,
        2 * nu + mu <= usize::MAX,
        params.wf(),
        stmt.r >= 1,
        e_fits(stmt.r as int, params.t1 as int, params.t2 as int, params.kappa as int),
    ensures
        res.0.r == stmt.r,
        res.0.t1 == params.t1,
        res.0.t2 == params.t2,
        res.0.kappa == params.kappa,
        fold_ctx(res.1, res.0, stmt.n as int),
        res.1.nu == nu,
        res.1.mu == mu,
        res.1.r_prime == 2 * nu + mu,
        res.1.n_prime == folded_n(
            stmt.n as int,
            e_len(stmt.r as int, params.t1 as int, params.t2 as int, params.kappa as int),
            nu as int,
            mu as int,
        ),
{
    let el = ELayout::new(stmt.r, params.t1 as usize, params.t2 as usize, params.kappa as usize);
    let fl = FoldedLayout::new(stmt.n, el.m, nu, mu);
    proof {
        lemma_ceil_cover(stmt.n as int, nu as int);
        lemma_ceil_cover(el.m as int, mu as int);
        assert(nu * fl.z.piece_len == nu * ((stmt.n + nu - 1) / (nu as int)));
        assert(mu * fl.e.piece_len == mu * ((el.m + mu - 1) / (mu as int)));
    }
    (el, fl)
}

/// What a folded statement looks like: same ring, `2ν + μ` vectors of the
/// folded length, `κ + 3 + 2κ₁` full constraints and no constant-term ones,
/// every constraint fitting that shape.
pub open spec fn folded_statement(stmt: Statement, params: IterationParams, nu: int, mu: int, beta_sq: i128, s: Statement) -> bool {
    &&& s.wf()
    &&& s.ring == stmt.ring
    &&& s.r == 2 * nu + mu
    &&& s.n == folded_n(
        stmt.n as int,
        e_len(stmt.r as int, params.t1 as int, params.t2 as int, params.kappa as int),
        nu,
        mu,
    )
    &&& s.full@.len() == params.kappa + 3 + 2 * params.kappa1
    &&& s.const_term@.len() == 0
    &&& s.beta_sq == beta_sq
}

/// The constraints the verifier's checks on the last message become, over
/// the folded witness; the challenges are replayed from `transcript`, which
/// must be at the state `prove_v2` started from. Needs only the
/// commitments of the proof.
pub fn fold_statement(
    stmt: &Statement,
    proof: &IterationProofV2,
    params: &IterationParams,
    nu: usize,
    mu: usize,
    beta_sq: i128,
    transcript: &mut Transcript,
) -> (res: Result<Statement, VerifyError>)
    requires
        replay_ready(*stmt, *params),
        nu >= 1,
        mu >= 1,
        2 * nu + mu <= usize::MAX,
        e_fits(stmt.r as int, params.t1 as int, params.t2 as int, params.kappa as int),
        params.kappa + 3 + 2 * params.kappa1 <= usize::MAX,
    ensures
        res matches Ok(s) ==> folded_statement(*stmt, *params, nu as int, mu as int, beta_sq, s),
{
    let ring = &stmt.ring;
    let m = &ring.m;
    let n = stmt.n;
    let kappa = params.kappa as usize;
    let kappa1 = params.kappa1 as usize;
    if proof.u1.len() != kappa1 {
        return Err(VerifyError::ProofShape("u1 length"));
    }
    if proof.u2.len() != kappa1 {
        return Err(VerifyError::ProofShape("u2 length"));
    }
    if !(elems_reduced(m, &proof.u1) && elems_reduced(m, &proof.u2)) {
        return Err(VerifyError::ProofShape("coefficient range"));
    }
    let rep = match replay_iteration(stmt, proof, params, transcript) {
        Ok(rep) => rep,
        Err(e) => {
            return Err(e);
        },
    };
    let (el, fl) = layouts(stmt, params, nu, mu);
    let b_re = RingElem::constant(m, params.b);
    let b_sq = RingElem::constant(m, m.mul(params.b, params.b));
    let mut full: Vec<DotConstraint> = Vec::new();
    for k in 0..kappa
        invariant
            ring.wf(),
            ring == &stmt.ring,
            kappa == params.kappa,
            el.kappa == params.kappa,
            el.r == stmt.r,
            fold_ctx(fl, el, n as int),
            n == stmt.n,
            replay_shape(*stmt, *params, rep),
            b_re.wf(ring.m),
            full@.len() == k,
            forall|t: int| 0 <= t < full@.len() ==> (#[trigger] full@[t]).wf(fl.r_prime as int, fl.n_prime as int, ring.m),
    {
        assert(rep.a_mat@[k as int]@.len() == n && elems_wf(rep.a_mat@[k as int]@, ring.m));
        let c = build_check3_row(k, &rep.a_mat, &rep.cs, &fl, &el, &b_re, params.b1, ring, n);
        full.push(c);
    }
    let c4 = build_check4(&rep.cs, &fl, &el, &b_re, &b_sq, params.b2, ring, n);
    full.push(c4);
    let c5 = build_check5(&rep.cs, &rep.phi_agg, &fl, &el, &b_re, params.b1, ring, n);
    full.push(c5);
    let c6 = build_check6(&rep.a_agg, &fl, &el, params.b1, params.b2, &rep.b_agg, ring, n);
    full.push(c6);
    for r1 in 0..kappa1
        invariant
            ring.wf(),
            ring == &stmt.ring,
            kappa1 == params.kappa1,
            el.kappa == params.kappa,
            el.r == stmt.r,
            el.t1 == params.t1,
            el.t2 == params.t2,
            fold_ctx(fl, el, n as int),
            n == stmt.n,
            replay_shape(*stmt, *params, rep),
            proof.u1@.len() == kappa1,
            elems_wf(proof.u1@, ring.m),
            full@.len() == params.kappa + 3 + r1,
            forall|t: int| 0 <= t < full@.len() ==> (#[trigger] full@[t]).wf(fl.r_prime as int, fl.n_prime as int, ring.m),
    {
        let c = build_check8_row(r1, &proof.u1, &rep.b_mats, &rep.c_mats, &fl, &el, ring, n);
        full.push(c);
    }
    for r1 in 0..kappa1
        invariant
            ring.wf(),
            ring == &stmt.ring,
            kappa1 == params.kappa1,
            el.kappa == params.kappa,
            el.r == stmt.r,
            el.t1 == params.t1,
            el.t2 == params.t2,
            fold_ctx(fl, el, n as int),
            n == stmt.n,
            replay_shape(*stmt, *params, rep),
            proof.u2@.len() == kappa1,
            elems_wf(proof.u2@, ring.m),
            full@.len() == params.kappa + 3 + params.kappa1 + r1,
            forall|t: int| 0 <= t < full@.len() ==> (#[trigger] full@[t]).wf(fl.r_prime as int, fl.n_prime as int, ring.m),
    {
        let c = build_check9_row(r1, &proof.u2, &rep.d_mats, &fl, &el, ring, n);
        full.push(c);
    }
    let out = Statement {
        ring: stmt.ring,
        n: fl.n_prime,
        r: fl.r_prime,
        full,
        const_term: Vec::new(),
        beta_sq,
    };
    assert(out.const_term@.len() == 0);
    Ok(out)
}

/// `w` holds `rp` vectors of `np` reduced elements.
pub open spec fn w_ok(w: Seq<Vec<RingElem>>, rp: int, np: int, m: Modulus) -> bool {
    &&& w.len() == rp
    &&& forall|wi: int| 0 <= wi < rp ==> (#[trigger] w[wi])@.len() == np && elems_wf(w[wi]@, m)
}

/// `rp` vectors of `np` zeros.
fn zero_witness(rp: usize, np: usize, m: &Modulus) -> (w: Vec<Vec<RingElem>>)
    requires
        m.wf(),
    ensures
        w_ok(w@, rp as int, np as int, *m),
{
    let mut w: Vec<Vec<RingElem>> = Vec::new();
    for wi in 0..rp
        invariant
            m.wf(),
            w@.len() == wi,
            forall|v: int| 0 <= v < wi ==> (#[trigger] w@[v])@.len() == np && elems_wf(w@[v]@, *m),
    {
        let mut row: Vec<RingElem> = Vec::new();
        for p in 0..np
            invariant
                m.wf(),
                row@.len() == p,
                elems_wf(row@, *m),
        {
            let z = RingElem::zero();
            assert(z.wf(*m));
            row.push(z);
        }
        w.push(row);
    }
    w
}

/// Place `x` at position `off` of vector `wi`.
fn put(w: &mut Vec<Vec<RingElem>>, wi: usize, off: usize, x: RingElem, rp: Ghost<int>, np: Ghost<int>, m: Ghost<Modulus>)
    requires
        w_ok(old(w)@, rp@, np@, m@),
        wi < rp@,
        off < np@,
        x.wf(m@),
    ensures
        w_ok(final(w)@, rp@, np@, m@),
        final(w)@.len() == old(w)@.len(),
        final(w)@[wi as int]@ == old(w)@[wi as int]@.update(off as int, x),
        forall|v: int| 0 <= v < old(w)@.len() && v != wi ==> #[trigger] final(w)@[v] == old(w)@[v],
{
    let ghost before = w@;
    let row = &mut w[wi];
    row.set(off, x);
    proof {
        assert forall|v: int| 0 <= v < rp@ implies (#[trigger] w@[v])@.len() == np@ && elems_wf(w@[v]@, m@) by {
            if v != wi {
                assert(w@[v] == before[v]);
            }
        }
    }
}

/// The folded witness: `z^(0)`, `z^(1)` and the chunks of `v`, `g`, `h`
/// placed where the layouts say.
fn build_folded_witness(
    fl: &FoldedLayout,
    el: &ELayout,
    n: usize,
    z0: &Vec<RingElem>,
    z1: &Vec<RingElem>,
    vch: &Vec<Vec<Vec<RingElem>>>,
    gch: &Vec<Vec<Vec<RingElem>>>,
    hch: &Vec<Vec<Vec<RingElem>>>,
    m: &Modulus,
) -> (w: Witness)
    requires
        m.wf(),
        fold_ctx(*fl, *el, n as int),
        z0@.len() == n,
        z1@.len() == n,
        elems_wf(z0@, *m),
        elems_wf(z1@, *m),
        vch@.len() == el.r,
        forall|i: int| 0 <= i < el.r ==> (#[trigger] vch@[i])@.len() == el.t1,
        forall|i: int, k: int|
            0 <= i < el.r && 0 <= k < el.t1 ==> (#[trigger] vch@[i]@[k])@.len() == el.kappa && elems_wf(vch@[i]@[k]@, *m),
        gch@.len() == el.r,
        forall|i: int| 0 <= i < el.r ==> (#[trigger] gch@[i])@.len() == el.r,
        forall|i: int, j: int| 0 <= i <= j < el.r ==> (#[trigger] gch@[i]@[j])@.len() == el.t2 && elems_wf(gch@[i]@[j]@, *m),
        hch@.len() == el.r,
        forall|i: int| 0 <= i < el.r ==> (#[trigger] hch@[i])@.len() == el.r,
        forall|i: int, j: int| 0 <= i <= j < el.r ==> (#[trigger] hch@[i]@[j])@.len() == el.t1 && elems_wf(hch@[i]@[j]@, *m),
    ensures
        w_ok(w.w@, fl.r_prime as int, fl.n_prime as int, *m),
{
    let rp = fl.r_prime;
    let np = fl.n_prime;
    let gr = Ghost(rp as int);
    let gn = Ghost(np as int);
    let gm = Ghost(*m);
    let mut w = zero_witness(rp, np, m);
    for p in 0..n
        invariant
            m.wf(),
            rp == fl.r_prime,
            np == fl.n_prime,
            gr@ == rp,
            gn@ == np,
            gm@ == *m,
            fold_ctx(*fl, *el, n as int),
            z0@.len() == n,
            z1@.len() == n,
            elems_wf(z0@, *m),
            elems_wf(z1@, *m),
            w_ok(w@, rp as int, np as int, *m),
    {
        let (wi, off) = z_slot(fl, el, n, p, 0);
        assert(z0@[p as int].wf(*m));
        put(&mut w, wi, off, z0[p], gr, gn, gm);
        let (wi1, off1) = z_slot(fl, el, n, p, 1);
        assert(z1@[p as int].wf(*m));
        put(&mut w, wi1, off1, z1[p], gr, gn, gm);
    }
    for i in 0..el.r
        invariant
            m.wf(),
            rp == fl.r_prime,
            np == fl.n_prime,
            gr@ == rp,
            gn@ == np,
            gm@ == *m,
            fold_ctx(*fl, *el, n as int),
            vch@.len() == el.r,
            forall|i: int| 0 <= i < el.r ==> (#[trigger] vch@[i])@.len() == el.t1,
            forall|i: int, k: int|
                0 <= i < el.r && 0 <= k < el.t1 ==> (#[trigger] vch@[i]@[k])@.len() == el.kappa && elems_wf(vch@[i]@[k]@, *m),
            w_ok(w@, rp as int, np as int, *m),
    {
        for k in 0..el.t1
            invariant
                m.wf(),
                rp == fl.r_prime,
                np == fl.n_prime,
                gr@ == rp,
                gn@ == np,
                gm@ == *m,
                fold_ctx(*fl, *el, n as int),
                i < el.r,
                vch@.len() == el.r,
                forall|i: int| 0 <= i < el.r ==> (#[trigger] vch@[i])@.len() == el.t1,
                forall|i: int, k: int|
                    0 <= i < el.r && 0 <= k < el.t1 ==> (#[trigger] vch@[i]@[k])@.len() == el.kappa && elems_wf(
                        vch@[i]@[k]@,
                        *m,
                    ),
                w_ok(w@, rp as int, np as int, *m),
        {
            for idx in 0..el.kappa
                invariant
                    m.wf(),
                    rp == fl.r_prime,
                    np == fl.n_prime,
                    gr@ == rp,
                    gn@ == np,
                    gm@ == *m,
                    fold_ctx(*fl, *el, n as int),
                    i < el.r,
                    k < el.t1,
                    vch@.len() == el.r,
                    forall|i: int| 0 <= i < el.r ==> (#[trigger] vch@[i])@.len() == el.t1,
                    vch@[i as int]@[k as int]@.len() == el.kappa,
                    elems_wf(vch@[i as int]@[k as int]@, *m),
                    w_ok(w@, rp as int, np as int, *m),
            {
                let (wi, off) = e_slot(fl, el, n, EIdx::V(i, k, idx));
                let x = vch[i][k][idx];
                assert(x.wf(*m));
                put(&mut w, wi, off, x, gr, gn, gm);
            }
        }
    }
    for i in 0..el.r
        invariant
            m.wf(),
            rp == fl.r_prime,
            np == fl.n_prime,
            gr@ == rp,
            gn@ == np,
            gm@ == *m,
            fold_ctx(*fl, *el, n as int),
            gch@.len() == el.r,
            forall|i: int| 0 <= i < el.r ==> (#[trigger] gch@[i])@.len() == el.r,
            forall|i: int, j: int| 0 <= i <= j < el.r ==> (#[trigger] gch@[i]@[j])@.len() == el.t2 && elems_wf(gch@[i]@[j]@, *m),
            hch@.len() == el.r,
            forall|i: int| 0 <= i < el.r ==> (#[trigger] hch@[i])@.len() == el.r,
            forall|i: int, j: int| 0 <= i <= j < el.r ==> (#[trigger] hch@[i]@[j])@.len() == el.t1 && elems_wf(hch@[i]@[j]@, *m),
            w_ok(w@, rp as int, np as int, *m),
    {
        for j in i..el.r
            invariant
                m.wf(),
                rp == fl.r_prime,
                np == fl.n_prime,
                gr@ == rp,
                gn@ == np,
                gm@ == *m,
                fold_ctx(*fl, *el, n as int),
                i < el.r,
                gch@.len() == el.r,
                forall|i: int| 0 <= i < el.r ==> (#[trigger] gch@[i])@.len() == el.r,
                forall|i: int, j: int|
                    0 <= i <= j < el.r ==> (#[trigger] gch@[i]@[j])@.len() == el.t2 && elems_wf(gch@[i]@[j]@, *m),
                hch@.len() == el.r,
                forall|i: int| 0 <= i < el.r ==> (#[trigger] hch@[i])@.len() == el.r,
                forall|i: int, j: int|
                    0 <= i <= j < el.r ==> (#[trigger] hch@[i]@[j])@.len() == el.t1 && elems_wf(hch@[i]@[j]@, *m),
                w_ok(w@, rp as int, np as int, *m),
        {
            assert(gch@[i as int]@[j as int]@.len() == el.t2 && elems_wf(gch@[i as int]@[j as int]@, *m));
            for k in 0..el.t2
                invariant
                    m.wf(),
                    rp == fl.r_prime,
                    np == fl.n_prime,
                    gr@ == rp,
                    gn@ == np,
                    gm@ == *m,
                    fold_ctx(*fl, *el, n as int),
                    i <= j < el.r,
                    gch@.len() == el.r,
                    forall|i: int| 0 <= i < el.r ==> (#[trigger] gch@[i])@.len() == el.r,
                    gch@[i as int]@[j as int]@.len() == el.t2,
                    elems_wf(gch@[i as int]@[j as int]@, *m),
                    w_ok(w@, rp as int, np as int, *m),
            {
                let (wi, off) = e_slot(fl, el, n, EIdx::G(i, j, k));
                let x = gch[i][j][k];
                assert(x.wf(*m));
                put(&mut w, wi, off, x, gr, gn, gm);
            }
            assert(hch@[i as int]@[j as int]@.len() == el.t1 && elems_wf(hch@[i as int]@[j as int]@, *m));
            for k in 0..el.t1
                invariant
                    m.wf(),
                    rp == fl.r_prime,
                    np == fl.n_prime,
                    gr@ == rp,
                    gn@ == np,
                    gm@ == *m,
                    fold_ctx(*fl, *el, n as int),
                    i <= j < el.r,
                    hch@.len() == el.r,
                    forall|i: int| 0 <= i < el.r ==> (#[trigger] hch@[i])@.len() == el.r,
                    hch@[i as int]@[j as int]@.len() == el.t1,
                    elems_wf(hch@[i as int]@[j as int]@, *m),
                    w_ok(w@, rp as int, np as int, *m),
            {
                let (wi, off) = e_slot(fl, el, n, EIdx::H(i, j, k));
                let x = hch[i][j][k];
                assert(x.wf(*m));
                put(&mut w, wi, off, x, gr, gn, gm);
            }
        }
    }
    Witness { w }
}

/// The next iteration's statement and its honest witness.
pub struct FoldOutput {
    /// The folded statement.
    pub statement: Statement,
    /// The folded witness.
    pub witness: Witness,
}

/// Fold a finished iteration into the next: the statement of
/// [`fold_statement`] and the witness made of the proof's last message
/// (`z^(0)`, `z^(1)` and the chunks of `v`, `g`, `h`).
pub fn fold(
    stmt: &Statement,
    proof: &IterationProofV2,
    params: &IterationParams,
    nu: usize,
    mu: usize,
    beta_sq: i128,
    transcript: &mut Transcript,
) -> (res: Result<FoldOutput, VerifyError>)
    requires
        replay_ready(*stmt, *params),
        nu >= 1,
        mu >= 1,
        2 * nu + mu <= usize::MAX,
        e_fits(stmt.r as int, params.t1 as int, params.t2 as int, params.kappa as int),
        params.kappa + 3 + 2 * params.kappa1 <= usize::MAX,
    ensures
        res matches Ok(out) ==> {
            &&& folded_statement(*stmt, *params, nu as int, mu as int, beta_sq, out.statement)
            &&& wit_shape(out.witness.view_vecs(), out.statement.r as int, out.statement.n as int, stmt.ring.m)
        },
{
    let m = &stmt.ring.m;
    let r = stmt.r;
    let n = stmt.n;
    let lm = match &proof.last_msg {
        Some(lm) => lm,
        None => {
            return Err(VerifyError::ProofShape("last message"));
        },
    };
    if lm.z0.len() != n || lm.z1.len() != n {
        return Err(VerifyError::ProofShape("z0/z1 length"));
    }
    if lm.v.len() != r || !(square(&lm.g, r) && square(&lm.h, r)) {
        return Err(VerifyError::ProofShape("v/g/h shape"));
    }
    if !(elems_reduced(m, &lm.z0) && elems_reduced(m, &lm.z1) && rows_reduced(m, &lm.v) && rows_reduced(m, &lm.g)
        && rows_reduced(m, &lm.h)) {
        return Err(VerifyError::ProofShape("coefficient range"));
    }
    let mut v_ok = true;
    for i in 0..r
        invariant
            lm.v@.len() == r,
            v_ok ==> forall|j: int| 0 <= j < i ==> (#[trigger] lm.v@[j])@.len() == params.kappa,
    {
        if lm.v[i].len() as u64 != params.kappa {
            v_ok = false;
        }
    }
    if !v_ok {
        return Err(VerifyError::ProofShape("v/g/h shape"));
    }
    let statement = match fold_statement(stmt, proof, params, nu, mu, beta_sq, transcript) {
        Ok(s) => s,
        Err(e) => {
            return Err(e);
        },
    };
    let (el, fl) = layouts(stmt, params, nu, mu);
    proof {
        assert forall|i: int| 0 <= i < lm.v@.len() implies elems_wf((#[trigger] lm.v@[i])@, *m) by {}
        assert forall|i: int| 0 <= i < lm.g@.len() implies (#[trigger] lm.g@[i])@.len() == lm.g@.len() && elems_wf(
            lm.g@[i]@,
            *m,
        ) by {}
        assert forall|i: int| 0 <= i < lm.h@.len() implies (#[trigger] lm.h@[i])@.len() == lm.h@.len() && elems_wf(
            lm.h@[i]@,
            *m,
        ) by {}
    }
    let vch = decompose_commitments(&lm.v, m, params.b1, params.t1 as usize);
    let gch = decompose_upper(&lm.g, m, params.b2, params.t2 as usize);
    let hch = decompose_upper(&lm.h, m, params.b1, params.t1 as usize);
    let witness = build_folded_witness(&fl, &el, n, &lm.z0, &lm.z1, &vch, &gch, &hch, m);
    proof {
        let ws = witness.view_vecs();
        assert forall|i: int| 0 <= i < statement.r implies (#[trigger] ws[i]).len() == statement.n && elems_wf(
            ws[i],
            statement.ring.m,
        ) by {
            assert(ws[i] == witness.w@[i]@);
        }
    }
    Ok(FoldOutput { statement, witness })
}

} // verus!
