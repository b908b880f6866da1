//! Negacyclic NTT over `Z_q[X]/(X^D + 1)`.
//!
//! Requires `q ≡ 1 (mod 2D)` so that `F_q` has a primitive `2D`-th root of
//! unity `ψ` with `ψ^D = -1`. Forward: Cooley–Tukey butterflies with
//! bit-reversed twiddles (natural → bit-reversed order); inverse:
//! Gentleman–Sande butterflies followed by the `D^{-1}` post-scale.
use crate::modring::modulus::Modulus;
use crate::modring::poly::D;
use crate::modring::polyspec::{
    ints, lemma_sum_congruent, lemma_sum_ext, lemma_sum_split, lemma_wrap_partial_sum, negacyclic_coeff, sum_range, wrap_coeff,
    wrap_term, wrap_terms,
};
use vstd::arithmetic::div_mod::{
    lemma_small_mod, lemma_add_mod_noop, lemma_fundamental_div_mod, lemma_fundamental_div_mod_converse, lemma_mod_multiples_vanish,
    lemma_mul_mod_noop_left, lemma_mul_mod_noop_right, lemma_sub_mod_noop,
};
use vstd::arithmetic::power::{lemma_pow0, lemma_pow1, lemma_pow_adds, lemma_pow_mod_noop, lemma_pow_multiplies, pow};
use vstd::arithmetic::power2::*;
use vstd::prelude::*;

verus! {

/// log₂(D).
const LOG_D: u32 = 6;

/// Reverse the lowest `bits` bits of `x`, one bit at a time.
pub open spec fn bit_reverse_acc(x: nat, bits: nat, acc: nat) -> nat
    decreases bits,
{
    if bits == 0 {
        acc
    } else {
        bit_reverse_acc(x / 2, (bits - 1) as nat, 2 * acc + x % 2)
    }
}

/// The `bits`-bit reversal of `x`.
pub open spec fn bit_reverse_spec(x: nat, bits: nat) -> nat {
    bit_reverse_acc(x, bits, 0)
}

/// Reverse the lowest `bits` bits of `x`.
fn bit_reverse(x: usize, bits: u32) -> (r: usize)
    requires
        bits <= 6,
    ensures
        r as nat == bit_reverse_spec(x as nat, bits as nat),
        r < 64,
{
    let ghost x0 = x;
    let mut x = x;
    let mut r: usize = 0;
    let mut i: u32 = 0;
    proof {
        lemma2_to64();
    }
    while i < bits
        invariant
            i <= bits <= 6,
            r < pow2(i as nat),
            pow2(6) == 64,
            bit_reverse_acc(x as nat, (bits - i) as nat, r as nat) == bit_reverse_spec(
                x0 as nat,
                bits as nat,
            ),
        decreases bits - i,
    {
        proof {
            lemma_pow2_unfold((i + 1) as nat);
            if i + 1 < 6 {
                lemma_pow2_strictly_increases((i + 1) as nat, 6);
            }
        }
        r = 2 * r + x % 2;
        x = x / 2;
        i = i + 1;
    }
    proof {
        if i < 6 {
            lemma_pow2_strictly_increases(i as nat, 6);
        }
    }
    r
}


/// Unfolding `bit_reverse_acc`: the accumulator ends up above the reversed bits.
proof fn lemma_br_acc(x: nat, n: nat, acc: nat)
    ensures
        bit_reverse_acc(x, n, acc) == acc * pow2(n) + bit_reverse_acc(x, n, 0),
    decreases n,
{
    if n == 0 {
        lemma2_to64();
        assert(bit_reverse_acc(x, 0, acc) == acc);
        assert(bit_reverse_acc(x, 0, 0) == 0);
        assert(acc * pow2(0) == acc);
    } else {
        let n1 = (n - 1) as nat;
        let p = pow2(n1);
        let c = (2 * acc + x % 2) as nat;
        let c0 = (x % 2) as nat;
        lemma_br_acc(x / 2, n1, c);
        lemma_br_acc(x / 2, n1, c0);
        lemma_pow2_unfold(n);
        assert(bit_reverse_acc(x, n, acc) == bit_reverse_acc(x / 2, n1, c));
        assert(bit_reverse_acc(x, n, 0) == bit_reverse_acc(x / 2, n1, c0));
        assert(c * p == acc * (2 * p) + c0 * p) by (nonlinear_arith)
            requires
                c == 2 * acc + c0,
        ;
        assert(acc * pow2(n) == acc * (2 * p));
    }
}

/// The lowest bit of `x` becomes the highest of its `(n+1)`-bit reversal.
proof fn lemma_br_low(x: nat, n: nat)
    ensures
        bit_reverse_spec(x, n + 1) == bit_reverse_spec(x / 2, n) + (x % 2) * pow2(n),
{
    assert(bit_reverse_acc(x, n + 1, 0) == bit_reverse_acc(x / 2, n, 2 * 0 + x % 2));
    lemma_br_acc(x / 2, n, x % 2);
}

/// Reversing zero gives zero.
proof fn lemma_br_zero(n: nat)
    ensures
        bit_reverse_spec(0, n) == 0,
    decreases n,
{
    if n > 0 {
        lemma_br_zero((n - 1) as nat);
        lemma_br_low(0, (n - 1) as nat);
    }
}

/// A set bit just above the `n` low bits lands at the bottom of the reversal.
proof fn lemma_br_top(y: nat, n: nat)
    requires
        y < pow2(n),
    ensures
        bit_reverse_spec(y + pow2(n), n + 1) == 2 * bit_reverse_spec(y, n) + 1,
    decreases n,
{
    lemma_br_low(y + pow2(n), n);
    if n == 0 {
        lemma2_to64();
        assert(y == 0);
        lemma_br_zero(0);
        assert(bit_reverse_spec(1, 1) == bit_reverse_spec(0, 0) + 1 * pow2(0));
        assert(y + pow2(n) == 1);
    } else {
        let p = pow2((n - 1) as nat);
        lemma_pow2_unfold(n);
        let yy = y + pow2(n);
        lemma_fundamental_div_mod(y as int, 2);
        lemma_fundamental_div_mod_converse(yy as int, 2, (y / 2 + p) as int, (y % 2) as int);
        assert(y / 2 < p);
        lemma_br_top(y / 2, (n - 1) as nat);
        lemma_br_low(y, (n - 1) as nat);
        assert(yy / 2 == y / 2 + p);
        assert(yy % 2 == y % 2);
        assert(bit_reverse_spec(yy, n + 1) == bit_reverse_spec(yy / 2, n) + (yy % 2) * pow2(n));
        assert((y % 2) * pow2(n) == 2 * ((y % 2) * p)) by (nonlinear_arith)
            requires
                pow2(n) == 2 * p,
        ;
    }
}

/// Extra high zero bits shift the reversal up.
proof fn lemma_br_pad(y: nat, n: nat, e: nat)
    requires
        y < pow2(n),
    ensures
        bit_reverse_spec(y, n + e) == bit_reverse_spec(y, n) * pow2(e),
    decreases n,
{
    if n == 0 {
        lemma2_to64();
        assert(y == 0);
        lemma_br_zero(e);
        lemma_br_zero(0);
    } else {
        let n1 = (n - 1) as nat;
        lemma_pow2_unfold(n);
        lemma_fundamental_div_mod(y as int, 2);
        assert(y / 2 < pow2(n1));
        lemma_br_pad(y / 2, n1, e);
        assert((n1 + e) + 1 == n + e);
        lemma_br_low(y, n1 + e);
        lemma_br_low(y, n1);
        lemma_pow2_adds(n1, e);
        let a = bit_reverse_spec(y / 2, n1);
        assert((a + (y % 2) * pow2(n1)) * pow2(e) == a * pow2(e) + (y % 2) * (pow2(n1) * pow2(e)))
            by (nonlinear_arith);
    }
}

/// `br_{n+1}(2g) = br_n(g)` and `br_{n+1}(2g + 1) = br_n(g) + 2^n`.
proof fn lemma_br_children(g: nat, n: nat)
    ensures
        bit_reverse_spec(2 * g, n + 1) == bit_reverse_spec(g, n),
        bit_reverse_spec(2 * g + 1, n + 1) == bit_reverse_spec(g, n) + pow2(n),
{
    lemma_br_low(2 * g, n);
    lemma_br_low(2 * g + 1, n);
    lemma_fundamental_div_mod_converse((2 * g) as int, 2, g as int, 0);
    lemma_fundamental_div_mod_converse((2 * g + 1) as int, 2, g as int, 1);
}

/// The twiddle of group `g` at level `s`, `ψ^{br_6(2^s + g)}`, is
/// `ψ^{(2·br_s(g) + 1)·len}` with `len = 2^{5-s}`.
proof fn lemma_twiddle_exponent(g: nat, s: nat)
    requires
        s <= 5,
        g < pow2(s),
    ensures
        bit_reverse_spec(pow2(s) + g, 6) == (2 * bit_reverse_spec(g, s) + 1) * pow2((5 - s) as nat),
{
    lemma_br_top(g, s);
    lemma_pow2_unfold(s + 1);
    assert(g + pow2(s) < pow2(s + 1));
    lemma_br_pad(g + pow2(s), s + 1, (5 - s) as nat);
    assert(s + 1 + (5 - s) as nat == 6);
    assert(pow2(s) + g == g + pow2(s));
}

/// `Σ_{t < n} a[j + t·stride] · w^t`: coefficient `j` of `a` reduced modulo
/// `X^stride − w`, when `a` has `n·stride` coefficients.
pub open spec fn block_sum(a: Seq<int>, j: int, stride: int, n: nat, w: int) -> int
    decreases n,
{
    if n == 0 {
        0
    } else {
        block_sum(a, j, stride, (n - 1) as nat, w) + a[j + (n - 1) * stride] * pow(w, (n - 1) as nat)
    }
}

/// The polynomial with coefficients `a` evaluated at `x`: `Σ_t a[t]·x^t`.
pub open spec fn poly_eval(a: Seq<int>, x: int) -> int {
    block_sum(a, 0, 1, a.len(), x)
}

/// Splitting a block sum by the parity of the block index: reducing modulo
/// `X^len − w` is reducing modulo `X^{2len} − w²` and then folding the halves.
proof fn lemma_block_sum_split(a: Seq<int>, j: int, len: int, n: nat, w: int)
    ensures
        block_sum(a, j, len, 2 * n, w) == block_sum(a, j, 2 * len, n, w * w) + w * block_sum(a, j + len, 2 * len, n, w * w),
    decreases n,
{
    if n > 0 {
        let m = (n - 1) as nat;
        lemma_block_sum_split(a, j, len, m, w);
        let ww = w * w;
        lemma_pow1(w);
        lemma_pow_adds(w, 1, 1);
        lemma_pow_multiplies(w, 2, m);
        lemma_pow_adds(w, 2 * m, 1);
        let p = pow(w, 2 * m);
        assert(pow(ww, m) == p);
        assert(block_sum(a, j, len, 2 * n, w) == block_sum(a, j, len, (2 * m + 1) as nat, w) + a[j + (2 * m + 1) * len] * pow(w, (2 * m + 1) as nat));
        assert(block_sum(a, j, len, (2 * m + 1) as nat, w) == block_sum(a, j, len, 2 * m, w) + a[j + (2 * m) * len] * p);
        assert(j + (2 * m) * len == j + m * (2 * len)) by (nonlinear_arith);
        assert(j + (2 * m + 1) * len == (j + len) + m * (2 * len)) by (nonlinear_arith);
        let be = block_sum(a, j, 2 * len, m, ww);
        let bo = block_sum(a, j + len, 2 * len, m, ww);
        let a1 = a[j + m * (2 * len)];
        let a2 = a[(j + len) + m * (2 * len)];
        assert(a2 * (p * w) + w * bo == w * (bo + a2 * p)) by (nonlinear_arith);
    }
}

/// Block sums with roots congruent mod `q` are congruent mod `q`.
proof fn lemma_block_sum_cong(a: Seq<int>, j: int, stride: int, n: nat, w1: int, w2: int, q: int)
    requires
        q > 0,
        w1 % q == w2 % q,
    ensures
        block_sum(a, j, stride, n, w1) % q == block_sum(a, j, stride, n, w2) % q,
    decreases n,
{
    if n > 0 {
        let m = (n - 1) as nat;
        lemma_block_sum_cong(a, j, stride, m, w1, w2, q);
        lemma_pow_mod_noop(w1, m, q);
        lemma_pow_mod_noop(w2, m, q);
        let c = a[j + m * stride];
        lemma_mul_mod_noop_right(c, pow(w1, m), q);
        lemma_mul_mod_noop_right(c, pow(w2, m), q);
        lemma_add_mod_noop(block_sum(a, j, stride, m, w1), c * pow(w1, m), q);
        lemma_add_mod_noop(block_sum(a, j, stride, m, w2), c * pow(w2, m), q);
    }
}

/// Coefficient `i` after the first `s` levels of the forward transform, in
/// blocks of length `b`: coefficient `i mod b` of the input reduced modulo
/// `X^b − ψ^{(2·br_s(i div b) + 1)·b}`, taken mod `q`.
pub open spec fn level_value(a0: Seq<int>, psi: int, q: int, b: int, s: nat, i: int) -> int {
    block_sum(a0, i % b, b, pow2(s), pow(psi, ((2 * bit_reverse_spec((i / b) as nat, s) + 1) * b) as nat)) % q
}

/// One butterfly of level `s` turns two level-`s` values into two
/// level-`s + 1` values.
proof fn lemma_butterfly(a0: Seq<int>, psi: int, q: int, len: int, s: nat, g: int, jj: int, zeta: int)
    requires
        q >= 3,
        s <= 5,
        len == pow2((5 - s) as nat),
        0 <= g < pow2(s),
        0 <= jj < len,
        pow(psi, 64) % q == q - 1,
        zeta == pow(psi, bit_reverse_spec((pow2(s) + g) as nat, 6)) % q,
    ensures
        ((level_value(a0, psi, q, 2 * len, s, 2 * len * g + jj) + (zeta * level_value(a0, psi, q, 2 * len, s, 2 * len * g + jj + len)) % q) % q)
            == level_value(a0, psi, q, len, s + 1, 2 * len * g + jj),
        ((level_value(a0, psi, q, 2 * len, s, 2 * len * g + jj) - (zeta * level_value(a0, psi, q, 2 * len, s, 2 * len * g + jj + len)) % q) % q)
            == level_value(a0, psi, q, len, s + 1, 2 * len * g + jj + len),
{
    let n = pow2(s);
    let i = 2 * len * g + jj;
    lemma2_to64();
    lemma_pow2_adds((5 - s) as nat, s);
    assert((5 - s) as nat + s == 5);
    assert(len * n == 32);
    lemma_pow2_unfold(s + 1);
    assert(pow2(s + 1) == 2 * n);
    assert(i == g * (2 * len) + jj) by (nonlinear_arith)
        requires
            i == 2 * len * g + jj,
    ;
    assert(i == (2 * g) * len + jj) by (nonlinear_arith)
        requires
            i == 2 * len * g + jj,
    ;
    assert(i + len == g * (2 * len) + (jj + len));
    assert(i + len == (2 * g + 1) * len + jj) by (nonlinear_arith)
        requires
            i == (2 * g) * len + jj,
    ;
    lemma_fundamental_div_mod_converse(i, 2 * len, g, jj);
    lemma_fundamental_div_mod_converse(i + len, 2 * len, g, jj + len);
    lemma_fundamental_div_mod_converse(i, len, 2 * g, jj);
    lemma_fundamental_div_mod_converse(i + len, len, 2 * g + 1, jj);
    let r = bit_reverse_spec(g as nat, s);
    lemma_br_children(g as nat, s);
    lemma_twiddle_exponent(g as nat, s);
    let e = ((2 * r + 1) * len) as nat;
    let z = pow(psi, e);
    assert(zeta == z % q);
    assert((2 * r + 1) * (2 * len) == e + e) by (nonlinear_arith)
        requires
            e == (2 * r + 1) * len,
    ;
    lemma_pow_adds(psi, e, e);
    let zz = z * z;
    assert(pow(psi, (e + e) as nat) == zz);
    let pe = block_sum(a0, jj, 2 * len, n, zz);
    let po = block_sum(a0, jj + len, 2 * len, n, zz);
    assert(level_value(a0, psi, q, 2 * len, s, i) == pe % q);
    assert(level_value(a0, psi, q, 2 * len, s, i + len) == po % q);
    // even child
    lemma_block_sum_split(a0, jj, len, n, z);
    assert(level_value(a0, psi, q, len, s + 1, i) == block_sum(a0, jj, len, 2 * n, z) % q);
    lemma_mul_mod_noop_left(z, po % q, q);
    lemma_mul_mod_noop_right(z, po, q);
    lemma_add_mod_noop(pe, z * po, q);
    // odd child
    let eo = ((2 * (r + n) + 1) * len) as nat;
    assert((2 * (r + n) + 1) * len == e + 64) by (nonlinear_arith)
        requires
            e == (2 * r + 1) * len,
            len * n == 32,
    ;
    lemma_pow_adds(psi, e, 64);
    let p64 = pow(psi, 64);
    assert(pow(psi, eo) == z * p64);
    assert(level_value(a0, psi, q, len, s + 1, i + len) == block_sum(a0, jj, len, 2 * n, z * p64) % q);
    lemma_mul_mod_noop_right(z, p64, q);
    assert(z * (q - 1) == q * z + (-z)) by (nonlinear_arith);
    lemma_mod_multiples_vanish(z, -z, q);
    lemma_block_sum_cong(a0, jj, len, 2 * n, z * p64, -z, q);
    lemma_block_sum_split(a0, jj, len, n, -z);
    assert((-z) * (-z) == zz) by (nonlinear_arith)
        requires
            zz == z * z,
    ;
    assert((-z) * po == -(z * po)) by (nonlinear_arith);
    lemma_sub_mod_noop(pe, z * po, q);
}

/// Precomputed twiddle tables for the negacyclic NTT.
///
/// `fwd[i] = ψ^{br(i)} mod q` and `inv[i] = ψ^{-br(i)} mod q` for
/// `i ∈ [1, D)`; slot `0` is unused (set to 1). `n_inv = D^{-1} mod q`.
#[derive(Clone, Copy, Debug)]
pub struct NttTables {
    pub fwd: [u64; D],
    pub inv: [u64; D],
    pub n_inv: u64,
}

impl NttTables {
    /// Every table entry is a residue mod `m.q`.
    pub open spec fn wf(&self, m: Modulus) -> bool {
        &&& forall|i: int| 0 <= i < D ==> #[trigger] self.fwd[i] < m.q
        &&& forall|i: int| 0 <= i < D ==> #[trigger] self.inv[i] < m.q
        &&& self.n_inv < m.q
    }

    /// `fwd` holds the forward twiddles `ψ^{br(k)}` of `psi`, a root with
    /// `ψ^D = -1` mod `q`.
    pub open spec fn forward_from(&self, m: Modulus, psi: int) -> bool {
        &&& pow(psi, D as nat) % (m.q as int) == m.q - 1
        &&& forall|k: int|
            1 <= k < D ==> #[trigger] self.fwd[k] == pow(psi, bit_reverse_spec(k as nat, 6)) % (m.q as int)
    }

    /// Each inverse twiddle inverts its forward twiddle and `n_inv` inverts
    /// `D`, mod `q`.
    pub open spec fn inverse_consistent(&self, m: Modulus) -> bool {
        &&& (self.n_inv * D) % (m.q as int) == 1
        &&& forall|k: int| 1 <= k < D ==> (#[trigger] self.inv[k] * self.fwd[k]) % (m.q as int) == 1
    }

    /// Build twiddles from a primitive `2D`-th root of unity `psi` in `F_q`.
    pub fn from_psi(m: &Modulus, psi: u64) -> (t: Self)
        requires
            m.wf(),
            64u64 % m.q != 0,
            psi % m.q != 0,
        ensures
            t.wf(*m),
            t.fwd[0] == 1,
            t.inv[0] == 1,
            forall|i: int|
                1 <= i < D ==> #[trigger] t.fwd[i] == pow(psi as int, bit_reverse_spec(i as nat, 6))
                    % (m.q as int),
            forall|i: int|
                1 <= i < D ==> #[trigger] t.inv[i] == pow(
                    pow(psi as int, (m.q - 2) as nat) % (m.q as int),
                    bit_reverse_spec(i as nat, 6),
                ) % (m.q as int),
            t.n_inv == pow(D as int, (m.q - 2) as nat) % (m.q as int),
            pow(psi as int, D as nat) % (m.q as int) == m.q - 1 ==> t.forward_from(*m, psi as int),
    {
        let psi_inv = m.inv(psi);
        let mut fwd = [1u64; D];
        let mut inv = [1u64; D];
        for i in 1..D
            invariant
                m.wf(),
                psi_inv == pow(psi as int, (m.q - 2) as nat) % (m.q as int),
                fwd[0] == 1,
                inv[0] == 1,
                forall|j: int| 0 <= j < D ==> #[trigger] fwd[j] < m.q,
                forall|j: int| 0 <= j < D ==> #[trigger] inv[j] < m.q,
                forall|j: int|
                    1 <= j < i ==> #[trigger] fwd[j] == pow(psi as int, bit_reverse_spec(j as nat, 6))
                        % (m.q as int),
                forall|j: int|
                    1 <= j < i ==> #[trigger] inv[j] == pow(psi_inv as int, bit_reverse_spec(j as nat, 6))
                        % (m.q as int),
        {
            let e = bit_reverse(i, LOG_D) as u64;
            fwd[i] = m.pow(psi, e);
            inv[i] = m.pow(psi_inv, e);
        }
        let n_inv = m.inv(D as u64);
        NttTables { fwd, inv, n_inv }
    }
}

/// Index bounds of one butterfly group of the forward transform.
proof fn lemma_butterfly_level(len: int, g: int)
    requires
        len == 32 || len == 16 || len == 8 || len == 4 || len == 2 || len == 1,
        0 <= g,
        2 * len * g < 64,
    ensures
        32int / len + g < 64,
        2 * len * g + 2 * len <= 64,
{
    if len == 32 {
        assert(2 * len * g == 64 * g);
        lemma_fundamental_div_mod(32, len);
        assert(32int / len == 1);
    } else if len == 16 {
        assert(2 * len * g == 32 * g);
    } else if len == 8 {
        assert(2 * len * g == 16 * g);
    } else if len == 4 {
        assert(2 * len * g == 8 * g);
    } else if len == 2 {
        assert(2 * len * g == 4 * g);
    } else {
        assert(2 * len * g == 2 * g);
    }
}

/// After a full level of the forward transform, the twiddle index is ready
/// for the next level.
proof fn lemma_butterfly_level_end(len: int, g: int)
    requires
        len == 32 || len == 16 || len == 8 || len == 4 || len == 2 || len == 1,
        0 <= g,
        2 * len * g >= 64,
        2 * len * (g - 1) < 64,
    ensures
        len / 2 >= 1 ==> 32int / len + g == 32int / (len / 2),
{
    lemma_fundamental_div_mod(32, len);
    if len >= 2 {
        lemma_fundamental_div_mod(32, len / 2);
    }
    assert(2 * len * (g - 1) == 2 * len * g - 2 * len) by (nonlinear_arith);
    if len == 32 {
        assert(2 * len * g == 64 * g);
    } else if len == 16 {
        assert(2 * len * g == 32 * g);
    } else if len == 8 {
        assert(2 * len * g == 16 * g);
    } else if len == 4 {
        assert(2 * len * g == 8 * g);
    } else if len == 2 {
        assert(2 * len * g == 4 * g);
    }
}

/// Index bounds of one butterfly group of the inverse transform.
proof fn lemma_inverse_group(len: int, gi: int)
    requires
        len == 1 || len == 2 || len == 4 || len == 8 || len == 16 || len == 32,
        0 <= gi < 64int / (2 * len),
    ensures
        64int / (2 * len) + gi < 64,
        gi * 2 * len + 2 * len <= 64,
{
    if len == 32 {
        assert(gi * 2 * len == 64 * gi);
        lemma_fundamental_div_mod(64, 2 * len);
        assert(64int / (2 * len) == 1);
    } else if len == 16 {
        assert(gi * 2 * len == 32 * gi);
        lemma_fundamental_div_mod(64, 2 * len);
        assert(64int / (2 * len) == 2);
    } else if len == 8 {
        assert(gi * 2 * len == 16 * gi);
        lemma_fundamental_div_mod(64, 2 * len);
        assert(64int / (2 * len) == 4);
    } else if len == 4 {
        assert(gi * 2 * len == 8 * gi);
        lemma_fundamental_div_mod(64, 2 * len);
        assert(64int / (2 * len) == 8);
    } else if len == 2 {
        assert(gi * 2 * len == 4 * gi);
        lemma_fundamental_div_mod(64, 2 * len);
        assert(64int / (2 * len) == 16);
    } else {
        assert(gi * 2 * len == 2 * gi);
        lemma_fundamental_div_mod(64, 2 * len);
        assert(64int / (2 * len) == 32);
    }
}

/// Mid-level state of the forward transform at level `s` (blocks of `2len`
/// becoming blocks of `len`): coefficients before `j` and in
/// `[start + len, j + len)` have reached level `s + 1`, the others are still
/// at level `s`.
pub open spec fn level_mix(a: [u64; D], a0: Seq<int>, psi: int, q: int, len: int, s: nat, start: int, j: int) -> bool {
    forall|i: int|
        0 <= i < D ==> #[trigger] a[i] as int == if i < j || (start + len <= i && i < j + len) {
            level_value(a0, psi, q, len, s + 1, i)
        } else {
            level_value(a0, psi, q, 2 * len, s, i)
        }
}

/// In-place forward negacyclic NTT (natural → bit-reversed order): for
/// twiddles of a root `ψ` with `ψ^D = -1`, coefficient `i` of the result is
/// the input polynomial evaluated at `ψ^{2·br(i) + 1}`.
#[verifier::spinoff_prover]
#[verifier::rlimit(100)]
pub fn ntt_in_place(m: &Modulus, a: &mut [u64; D], t: &NttTables)
    requires
        m.wf(),
        t.wf(*m),
        forall|i: int| 0 <= i < D ==> #[trigger] old(a)[i] < m.q,
    ensures
        forall|i: int| 0 <= i < D ==> #[trigger] final(a)[i] < m.q,
        forall|psi: int|
            #[trigger] t.forward_from(*m, psi) ==> forall|i: int|
                0 <= i < D ==> #[trigger] final(a)[i] as int == poly_eval(
                    ints(*old(a)),
                    pow(psi, (2 * bit_reverse_spec(i as nat, 6) + 1) as nat),
                ) % (m.q as int),
{
    let ghost a0 = ints(*a);
    let ghost q = m.q as int;
    let ghost mut s: nat = 0;
    proof {
        lemma2_to64();
        assert forall|psi: int| #[trigger] t.forward_from(*m, psi) implies level_mix(*a, a0, psi, q, 32, 0, 0, 0) by {
            assert forall|i: int| 0 <= i < D implies #[trigger] a[i] as int == level_value(a0, psi, q, 64, 0, i) by {
                lemma_fundamental_div_mod_converse(i, 64, 0, i);
                lemma_br_zero(0);
                lemma_pow0(pow(psi, 64));
                lemma_small_mod(a[i] as nat, m.q as nat);
                assert(block_sum(a0, i, 64, 1, pow(psi, 64)) == block_sum(a0, i, 64, 0, pow(psi, 64)) + a0[i + 0 * 64] * pow(pow(psi, 64), 0));
            }
        }
    }
    let mut len: usize = D / 2;
    let mut k: usize = 1;
    while len >= 1
        invariant
            m.wf(),
            t.wf(*m),
            q == m.q,
            a0 == ints(*old(a)),
            len == 32 || len == 16 || len == 8 || len == 4 || len == 2 || len == 1 || len == 0,
            len >= 1 ==> k as int == 32int / (len as int),
            len >= 1 ==> s <= 5 && len == pow2((5 - s) as nat),
            len == 0 ==> s == 6,
            forall|i: int| 0 <= i < D ==> #[trigger] a[i] < m.q,
            len >= 1 ==> forall|psi: int| #[trigger] t.forward_from(*m, psi) ==> level_mix(*a, a0, psi, q, len as int, s, 0, 0),
            len == 0 ==> forall|psi: int| #[trigger] t.forward_from(*m, psi) ==> forall|i: int|
                0 <= i < D ==> #[trigger] a[i] as int == level_value(a0, psi, q, 1, 6, i),
        decreases len,
    {
        let mut start: usize = 0;
        let ghost mut g: int = 0;
        proof {
            lemma2_to64();
            lemma_pow2_adds((5 - s) as nat, s);
            assert((5 - s) as nat + s == 5);
            lemma_fundamental_div_mod_converse(32, len as int, pow2(s) as int, 0);
        }
        while start < D
            invariant
                m.wf(),
                t.wf(*m),
                q == m.q,
                len == 32 || len == 16 || len == 8 || len == 4 || len == 2 || len == 1,
                s <= 5,
                len == pow2((5 - s) as nat),
                len * pow2(s) == 32,
                0 <= g,
                g > 0 ==> 2 * (len as int) * (g - 1) < 64,
                start as int == 2 * (len as int) * g,
                k as int == 32int / (len as int) + g,
                k as int == pow2(s) + g,
                forall|i: int| 0 <= i < D ==> #[trigger] a[i] < m.q,
                forall|psi: int|
                    #[trigger] t.forward_from(*m, psi) ==> level_mix(*a, a0, psi, q, len as int, s, start as int, start as int),
            decreases D - start,
        {
            proof {
                lemma_butterfly_level(len as int, g);
                assert(g < pow2(s)) by (nonlinear_arith)
                    requires
                        2 * len * g < 64,
                        len * pow2(s) == 32,
                        len >= 1,
                ;
            }
            let zeta = t.fwd[k];
            let ghost kk = k as int;
            k += 1;
            let mut j = start;
            while j < start + len
                invariant
                    m.wf(),
                    t.wf(*m),
                    q == m.q,
                    s <= 5,
                    len == pow2((5 - s) as nat),
                    0 <= g < pow2(s),
                    kk == pow2(s) + g,
                    zeta == t.fwd[kk],
                    1 <= kk < 64,
                    zeta < m.q,
                    start as int == 2 * (len as int) * g,
                    start + 2 * len <= D,
                    start <= j <= start + len,
                    forall|i: int| 0 <= i < D ==> #[trigger] a[i] < m.q,
                    forall|psi: int|
                        #[trigger] t.forward_from(*m, psi) ==> level_mix(*a, a0, psi, q, len as int, s, start as int, j as int),
                decreases start + len - j,
            {
                let ghost prev = *a;
                let v = m.mul(zeta, a[j + len]);
                let u = a[j];
                a[j] = m.add(u, v);
                a[j + len] = m.sub(u, v);
                proof {
                    assert forall|psi: int| #[trigger] t.forward_from(*m, psi) implies level_mix(
                        *a,
                        a0,
                        psi,
                        q,
                        len as int,
                        s,
                        start as int,
                        j + 1,
                    ) by {
                        assert(level_mix(prev, a0, psi, q, len as int, s, start as int, j as int));
                        assert(prev[j as int] as int == level_value(a0, psi, q, 2 * len, s, j as int));
                        assert(prev[j + len] as int == level_value(a0, psi, q, 2 * len, s, j + len));
                        assert(t.fwd[kk] == pow(psi, bit_reverse_spec(kk as nat, 6)) % q);
                        lemma_butterfly(a0, psi, q, len as int, s, g, j - start, zeta as int);
                        assert(2 * len * g + (j - start) == j);
                    }
                }
                j += 1;
            }
            start = j + len;
            proof {
                g = g + 1;
                assert(start as int == 2 * (len as int) * g) by (nonlinear_arith)
                    requires
                        start as int == 2 * (len as int) * (g - 1) + 2 * len,
                ;
            }
        }
        proof {
            lemma_butterfly_level_end(len as int, g);
            if len >= 2 {
                lemma_pow2_unfold((5 - s) as nat);
                assert((5 - s - 1) as nat == (5 - (s + 1)) as nat);
                assert forall|psi: int| #[trigger] t.forward_from(*m, psi) implies level_mix(
                    *a,
                    a0,
                    psi,
                    q,
                    (len / 2) as int,
                    s + 1,
                    0,
                    0,
                ) by {
                    assert(level_mix(*a, a0, psi, q, len as int, s, start as int, start as int));
                    assert(2 * (len / 2) == len);
                }
            } else {
                assert forall|psi: int| #[trigger] t.forward_from(*m, psi) implies forall|i: int|
                    0 <= i < D ==> #[trigger] a[i] as int == level_value(a0, psi, q, 1, 6, i) by {
                    assert(level_mix(*a, a0, psi, q, len as int, s, start as int, start as int));
                    assert(s + 1 == 6);
                }
            }
            s = s + 1;
        }
        len /= 2;
    }
    proof {
        assert forall|psi: int| #[trigger] t.forward_from(*m, psi) implies forall|i: int|
            0 <= i < D ==> #[trigger] a[i] as int == poly_eval(
                ints(*old(a)),
                pow(psi, (2 * bit_reverse_spec(i as nat, 6) + 1) as nat),
            ) % (m.q as int) by {
            assert forall|i: int| 0 <= i < D implies #[trigger] a[i] as int == poly_eval(
                ints(*old(a)),
                pow(psi, (2 * bit_reverse_spec(i as nat, 6) + 1) as nat),
            ) % (m.q as int) by {
                assert(a[i] as int == level_value(a0, psi, q, 1, 6, i));
                lemma_fundamental_div_mod_converse(i, 1, i, 0);
                lemma2_to64();
                assert(a0.len() == 64);
            }
        }
    }
}

/// `b` is the forward transform of the reduced coefficients `a0` for the
/// root `psi`, and the tables are consistent for inversion.
pub open spec fn is_ntt_of(t: NttTables, m: Modulus, psi: int, a0: Seq<int>, b: [u64; D]) -> bool {
    &&& t.forward_from(m, psi)
    &&& t.inverse_consistent(m)
    &&& a0.len() == D
    &&& forall|j: int| 0 <= j < D ==> 0 <= #[trigger] a0[j] < m.q
    &&& forall|i: int|
        0 <= i < D ==> #[trigger] b[i] as int == poly_eval(a0, pow(psi, (2 * bit_reverse_spec(i as nat, 6) + 1) as nat))
            % (m.q as int)
}

/// Before any level, every block is the whole input.
proof fn lemma_level_first(a0: Seq<int>, psi: int, q: int, i: int)
    requires
        0 <= i < 64,
        q > 0,
    ensures
        level_value(a0, psi, q, 64, 0, i) == a0[i] % q,
{
    lemma2_to64();
    lemma_fundamental_div_mod_converse(i, 64, 0, i);
    lemma_br_zero(0);
    lemma_pow0(pow(psi, 64));
    assert(block_sum(a0, i, 64, 1, pow(psi, 64)) == block_sum(a0, i, 64, 0, pow(psi, 64)) + a0[i + 0 * 64] * pow(
        pow(psi, 64),
        0,
    ));
}

/// After the last level, coefficient `i` is the input evaluated at
/// `ψ^{2·br(i) + 1}`.
proof fn lemma_level_last(a0: Seq<int>, psi: int, q: int, i: int)
    requires
        0 <= i < 64,
        a0.len() == 64,
    ensures
        level_value(a0, psi, q, 1, 6, i) == poly_eval(a0, pow(psi, (2 * bit_reverse_spec(i as nat, 6) + 1) as nat)) % q,
{
    lemma_fundamental_div_mod_converse(i, 1, i, 0);
    lemma2_to64();
}

/// Modular arithmetic of one Gentleman–Sande butterfly applied to the
/// outputs of a Cooley–Tukey butterfly scaled by `c`: it gives back the
/// inputs scaled by `2c`.
proof fn lemma_gs_arith(x: int, y: int, zeta: int, zinv: int, c: int, q: int)
    requires
        q > 0,
        (zinv * zeta) % q == 1,
    ensures
        ((c * ((x + (zeta * y) % q) % q)) % q + (c * ((x - (zeta * y) % q) % q)) % q) % q == (2 * c * x) % q,
        (zinv * ((((c * ((x + (zeta * y) % q) % q)) % q) - ((c * ((x - (zeta * y) % q) % q)) % q)) % q)) % q
            == (2 * c * y) % q,
{
    let zb = (zeta * y) % q;
    let l1 = (x + zb) % q;
    let l2 = (x - zb) % q;
    let u = (c * l1) % q;
    let v = (c * l2) % q;
    lemma_fundamental_div_mod(zeta * y, q);
    lemma_fundamental_div_mod(x + zb, q);
    lemma_fundamental_div_mod(x - zb, q);
    lemma_fundamental_div_mod(c * l1, q);
    lemma_fundamental_div_mod(c * l2, q);
    let k0 = (zeta * y) / q;
    let k1 = (x + zb) / q;
    let k2 = (x - zb) / q;
    let k3 = (c * l1) / q;
    let k4 = (c * l2) / q;
    // sum
    assert(u + v == q * (-c * (k1 + k2) - k3 - k4) + 2 * c * x) by (nonlinear_arith)
        requires
            x + zb == q * k1 + l1,
            x - zb == q * k2 + l2,
            c * l1 == q * k3 + u,
            c * l2 == q * k4 + v,
    ;
    lemma_mod_multiples_vanish(-c * (k1 + k2) - k3 - k4, 2 * c * x, q);
    // difference
    let w = (u - v) % q;
    lemma_fundamental_div_mod(u - v, q);
    let k5 = (u - v) / q;
    lemma_fundamental_div_mod(zinv * zeta, q);
    let k6 = (zinv * zeta) / q;
    let e = 2 * k0 + k1 - k2;
    let d = l1 - l2;
    assert(d == 2 * (zeta * y) - q * e) by (nonlinear_arith)
        requires
            zeta * y == q * k0 + zb,
            x + zb == q * k1 + l1,
            x - zb == q * k2 + l2,
            d == l1 - l2,
            e == 2 * k0 + k1 - k2,
    ;
    assert(c * l1 - c * l2 == c * d) by (nonlinear_arith)
        requires
            d == l1 - l2,
    ;
    assert(q * k3 - q * k4 + q * k5 == q * (k3 - k4 + k5)) by (nonlinear_arith);
    assert(w == c * d - q * (k3 - k4 + k5));
    let f = k3 - k4 + k5;
    assert(zinv * w == zinv * c * d - q * (zinv * f)) by (nonlinear_arith)
        requires
            w == c * d - q * f,
    ;
    let pz = zinv * c;
    let zy = zeta * y;
    let qe = q * e;
    assert(pz * d == pz * (2 * zy) - pz * qe) by (nonlinear_arith)
        requires
            d == 2 * zy - qe,
    ;
    assert(pz * (2 * zy) == 2 * c * y * (zinv * zeta)) by (nonlinear_arith)
        requires
            pz == zinv * c,
            zy == zeta * y,
    ;
    assert(pz * qe == q * (zinv * c * e)) by (nonlinear_arith)
        requires
            pz == zinv * c,
            qe == q * e,
    ;
    assert(zinv * c * d == pz * d);
    assert(2 * c * y * (zinv * zeta) == 2 * c * y + q * (2 * c * y * k6)) by (nonlinear_arith)
        requires
            zinv * zeta == q * k6 + 1,
    ;
    assert(q * (2 * c * y * k6) - q * (zinv * c * e) - q * (zinv * f) == q * (2 * c * y * k6 - zinv * c * e - zinv * f))
        by (nonlinear_arith);
    assert(zinv * w == q * (2 * c * y * k6 - zinv * c * e - zinv * f) + 2 * c * y);
    lemma_mod_multiples_vanish(2 * c * y * k6 - zinv * c * e - zinv * f, 2 * c * y, q);
}

/// Mid-level state of the inverse transform undoing forward level `s`:
/// coefficients before `j` and in `[start + len, j + len)` are back at level
/// `s` scaled by `2len`, the others still at level `s + 1` scaled by `len`.
pub open spec fn inverse_mix(a: [u64; D], a0: Seq<int>, psi: int, q: int, len: int, s: nat, start: int, j: int) -> bool {
    forall|i: int|
        0 <= i < D ==> #[trigger] a[i] as int == if i < j || (start + len <= i && i < j + len) {
            (2 * len * level_value(a0, psi, q, 2 * len, s, i)) % q
        } else {
            (len * level_value(a0, psi, q, len, s + 1, i)) % q
        }
}

/// In-place inverse negacyclic NTT (bit-reversed → natural order),
/// including the `D^{-1}` post-scale: it undoes [`ntt_in_place`] for tables
/// whose inverse twiddles and `n_inv` really invert.
#[verifier::spinoff_prover]
#[verifier::rlimit(100)]
pub fn intt_in_place(m: &Modulus, a: &mut [u64; D], t: &NttTables)
    requires
        m.wf(),
        t.wf(*m),
        forall|i: int| 0 <= i < D ==> #[trigger] old(a)[i] < m.q,
    ensures
        forall|i: int| 0 <= i < D ==> #[trigger] final(a)[i] < m.q,
        forall|psi: int, a0: Seq<int>|
            #[trigger] is_ntt_of(*t, *m, psi, a0, *old(a)) ==> forall|i: int|
                0 <= i < D ==> #[trigger] final(a)[i] as int == a0[i],
{
    let ghost b0 = *a;
    let ghost q = m.q as int;
    let ghost mut sl: nat = 6;
    proof {
        lemma2_to64();
        assert forall|psi: int, a0: Seq<int>| #[trigger] is_ntt_of(*t, *m, psi, a0, b0) implies forall|i: int|
            0 <= i < D ==> #[trigger] a[i] as int == (1 * level_value(a0, psi, q, 1, 6, i)) % q by {
            assert forall|i: int| 0 <= i < D implies #[trigger] a[i] as int == (1 * level_value(a0, psi, q, 1, 6, i)) % q by {
                lemma_level_last(a0, psi, q, i);
                vstd::arithmetic::div_mod::lemma_mod_twice(poly_eval(a0, pow(psi, (2 * bit_reverse_spec(i as nat, 6) + 1) as nat)), q);
            }
        }
    }
    let mut len: usize = 1;
    while len < D
        invariant
            m.wf(),
            t.wf(*m),
            q == m.q,
            b0 == *old(a),
            len == 1 || len == 2 || len == 4 || len == 8 || len == 16 || len == 32 || len == 64,
            sl <= 6,
            len == pow2((6 - sl) as nat),
            forall|i: int| 0 <= i < D ==> #[trigger] a[i] < m.q,
            forall|psi: int, a0: Seq<int>| #[trigger] is_ntt_of(*t, *m, psi, a0, b0) ==> forall|i: int|
                0 <= i < D ==> #[trigger] a[i] as int == (len * level_value(a0, psi, q, len as int, sl, i)) % q,
        decreases D - len,
    {
        let ghost s: nat = (sl - 1) as nat;
        proof {
            lemma2_to64();
            if sl == 0 {
                assert(len == 64);
            }
            assert((6 - sl) as nat == (5 - s) as nat);
            lemma_pow2_adds((5 - s) as nat, s);
            assert((5 - s) as nat + s == 5);
            lemma_fundamental_div_mod_converse(64, 2 * len as int, pow2(s) as int, 0);
            assert forall|psi: int, a0: Seq<int>| #[trigger] is_ntt_of(*t, *m, psi, a0, b0) implies inverse_mix(
                *a,
                a0,
                psi,
                q,
                len as int,
                s,
                0,
                0,
            ) by {
                assert(s + 1 == sl);
            }
        }
        let groups = D / (2 * len);
        let mut group_idx: usize = 0;
        while group_idx < groups
            invariant
                m.wf(),
                t.wf(*m),
                q == m.q,
                b0 == *old(a),
                len == 1 || len == 2 || len == 4 || len == 8 || len == 16 || len == 32,
                s <= 5,
                sl == s + 1,
                len == pow2((5 - s) as nat),
                groups == pow2(s),
                len * pow2(s) == 32,
                groups as int == 64int / (2 * len as int),
                group_idx <= groups,
                forall|i: int| 0 <= i < D ==> #[trigger] a[i] < m.q,
                forall|psi: int, a0: Seq<int>| #[trigger] is_ntt_of(*t, *m, psi, a0, b0) ==> inverse_mix(
                    *a,
                    a0,
                    psi,
                    q,
                    len as int,
                    s,
                    2 * len * group_idx,
                    2 * len * group_idx,
                ),
            decreases groups - group_idx,
        {
            proof {
                lemma_inverse_group(len as int, group_idx as int);
            }
            let zeta = t.inv[groups + group_idx];
            let ghost kk = (groups + group_idx) as int;
            let start = group_idx * 2 * len;
            let mut j = start;
            while j < start + len
                invariant
                    m.wf(),
                    t.wf(*m),
                    q == m.q,
                    b0 == *old(a),
                    s <= 5,
                    len == pow2((5 - s) as nat),
                    0 <= group_idx < pow2(s),
                    kk == pow2(s) + group_idx,
                    zeta == t.inv[kk],
                    1 <= kk < 64,
                    zeta < m.q,
                    start as int == 2 * (len as int) * group_idx,
                    start + 2 * len <= D,
                    start <= j <= start + len,
                    forall|i: int| 0 <= i < D ==> #[trigger] a[i] < m.q,
                    forall|psi: int, a0: Seq<int>| #[trigger] is_ntt_of(*t, *m, psi, a0, b0) ==> inverse_mix(
                        *a,
                        a0,
                        psi,
                        q,
                        len as int,
                        s,
                        start as int,
                        j as int,
                    ),
                decreases start + len - j,
            {
                let ghost prev = *a;
                let u = a[j];
                let v = a[j + len];
                a[j] = m.add(u, v);
                a[j + len] = m.mul(zeta, m.sub(u, v));
                proof {
                    assert forall|psi: int, a0: Seq<int>| #[trigger] is_ntt_of(*t, *m, psi, a0, b0) implies inverse_mix(
                        *a,
                        a0,
                        psi,
                        q,
                        len as int,
                        s,
                        start as int,
                        j + 1,
                    ) by {
                        assert(inverse_mix(prev, a0, psi, q, len as int, s, start as int, j as int));
                        let g = group_idx as int;
                        let jj = j - start;
                        assert(2 * len * g + jj == j);
                        let fz = t.fwd[kk];
                        assert(fz == pow(psi, bit_reverse_spec(kk as nat, 6)) % q);
                        lemma_butterfly(a0, psi, q, len as int, s, g, jj, fz as int);
                        assert((zeta * fz) % q == 1);
                        let x = level_value(a0, psi, q, 2 * len, s, j as int);
                        let y = level_value(a0, psi, q, 2 * len, s, j + len);
                        lemma_gs_arith(x, y, fz as int, zeta as int, len as int, q);
                        assert(prev[j as int] as int == (len * level_value(a0, psi, q, len as int, s + 1, j as int)) % q);
                        assert(prev[j + len] as int == (len * level_value(a0, psi, q, len as int, s + 1, j + len)) % q);
                    }
                }
                j += 1;
            }
            group_idx += 1;
            proof {
                assert(2 * len * group_idx == start + 2 * len) by (nonlinear_arith)
                    requires
                        start as int == 2 * (len as int) * (group_idx - 1),
                ;
            }
        }
        proof {
            assert(2 * len * groups == 64) by (nonlinear_arith)
                requires
                    len * groups == 32,
            ;
            lemma_pow2_unfold((6 - s) as nat);
            assert((6 - s) as nat - 1 == (5 - s) as nat);
            assert forall|psi: int, a0: Seq<int>| #[trigger] is_ntt_of(*t, *m, psi, a0, b0) implies forall|i: int|
                0 <= i < D ==> #[trigger] a[i] as int == ((2 * len) * level_value(a0, psi, q, (2 * len) as int, s, i)) % q by {
                assert(inverse_mix(*a, a0, psi, q, len as int, s, 64, 64));
            }
            sl = s;
        }
        len *= 2;
    }
    let n_inv = t.n_inv;
    let mut idx: usize = 0;
    while idx < D
        invariant
            m.wf(),
            q == m.q,
            b0 == *old(a),
            n_inv == t.n_inv,
            n_inv < m.q,
            0 <= idx <= D,
            forall|i: int| 0 <= i < D ==> #[trigger] a[i] < m.q,
            forall|psi: int, a0: Seq<int>| #[trigger] is_ntt_of(*t, *m, psi, a0, b0) ==> forall|i: int|
                0 <= i < D ==> #[trigger] a[i] as int == if i < idx { a0[i] } else { (64 * level_value(a0, psi, q, 64, 0, i)) % q },
        decreases D - idx,
    {
        let ghost prev = *a;
        a[idx] = m.mul(a[idx], n_inv);
        proof {
            assert forall|psi: int, a0: Seq<int>| #[trigger] is_ntt_of(*t, *m, psi, a0, b0) implies forall|i: int|
                0 <= i < D ==> #[trigger] a[i] as int == if i < idx + 1 { a0[i] } else { (64 * level_value(a0, psi, q, 64, 0, i)) % q } by {
                let i0 = idx as int;
                assert(prev[i0] as int == (64 * level_value(a0, psi, q, 64, 0, i0)) % q);
                lemma_level_first(a0, psi, q, i0);
                let x = a0[i0];
                lemma_small_mod(x as nat, q as nat);
                lemma_mul_mod_noop_left(64 * x, n_inv as int, q);
                assert((64 * x) * n_inv == x * (n_inv * 64)) by (nonlinear_arith);
                lemma_mul_mod_noop_right(x, n_inv * 64, q);
                assert(x * 1 == x);
                assert forall|i: int| 0 <= i < D implies #[trigger] a[i] as int == if i < idx + 1 { a0[i] } else {
                    (64 * level_value(a0, psi, q, 64, 0, i)) % q
                } by {
                    if i != i0 {
                        assert(a[i] == prev[i]);
                    }
                }
            }
        }
        idx += 1;
    }
}

/// A sum of a sum is the sum of the sums.
proof fn lemma_sum_add(f: spec_fn(int) -> int, g: spec_fn(int) -> int, lo: int, hi: int)
    ensures
        sum_range(|i: int| f(i) + g(i), lo, hi) == sum_range(f, lo, hi) + sum_range(g, lo, hi),
    decreases hi - lo,
{
    if hi > lo {
        lemma_sum_add(f, g, lo, hi - 1);
    }
}

/// A constant factor comes out of a sum.
proof fn lemma_sum_scale(f: spec_fn(int) -> int, c: int, lo: int, hi: int)
    ensures
        sum_range(|i: int| c * f(i), lo, hi) == c * sum_range(f, lo, hi),
    decreases hi - lo,
{
    if hi > lo {
        lemma_sum_scale(f, c, lo, hi - 1);
        assert(c * sum_range(f, lo, hi - 1) + c * f(hi - 1) == c * (sum_range(f, lo, hi - 1) + f(hi - 1)))
            by (nonlinear_arith);
    }
}

/// Summing zeros gives zero.
proof fn lemma_sum_zero(lo: int, hi: int)
    ensures
        sum_range(|i: int| 0int, lo, hi) == 0,
    decreases hi - lo,
{
    if hi > lo {
        lemma_sum_zero(lo, hi - 1);
    }
}

/// Shifting the summation index.
proof fn lemma_sum_shift(f: spec_fn(int) -> int, lo: int, hi: int, d: int)
    ensures
        sum_range(f, lo, hi) == sum_range(|j: int| f(j + d), lo - d, hi - d),
    decreases hi - lo,
{
    if hi > lo {
        lemma_sum_shift(f, lo, hi - 1, d);
        let g = |j: int| f(j + d);
        assert(g(hi - d - 1) == f(hi - 1));
    }
}

/// Finite double sums can be taken in either order.
proof fn lemma_sum_swap(ff: spec_fn(int, int) -> int, n: int, m: int)
    requires
        n >= 0,
        m >= 0,
    ensures
        sum_range(|k: int| sum_range(|i: int| ff(i, k), 0, m), 0, n) == sum_range(
            |i: int| sum_range(|k: int| ff(i, k), 0, n),
            0,
            m,
        ),
    decreases m,
{
    if m == 0 {
        lemma_sum_ext(|k: int| sum_range(|i: int| ff(i, k), 0, m), |k: int| 0int, 0, n);
        lemma_sum_zero(0, n);
    } else {
        lemma_sum_swap(ff, n, m - 1);
        let inner = |k: int| sum_range(|i: int| ff(i, k), 0, m - 1);
        let last = |k: int| ff(m - 1, k);
        lemma_sum_ext(
            |k: int| sum_range(|i: int| ff(i, k), 0, m),
            |k: int| inner(k) + last(k),
            0,
            n,
        );
        lemma_sum_add(inner, last, 0, n);
        lemma_sum_ext(inner, |k: int| sum_range(|i: int| ff(i, k), 0, m - 1), 0, n);
    }
}

/// `Σ_t a[t]·x^t` as a `sum_range`.
pub open spec fn eval_terms(a: Seq<int>, x: int) -> spec_fn(int) -> int {
    |t: int| a[t] * pow(x, t as nat)
}

/// `poly_eval` is the sum of its terms.
proof fn lemma_block_sum_is_sum(a: Seq<int>, x: int, n: nat)
    ensures
        block_sum(a, 0, 1, n, x) == sum_range(eval_terms(a, x), 0, n as int),
    decreases n,
{
    if n > 0 {
        lemma_block_sum_is_sum(a, x, (n - 1) as nat);
        assert(0 + (n - 1) * 1 == n - 1);
    }
}

/// Row `i` of the product modulo `X^n − x^n`, evaluated at `x`, is
/// `a_i x^i · b(x)`.
proof fn lemma_row_eval(a: Seq<int>, b: Seq<int>, i: int, x: int)
    requires
        a.len() == b.len(),
        0 <= i < a.len(),
    ensures
        sum_range(|k: int| wrap_term(a, b, i, k, pow(x, a.len())) * pow(x, k as nat), 0, a.len() as int)
            == a[i] * pow(x, i as nat) * sum_range(eval_terms(b, x), 0, a.len() as int),
{
    let n = a.len() as int;
    let sn = pow(x, a.len());
    let f = |k: int| wrap_term(a, b, i, k, sn) * pow(x, k as nat);
    let ci = a[i] * pow(x, i as nat);
    let g = |j: int| ci * eval_terms(b, x)(j);
    lemma_sum_split(f, 0, i, n);
    // k in [i, n): j = k - i
    lemma_sum_shift(f, i, n, i);
    let f1 = |j: int| f(j + i);
    assert forall|j: int| 0 <= j < n - i implies #[trigger] f1(j) == g(j) by {
        lemma_pow_adds(x, j as nat, i as nat);
        assert(wrap_term(a, b, i, j + i, sn) == a[i] * b[j]);
        assert(a[i] * b[j] * (pow(x, j as nat) * pow(x, i as nat)) == ci * (b[j] * pow(x, j as nat))) by (nonlinear_arith)
            requires
                ci == a[i] * pow(x, i as nat),
        ;
    }
    lemma_sum_ext(f1, g, 0, n - i);
    // k in [0, i): j = k - i + n
    lemma_sum_shift(f, 0, i, i - n);
    let f2 = |j: int| f(j + (i - n));
    assert forall|j: int| n - i <= j < n implies #[trigger] f2(j) == g(j) by {
        let k = j + i - n;
        assert(wrap_term(a, b, i, k, sn) == sn * (a[i] * b[j]));
        lemma_pow_adds(x, k as nat, a.len());
        lemma_pow_adds(x, j as nat, i as nat);
        assert(k as nat + a.len() == j as nat + i as nat);
        assert(sn * (a[i] * b[j]) * pow(x, k as nat) == a[i] * b[j] * (pow(x, k as nat) * sn)) by (nonlinear_arith);
        assert(a[i] * b[j] * (pow(x, j as nat) * pow(x, i as nat)) == ci * (b[j] * pow(x, j as nat))) by (nonlinear_arith)
            requires
                ci == a[i] * pow(x, i as nat),
        ;
    }
    lemma_sum_ext(f2, g, n - i, n);
    lemma_sum_split(g, 0, n - i, n);
    lemma_sum_scale(eval_terms(b, x), ci, 0, n);
    lemma_sum_ext(g, |j: int| ci * eval_terms(b, x)(j), 0, n);
}

/// Evaluating the product modulo `X^n − x^n` at `x` gives the product of the
/// evaluations, exactly.
proof fn lemma_product_eval_exact(a: Seq<int>, b: Seq<int>, x: int)
    requires
        a.len() == b.len(),
    ensures
        sum_range(|k: int| wrap_coeff(a, b, k, pow(x, a.len())) * pow(x, k as nat), 0, a.len() as int)
            == sum_range(eval_terms(a, x), 0, a.len() as int) * sum_range(eval_terms(b, x), 0, a.len() as int),
{
    let n = a.len() as int;
    let sn = pow(x, a.len());
    let eb = sum_range(eval_terms(b, x), 0, n);
    let ff = |i: int, k: int| wrap_term(a, b, i, k, sn) * pow(x, k as nat);
    let lhs = |k: int| wrap_coeff(a, b, k, sn) * pow(x, k as nat);
    let mid = |k: int| sum_range(|i: int| ff(i, k), 0, n);
    assert forall|k: int| 0 <= k < n implies #[trigger] lhs(k) == mid(k) by {
        lemma_wrap_partial_sum(a, b, k, a.len(), sn);
        lemma_sum_scale(wrap_terms(a, b, k, sn), pow(x, k as nat), 0, n);
        let h1 = |i: int| pow(x, k as nat) * wrap_terms(a, b, k, sn)(i);
        let h2 = |i: int| ff(i, k);
        assert forall|i: int| 0 <= i < n implies #[trigger] h1(i) == h2(i) by {
            let w = wrap_term(a, b, i, k, sn);
            let p = pow(x, k as nat);
            assert(p * w == w * p) by (nonlinear_arith);
        }
        lemma_sum_ext(h1, h2, 0, n);
        assert(wrap_coeff(a, b, k, sn) * pow(x, k as nat) == pow(x, k as nat) * wrap_coeff(a, b, k, sn)) by (nonlinear_arith);
    }
    lemma_sum_ext(lhs, mid, 0, n);
    lemma_sum_swap(ff, n, n);
    let rows = |i: int| sum_range(|k: int| ff(i, k), 0, n);
    let scaled = |i: int| eb * eval_terms(a, x)(i);
    assert forall|i: int| 0 <= i < n implies #[trigger] rows(i) == scaled(i) by {
        lemma_row_eval(a, b, i, x);
        lemma_sum_ext(|k: int| ff(i, k), |k: int| wrap_term(a, b, i, k, sn) * pow(x, k as nat), 0, n);
        assert(a[i] * pow(x, i as nat) * eb == eb * (a[i] * pow(x, i as nat))) by (nonlinear_arith);
    }
    lemma_sum_ext(rows, scaled, 0, n);
    lemma_sum_scale(eval_terms(a, x), eb, 0, n);
    assert(eb * sum_range(eval_terms(a, x), 0, n) == sum_range(eval_terms(a, x), 0, n) * eb) by (nonlinear_arith);
}

/// Powers of `-1 ≡ q - 1`: `1` for even exponents, `q - 1` for odd ones.
proof fn lemma_minus_one_pow(q: int, e: nat)
    requires
        q >= 3,
    ensures
        pow(q - 1, e) % q == if e % 2 == 0 { 1 } else { q - 1 },
    decreases e,
{
    if e == 0 {
        lemma_pow0(q - 1);
        lemma_small_mod(1, q as nat);
    } else {
        let e1 = (e - 1) as nat;
        lemma_minus_one_pow(q, e1);
        lemma_pow_adds(q - 1, e1, 1);
        lemma_pow1(q - 1);
        let p = pow(q - 1, e1);
        lemma_mul_mod_noop_left(p, q - 1, q);
        if e1 % 2 == 0 {
            assert(1 * (q - 1) == q - 1);
            lemma_small_mod((q - 1) as nat, q as nat);
        } else {
            assert((q - 1) * (q - 1) == q * (q - 2) + 1) by (nonlinear_arith);
            lemma_fundamental_div_mod_converse((q - 1) * (q - 1), q, q - 2, 1);
        }
    }
}

/// `x = ψ^{2r+1}` satisfies `x^D ≡ -1` when `ψ^D ≡ -1`.
proof fn lemma_odd_root(psi: int, q: int, r: nat)
    requires
        q >= 3,
        pow(psi, 64) % q == q - 1,
    ensures
        pow(pow(psi, 2 * r + 1), 64) % q == q - 1,
{
    lemma_pow_multiplies(psi, 2 * r + 1, 64);
    lemma_pow_multiplies(psi, 64, 2 * r + 1);
    assert((2 * r + 1) * 64 == 64 * (2 * r + 1)) by (nonlinear_arith);
    lemma_pow_mod_noop(pow(psi, 64), 2 * r + 1, q);
    lemma_minus_one_pow(q, 2 * r + 1);
    assert((2 * r + 1) % 2 == 1) by (nonlinear_arith);
}

/// Coefficients of products modulo `X^n − s1` and `X^n − s2` agree mod `q`
/// when `s1 ≡ s2`.
proof fn lemma_wrap_coeff_cong(a: Seq<int>, b: Seq<int>, k: int, s1: int, s2: int, q: int)
    requires
        q > 0,
        s1 % q == s2 % q,
    ensures
        wrap_coeff(a, b, k, s1) % q == wrap_coeff(a, b, k, s2) % q,
{
    lemma_wrap_partial_sum(a, b, k, a.len(), s1);
    lemma_wrap_partial_sum(a, b, k, a.len(), s2);
    assert forall|i: int| 0 <= i < a.len() implies #[trigger] wrap_terms(a, b, k, s1)(i) % q == wrap_terms(a, b, k, s2)(i) % q by {
        if i > k {
            let ab = a[i] * b[k - i + a.len()];
            lemma_mul_mod_noop_left(s1, ab, q);
            lemma_mul_mod_noop_left(s2, ab, q);
        }
    }
    lemma_sum_congruent(wrap_terms(a, b, k, s1), wrap_terms(a, b, k, s2), 0, a.len() as int, q);
}

/// The reduced negacyclic product of `a` and `b`.
pub open spec fn negacyclic_mod(a: Seq<int>, b: Seq<int>, q: int) -> Seq<int> {
    Seq::new(a.len(), |k: int| negacyclic_coeff(a, b, k) % q)
}

/// Evaluating at a root of `X^D + 1` turns the negacyclic product into the
/// product of the evaluations, mod `q`: `(a·b)(x) ≡ a(x)·b(x)`.
pub proof fn law_negacyclic_product_evaluates(a: Seq<int>, b: Seq<int>, x: int, q: int)
    requires
        a.len() == 64,
        b.len() == 64,
        q >= 3,
        pow(x, 64) % q == q - 1,
    ensures
        poly_eval(negacyclic_mod(a, b, q), x) % q == (poly_eval(a, x) * poly_eval(b, x)) % q,
{
    let p = negacyclic_mod(a, b, q);
    let sn = pow(x, a.len());
    lemma_block_sum_is_sum(p, x, 64);
    lemma_block_sum_is_sum(a, x, 64);
    lemma_block_sum_is_sum(b, x, 64);
    lemma_product_eval_exact(a, b, x);
    let lhs = |k: int| wrap_coeff(a, b, k, sn) * pow(x, k as nat);
    lemma_small_mod(1, q as nat);
    lemma_fundamental_div_mod_converse(-1, q, -1, q - 1);
    assert forall|k: int| 0 <= k < 64 implies #[trigger] eval_terms(p, x)(k) % q == lhs(k) % q by {
        let nc = negacyclic_coeff(a, b, k);
        let pk = pow(x, k as nat);
        lemma_wrap_coeff_cong(a, b, k, -1, sn, q);
        lemma_mul_mod_noop_left(nc, pk, q);
        lemma_mul_mod_noop_left(wrap_coeff(a, b, k, sn), pk, q);
        assert(p[k] == nc % q);
    }
    lemma_sum_congruent(eval_terms(p, x), lhs, 0, 64, q);
}

/// Negacyclic ring multiplication via forward NTT → pointwise → inverse NTT:
/// for invertible twiddle tables of a root `ψ` with `ψ^D = -1`, the result
/// is the negacyclic product of `a` and `b` mod `q`.
#[verifier::spinoff_prover]
#[verifier::rlimit(100)]
pub fn mul_ntt(m: &Modulus, a: &[u64; D], b: &[u64; D], t: &NttTables) -> (c: [u64; D])
    requires
        m.wf(),
        t.wf(*m),
        forall|i: int| 0 <= i < D ==> #[trigger] a[i] < m.q,
        forall|i: int| 0 <= i < D ==> #[trigger] b[i] < m.q,
    ensures
        forall|i: int| 0 <= i < D ==> #[trigger] c[i] < m.q,
        forall|psi: int|
            #[trigger] t.forward_from(*m, psi) && t.inverse_consistent(*m) ==> forall|k: int|
                0 <= k < D ==> #[trigger] c[k] as int == negacyclic_coeff(ints(*a), ints(*b), k) % (m.q as int),
{
    let ghost q = m.q as int;
    let mut ah = *a;
    let mut bh = *b;
    ntt_in_place(m, &mut ah, t);
    ntt_in_place(m, &mut bh, t);
    let ghost ah0 = ah;
    let mut i: usize = 0;
    while i < D
        invariant
            m.wf(),
            q == m.q,
            0 <= i <= D,
            forall|j: int| 0 <= j < D ==> #[trigger] ah[j] < m.q,
            forall|j: int| 0 <= j < D ==> #[trigger] bh[j] < m.q,
            forall|j: int| 0 <= j < D ==> #[trigger] ah[j] as int == if j < i { (ah0[j] * bh[j]) % q } else { ah0[j] as int },
        decreases D - i,
    {
        ah[i] = m.mul(ah[i], bh[i]);
        i += 1;
    }
    let ghost prod = ah;
    proof {
        assert forall|psi: int| #[trigger] t.forward_from(*m, psi) && t.inverse_consistent(*m) implies is_ntt_of(
            *t,
            *m,
            psi,
            negacyclic_mod(ints(*a), ints(*b), q),
            prod,
        ) by {
            let pa = ints(*a);
            let pb = ints(*b);
            let p = negacyclic_mod(pa, pb, q);
            assert forall|j: int| 0 <= j < D implies 0 <= #[trigger] p[j] < m.q by {}
            assert forall|i: int| 0 <= i < D implies #[trigger] prod[i] as int == poly_eval(
                p,
                pow(psi, (2 * bit_reverse_spec(i as nat, 6) + 1) as nat),
            ) % q by {
                let x = pow(psi, (2 * bit_reverse_spec(i as nat, 6) + 1) as nat);
                lemma_odd_root(psi, q, bit_reverse_spec(i as nat, 6));
                law_negacyclic_product_evaluates(pa, pb, x, q);
                let ea = poly_eval(pa, x);
                let eb = poly_eval(pb, x);
                assert(ah0[i] as int == ea % q);
                assert(bh[i] as int == eb % q);
                lemma_mul_mod_noop_left(ea, eb % q, q);
                lemma_mul_mod_noop_right(ea, eb, q);
            }
        }
    }
    intt_in_place(m, &mut ah, t);
    proof {
        assert forall|psi: int| #[trigger] t.forward_from(*m, psi) && t.inverse_consistent(*m) implies forall|k: int|
            0 <= k < D ==> #[trigger] ah[k] as int == negacyclic_coeff(ints(*a), ints(*b), k) % q by {
            assert(is_ntt_of(*t, *m, psi, negacyclic_mod(ints(*a), ints(*b), q), prod));
        }
    }
    ah
}
} // verus!
