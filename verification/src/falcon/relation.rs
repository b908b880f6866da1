//! Building blocks for the LaBRADOR statement that asserts
//! "the N supplied Falcon-512 signatures verify."
//!
//! - [`compute_v_signed`] — the modulus-lifting quotient `v_i`: the Falcon
//!   verification equation holds mod `q = 12289`; it is lifted to the exact
//!   integer identity `s1 + h·s2 + q·v − c = 0 ∈ R`.
//! - [`four_square`] — a four-square decomposition of a non-negative
//!   integer, used to express `β² − ‖s1‖² − ‖s2‖²` as a sum of four squares.
use crate::falcon::embed::{embed_fpoly_centered, embed_signed, slots_wf, C};
use crate::falcon::falcon_ring::{fpoly_centered, FPoly, FALCON_BETA_SQ, FALCON_N, FALCON_Q};
use crate::falcon::parse::FalconSig;
use crate::labrador::statement::{
    elem, elems_wf, zero_poly, ConstTermConstraint, DotConstraint, Statement, Witness,
};
use crate::modring::crt::Ring;
use crate::modring::modulus::{centered_of, Modulus};
use crate::modring::poly::{centered_coeffs, elem_norm_sq, RingElem, D};
use crate::modring::polyspec::{
    ints_signed, negacyclic_coeff, row_reached, sum_sq, wrap_partial, wrap_term,
};
use vstd::arithmetic::mul::*;
use vstd::prelude::*;

verus! {

/// Bound on a centered Falcon coefficient: `⌊q/2⌋`.
pub const HALF_Q: i64 = 6144;

/// Centered (signed) coefficients of a Falcon polynomial.
pub(crate) fn centered_vec(f: &FPoly) -> (out: [i64; FALCON_N])
    requires
        f.wf(),
    ensures
        forall|i: int| 0 <= i < FALCON_N ==> #[trigger] out[i] == fpoly_centered(*f)[i],
        forall|i: int| 0 <= i < FALCON_N ==> -HALF_Q <= #[trigger] out[i] <= HALF_Q,
{
    let mut out = [0i64; FALCON_N];
    for i in 0..FALCON_N
        invariant
            f.wf(),
            forall|j: int| 0 <= j < i ==> #[trigger] out[j] == fpoly_centered(*f)[j],
            forall|j: int| 0 <= j < FALCON_N ==> -HALF_Q <= #[trigger] out[j] <= HALF_Q,
    {
        out[i] = f.centered(i) as i64;
    }
    out
}

/// Negacyclic product of two integer polynomials of degree < 512, modulo
/// `X^512 + 1`, with no reduction of the coefficients. Inputs are centered
/// Falcon coefficients, so every partial sum fits in `i64`.
pub(crate) fn neg_mul_i64(a: &[i64; FALCON_N], b: &[i64; FALCON_N]) -> (out: [i64; FALCON_N])
    requires
        forall|i: int| 0 <= i < FALCON_N ==> -HALF_Q <= #[trigger] a[i] <= HALF_Q,
        forall|i: int| 0 <= i < FALCON_N ==> -HALF_Q <= #[trigger] b[i] <= HALF_Q,
    ensures
        forall|k: int|
            0 <= k < FALCON_N ==> #[trigger] out[k] == negacyclic_coeff(
                ints_signed(*a),
                ints_signed(*b),
                k,
            ),
{
    let ghost sa = ints_signed(*a);
    let ghost sb = ints_signed(*b);
    let mut out = [0i64; FALCON_N];
    let pp: i64 = HALF_Q * HALF_Q;
    assert(pp == 37748736);
    for i in 0..FALCON_N
        invariant
            forall|i: int| 0 <= i < FALCON_N ==> -HALF_Q <= #[trigger] a[i] <= HALF_Q,
            forall|i: int| 0 <= i < FALCON_N ==> -HALF_Q <= #[trigger] b[i] <= HALF_Q,
            sa == ints_signed(*a),
            sb == ints_signed(*b),
            pp == 37748736,
            forall|k: int| 0 <= k < FALCON_N ==> #[trigger] out[k] == wrap_partial(sa, sb, k, i as nat, -1),
            forall|k: int| 0 <= k < FALCON_N ==> -(i as int) * pp <= #[trigger] out[k] <= (i as int) * pp,
    {
        let ai = a[i];
        if ai == 0 {
            proof {
                assert forall|k: int| 0 <= k < FALCON_N implies #[trigger] out[k] == wrap_partial(
                    sa,
                    sb,
                    k,
                    (i + 1) as nat,
                    -1,
                ) by {
                    assert(sa[i as int] == 0);
                    if k >= i {
                        lemma_mul_basics(sb[k - i]);
                    } else {
                        lemma_mul_basics(sb[k - i + 512]);
                    }
                }
                assert forall|k: int| 0 <= k < FALCON_N implies -((i + 1) as int) * pp <= #[trigger] out[k] <= ((i + 1) as int) * pp by {
                    assert((i + 1) as int * pp == i as int * pp + pp) by (nonlinear_arith);
                    assert(0 <= i as int * pp) by (nonlinear_arith) requires pp > 0, i >= 0;
                }
            }
        } else {
            for j in 0..FALCON_N
                invariant
                    forall|i: int| 0 <= i < FALCON_N ==> -HALF_Q <= #[trigger] a[i] <= HALF_Q,
                    forall|i: int| 0 <= i < FALCON_N ==> -HALF_Q <= #[trigger] b[i] <= HALF_Q,
                    i < FALCON_N,
                    ai == a[i as int],
                    sa == ints_signed(*a),
                    sb == ints_signed(*b),
                    pp == 37748736,
                    forall|k: int|
                        0 <= k < FALCON_N ==> #[trigger] out[k] == wrap_partial(sa, sb, k, i as nat, -1) + (
                        if row_reached(FALCON_N as int, i as int, j as int, k) {
                            wrap_term(sa, sb, i as int, k, -1)
                        } else {
                            0
                        }),
                    forall|k: int|
                        0 <= k < FALCON_N ==> -(i as int) * pp - (if row_reached(FALCON_N as int, i as int, j as int, k) { pp } else { 0 })
                            <= #[trigger] out[k] <= (i as int) * pp + (if row_reached(FALCON_N as int, i as int, j as int, k) { pp } else { 0 }),
            {
                let bj = b[j];
                proof {
                    assert(-pp <= ai * bj <= pp) by (nonlinear_arith)
                        requires
                            -HALF_Q <= ai <= HALF_Q,
                            -HALF_Q <= bj <= HALF_Q,
                            pp == 37748736,
                    ;
                    assert((i as int) * pp <= 511 * pp) by (nonlinear_arith)
                        requires
                            i < 512,
                            pp > 0,
                    ;
                }
                let p = ai * bj;
                let k = i + j;
                if k < FALCON_N {
                    out[k] = out[k] + p;
                } else {
                    out[k - FALCON_N] = out[k - FALCON_N] - p;
                }
            }
            proof {
                assert forall|k: int| 0 <= k < FALCON_N implies -((i + 1) as int) * pp <= #[trigger] out[k] <= ((i + 1) as int) * pp by {
                    assert((i + 1) as int * pp == i as int * pp + pp) by (nonlinear_arith);
                    assert(0 <= i as int * pp) by (nonlinear_arith) requires pp > 0, i >= 0;
                }
            }
        }
    }
    out
}

/// The lifted Falcon equation holds exactly: every coefficient of
/// `c − s1 − h·s2` (centered representatives, product over the integers) is
/// a multiple of `q`.
pub open spec fn lift_divisible(s1: FPoly, s2: FPoly, h: FPoly, c: FPoly) -> bool {
    forall|i: int|
        0 <= i < FALCON_N ==> (#[trigger] fpoly_centered(c)[i] - fpoly_centered(s1)[i]
            - negacyclic_coeff(fpoly_centered(h), fpoly_centered(s2), i)) % (FALCON_Q as int) == 0
}

/// Compute the modulus-lifting quotient `v` for a single Falcon signature:
/// the integer polynomial with `s1 + h·s2 + q·v − c = 0` in
/// `R = Z[X]/(X^512 + 1)`, all of `s1, s2, h, c` taken by their centered
/// coefficients.
pub fn compute_v_signed(s1: &FPoly, s2: &FPoly, h: &FPoly, c: &FPoly) -> (v: [i64; FALCON_N])
    requires
        s1.wf(),
        s2.wf(),
        h.wf(),
        c.wf(),
        lift_divisible(*s1, *s2, *h, *c),
    ensures
        forall|i: int|
            0 <= i < FALCON_N ==> fpoly_centered(*s1)[i] + negacyclic_coeff(
                fpoly_centered(*h),
                fpoly_centered(*s2),
                i,
            ) + (FALCON_Q as int) * (#[trigger] v[i]) - fpoly_centered(*c)[i] == 0,
{
    let s1_i = centered_vec(s1);
    let s2_i = centered_vec(s2);
    let h_i = centered_vec(h);
    let c_i = centered_vec(c);
    let hs2 = neg_mul_i64(&h_i, &s2_i);
    proof {
        assert(ints_signed(h_i) =~= fpoly_centered(*h));
        assert(ints_signed(s2_i) =~= fpoly_centered(*s2));
    }
    let q = FALCON_Q as i64;
    let mut out = [0i64; FALCON_N];
    for i in 0..FALCON_N
        invariant
            s1.wf(),
            s2.wf(),
            h.wf(),
            c.wf(),
            lift_divisible(*s1, *s2, *h, *c),
            q == FALCON_Q,
            forall|k: int| 0 <= k < FALCON_N ==> #[trigger] s1_i[k] == fpoly_centered(*s1)[k],
            forall|k: int| 0 <= k < FALCON_N ==> #[trigger] c_i[k] == fpoly_centered(*c)[k],
            forall|k: int| 0 <= k < FALCON_N ==> -HALF_Q <= #[trigger] s1_i[k] <= HALF_Q,
            forall|k: int| 0 <= k < FALCON_N ==> -HALF_Q <= #[trigger] c_i[k] <= HALF_Q,
            forall|k: int|
                0 <= k < FALCON_N ==> #[trigger] hs2[k] == negacyclic_coeff(
                    fpoly_centered(*h),
                    fpoly_centered(*s2),
                    k,
                ),
            forall|k: int|
                0 <= k < i ==> fpoly_centered(*s1)[k] + negacyclic_coeff(
                    fpoly_centered(*h),
                    fpoly_centered(*s2),
                    k,
                ) + (FALCON_Q as int) * (#[trigger] out[k]) - fpoly_centered(*c)[k] == 0,
    {
        // |h·s2| ≤ 512 · 6144², far inside i64.
        proof {
            lemma_negacyclic_bound(fpoly_centered(*h), fpoly_centered(*s2), i as int);
        }
        let diff = c_i[i] - s1_i[i] - hs2[i];
        proof {
            assert(diff % q == 0);
            vstd::arithmetic::div_mod::lemma_fundamental_div_mod(diff as int, q as int);
        }
        out[i] = diff / q;
    }
    out
}

/// `|Σ_{i < upto} wrap_term|` stays below `upto · 6144²` for centered inputs.
proof fn lemma_wrap_partial_bound(a: Seq<int>, b: Seq<int>, k: int, upto: nat)
    requires
        a.len() == FALCON_N,
        b.len() == FALCON_N,
        0 <= k < FALCON_N,
        upto <= FALCON_N,
        forall|i: int| 0 <= i < FALCON_N ==> -HALF_Q <= #[trigger] a[i] <= HALF_Q,
        forall|i: int| 0 <= i < FALCON_N ==> -HALF_Q <= #[trigger] b[i] <= HALF_Q,
    ensures
        -(upto as int) * (HALF_Q * HALF_Q) <= wrap_partial(a, b, k, upto, -1) <= (upto as int) * (
        HALF_Q * HALF_Q),
    decreases upto,
{
    if upto > 0 {
        let i = (upto - 1) as int;
        lemma_wrap_partial_bound(a, b, k, (upto - 1) as nat);
        let x = a[i];
        let y = if i <= k {
            b[k - i]
        } else {
            b[k - i + FALCON_N]
        };
        assert(-HALF_Q * HALF_Q <= x * y <= HALF_Q * HALF_Q) by (nonlinear_arith)
            requires
                -HALF_Q <= x <= HALF_Q,
                -HALF_Q <= y <= HALF_Q,
        ;
        assert((upto as int) * (HALF_Q * HALF_Q) == (upto - 1) as int * (HALF_Q * HALF_Q) + HALF_Q
            * HALF_Q) by (nonlinear_arith);
    }
}

/// Negacyclic coefficients of centered inputs fit comfortably in `i64`.
pub(crate) proof fn lemma_negacyclic_bound(a: Seq<int>, b: Seq<int>, k: int)
    requires
        a.len() == FALCON_N,
        b.len() == FALCON_N,
        0 <= k < FALCON_N,
        forall|i: int| 0 <= i < FALCON_N ==> -HALF_Q <= #[trigger] a[i] <= HALF_Q,
        forall|i: int| 0 <= i < FALCON_N ==> -HALF_Q <= #[trigger] b[i] <= HALF_Q,
    ensures
        -512 * (HALF_Q * HALF_Q) <= negacyclic_coeff(a, b, k) <= 512 * (HALF_Q * HALF_Q),
{
    lemma_wrap_partial_bound(a, b, k, FALCON_N as nat);
}


// ---------------------------------------------------------------------------
// Slot-wise helpers
// ---------------------------------------------------------------------------

/// Scale every slot of `x` by `k` mod `m.q`.
pub fn scale_slots(x: &[RingElem; C], k: u64, m: &Modulus) -> (out: [RingElem; C])
    requires
        m.wf(),
    ensures
        forall|t: int, j: int|
            0 <= t < C && 0 <= j < D ==> #[trigger] out[t].c[j] == (x[t].c[j] * k) % (m.q as int),
        slots_wf(out, *m),
{
    let z = RingElem::zero();
    let mut out = [z, z, z, z, z, z, z, z];
    for i in 0..C
        invariant
            m.wf(),
            forall|t: int, j: int|
                0 <= t < i && 0 <= j < D ==> #[trigger] out[t].c[j] == (x[t].c[j] * k) % (m.q as int),
            forall|t: int| 0 <= t < i ==> #[trigger] out[t].wf(*m),
    {
        out[i] = x[i].scale(m, k);
    }
    out
}

/// Coefficient-wise sum of two subring-embedded elements.
pub fn add_slots(a: &[RingElem; C], b: &[RingElem; C], m: &Modulus) -> (out: [RingElem; C])
    requires
        m.wf(),
        slots_wf(*a, *m),
        slots_wf(*b, *m),
    ensures
        forall|t: int, j: int|
            0 <= t < C && 0 <= j < D ==> #[trigger] out[t].c[j] == (a[t].c[j] + b[t].c[j]) % (
            m.q as int),
        slots_wf(out, *m),
{
    let z = RingElem::zero();
    let mut out = [z, z, z, z, z, z, z, z];
    for i in 0..C
        invariant
            m.wf(),
            slots_wf(*a, *m),
            slots_wf(*b, *m),
            forall|t: int, j: int|
                0 <= t < i && 0 <= j < D ==> #[trigger] out[t].c[j] == (a[t].c[j] + b[t].c[j]) % (
                m.q as int),
            forall|t: int| 0 <= t < i ==> #[trigger] out[t].wf(*m),
    {
        out[i] = a[i].add(m, &b[i]);
    }
    out
}

/// Coefficient-wise difference of two subring-embedded elements.
pub fn sub_slots(a: &[RingElem; C], b: &[RingElem; C], m: &Modulus) -> (out: [RingElem; C])
    requires
        m.wf(),
        slots_wf(*a, *m),
        slots_wf(*b, *m),
    ensures
        forall|t: int, j: int|
            0 <= t < C && 0 <= j < D ==> #[trigger] out[t].c[j] == (a[t].c[j] - b[t].c[j]) % (
            m.q as int),
        slots_wf(out, *m),
{
    let z = RingElem::zero();
    let mut out = [z, z, z, z, z, z, z, z];
    for i in 0..C
        invariant
            m.wf(),
            slots_wf(*a, *m),
            slots_wf(*b, *m),
            forall|t: int, j: int|
                0 <= t < i && 0 <= j < D ==> #[trigger] out[t].c[j] == (a[t].c[j] - b[t].c[j]) % (
                m.q as int),
            forall|t: int| 0 <= t < i ==> #[trigger] out[t].wf(*m),
    {
        out[i] = a[i].sub(m, &b[i]);
    }
    out
}

/// True if every slot is the zero polynomial in `S`.
pub fn all_slots_zero(x: &[RingElem; C]) -> (z: bool)
    ensures
        z == (forall|t: int, j: int| 0 <= t < C && 0 <= j < D ==> #[trigger] x[t].c[j] == 0),
{
    for i in 0..C
        invariant
            forall|t: int, j: int| 0 <= t < i && 0 <= j < D ==> #[trigger] x[t].c[j] == 0,
    {
        if !x[i].is_zero() {
            return false;
        }
    }
    true
}

// ---------------------------------------------------------------------------
// Four squares
// ---------------------------------------------------------------------------

/// `x ≤ y` implies `x² ≤ y²` for non-negative integers.
proof fn lemma_sq_mono(x: int, y: int)
    requires
        0 <= x <= y,
    ensures
        x * x <= y * y,
{
    assert(x * x <= y * y) by (nonlinear_arith)
        requires
            0 <= x <= y,
    ;
}

/// The integer square root: the `r ≥ 0` with `r² ≤ x < (r+1)²`.
fn isqrt(x: i64) -> (r: i64)
    requires
        x >= 0,
    ensures
        0 <= r < 3037000500,
        r * r <= x < (r + 1) * (r + 1),
{
    let mut lo: i64 = 0;
    let mut hi: i64 = if x < 3037000499 {
        x + 1
    } else {
        3037000500
    };
    proof {
        if x < 3037000499 {
            assert((x + 1) * (x + 1) > x) by (nonlinear_arith)
                requires
                    x >= 0,
            ;
        } else {
            assert(3037000500 * 3037000500 > x);
        }
    }
    while hi - lo > 1
        invariant
            0 <= lo < hi <= 3037000500,
            lo * lo <= x < hi * hi,
        decreases hi - lo,
    {
        let mid = lo + (hi - lo) / 2;
        proof {
            lemma_sq_mono(mid as int, 3037000499);
        }
        if mid * mid <= x {
            lo = mid;
        } else {
            hi = mid;
        }
    }
    lo
}

/// `t` is not a square when its integer square root does not square to it.
proof fn lemma_not_square(t: int, d: int, e: int)
    requires
        d >= 0,
        e >= 0,
        d * d <= t < (d + 1) * (d + 1),
        d * d != t,
    ensures
        e * e != t,
{
    if e <= d - 1 {
        lemma_sq_mono(e, d - 1);
        lemma_sq_mono(d - 1, d);
        assert((d - 1) * (d - 1) < d * d) by (nonlinear_arith)
            requires
                d >= 1,
        ;
    } else if e >= d + 1 {
        lemma_sq_mono(d + 1, e);
    }
}

/// A sum of two squares `c² + d² = s` with `c` as small as possible, or
/// `None` if `s` is no such sum.
fn two_squares(s: i64) -> (res: Option<(i64, i64)>)
    requires
        s >= 0,
    ensures
        match res {
            Some((c, d)) => c >= 0 && d >= 0 && c * c + d * d == s,
            None => forall|c: int, d: int| c >= 0 && d >= 0 ==> #[trigger] (c * c) + #[trigger] (d * d) != s,
        },
{
    let top = isqrt(s);
    let mut c: i64 = 0;
    while c <= top
        invariant
            s >= 0,
            0 <= top < 3037000500,
            top * top <= s < (top + 1) * (top + 1),
            0 <= c <= top + 1,
            forall|c2: int, d: int|
                0 <= c2 < c && d >= 0 ==> #[trigger] (c2 * c2) + #[trigger] (d * d) != s,
        decreases top + 1 - c,
    {
        proof {
            lemma_sq_mono(c as int, top as int);
        }
        let t = s - c * c;
        let d = isqrt(t);
        if d * d == t {
            return Some((c, d));
        }
        proof {
            assert forall|c2: int, e: int|
                0 <= c2 < c + 1 && e >= 0 implies #[trigger] (c2 * c2) + #[trigger] (e * e) != s by {
                if c2 == c {
                    lemma_not_square(t as int, d as int, e);
                }
            }
        }
        c += 1;
    }
    proof {
        assert forall|c2: int, d: int| c2 >= 0 && d >= 0 implies #[trigger] (c2 * c2) + #[trigger] (d
            * d) != s by {
            if c2 > top {
                lemma_sq_mono(top + 1, c2);
                assert(d * d >= 0) by (nonlinear_arith);
            }
        }
    }
    None
}

/// A sum of three squares `b² + c² + d² = r` with `b` as large as possible.
fn three_squares(r: i64) -> (res: Option<(i64, i64, i64)>)
    requires
        r >= 0,
    ensures
        match res {
            Some((b, c, d)) => b >= 0 && c >= 0 && d >= 0 && b * b + c * c + d * d == r,
            None => forall|b: int, c: int, d: int|
                b >= 0 && c >= 0 && d >= 0 ==> #[trigger] (b * b) + #[trigger] (c * c) + #[trigger] (d
                    * d) != r,
        },
{
    let top = isqrt(r);
    let mut b: i64 = top;
    while b >= 0
        invariant
            r >= 0,
            top >= 0,
            top * top <= r < (top + 1) * (top + 1),
            -1 <= b <= top,
            forall|b2: int, c: int, d: int|
                b < b2 <= top && c >= 0 && d >= 0 ==> #[trigger] (b2 * b2) + #[trigger] (c * c)
                    + #[trigger] (d * d) != r,
        decreases b + 1,
    {
        proof {
            lemma_sq_mono(b as int, top as int);
        }
        match two_squares(r - b * b) {
            Some((c, d)) => {
                return Some((b, c, d));
            },
            None => {},
        }
        b -= 1;
    }
    proof {
        assert forall|b2: int, c: int, d: int|
            b2 >= 0 && c >= 0 && d >= 0 implies #[trigger] (b2 * b2) + #[trigger] (c * c)
            + #[trigger] (d * d) != r by {
            if b2 > top {
                lemma_sq_mono(top + 1, b2);
                assert(c * c >= 0 && d * d >= 0) by (nonlinear_arith);
            }
        }
    }
    None
}

/// Lagrange's four-square decomposition: `(a, b, c, d)` with
/// `a² + b² + c² + d² = n`, found by a deterministic search (`a` and `b`
/// from large to small, `c` from small to large). `None` only if `n` is no
/// such sum.
pub fn four_square(n: i64) -> (res: Option<(i64, i64, i64, i64)>)
    requires
        n >= 0,
    ensures
        match res {
            Some((a, b, c, d)) => a >= 0 && b >= 0 && c >= 0 && d >= 0 && a * a + b * b + c * c + d
                * d == n,
            None => forall|a: int, b: int, c: int, d: int|
                a >= 0 && b >= 0 && c >= 0 && d >= 0 ==> #[trigger] (a * a) + #[trigger] (b * b)
                    + #[trigger] (c * c) + #[trigger] (d * d) != n,
        },
{
    if n == 0 {
        return Some((0, 0, 0, 0));
    }
    let top = isqrt(n);
    let mut a: i64 = top;
    while a >= 0
        invariant
            n >= 0,
            top >= 0,
            top * top <= n < (top + 1) * (top + 1),
            -1 <= a <= top,
            forall|a2: int, b: int, c: int, d: int|
                a < a2 <= top && b >= 0 && c >= 0 && d >= 0 ==> #[trigger] (a2 * a2) + #[trigger] (b
                    * b) + #[trigger] (c * c) + #[trigger] (d * d) != n,
        decreases a + 1,
    {
        proof {
            lemma_sq_mono(a as int, top as int);
        }
        match three_squares(n - a * a) {
            Some((b, c, d)) => {
                return Some((a, b, c, d));
            },
            None => {},
        }
        a -= 1;
    }
    proof {
        assert forall|a2: int, b: int, c: int, d: int|
            a2 >= 0 && b >= 0 && c >= 0 && d >= 0 implies #[trigger] (a2 * a2) + #[trigger] (b * b)
            + #[trigger] (c * c) + #[trigger] (d * d) != n by {
            if a2 > top {
                lemma_sq_mono(top + 1, a2);
                assert(b * b >= 0 && c * c >= 0 && d * d >= 0) by (nonlinear_arith);
            }
        }
    }
    None
}

// ---------------------------------------------------------------------------
// Conjugation
// ---------------------------------------------------------------------------

/// `σ_{-1}(s)` as coefficients: `s_0, −s_{63}, −s_{62}, …, −s_1`.
pub open spec fn sigma_coeff(s: RingElem, j: int, q: int) -> int {
    if j == 0 {
        s.c[0] as int
    } else {
        (-s.c[D - j]) % q
    }
}

/// Conjugation automorphism `σ_{-1}` on `S = Z_{q'}[X]/(X^64+1)`:
/// `σ_{-1}(a) = a(X^{-1}) = a_0 − a_{63}X − a_{62}X² − ⋯ − a_1 X^{63}`.
pub fn sigma_minus_one(s: &RingElem, m: &Modulus) -> (r: RingElem)
    requires
        m.wf(),
        s.wf(*m),
    ensures
        forall|j: int| 0 <= j < D ==> #[trigger] r.c[j] == sigma_coeff(*s, j, m.q as int),
        r.wf(*m),
{
    let mut r = RingElem::zero();
    r.c[0] = s.c[0];
    for j in 1..D
        invariant
            m.wf(),
            s.wf(*m),
            r.c[0] == s.c[0],
            forall|t: int| 1 <= t < j ==> #[trigger] r.c[t] == sigma_coeff(*s, t, m.q as int),
            forall|t: int| j <= t < D ==> #[trigger] r.c[t] == 0,
    {
        r.c[j] = m.neg(s.c[D - j]);
    }
    r
}

/// `σ_{-1}` is an involution: conjugating the conjugate of a canonical
/// element gives the element back.
pub proof fn law_sigma_minus_one_involution(m: Modulus, s: RingElem, r: RingElem)
    requires
        m.wf(),
        s.wf(m),
        forall|j: int| 0 <= j < D ==> #[trigger] r.c[j] == sigma_coeff(s, j, m.q as int),
    ensures
        forall|j: int| 0 <= j < D ==> #[trigger] sigma_coeff(r, j, m.q as int) == s.c[j],
{
    let q = m.q as int;
    assert forall|j: int| 0 <= j < D implies #[trigger] sigma_coeff(r, j, q) == s.c[j] by {
        if j != 0 {
            let x = s.c[j] as int;
            assert(r.c[D - j] == sigma_coeff(s, D - j, q));
            let y = (-x) % q;
            let k = (-x) / q;
            vstd::arithmetic::div_mod::lemma_fundamental_div_mod(-x, q);
            assert(-x == q * k + y);
            assert(-y == k * q + x) by (nonlinear_arith)
                requires
                    -x == q * k + y,
            ;
            vstd::arithmetic::div_mod::lemma_fundamental_div_mod_converse(-y, q, k, x);
        }
    }
}

/// `sum_sq` reads only the first `n` entries, and only their squares.
proof fn lemma_sum_sq_congruent(a: Seq<int>, b: Seq<int>, n: nat)
    requires
        n <= a.len(),
        n <= b.len(),
        forall|i: int| 0 <= i < n ==> #[trigger] (a[i] * a[i]) == b[i] * b[i],
    ensures
        sum_sq(a, n) == sum_sq(b, n),
    decreases n,
{
    if n > 0 {
        lemma_sum_sq_congruent(a, b, (n - 1) as nat);
        assert(a[n - 1] * a[n - 1] == b[n - 1] * b[n - 1]);
    }
}

/// Peeling the first entry off a sum of squares.
proof fn lemma_sum_sq_front(v: Seq<int>, n: nat)
    requires
        1 <= n <= v.len(),
    ensures
        sum_sq(v, n) == v[0] * v[0] + sum_sq(v.subrange(1, v.len() as int), (n - 1) as nat),
    decreases n,
{
    let t = v.subrange(1, v.len() as int);
    if n > 1 {
        lemma_sum_sq_front(v, (n - 1) as nat);
        assert(t[n - 2] == v[n - 1]);
        assert(sum_sq(t, (n - 1) as nat) == sum_sq(t, (n - 2) as nat) + t[n - 2] * t[n - 2]);
        assert(sum_sq(v, n) == sum_sq(v, (n - 1) as nat) + v[n - 1] * v[n - 1]);
    } else {
        assert(sum_sq(t, 0) == 0);
        assert(sum_sq(v, 0) == 0);
        assert(sum_sq(v, 1) == sum_sq(v, 0) + v[0] * v[0]);
    }
}

/// A sum of squares does not depend on the order of the entries: reversing
/// them keeps it.
proof fn lemma_sum_sq_reverse(u: Seq<int>)
    ensures
        sum_sq(u.reverse(), u.len()) == sum_sq(u, u.len()),
    decreases u.len(),
{
    let n = u.len();
    if n > 0 {
        let t = u.subrange(1, n as int);
        lemma_sum_sq_reverse(t);
        lemma_sum_sq_front(u, n);
        assert forall|i: int| 0 <= i < n - 1 implies #[trigger] (u.reverse()[i] * u.reverse()[i]) == t.reverse()[i]
            * t.reverse()[i] by {
            assert(u.reverse()[i] == t.reverse()[i]);
        }
        lemma_sum_sq_congruent(u.reverse(), t.reverse(), (n - 1) as nat);
        assert(u.reverse()[n - 1] == u[0]);
    }
}

/// Negation mod an odd `q` negates the centered representative.
proof fn lemma_centered_neg(x: int, q: int)
    requires
        q >= 3,
        q % 2 == 1,
        0 <= x < q,
    ensures
        centered_of((-x) % q, q) * centered_of((-x) % q, q) == centered_of(x, q) * centered_of(x, q),
{
    vstd::arithmetic::div_mod::lemma_fundamental_div_mod(q, 2);
    if x == 0 {
        vstd::arithmetic::div_mod::lemma_small_mod(0, q as nat);
    } else {
        vstd::arithmetic::div_mod::lemma_fundamental_div_mod_converse(-x, q, -1, q - x);
        let c = centered_of(x, q);
        assert(centered_of(q - x, q) == -c);
        assert((-c) * (-c) == c * c) by (nonlinear_arith);
    }
}

/// `σ_{-1}` keeps the norm: the conjugate of a canonical element has the
/// same squared centered norm (for odd `q`).
pub proof fn law_sigma_minus_one_norm(m: Modulus, s: RingElem, r: RingElem)
    requires
        m.wf(),
        m.q % 2 == 1,
        s.wf(m),
        forall|j: int| 0 <= j < D ==> #[trigger] r.c[j] == sigma_coeff(s, j, m.q as int),
    ensures
        elem_norm_sq(r, m.q as int) == elem_norm_sq(s, m.q as int),
{
    let q = m.q as int;
    let v = centered_coeffs(s, q);
    let w = centered_coeffs(r, q);
    let u = v.subrange(1, D as int);
    let wt = w.subrange(1, D as int);
    lemma_sum_sq_front(v, D as nat);
    lemma_sum_sq_front(w, D as nat);
    assert(r.c[0] == sigma_coeff(s, 0, q));
    assert forall|i: int| 0 <= i < D - 1 implies #[trigger] (wt[i] * wt[i]) == u.reverse()[i] * u.reverse()[i] by {
        assert(r.c[i + 1] == sigma_coeff(s, i + 1, q));
        assert(u.reverse()[i] == v[D - 1 - i]);
        lemma_centered_neg(s.c[D - 1 - i] as int, q);
    }
    lemma_sum_sq_congruent(wt, u.reverse(), (D - 1) as nat);
    lemma_sum_sq_reverse(u);
}

/// Slot-wise `σ_{-1}`.
fn slot_array_sigma_minus_one(slots: &[RingElem; C], m: &Modulus) -> (out: [RingElem; C])
    requires
        m.wf(),
        slots_wf(*slots, *m),
    ensures
        forall|t: int, j: int|
            0 <= t < C && 0 <= j < D ==> #[trigger] out[t].c[j] == sigma_coeff(slots[t], j, m.q as int),
        slots_wf(out, *m),
{
    let z = RingElem::zero();
    let mut out = [z, z, z, z, z, z, z, z];
    for k in 0..C
        invariant
            m.wf(),
            slots_wf(*slots, *m),
            forall|t: int, j: int|
                0 <= t < k && 0 <= j < D ==> #[trigger] out[t].c[j] == sigma_coeff(slots[t], j, m.q as int),
            forall|t: int| 0 <= t < k ==> #[trigger] out[t].wf(*m),
    {
        out[k] = sigma_minus_one(&slots[k], m);
    }
    out
}


// ---------------------------------------------------------------------------
// Witness layout
// ---------------------------------------------------------------------------

/// The largest signature count a layout is built for; it keeps every index
/// and length computed from it inside `usize`.
pub const MAX_SIGS: usize = 0x1000_0000;

/// `ρ` is `√n` rounded to the nearest integer: `ρ² − ρ < n ≤ ρ² + ρ`.
pub open spec fn is_rounded_sqrt(rho: int, n: int) -> bool {
    rho >= 1 && rho * rho - rho < n <= rho * rho + rho
}

/// Indexing of the padded LaBRADOR witness for `N` Falcon signatures.
///
/// `ρ = round(√N)`, `num_y = ⌈N/ρ⌉`, `num_yp = ρ`, and
/// `r = 3·num_y + 3·num_yp + 1` witness vectors of `S`-rank `8·N`. Each
/// `R`-position `i ∈ [1, N]` lives at `S`-positions `8(i-1)..8i-1`.
#[derive(Clone, Copy, Debug, PartialEq, Eq, Structural)]
pub struct WitnessLayout {
    /// Number of aggregated signatures `N`.
    pub n_sigs: usize,
    /// The √N rounding `ρ`.
    pub rho: usize,
    /// Number of `y_{·,j}` (and `e_·`) vectors per side: `⌈N/ρ⌉`.
    pub num_y: usize,
    /// Number of `y'_{·,j}` (and `e'_·`) vectors per side: `ρ`.
    pub num_yp: usize,
}

impl WitnessLayout {
    /// The layout built for `n_sigs` signatures.
    pub open spec fn wf(&self) -> bool {
        &&& 1 <= self.n_sigs <= MAX_SIGS
        &&& is_rounded_sqrt(self.rho as int, self.n_sigs as int)
        &&& self.num_y == (self.n_sigs + self.rho - 1) / (self.rho as int)
        &&& self.num_yp == self.rho
    }

    /// Spec form of [`WitnessLayout::r`].
    pub open spec fn r_spec(&self) -> int {
        3 * self.num_y + 3 * self.num_yp + 1
    }

    /// Spec form of [`WitnessLayout::index`].
    pub open spec fn index_spec(&self, i: int) -> int {
        (i + self.rho - 1) / (self.rho as int)
    }

    /// Spec form of [`WitnessLayout::index_prime`].
    pub open spec fn index_prime_spec(&self, i: int) -> int {
        ((i - 1) % (self.rho as int)) + 1
    }

    /// Spec form of [`WitnessLayout::y_idx`].
    pub open spec fn y_spec(&self, i_y: int, j: int) -> int {
        (j - 1) * self.num_y + (i_y - 1)
    }

    /// Spec form of [`WitnessLayout::yp_idx`].
    pub open spec fn yp_spec(&self, i_yp: int, j: int) -> int {
        2 * self.num_y + (j - 1) * self.num_yp + (i_yp - 1)
    }

    /// Spec form of [`WitnessLayout::e_idx`].
    pub open spec fn e_spec(&self, i_y: int) -> int {
        2 * self.num_y + 2 * self.num_yp + (i_y - 1)
    }

    /// Spec form of [`WitnessLayout::ep_idx`].
    pub open spec fn ep_spec(&self, i_yp: int) -> int {
        3 * self.num_y + 2 * self.num_yp + (i_yp - 1)
    }

    /// Spec form of [`WitnessLayout::v_idx`].
    pub open spec fn v_spec(&self) -> int {
        3 * self.num_y + 3 * self.num_yp
    }

    /// Build the layout for `N` signatures (`N ≥ 1`).
    pub fn new(n_sigs: usize) -> (l: Self)
        requires
            1 <= n_sigs <= MAX_SIGS,
        ensures
            l.wf(),
            l.n_sigs == n_sigs,
    {
        let si = isqrt(n_sigs as i64);
        proof {
            if si > 0x4000 {
                lemma_sq_mono(0x4001, si as int);
            }
        }
        let s = si as usize;
        assert(s == si);
        // round(√n) = s when n ≤ s² + s, else s + 1.
        let rho = if n_sigs <= s * s + s {
            s
        } else {
            s + 1
        };
        proof {
            assert(s * s <= n_sigs < (s + 1) * (s + 1));
            assert((s + 1) * (s + 1) == s * s + 2 * s + 1) by (nonlinear_arith);
            assert((s + 1) * (s + 1) - (s + 1) == s * s + s) by (nonlinear_arith);
            assert((s + 1) * (s + 1) + (s + 1) == s * s + 3 * s + 2) by (nonlinear_arith);
            if s == 0 {
                assert(s * s + s == 0) by (nonlinear_arith)
                    requires
                        s == 0,
                ;
            }
            assert(s * s - s <= s * s);
            assert(rho >= 1);
        }
        let num_y = (n_sigs + rho - 1) / rho;
        WitnessLayout { n_sigs, rho, num_y, num_yp: rho }
    }

    /// Distinct `(i_y, j)` name distinct `y` vectors.
    pub proof fn lemma_y_spec_injective(&self, iy1: int, j1: int, iy2: int, j2: int)
        requires
            1 <= iy1 <= self.num_y,
            1 <= iy2 <= self.num_y,
            j1 == 1 || j1 == 2,
            j2 == 1 || j2 == 2,
        ensures
            (iy1, j1) != (iy2, j2) ==> self.y_spec(iy1, j1) != self.y_spec(iy2, j2),
    {
        let ny = self.num_y as int;
        assert((j1 - 1) * ny == if j1 == 1 { 0 } else { ny }) by (nonlinear_arith)
            requires
                j1 == 1 || j1 == 2,
        ;
        assert((j2 - 1) * ny == if j2 == 1 { 0 } else { ny }) by (nonlinear_arith)
            requires
                j2 == 1 || j2 == 2,
        ;
    }

    /// A layout keeps its counts small: `ρ ≤ N` and `⌈N/ρ⌉ ≤ N`.
    pub proof fn lemma_counts(&self)
        requires
            self.wf(),
        ensures
            1 <= self.rho <= self.n_sigs,
            1 <= self.num_y <= self.n_sigs,
            self.num_y * self.rho >= self.n_sigs,
            (self.num_y - 1) * self.rho < self.n_sigs,
    {
        let n = self.n_sigs as int;
        let rho = self.rho as int;
        assert(rho <= n) by (nonlinear_arith)
            requires
                rho >= 1,
                rho * rho - rho < n,
        ;
        vstd::arithmetic::div_mod::lemma_fundamental_div_mod(n + rho - 1, rho);
        let k = (n + rho - 1) / rho;
        let rem = (n + rho - 1) % rho;
        assert(k * rho >= n);
        assert((k - 1) * rho < n) by (nonlinear_arith)
            requires
                k * rho + rem == n + rho - 1,
                0 <= rem < rho,
        ;
        assert(k >= 1) by (nonlinear_arith)
            requires
                k * rho >= n,
                n >= 1,
                rho >= 1,
        ;
        assert(k - 1 <= (k - 1) * rho) by (nonlinear_arith)
            requires
                k >= 1,
                rho >= 1,
        ;
    }

    /// Number of witness vectors: `r = 3⌈N/ρ⌉ + 3ρ + 1`.
    pub fn r(&self) -> (r: usize)
        requires
            self.wf(),
        ensures
            r == self.r_spec(),
    {
        proof {
            self.lemma_counts();
        }
        3 * self.num_y + 3 * self.num_yp + 1
    }

    /// Length of each witness vector, in `S`: `8·N`.
    pub fn n_s(&self) -> (n: usize)
        requires
            self.wf(),
        ensures
            n == C * self.n_sigs,
    {
        C * self.n_sigs
    }

    /// `index(i) = ⌈i/ρ⌉` (1-indexed).
    pub fn index(&self, i: usize) -> (k: usize)
        requires
            self.wf(),
            1 <= i <= self.n_sigs,
        ensures
            k == self.index_spec(i as int),
            1 <= k <= self.num_y,
    {
        proof {
            self.lemma_counts();
            let rho = self.rho as int;
            vstd::arithmetic::div_mod::lemma_div_is_ordered(i + rho - 1, self.n_sigs + rho - 1, rho);
            vstd::arithmetic::div_mod::lemma_div_is_ordered(rho, i + rho - 1, rho);
            vstd::arithmetic::div_mod::lemma_div_by_self(rho);
        }
        (i + self.rho - 1) / self.rho
    }

    /// `index'(i) = ((i-1) mod ρ) + 1` (1-indexed).
    pub fn index_prime(&self, i: usize) -> (k: usize)
        requires
            self.wf(),
            1 <= i <= self.n_sigs,
        ensures
            k == self.index_prime_spec(i as int),
            1 <= k <= self.num_yp,
    {
        ((i - 1) % self.rho) + 1
    }

    /// 0-indexed slot for `y_{i_y, j}` with `j ∈ {1, 2}` and `i_y ∈ [1, num_y]`.
    pub fn y_idx(&self, i_y: usize, j: usize) -> (k: usize)
        requires
            self.wf(),
            j == 1 || j == 2,
            1 <= i_y <= self.num_y,
        ensures
            k == self.y_spec(i_y as int, j as int),
    {
        proof {
            self.lemma_counts();
            assert((j - 1) * self.num_y <= self.num_y) by (nonlinear_arith)
                requires
                    j == 1 || j == 2,
                    self.num_y >= 0,
            ;
        }
        (j - 1) * self.num_y + (i_y - 1)
    }

    /// 0-indexed slot for `y'_{i_yp, j}` with `j ∈ {1, 2}` and `i_yp ∈ [1, num_yp]`.
    pub fn yp_idx(&self, i_yp: usize, j: usize) -> (k: usize)
        requires
            self.wf(),
            j == 1 || j == 2,
            1 <= i_yp <= self.num_yp,
        ensures
            k == self.yp_spec(i_yp as int, j as int),
    {
        proof {
            self.lemma_counts();
            assert((j - 1) * self.num_yp <= self.num_yp) by (nonlinear_arith)
                requires
                    j == 1 || j == 2,
                    self.num_yp >= 0,
            ;
        }
        2 * self.num_y + (j - 1) * self.num_yp + (i_yp - 1)
    }

    /// 0-indexed slot for `e_{i_y}`.
    pub fn e_idx(&self, i_y: usize) -> (k: usize)
        requires
            self.wf(),
            1 <= i_y <= self.num_y,
        ensures
            k == self.e_spec(i_y as int),
    {
        proof {
            self.lemma_counts();
        }
        2 * self.num_y + 2 * self.num_yp + (i_y - 1)
    }

    /// 0-indexed slot for `e'_{i_yp}`.
    pub fn ep_idx(&self, i_yp: usize) -> (k: usize)
        requires
            self.wf(),
            1 <= i_yp <= self.num_yp,
        ensures
            k == self.ep_spec(i_yp as int),
    {
        proof {
            self.lemma_counts();
        }
        3 * self.num_y + 2 * self.num_yp + (i_yp - 1)
    }

    /// 0-indexed slot for the single `v` vector.
    pub fn v_idx(&self) -> (k: usize)
        requires
            self.wf(),
        ensures
            k == self.v_spec(),
    {
        proof {
            self.lemma_counts();
        }
        3 * self.num_y + 3 * self.num_yp
    }
}


// ---------------------------------------------------------------------------
// The honest witness
// ---------------------------------------------------------------------------

/// Slot `t`, coefficient `j` of the subring embedding of the centered
/// coefficients of `f`, reduced mod `q`.
pub open spec fn emb_fp(f: FPoly, t: int, j: int, q: int) -> int {
    centered_of(f.c[8 * j + t] as int, FALCON_Q as int) % q
}

/// Coefficient `j` of `σ_{-1}` applied to slot `t` of the embedding of `f`.
pub open spec fn emb_sigma(f: FPoly, t: int, j: int, q: int) -> int {
    if j == 0 {
        emb_fp(f, t, 0, q)
    } else {
        (-emb_fp(f, t, D - j, q)) % q
    }
}

/// Slot `t`, coefficient `j` of the embedding of `ε = e_0 + e_1 X + e_2 X² + e_3 X³`.
pub open spec fn eps_coef(e: Seq<int>, t: int, j: int, q: int) -> int {
    if j == 0 && t < 4 {
        e[t] % q
    } else {
        0
    }
}

/// Coefficient `j` of `σ_{-1}` applied to slot `t` of the embedding of `ε`.
pub open spec fn eps_sigma(e: Seq<int>, t: int, j: int, q: int) -> int {
    if j == 0 {
        eps_coef(e, t, 0, q)
    } else {
        (-eps_coef(e, t, D - j, q)) % q
    }
}

/// The lifting quotient `v = (c − s1 − h·s2) / q`, coefficient `i`.
pub open spec fn lift_v(sig: FalconSig, i: int) -> int {
    (fpoly_centered(sig.c)[i] - fpoly_centered(sig.s1)[i] - negacyclic_coeff(
        fpoly_centered(sig.h),
        fpoly_centered(sig.s2),
        i,
    )) / (FALCON_Q as int)
}

/// `β² − ‖s1‖² − ‖s2‖²` for one signature.
pub open spec fn norm_slack(sig: FalconSig) -> int {
    FALCON_BETA_SQ - sum_sq(fpoly_centered(sig.s1), FALCON_N as nat) - sum_sq(
        fpoly_centered(sig.s2),
        FALCON_N as nat,
    )
}

/// A decoded signature the relation can encode: reduced polynomials, the
/// lifted verification equation, and the norm bound.
pub open spec fn sig_encodable(sig: FalconSig) -> bool {
    &&& sig.h.wf()
    &&& sig.c.wf()
    &&& sig.s1.wf()
    &&& sig.s2.wf()
    &&& lift_divisible(sig.s1, sig.s2, sig.h, sig.c)
    &&& norm_slack(sig) >= 0
}

/// `e` is a four-square decomposition of `n`.
pub open spec fn is_four_squares(e: Seq<int>, n: int) -> bool {
    &&& e.len() == 4
    &&& forall|t: int| 0 <= t < 4 ==> #[trigger] e[t] >= 0
    &&& e[0] * e[0] + e[1] * e[1] + e[2] * e[2] + e[3] * e[3] == n
}

/// Coefficient `j` of slot `t` of vector `vi` within the block of one
/// signature `sig` with four-square decomposition `e`, whose `y`/`e` vectors
/// have index `iy` and whose `y'`/`e'` vectors have index `iyp`.
pub open spec fn block_value(
    l: WitnessLayout,
    sig: FalconSig,
    e: Seq<int>,
    vi: int,
    t: int,
    j: int,
    q: int,
    iy: int,
    iyp: int,
) -> int {
    if vi == l.y_spec(iy, 1) {
        emb_fp(sig.s1, t, j, q)
    } else if vi == l.y_spec(iy, 2) {
        emb_fp(sig.s2, t, j, q)
    } else if vi == l.yp_spec(iyp, 1) {
        emb_sigma(sig.s1, t, j, q)
    } else if vi == l.yp_spec(iyp, 2) {
        emb_sigma(sig.s2, t, j, q)
    } else if vi == l.e_spec(iy) {
        eps_coef(e, t, j, q)
    } else if vi == l.ep_spec(iyp) {
        eps_sigma(e, t, j, q)
    } else if vi == l.v_spec() {
        lift_v(sig, 8 * j + t) % q
    } else {
        0
    }
}

/// Coefficient `j` of the honest witness at vector `vi`, `S`-position `p`,
/// given the four-square decompositions `eps` of each signature's slack:
/// position `p` belongs to signature `p / 8`, slot `p % 8`.
pub open spec fn honest_value(
    l: WitnessLayout,
    sigs: Seq<FalconSig>,
    eps: Seq<Seq<int>>,
    vi: int,
    p: int,
    j: int,
    q: int,
) -> int {
    let s = p / 8;
    block_value(
        l,
        sigs[s],
        eps[s],
        vi,
        p % 8,
        j,
        q,
        l.index_spec(s + 1),
        l.index_prime_spec(s + 1),
    )
}

/// `row` with positions `pos..pos+8` replaced by `src`.
pub open spec fn splice8(row: Seq<RingElem>, pos: int, src: [RingElem; C]) -> Seq<RingElem> {
    Seq::new(row.len(), |p: int| if pos <= p < pos + 8 { src[p - pos] } else { row[p] })
}

/// Copy the eight slots of `src` into vector `idx` at positions `pos..pos+8`.
fn place_slots(w: &mut Vec<Vec<RingElem>>, idx: usize, pos: usize, src: &[RingElem; C])
    requires
        idx < old(w)@.len(),
        pos + 8 <= old(w)@[idx as int]@.len(),
    ensures
        final(w)@.len() == old(w)@.len(),
        forall|v: int|
            0 <= v < old(w)@.len() ==> (#[trigger] final(w)@[v])@.len() == old(w)@[v]@.len(),
        forall|v: int, p: int|
            0 <= v < old(w)@.len() && 0 <= p < old(w)@[v]@.len() ==> #[trigger] final(w)@[v]@[p] == (
            if v == idx && pos <= p < pos + 8 {
                src[p - pos]
            } else {
                old(w)@[v]@[p]
            }),
{
    let ghost row0 = w@[idx as int]@;
    let row = &mut w[idx];
    for k in 0..C
        invariant
            pos + 8 <= row0.len(),
            row@.len() == row0.len(),
            pos + 8 <= row.len(),
            forall|p: int|
                0 <= p < row0.len() ==> #[trigger] row@[p] == (if pos <= p < pos + k {
                    src[p - pos]
                } else {
                    row0[p]
                }),
    {
        row[pos + k] = src[k];
    }
}


/// Slot `t`, coefficient `j` is source coefficient `8j + t`.
proof fn lemma_slot_index(t: int, j: int)
    requires
        0 <= t < 8,
        0 <= j < 64,
    ensures
        (8 * j + t) % 8 == t,
        (8 * j + t) / 8 == j,
        0 <= 8 * j + t < 512,
{
    vstd::arithmetic::div_mod::lemma_fundamental_div_mod_converse(8 * j + t, 8, j, t);
}

/// One entry of a freshly placed signature block holds the honest value.
#[verifier::spinoff_prover]
proof fn lemma_block_entry(
    l: WitnessLayout,
    sig: FalconSig,
    e: Seq<int>,
    vi: int,
    t: int,
    j: int,
    q: int,
    iy: int,
    iyp: int,
    x: RingElem,
    s1_slots: [RingElem; C],
    s2_slots: [RingElem; C],
    s1p_slots: [RingElem; C],
    s2p_slots: [RingElem; C],
    e_slots: [RingElem; C],
    ep_slots: [RingElem; C],
    v_slots: [RingElem; C],
    v_signed: [i64; FALCON_N],
    epsv: [i64; FALCON_N],
    zero: RingElem,
)
    requires
        l.wf(),
        1 <= iy <= l.num_y,
        1 <= iyp <= l.num_yp,
        0 <= t < 8,
        0 <= j < D,
        q >= 3,
        sig_encodable(sig),
        e.len() == 4,
        forall|k: int| 0 <= k < 4 ==> #[trigger] e[k] == epsv[k],
        forall|k: int| 4 <= k < FALCON_N ==> #[trigger] epsv[k] == 0,
        forall|k: int| 0 <= k < D ==> #[trigger] zero.c[k] == 0,
        x == (if vi == l.y_spec(iy, 1) {
            s1_slots[t]
        } else if vi == l.y_spec(iy, 2) {
            s2_slots[t]
        } else if vi == l.yp_spec(iyp, 1) {
            s1p_slots[t]
        } else if vi == l.yp_spec(iyp, 2) {
            s2p_slots[t]
        } else if vi == l.e_spec(iy) {
            e_slots[t]
        } else if vi == l.ep_spec(iyp) {
            ep_slots[t]
        } else if vi == l.v_spec() {
            v_slots[t]
        } else {
            zero
        }),
        forall|i: int|
            0 <= i < FALCON_N ==> (#[trigger] s1_slots[i % 8]).c[i / 8] == centered_of(
                sig.s1.c[i] as int,
                FALCON_Q as int,
            ) % q,
        forall|i: int|
            0 <= i < FALCON_N ==> (#[trigger] s2_slots[i % 8]).c[i / 8] == centered_of(
                sig.s2.c[i] as int,
                FALCON_Q as int,
            ) % q,
        forall|i: int| 0 <= i < FALCON_N ==> (#[trigger] e_slots[i % 8]).c[i / 8] == (epsv[i] as int) % q,
        forall|i: int| 0 <= i < FALCON_N ==> (#[trigger] v_slots[i % 8]).c[i / 8] == (v_signed[i] as int) % q,
        forall|a: int, b: int|
            0 <= a < C && 0 <= b < D ==> #[trigger] s1p_slots[a].c[b] == sigma_coeff(s1_slots[a], b, q),
        forall|a: int, b: int|
            0 <= a < C && 0 <= b < D ==> #[trigger] s2p_slots[a].c[b] == sigma_coeff(s2_slots[a], b, q),
        forall|a: int, b: int|
            0 <= a < C && 0 <= b < D ==> #[trigger] ep_slots[a].c[b] == sigma_coeff(e_slots[a], b, q),
        forall|i: int|
            0 <= i < FALCON_N ==> fpoly_centered(sig.s1)[i] + negacyclic_coeff(
                fpoly_centered(sig.h),
                fpoly_centered(sig.s2),
                i,
            ) + (FALCON_Q as int) * (#[trigger] v_signed[i]) - fpoly_centered(sig.c)[i] == 0,
    ensures
        x.c[j] == block_value(l, sig, e, vi, t, j, q, iy, iyp),
{
    assert(l.y_spec(iy, 1) == iy - 1 && l.y_spec(iy, 2) == l.num_y + iy - 1) by (nonlinear_arith)
        requires
            l.y_spec(iy, 1) == (1 - 1) * l.num_y + (iy - 1),
            l.y_spec(iy, 2) == (2 - 1) * l.num_y + (iy - 1),
    ;
    assert(l.yp_spec(iyp, 1) == 2 * l.num_y + iyp - 1 && l.yp_spec(iyp, 2) == 2 * l.num_y + l.num_yp
        + iyp - 1) by (nonlinear_arith)
        requires
            l.yp_spec(iyp, 1) == 2 * l.num_y + (1 - 1) * l.num_yp + (iyp - 1),
            l.yp_spec(iyp, 2) == 2 * l.num_y + (2 - 1) * l.num_yp + (iyp - 1),
    ;
    lemma_slot_index(t, j);
    lemma_slot_index(t, 0);
    let i = 8 * j + t;
    assert(s1_slots[i % 8].c[i / 8] == centered_of(sig.s1.c[i] as int, FALCON_Q as int) % q);
    assert(s2_slots[i % 8].c[i / 8] == centered_of(sig.s2.c[i] as int, FALCON_Q as int) % q);
    assert(e_slots[i % 8].c[i / 8] == (epsv[i] as int) % q);
    assert(v_slots[i % 8].c[i / 8] == (v_signed[i] as int) % q);
    assert(s1_slots[t % 8].c[t / 8] == centered_of(sig.s1.c[t] as int, FALCON_Q as int) % q);
    assert(s2_slots[t % 8].c[t / 8] == centered_of(sig.s2.c[t] as int, FALCON_Q as int) % q);
    assert(e_slots[t % 8].c[t / 8] == (epsv[t] as int) % q);
    if j > 0 {
        lemma_slot_index(t, D - j);
        let i2 = 8 * (D - j) + t;
        assert(s1_slots[i2 % 8].c[i2 / 8] == centered_of(sig.s1.c[i2] as int, FALCON_Q as int) % q);
        assert(s2_slots[i2 % 8].c[i2 / 8] == centered_of(sig.s2.c[i2] as int, FALCON_Q as int) % q);
        assert(e_slots[i2 % 8].c[i2 / 8] == (epsv[i2] as int) % q);
        if t < 4 {
            assert(epsv[i2] == 0);
        }
    }
    if i >= 4 {
        assert(epsv[i] == 0);
    }
    // v = (c − s1 − h·s2) / q exactly.
    let diff = fpoly_centered(sig.c)[i] - fpoly_centered(sig.s1)[i] - negacyclic_coeff(
        fpoly_centered(sig.h),
        fpoly_centered(sig.s2),
        i,
    );
    assert(diff == (FALCON_Q as int) * v_signed[i]);
    vstd::arithmetic::div_mod::lemma_div_multiples_vanish(v_signed[i] as int, FALCON_Q as int);
    assert(lift_v(sig, i) == v_signed[i]);
    if vi == l.y_spec(iy, 1) {
        assert(x.c[j] == emb_fp(sig.s1, t, j, q));
    } else if vi == l.y_spec(iy, 2) {
        assert(x.c[j] == emb_fp(sig.s2, t, j, q));
    } else if vi == l.yp_spec(iyp, 1) {
        assert(x.c[j] == emb_sigma(sig.s1, t, j, q));
    } else if vi == l.yp_spec(iyp, 2) {
        assert(x.c[j] == emb_sigma(sig.s2, t, j, q));
    } else if vi == l.e_spec(iy) {
        assert(x.c[j] == eps_coef(e, t, j, q));
    } else if vi == l.ep_spec(iyp) {
        assert(x.c[j] == eps_sigma(e, t, j, q));
    } else if vi == l.v_spec() {
        assert(x.c[j] == lift_v(sig, 8 * j + t) % q);
    } else {
        assert(x.c[j] == 0);
    }
}

/// A vector of `n` zero elements.
fn zero_row(n: usize) -> (row: Vec<RingElem>)
    ensures
        row@.len() == n,
        forall|p: int, j: int| 0 <= p < n && 0 <= j < D ==> #[trigger] row@[p].c[j] == 0,
{
    let mut row: Vec<RingElem> = Vec::new();
    for p in 0..n
        invariant
            row@.len() == p,
            forall|q: int, j: int| 0 <= q < p && 0 <= j < D ==> #[trigger] row@[q].c[j] == 0,
    {
        row.push(RingElem::zero());
    }
    row
}

/// Assemble the honest LaBRADOR witness from `N` decoded Falcon-512 signatures.
///
/// Signature `i` (1-indexed) places its `(s1, s2, s1', s2', ε, ε', v)` content at
/// `S`-positions `8(i-1)..8i-1` of the vectors selected by [`WitnessLayout`];
/// primed elements are the slot-wise conjugates `σ_{-1}`. Every other entry
/// is zero. `None` only if some slack `β² − ‖s1‖² − ‖s2‖²` is no sum of four
/// squares.
pub fn build_honest_witness(sigs: &[FalconSig], ring: &Ring) -> (res: Option<(Witness, WitnessLayout)>)
    requires
        ring.wf(),
        1 <= sigs@.len() <= MAX_SIGS,
        forall|s: int| 0 <= s < sigs@.len() ==> sig_encodable(#[trigger] sigs@[s]),
    ensures
        match res {
            Some((w, l)) => {
                &&& l.wf()
                &&& l.n_sigs == sigs@.len()
                &&& w.w@.len() == l.r_spec()
                &&& forall|vi: int|
                    0 <= vi < l.r_spec() ==> (#[trigger] w.w@[vi])@.len() == C * sigs@.len()
                        && elems_wf(w.w@[vi]@, ring.m)
                &&& exists|eps: Seq<Seq<int>>|
                    #![trigger eps.len()]
                    {
                        &&& eps.len() == sigs@.len()
                        &&& forall|s: int|
                            0 <= s < sigs@.len() ==> is_four_squares(
                                #[trigger] eps[s],
                                norm_slack(sigs@[s]),
                            )
                        &&& forall|vi: int, p: int, j: int|
                            0 <= vi < l.r_spec() && 0 <= p < C * sigs@.len() && 0 <= j < D
                                ==> (#[trigger] w.w@[vi]@[p].c[j]) == honest_value(
                                l,
                                sigs@,
                                eps,
                                vi,
                                p,
                                j,
                                ring.m.q as int,
                            )
                    }
            },
            None => exists|s: int|
                0 <= s < sigs@.len() && forall|a: int, b: int, c: int, d: int|
                    a >= 0 && b >= 0 && c >= 0 && d >= 0 ==> #[trigger] (a * a) + #[trigger] (b * b)
                        + #[trigger] (c * c) + #[trigger] (d * d) != norm_slack(#[trigger] sigs@[s]),
        },
{
    let layout = WitnessLayout::new(sigs.len());
    let m = &ring.m;
    let r = layout.r();
    let n_s = layout.n_s();
    proof {
        layout.lemma_counts();
    }
    let mut w: Vec<Vec<RingElem>> = Vec::new();
    for vi in 0..r
        invariant
            w@.len() == vi,
            forall|v: int| 0 <= v < vi ==> (#[trigger] w@[v])@.len() == n_s,
            forall|v: int, p: int, j: int|
                0 <= v < vi && 0 <= p < n_s && 0 <= j < D ==> #[trigger] w@[v]@[p].c[j] == 0,
    {
        w.push(zero_row(n_s));
    }
    let ghost q = ring.m.q as int;
    let ghost mut eps: Seq<Seq<int>> = Seq::empty();
    for si in 0..sigs.len()
        invariant
            ring.wf(),
            m == &ring.m,
            q == ring.m.q,
            layout.wf(),
            layout.n_sigs == sigs@.len(),
            r == layout.r_spec(),
            n_s == C * sigs@.len(),
            1 <= layout.rho <= layout.n_sigs,
            1 <= layout.num_y <= layout.n_sigs,
            forall|s: int| 0 <= s < sigs@.len() ==> sig_encodable(#[trigger] sigs@[s]),
            w@.len() == r,
            eps.len() == si,
            forall|s: int| 0 <= s < si ==> is_four_squares(#[trigger] eps[s], norm_slack(sigs@[s])),
            forall|v: int| 0 <= v < r ==> (#[trigger] w@[v])@.len() == n_s,
            forall|v: int, p: int, j: int|
                0 <= v < r && 0 <= p < n_s && 0 <= j < D ==> #[trigger] w@[v]@[p].c[j] == (if p / 8
                    < si {
                    honest_value(layout, sigs@, eps, v, p, j, q)
                } else {
                    0
                }),
    {
        let sig = &sigs[si];
        assert(sig_encodable(sigs@[si as int]));
        let i = si + 1;
        let i_y = layout.index(i);
        let i_yp = layout.index_prime(i);
        let pos = C * si;

        let s1_slots = embed_fpoly_centered(&sig.s1, m);
        let s2_slots = embed_fpoly_centered(&sig.s2, m);
        let s1p_slots = slot_array_sigma_minus_one(&s1_slots, m);
        let s2p_slots = slot_array_sigma_minus_one(&s2_slots, m);

        let v_signed = compute_v_signed(&sig.s1, &sig.s2, &sig.h, &sig.c);
        let v_slots = embed_signed(&v_signed, m);

        let n1 = sig.s1.norm_sq();
        let n2 = sig.s2.norm_sq();
        let remainder = FALCON_BETA_SQ - n1 - n2;
        let (e0, e1, e2, e3) = match four_square(remainder) {
            Some(x) => x,
            None => {
                return None;
            },
        };
        let mut epsv = [0i64; FALCON_N];
        epsv[0] = e0;
        epsv[1] = e1;
        epsv[2] = e2;
        epsv[3] = e3;
        let e_slots = embed_signed(&epsv, m);
        let ep_slots = slot_array_sigma_minus_one(&e_slots, m);
        let ghost e_seq = seq![e0 as int, e1 as int, e2 as int, e3 as int];

        let y1 = layout.y_idx(i_y, 1);
        let y2 = layout.y_idx(i_y, 2);
        let yp1 = layout.yp_idx(i_yp, 1);
        let yp2 = layout.yp_idx(i_yp, 2);
        let ei = layout.e_idx(i_y);
        let epi = layout.ep_idx(i_yp);
        let vv = layout.v_idx();
        assert(y1 == i_y - 1 && y2 == layout.num_y + i_y - 1) by (nonlinear_arith)
            requires
                y1 == (1 - 1) * layout.num_y + (i_y - 1),
                y2 == (2 - 1) * layout.num_y + (i_y - 1),
        ;
        let ghost w0 = w@;
        place_slots(&mut w, y1, pos, &s1_slots);
        let ghost w1 = w@;
        place_slots(&mut w, y2, pos, &s2_slots);
        let ghost w2 = w@;
        place_slots(&mut w, yp1, pos, &s1p_slots);
        let ghost w3 = w@;
        place_slots(&mut w, yp2, pos, &s2p_slots);
        let ghost w4 = w@;
        place_slots(&mut w, ei, pos, &e_slots);
        let ghost w5 = w@;
        place_slots(&mut w, epi, pos, &ep_slots);
        let ghost w6 = w@;
        place_slots(&mut w, vv, pos, &v_slots);
        proof {
            let eps2 = eps.push(e_seq);
            let wv = w@;
            assert(e_seq =~= eps2[si as int]);
            assert forall|s: int| 0 <= s < si + 1 implies is_four_squares(
                #[trigger] eps2[s],
                norm_slack(sigs@[s]),
            ) by {
                if s < si {
                    assert(eps2[s] == eps[s]);
                }
            }
            assert forall|v: int| 0 <= v < r implies (#[trigger] w@[v])@.len() == n_s by {
                assert(w1[v]@.len() == n_s && w2[v]@.len() == n_s && w3[v]@.len() == n_s);
                assert(w4[v]@.len() == n_s && w5[v]@.len() == n_s && w6[v]@.len() == n_s);
            }
            assert(epsv[0] == e0 && epsv[1] == e1 && epsv[2] == e2 && epsv[3] == e3);
            assert forall|k: int| 4 <= k < FALCON_N implies #[trigger] epsv[k] == 0 by {}
            assert forall|v: int, p: int, j: int|
                0 <= v < r && 0 <= p < n_s && 0 <= j < D implies #[trigger] w@[v]@[p].c[j] == (if p
                / 8 < si + 1 {
                honest_value(layout, sigs@, eps2, v, p, j, q)
            } else {
                0
            }) by {
                assert(w1[v]@.len() == n_s && w2[v]@.len() == n_s && w3[v]@.len() == n_s);
                assert(w4[v]@.len() == n_s && w5[v]@.len() == n_s && w6[v]@.len() == n_s);
                assert(w1[v]@[p] == (if v == y1 && pos <= p < pos + 8 { s1_slots[p - pos] } else { w0[v]@[p] }));
                assert(w2[v]@[p] == (if v == y2 && pos <= p < pos + 8 { s2_slots[p - pos] } else { w1[v]@[p] }));
                assert(w3[v]@[p] == (if v == yp1 && pos <= p < pos + 8 { s1p_slots[p - pos] } else { w2[v]@[p] }));
                assert(w4[v]@[p] == (if v == yp2 && pos <= p < pos + 8 { s2p_slots[p - pos] } else { w3[v]@[p] }));
                assert(w5[v]@[p] == (if v == ei && pos <= p < pos + 8 { e_slots[p - pos] } else { w4[v]@[p] }));
                assert(w6[v]@[p] == (if v == epi && pos <= p < pos + 8 { ep_slots[p - pos] } else { w5[v]@[p] }));
                assert(wv[v]@[p] == (if v == vv && pos <= p < pos + 8 { v_slots[p - pos] } else { w6[v]@[p] }));
                if p < pos || p >= pos + 8 {
                    assert(wv[v]@[p] == w0[v]@[p]);
                    if p < pos {
                        vstd::arithmetic::div_mod::lemma_div_is_ordered(p, pos as int - 1, 8);
                        vstd::arithmetic::div_mod::lemma_fundamental_div_mod_converse(
                            pos as int - 1,
                            8,
                            si as int - 1,
                            7,
                        );
                        assert(eps2[p / 8] == eps[p / 8]);
                    } else {
                        vstd::arithmetic::div_mod::lemma_div_is_ordered(pos as int + 8, p, 8);
                        vstd::arithmetic::div_mod::lemma_fundamental_div_mod_converse(
                            pos as int + 8,
                            8,
                            si as int + 1,
                            0,
                        );
                    }
                } else {
                    let t = p - pos;
                    vstd::arithmetic::div_mod::lemma_fundamental_div_mod_converse(p, 8, si as int, t);
                    lemma_slot_index(t, j);
                    lemma_slot_index(t, 0);
                    if j > 0 {
                        lemma_slot_index(t, D - j);
                    }
                    assert(sigs@[si as int] == *sig);
                    assert(eps2[si as int] == e_seq);
                    lemma_block_entry(
                        layout,
                        *sig,
                        e_seq,
                        v,
                        t,
                        j,
                        q,
                        i_y as int,
                        i_yp as int,
                        wv[v]@[p],
                        s1_slots,
                        s2_slots,
                        s1p_slots,
                        s2p_slots,
                        e_slots,
                        ep_slots,
                        v_slots,
                        v_signed,
                        epsv,
                        w0[v]@[p],
                    );
                }
            }
            eps = eps2;
        }
    }
    let witness = Witness { w };
    Some((witness, layout))
}


// ---------------------------------------------------------------------------
// Constraint shapes
// ---------------------------------------------------------------------------

/// The constant polynomial `1`.
pub open spec fn one_poly(q: int) -> Seq<int> {
    Seq::new(D as nat, |k: int| if k == 0 { 1int % q } else { 0int })
}

/// The constant polynomial `a`.
pub open spec fn const_poly(a: int, q: int) -> Seq<int> {
    Seq::new(D as nat, |k: int| if k == 0 { a % q } else { 0 })
}

/// `σ_{-1}(Y^l)`: the sparse entry whose product with `a` has constant
/// term `a.c[l]` (`1` for `l = 0`, `−Y^{64−l}` otherwise).
pub open spec fn coef_extract(l: int, q: int) -> Seq<int> {
    Seq::new(
        D as nat,
        |k: int|
            if l == 0 {
                if k == 0 {
                    1int % q
                } else {
                    0
                }
            } else if k == D - l {
                q - 1
            } else {
                0
            },
    )
}

/// A full constraint asserting `w_idx[p] = 0 ∈ S`.
pub open spec fn is_zero_full(c: DotConstraint, idx: int, p: int, q: int) -> bool {
    &&& c.a@.len() == 0
    &&& c.phi@.len() == 1
    &&& c.phi@[0].0 == idx
    &&& c.phi@[0].1@.len() == 1
    &&& c.phi@[0].1@[0].0 == p
    &&& elem(c.phi@[0].1@[0].1) == one_poly(q)
    &&& elem(c.b) == zero_poly()
}

/// A constant-term constraint asserting coefficient `l` of `w_idx[p]` is 0.
pub open spec fn is_coef_zero(c: ConstTermConstraint, idx: int, p: int, l: int, q: int) -> bool {
    &&& c.a@.len() == 0
    &&& c.phi@.len() == 1
    &&& c.phi@[0].0 == idx
    &&& c.phi@[0].1@.len() == 1
    &&& c.phi@[0].1@[0].0 == p
    &&& elem(c.phi@[0].1@[0].1) == coef_extract(l, q)
    &&& c.b0 == 0
}

/// A constant-term constraint asserting coefficient `l` of `w_conj[p]`
/// equals coefficient `l` of `σ_{-1}(w_src[p])`.
pub open spec fn is_sigma_eq(
    c: ConstTermConstraint,
    conj: int,
    src: int,
    p: int,
    l: int,
    q: int,
) -> bool {
    &&& c.a@.len() == 0
    &&& c.phi@.len() == 2
    &&& c.phi@[0].0 == conj
    &&& c.phi@[0].1@.len() == 1
    &&& c.phi@[0].1@[0].0 == p
    &&& elem(c.phi@[0].1@[0].1) == coef_extract(l, q)
    &&& c.phi@[1].0 == src
    &&& c.phi@[1].1@.len() == 1
    &&& c.phi@[1].1@[0].0 == p
    &&& elem(c.phi@[1].1@[0].1) == (if l == 0 {
        const_poly(q - 1, q)
    } else {
        coef_extract(D - l, q)
    })
    &&& c.b0 == 0
}

/// `σ_{-1}(Y^l) ∈ S` — the coefficient-extraction sparse phi entry.
fn coef_extract_phi(l: usize, m: &Modulus) -> (p: RingElem)
    requires
        m.wf(),
        l < D,
    ensures
        elem(p) == coef_extract(l as int, m.q as int),
        p.wf(*m),
{
    if l == 0 {
        let p = RingElem::constant(m, 1);
        assert(elem(p) =~= coef_extract(l as int, m.q as int));
        p
    } else {
        let mut p = RingElem::zero();
        proof {
            vstd::arithmetic::div_mod::lemma_fundamental_div_mod_converse(-1, m.q as int, -1, m.q - 1);
        }
        p.c[D - l] = m.neg(1);
        assert(elem(p) =~= coef_extract(l as int, m.q as int));
        p
    }
}

/// The full constraint `w_idx[pos] = 0`.
fn full_zero_constraint(idx: usize, pos: usize, m: &Modulus) -> (c: DotConstraint)
    requires
        m.wf(),
    ensures
        is_zero_full(c, idx as int, pos as int, m.q as int),
        c.b.wf(*m),
        c.phi@[0].1@[0].1.wf(*m),
{
    let one = RingElem::constant(m, 1);
    let z = RingElem::zero();
    assert(elem(one) =~= one_poly(m.q as int));
    assert(elem(z) =~= zero_poly());
    DotConstraint { a: vec![], phi: vec![(idx, vec![(pos, one)])], b: z }
}

/// The constant-term constraint "coefficient `l` of `w_idx[pos]` is 0".
fn coef_zero_constraint(idx: usize, pos: usize, l: usize, m: &Modulus) -> (c: ConstTermConstraint)
    requires
        m.wf(),
        l < D,
    ensures
        is_coef_zero(c, idx as int, pos as int, l as int, m.q as int),
        c.phi@[0].1@[0].1.wf(*m),
{
    ConstTermConstraint { a: vec![], phi: vec![(idx, vec![(pos, coef_extract_phi(l, m))])], b0: 0 }
}

/// Constraint asserting `W_{conj}[pos].c[l] = σ_{-1}^S(W_{src}[pos]).c[l]`:
/// for `l = 0` it enforces `W_{conj}.c[0] − W_{src}.c[0] = 0`, for `l ≥ 1`
/// `W_{conj}.c[l] + W_{src}.c[64−l] = 0`.
fn sigma_equality_constraint(conj_idx: usize, src_idx: usize, pos: usize, l: usize, m: &Modulus) -> (c:
    ConstTermConstraint)
    requires
        m.wf(),
        l < D,
    ensures
        is_sigma_eq(c, conj_idx as int, src_idx as int, pos as int, l as int, m.q as int),
        c.phi@[0].1@[0].1.wf(*m),
        c.phi@[1].1@[0].1.wf(*m),
{
    let phi_conj = coef_extract_phi(l, m);
    proof {
        vstd::arithmetic::div_mod::lemma_fundamental_div_mod_converse(-1, m.q as int, -1, m.q - 1);
    }
    let phi_src = if l == 0 {
        let p = RingElem::constant(m, m.neg(1));
        proof {
            vstd::arithmetic::div_mod::lemma_small_mod((m.q - 1) as nat, m.q as nat);
        }
        assert(elem(p) =~= const_poly(m.q - 1, m.q as int));
        p
    } else {
        coef_extract_phi(D - l, m)
    };
    ConstTermConstraint {
        a: vec![],
        phi: vec![(conj_idx, vec![(pos, phi_conj)]), (src_idx, vec![(pos, phi_src)])],
        b0: 0,
    }
}


/// `k` (1-indexed) lies in block `iy` of `ρ` consecutive positions exactly
/// when `⌈k/ρ⌉ = iy`.
proof fn lemma_index_range(rho: int, k: int, iy: int)
    requires
        rho >= 1,
        k >= 1,
        iy >= 1,
    ensures
        ((k + rho - 1) / rho == iy) <==> ((iy - 1) * rho + 1 <= k && k <= iy * rho),
{
    vstd::arithmetic::div_mod::lemma_fundamental_div_mod(k + rho - 1, rho);
    let d = (k + rho - 1) / rho;
    let m = (k + rho - 1) % rho;
    assert(d * rho == rho * d) by (nonlinear_arith);
    assert(d * rho + m == k + rho - 1);
    if d == iy {
        assert((iy - 1) * rho + 1 <= k && k <= iy * rho) by (nonlinear_arith)
            requires
                d == iy,
                d * rho + m == k + rho - 1,
                0 <= m < rho,
        ;
    }
    if (iy - 1) * rho + 1 <= k && k <= iy * rho {
        assert(k + rho - 1 == iy * rho + (k - 1 - (iy - 1) * rho)) by (nonlinear_arith);
        vstd::arithmetic::div_mod::lemma_fundamental_div_mod_converse(
            k + rho - 1,
            rho,
            iy,
            k - 1 - (iy - 1) * rho,
        );
    }
}

/// The entries of `s` from `start` on are pairwise distinct.
#[verifier::opaque]
pub open spec fn distinct_from<T>(s: Seq<T>, start: int) -> bool {
    forall|t1: int, t2: int| start <= t1 < t2 < s.len() ==> #[trigger] s[t1] != #[trigger] s[t2]
}

/// `(a1, b1, c1, d1)` comes strictly before `(a2, b2, c2, d2)` lexicographically.
pub open spec fn lex_before(a1: int, b1: int, c1: int, d1: int, a2: int, b2: int, c2: int, d2: int) -> bool {
    ||| a1 < a2
    ||| a1 == a2 && b1 < b2
    ||| a1 == a2 && b1 == b2 && c1 < c2
    ||| a1 == a2 && b1 == b2 && c1 == c2 && d1 < d2
}

/// `S`-position `p` of vector `y_{iy, j}` belongs to a signature outside
/// block `iy`, so it must be zero.
pub open spec fn pad_y_pos(l: WitnessLayout, iy: int, j: int, p: int) -> bool {
    &&& 1 <= iy <= l.num_y
    &&& (j == 1 || j == 2)
    &&& 0 <= p < C * l.n_sigs
    &&& l.index_spec(p / 8 + 1) != iy
}

/// Padding for the `y_{·,j}` vectors: out-of-block `R`-positions are zero.
/// Appends, in some order, exactly one zero constraint per padding position
/// (and nothing else); all other parts of the statement are unchanged.
#[verifier::spinoff_prover]
#[verifier::rlimit(100)]
pub fn add_padding_constraints_y(stmt: &mut Statement, layout: &WitnessLayout, ring: &Ring)
    requires
        layout.wf(),
        ring.wf(),
    ensures
        final(stmt).ring == old(stmt).ring,
        final(stmt).n == old(stmt).n,
        final(stmt).r == old(stmt).r,
        final(stmt).beta_sq == old(stmt).beta_sq,
        final(stmt).const_term@ == old(stmt).const_term@,
        final(stmt).full@.len() >= old(stmt).full@.len(),
        final(stmt).full@.subrange(0, old(stmt).full@.len() as int) == old(stmt).full@,
        forall|t: int|
            old(stmt).full@.len() <= t < final(stmt).full@.len() ==> (#[trigger] final(stmt).full@[t]).b.wf(ring.m)
                && exists|iy: int, j: int, p: int|
                pad_y_pos(*layout, iy, j, p) && is_zero_full(
                    final(stmt).full@[t],
                    layout.y_spec(iy, j),
                    p,
                    ring.m.q as int,
                ),
        forall|iy: int, j: int, p: int|
            #[trigger] pad_y_pos(*layout, iy, j, p) ==> exists|t: int|
                old(stmt).full@.len() <= t < final(stmt).full@.len() && is_zero_full(
                    #[trigger] final(stmt).full@[t],
                    layout.y_spec(iy, j),
                    p,
                    ring.m.q as int,
                ),
        distinct_from(final(stmt).full@, old(stmt).full@.len() as int),
{
    let m = &ring.m;
    let n = layout.n_sigs;
    let ghost q = ring.m.q as int;
    let ghost start = stmt.full@.len();
    let ghost mut params: Seq<(int, int, int)> = Seq::empty();
    let ghost mut where_: Map<(int, int, int), int> = Map::empty();
    proof {
        layout.lemma_counts();
    }
    let mut i_y: usize = 1;
    while i_y <= layout.num_y
        invariant
            layout.wf(),
            ring.wf(),
            m == &ring.m,
            q == ring.m.q,
            n == layout.n_sigs,
            1 <= layout.rho <= layout.n_sigs,
            1 <= layout.num_y <= layout.n_sigs,
            1 <= i_y <= layout.num_y + 1,
            stmt.ring == old(stmt).ring,
            stmt.n == old(stmt).n,
            stmt.r == old(stmt).r,
            stmt.beta_sq == old(stmt).beta_sq,
            stmt.const_term@ == old(stmt).const_term@,
            start == old(stmt).full@.len(),
            stmt.full@.len() == start + params.len(),
            stmt.full@.subrange(0, start as int) == old(stmt).full@,
            forall|t: int|
                0 <= t < params.len() ==> pad_y_pos(*layout, (#[trigger] params[t]).0, params[t].1, params[t].2)
                    && is_zero_full(stmt.full@[start + t], layout.y_spec(params[t].0, params[t].1), params[t].2, q)
                    && stmt.full@[start + t].b.wf(ring.m),
            forall|iy: int, j: int, p: int|
                #[trigger] pad_y_pos(*layout, iy, j, p) && lex_before(iy, j, p / 8 + 1, p % 8, i_y as int, 1, 1, 0)
                    ==> where_.dom().contains((iy, j, p)) && 0 <= where_[(iy, j, p)] < params.len()
                    && params[where_[(iy, j, p)]] == (iy, j, p),
            forall|a: int|
                0 <= a < params.len() ==> lex_before((#[trigger] params[a]).0, params[a].1, params[a].2 / 8 + 1, params[a].2 % 8, i_y as int, 1, 1, 0),
            forall|a: int, b: int| #![trigger params[a], params[b]] 0 <= a < b < params.len() ==> params[a] != params[b],
        decreases layout.num_y + 1 - i_y,
    {
        proof {
            assert((i_y - 1) * layout.rho <= (layout.num_y - 1) * layout.rho) by (nonlinear_arith)
                requires
                    1 <= i_y <= layout.num_y,
                    layout.rho >= 1,
            ;
            assert(i_y * layout.rho <= layout.num_y * layout.rho) by (nonlinear_arith)
                requires
                    1 <= i_y <= layout.num_y,
                    layout.rho >= 1,
            ;
            layout.lemma_counts();
            assert(layout.num_y * layout.rho == (layout.num_y - 1) * layout.rho + layout.rho) by (nonlinear_arith);
        }
        let k_lo = (i_y - 1) * layout.rho + 1;
        let k_hi = if i_y * layout.rho < n { i_y * layout.rho } else { n };
        let mut j: usize = 1;
        while j <= 2
            invariant
                layout.wf(),
                ring.wf(),
                m == &ring.m,
                q == ring.m.q,
                n == layout.n_sigs,
                1 <= layout.rho <= layout.n_sigs,
                1 <= layout.num_y <= layout.n_sigs,
                1 <= i_y <= layout.num_y,
                k_lo == (i_y - 1) * layout.rho + 1,
                k_hi == (if i_y * layout.rho < n { i_y * layout.rho } else { n as int }),
                1 <= j <= 3,
                stmt.ring == old(stmt).ring,
                stmt.n == old(stmt).n,
                stmt.r == old(stmt).r,
                stmt.beta_sq == old(stmt).beta_sq,
                stmt.const_term@ == old(stmt).const_term@,
                start == old(stmt).full@.len(),
                stmt.full@.len() == start + params.len(),
                stmt.full@.subrange(0, start as int) == old(stmt).full@,
                forall|t: int|
                    0 <= t < params.len() ==> pad_y_pos(*layout, (#[trigger] params[t]).0, params[t].1, params[t].2)
                        && is_zero_full(stmt.full@[start + t], layout.y_spec(params[t].0, params[t].1), params[t].2, q)
                        && stmt.full@[start + t].b.wf(ring.m),
                forall|iy: int, jj: int, p: int|
                    #[trigger] pad_y_pos(*layout, iy, jj, p) && lex_before(iy, jj, p / 8 + 1, p % 8, i_y as int, j as int, 1, 0)
                        ==> where_.dom().contains((iy, jj, p)) && 0 <= where_[(iy, jj, p)] < params.len()
                        && params[where_[(iy, jj, p)]] == (iy, jj, p),
                forall|a: int|
                    0 <= a < params.len() ==> lex_before((#[trigger] params[a]).0, params[a].1, params[a].2 / 8 + 1, params[a].2 % 8, i_y as int, j as int, 1, 0),
                forall|a: int, b: int| #![trigger params[a], params[b]] 0 <= a < b < params.len() ==> params[a] != params[b],
            decreases 3 - j,
        {
            let vec_idx = layout.y_idx(i_y, j);
            let mut k: usize = 1;
            while k <= n
                invariant
                    layout.wf(),
                    ring.wf(),
                    m == &ring.m,
                    q == ring.m.q,
                    n == layout.n_sigs,
                    1 <= layout.rho <= layout.n_sigs,
                    1 <= layout.num_y <= layout.n_sigs,
                    1 <= i_y <= layout.num_y,
                    k_lo == (i_y - 1) * layout.rho + 1,
                    k_hi == (if i_y * layout.rho < n { i_y * layout.rho } else { n as int }),
                    1 <= j <= 2,
                    vec_idx == layout.y_spec(i_y as int, j as int),
                    1 <= k <= n + 1,
                    stmt.ring == old(stmt).ring,
                    stmt.n == old(stmt).n,
                    stmt.r == old(stmt).r,
                    stmt.beta_sq == old(stmt).beta_sq,
                    stmt.const_term@ == old(stmt).const_term@,
                    start == old(stmt).full@.len(),
                    stmt.full@.len() == start + params.len(),
                    stmt.full@.subrange(0, start as int) == old(stmt).full@,
                    forall|t: int|
                        0 <= t < params.len() ==> pad_y_pos(*layout, (#[trigger] params[t]).0, params[t].1, params[t].2)
                            && is_zero_full(stmt.full@[start + t], layout.y_spec(params[t].0, params[t].1), params[t].2, q)
                            && stmt.full@[start + t].b.wf(ring.m),
                    forall|iy: int, jj: int, p: int|
                        #[trigger] pad_y_pos(*layout, iy, jj, p) && lex_before(iy, jj, p / 8 + 1, p % 8, i_y as int, j as int, k as int, 0)
                            ==> where_.dom().contains((iy, jj, p)) && 0 <= where_[(iy, jj, p)] < params.len()
                            && params[where_[(iy, jj, p)]] == (iy, jj, p),
                    forall|a: int|
                        0 <= a < params.len() ==> lex_before((#[trigger] params[a]).0, params[a].1, params[a].2 / 8 + 1, params[a].2 % 8, i_y as int, j as int, k as int, 0),
                    forall|a: int, b: int| #![trigger params[a], params[b]] 0 <= a < b < params.len() ==> params[a] != params[b],
                decreases n + 1 - k,
            {
                proof {
                    lemma_index_range(layout.rho as int, k as int, i_y as int);
                }
                if k_lo <= k && k <= k_hi {
                    k += 1;
                    continue;
                }
                let pos = C * (k - 1);
                let mut t: usize = 0;
                while t < C
                    invariant
                        layout.wf(),
                        ring.wf(),
                        m == &ring.m,
                        q == ring.m.q,
                        n == layout.n_sigs,
                        1 <= i_y <= layout.num_y,
                        1 <= j <= 2,
                        vec_idx == layout.y_spec(i_y as int, j as int),
                        1 <= k <= n,
                        layout.index_spec(k as int) != i_y,
                        pos == C * (k - 1),
                        0 <= t <= C,
                        stmt.ring == old(stmt).ring,
                        stmt.n == old(stmt).n,
                        stmt.r == old(stmt).r,
                        stmt.beta_sq == old(stmt).beta_sq,
                        stmt.const_term@ == old(stmt).const_term@,
                        start == old(stmt).full@.len(),
                        stmt.full@.len() == start + params.len(),
                        stmt.full@.subrange(0, start as int) == old(stmt).full@,
                        forall|tt: int|
                            0 <= tt < params.len() ==> pad_y_pos(*layout, (#[trigger] params[tt]).0, params[tt].1, params[tt].2)
                                && is_zero_full(stmt.full@[start + tt], layout.y_spec(params[tt].0, params[tt].1), params[tt].2, q)
                                && stmt.full@[start + tt].b.wf(ring.m),
                        forall|iy: int, jj: int, p: int|
                            #[trigger] pad_y_pos(*layout, iy, jj, p) && lex_before(iy, jj, p / 8 + 1, p % 8, i_y as int, j as int, k as int, t as int)
                                ==> where_.dom().contains((iy, jj, p)) && 0 <= where_[(iy, jj, p)] < params.len()
                                && params[where_[(iy, jj, p)]] == (iy, jj, p),
                        forall|a: int|
                            0 <= a < params.len() ==> lex_before((#[trigger] params[a]).0, params[a].1, params[a].2 / 8 + 1, params[a].2 % 8, i_y as int, j as int, k as int, t as int),
                        forall|a: int, b: int| #![trigger params[a], params[b]] 0 <= a < b < params.len() ==> params[a] != params[b],
                    decreases C - t,
                {
                    let c = full_zero_constraint(vec_idx, pos + t, m);
                    let ghost prev = stmt.full@;
                    let ghost prev_params = params;
                    stmt.full.push(c);
                    proof {
                        let key = (i_y as int, j as int, (pos + t) as int);
                        vstd::arithmetic::div_mod::lemma_fundamental_div_mod_converse(
                            (pos + t) as int,
                            8,
                            k - 1,
                            t as int,
                        );
                        assert(pad_y_pos(*layout, key.0, key.1, key.2));
                        let ghost_idx = params.len() as int;
                        params = params.push(key);
                        where_ = where_.insert(key, ghost_idx);
                        assert(stmt.full@[start + ghost_idx] == c);
                        assert forall|tt: int|
                            0 <= tt < params.len() implies pad_y_pos(*layout, (#[trigger] params[tt]).0, params[tt].1, params[tt].2)
                                && is_zero_full(stmt.full@[start + tt], layout.y_spec(params[tt].0, params[tt].1), params[tt].2, q)
                                && stmt.full@[start + tt].b.wf(ring.m) by {
                            if tt < ghost_idx {
                                assert(stmt.full@[start + tt] == prev[start + tt]);
                                assert(params[tt] == prev_params[tt]);
                            }
                        }
                        assert forall|a: int|
                            0 <= a < params.len() implies lex_before(
                                (#[trigger] params[a]).0,
                                params[a].1,
                                params[a].2 / 8 + 1,
                                params[a].2 % 8,
                                i_y as int,
                                j as int,
                                k as int,
                                t + 1,
                            ) by {
                            if a < ghost_idx {
                                assert(params[a] == prev_params[a]);
                            }
                        }
                        assert forall|a: int, b: int| 0 <= a < b < params.len() implies params[a] != params[b] by {
                            assert(params[a] == prev_params[a]);
                            if b < ghost_idx {
                                assert(params[b] == prev_params[b]);
                            } else {
                                assert(lex_before(
                                    prev_params[a].0,
                                    prev_params[a].1,
                                    prev_params[a].2 / 8 + 1,
                                    prev_params[a].2 % 8,
                                    i_y as int,
                                    j as int,
                                    k as int,
                                    t as int,
                                ));
                            }
                        }
                    }
                    t += 1;
                }
                k += 1;
            }
            j += 1;
        }
        i_y += 1;
    }
    proof {
        assert(stmt.full@.len() >= old(stmt).full@.len());
        assert forall|t: int|
            old(stmt).full@.len() <= t < stmt.full@.len() implies (#[trigger] stmt.full@[t]).b.wf(ring.m)
                && exists|iy: int, j: int, p: int|
                pad_y_pos(*layout, iy, j, p) && is_zero_full(stmt.full@[t], layout.y_spec(iy, j), p, q) by {
            let pr = params[t - start];
            assert(pad_y_pos(*layout, pr.0, pr.1, pr.2));
        }
        assert forall|iy: int, j: int, p: int|
            #[trigger] pad_y_pos(*layout, iy, j, p) implies exists|t: int|
                old(stmt).full@.len() <= t < stmt.full@.len() && is_zero_full(
                    #[trigger] stmt.full@[t],
                    layout.y_spec(iy, j),
                    p,
                    q,
                ) by {
            let tt = where_[(iy, j, p)];
            assert(params[tt] == (iy, j, p));
            assert(is_zero_full(stmt.full@[start + tt], layout.y_spec(iy, j), p, q));
        }
        lemma_pad_y_distinct(*layout, q, stmt.full@, start as int, params);
    }
}

/// Zero constraints recorded for pairwise distinct padding positions are
/// pairwise distinct.
proof fn lemma_pad_y_distinct(
    l: WitnessLayout,
    q: int,
    full: Seq<DotConstraint>,
    start: int,
    params: Seq<(int, int, int)>,
)
    requires
        start >= 0,
        full.len() == start + params.len(),
        forall|t: int|
            0 <= t < params.len() ==> pad_y_pos(l, (#[trigger] params[t]).0, params[t].1, params[t].2)
                && is_zero_full(full[start + t], l.y_spec(params[t].0, params[t].1), params[t].2, q),
        forall|a: int, b: int| #![trigger params[a], params[b]] 0 <= a < b < params.len() ==> params[a] != params[b],
    ensures
        distinct_from(full, start),
{
    reveal(distinct_from);
    assert forall|t1: int, t2: int| start <= t1 < t2 < full.len() implies #[trigger] full[t1] != #[trigger] full[t2] by {
        let p1 = params[t1 - start];
        let p2 = params[t2 - start];
        assert(p1 != p2);
        assert(pad_y_pos(l, p1.0, p1.1, p1.2));
        assert(pad_y_pos(l, p2.0, p2.1, p2.2));
        l.lemma_y_spec_injective(p1.0, p1.1, p2.0, p2.1);
    }
}


/// `(a1, …, e1)` comes strictly before `(a2, …, e2)` lexicographically.
pub open spec fn lex_before5(
    a1: int,
    b1: int,
    c1: int,
    d1: int,
    e1: int,
    a2: int,
    b2: int,
    c2: int,
    d2: int,
    e2: int,
) -> bool {
    ||| lex_before(a1, b1, c1, d1, a2, b2, c2, d2)
    ||| a1 == a2 && b1 == b2 && c1 == c2 && d1 == d2 && e1 < e2
}

/// Every recorded `(a, j, p)` comes strictly before the cursor, read as
/// `(a, j, p / 8 + 1, p % 8)`.
pub open spec fn keys3_before(params: Seq<(int, int, int)>, a: int, b: int, c: int, d: int) -> bool {
    forall|t: int|
        0 <= t < params.len() ==> lex_before(
            (#[trigger] params[t]).0,
            params[t].1,
            params[t].2 / 8 + 1,
            params[t].2 % 8,
            a,
            b,
            c,
            d,
        )
}

/// Every recorded `(a, j, p, l)` comes strictly before the cursor, read as
/// `(a, j, p / 8 + 1, p % 8, l)`.
pub open spec fn keys4_before(params: Seq<(int, int, int, int)>, a: int, b: int, c: int, d: int, e: int) -> bool {
    forall|t: int|
        0 <= t < params.len() ==> lex_before5(
            (#[trigger] params[t]).0,
            params[t].1,
            params[t].2 / 8 + 1,
            params[t].2 % 8,
            params[t].3,
            a,
            b,
            c,
            d,
            e,
        )
}

/// Every recorded `(a, p)` comes strictly before the cursor, read as
/// `(a, p / 8 + 1, p % 8, 0)`.
pub open spec fn keys2_before(params: Seq<(int, int)>, a: int, b: int, c: int) -> bool {
    forall|t: int|
        0 <= t < params.len() ==> lex_before(
            (#[trigger] params[t]).0,
            params[t].1 / 8 + 1,
            params[t].1 % 8,
            0,
            a,
            b,
            c,
            0,
        )
}

/// Every recorded `(a, p, l)` comes strictly before the cursor, read as
/// `(a, p / 8 + 1, p % 8, l)`.
pub open spec fn keys3l_before(params: Seq<(int, int, int)>, a: int, b: int, c: int, d: int) -> bool {
    forall|t: int|
        0 <= t < params.len() ==> lex_before(
            (#[trigger] params[t]).0,
            params[t].1 / 8 + 1,
            params[t].1 % 8,
            params[t].2,
            a,
            b,
            c,
            d,
        )
}

/// No entry is recorded twice.
pub open spec fn keys_distinct<K>(params: Seq<K>) -> bool {
    forall|a: int, b: int| #![trigger params[a], params[b]] 0 <= a < b < params.len() ==> params[a] != params[b]
}

/// Recording the key at the cursor and moving the cursor forward keeps the
/// keys ordered and distinct.
proof fn lemma_keys3_push(
    params: Seq<(int, int, int)>,
    key: (int, int, int),
    a: int,
    b: int,
    c: int,
    d: int,
    a2: int,
    b2: int,
    c2: int,
    d2: int,
)
    requires
        keys3_before(params, a, b, c, d),
        keys_distinct(params),
        key.0 == a,
        key.1 == b,
        key.2 / 8 + 1 == c,
        key.2 % 8 == d,
        lex_before(a, b, c, d, a2, b2, c2, d2),
    ensures
        keys3_before(params.push(key), a2, b2, c2, d2),
        keys_distinct(params.push(key)),
{
    let np = params.push(key);
    assert forall|t: int| 0 <= t < np.len() implies lex_before(
        (#[trigger] np[t]).0,
        np[t].1,
        np[t].2 / 8 + 1,
        np[t].2 % 8,
        a2,
        b2,
        c2,
        d2,
    ) by {
        if t < params.len() {
            assert(np[t] == params[t]);
        }
    }
    assert forall|x: int, y: int| 0 <= x < y < np.len() implies np[x] != np[y] by {
        assert(np[x] == params[x]);
        if y < params.len() {
            assert(np[y] == params[y]);
        }
    }
}

/// As [`lemma_keys3_push`], for keys with a coefficient index.
proof fn lemma_keys4_push(
    params: Seq<(int, int, int, int)>,
    key: (int, int, int, int),
    a: int,
    b: int,
    c: int,
    d: int,
    e: int,
    a2: int,
    b2: int,
    c2: int,
    d2: int,
    e2: int,
)
    requires
        keys4_before(params, a, b, c, d, e),
        keys_distinct(params),
        key.0 == a,
        key.1 == b,
        key.2 / 8 + 1 == c,
        key.2 % 8 == d,
        key.3 == e,
        lex_before5(a, b, c, d, e, a2, b2, c2, d2, e2),
    ensures
        keys4_before(params.push(key), a2, b2, c2, d2, e2),
        keys_distinct(params.push(key)),
{
    let np = params.push(key);
    assert forall|t: int| 0 <= t < np.len() implies lex_before5(
        (#[trigger] np[t]).0,
        np[t].1,
        np[t].2 / 8 + 1,
        np[t].2 % 8,
        np[t].3,
        a2,
        b2,
        c2,
        d2,
        e2,
    ) by {
        if t < params.len() {
            assert(np[t] == params[t]);
        }
    }
    assert forall|x: int, y: int| 0 <= x < y < np.len() implies np[x] != np[y] by {
        assert(np[x] == params[x]);
        if y < params.len() {
            assert(np[y] == params[y]);
        }
    }
}

/// As [`lemma_keys3_push`], for keys of one vector index and a position.
proof fn lemma_keys2_push(
    params: Seq<(int, int)>,
    key: (int, int),
    a: int,
    b: int,
    c: int,
    a2: int,
    b2: int,
    c2: int,
)
    requires
        keys2_before(params, a, b, c),
        keys_distinct(params),
        key.0 == a,
        key.1 / 8 + 1 == b,
        key.1 % 8 == c,
        lex_before(a, b, c, 0, a2, b2, c2, 0),
    ensures
        keys2_before(params.push(key), a2, b2, c2),
        keys_distinct(params.push(key)),
{
    let np = params.push(key);
    assert forall|t: int| 0 <= t < np.len() implies lex_before(
        (#[trigger] np[t]).0,
        np[t].1 / 8 + 1,
        np[t].1 % 8,
        0,
        a2,
        b2,
        c2,
        0,
    ) by {
        if t < params.len() {
            assert(np[t] == params[t]);
        }
    }
    assert forall|x: int, y: int| 0 <= x < y < np.len() implies np[x] != np[y] by {
        assert(np[x] == params[x]);
        if y < params.len() {
            assert(np[y] == params[y]);
        }
    }
}

/// As [`lemma_keys3_push`], for keys of one vector index, a position and a
/// coefficient index.
proof fn lemma_keys3l_push(
    params: Seq<(int, int, int)>,
    key: (int, int, int),
    a: int,
    b: int,
    c: int,
    d: int,
    a2: int,
    b2: int,
    c2: int,
    d2: int,
)
    requires
        keys3l_before(params, a, b, c, d),
        keys_distinct(params),
        key.0 == a,
        key.1 / 8 + 1 == b,
        key.1 % 8 == c,
        key.2 == d,
        lex_before(a, b, c, d, a2, b2, c2, d2),
    ensures
        keys3l_before(params.push(key), a2, b2, c2, d2),
        keys_distinct(params.push(key)),
{
    let np = params.push(key);
    assert forall|t: int| 0 <= t < np.len() implies lex_before(
        (#[trigger] np[t]).0,
        np[t].1 / 8 + 1,
        np[t].1 % 8,
        np[t].2,
        a2,
        b2,
        c2,
        d2,
    ) by {
        if t < params.len() {
            assert(np[t] == params[t]);
        }
    }
    assert forall|x: int, y: int| 0 <= x < y < np.len() implies np[x] != np[y] by {
        assert(np[x] == params[x]);
        if y < params.len() {
            assert(np[y] == params[y]);
        }
    }
}

/// Coefficient extractors for distinct coefficients differ.
proof fn lemma_coef_extract_distinct(l1: int, l2: int, q: int)
    requires
        0 <= l1 < D,
        0 <= l2 < D,
        l1 != l2,
        q >= 3,
    ensures
        coef_extract(l1, q) != coef_extract(l2, q),
{
    if l1 != 0 {
        assert(coef_extract(l1, q)[D - l1] != coef_extract(l2, q)[D - l1]);
    } else {
        vstd::arithmetic::div_mod::lemma_small_mod(1, q as nat);
        assert(coef_extract(l1, q)[0] != coef_extract(l2, q)[0]);
    }
}

/// Position `p` of `y'_{iyp, j}` belongs to a signature whose primed block
/// is not `iyp`, so it must be zero.
pub open spec fn yp_zero_pos(l: WitnessLayout, iyp: int, j: int, p: int) -> bool {
    &&& 1 <= iyp <= l.num_yp
    &&& (j == 1 || j == 2)
    &&& 0 <= p < C * l.n_sigs
    &&& l.index_prime_spec(p / 8 + 1) != iyp
}

/// Position `p` of `y'_{iyp, j}` belongs to a signature whose primed block
/// is `iyp`; coefficient `ll` must match the conjugate of `y`.
pub open spec fn yp_sigma_pos(l: WitnessLayout, iyp: int, j: int, p: int, ll: int) -> bool {
    &&& 1 <= iyp <= l.num_yp
    &&& (j == 1 || j == 2)
    &&& 0 <= p < C * l.n_sigs
    &&& l.index_prime_spec(p / 8 + 1) == iyp
    &&& 0 <= ll < D
}

/// The zero constraints appended so far, one per recorded position.
pub open spec fn yp_full_sound(
    l: WitnessLayout,
    q: int,
    full: Seq<DotConstraint>,
    start: int,
    params: Seq<(int, int, int)>,
) -> bool {
    &&& full.len() == start + params.len()
    &&& forall|t: int|
        0 <= t < params.len() ==> yp_zero_pos(l, (#[trigger] params[t]).0, params[t].1, params[t].2)
            && is_zero_full(full[start + t], l.yp_spec(params[t].0, params[t].1), params[t].2, q)
}

/// The conjugation constraints appended so far, one per recorded entry.
pub open spec fn yp_ct_sound(
    l: WitnessLayout,
    q: int,
    ct: Seq<ConstTermConstraint>,
    start: int,
    params: Seq<(int, int, int, int)>,
) -> bool {
    &&& ct.len() == start + params.len()
    &&& forall|t: int|
        0 <= t < params.len() ==> yp_sigma_pos(
            l,
            (#[trigger] params[t]).0,
            params[t].1,
            params[t].2,
            params[t].3,
        ) && is_sigma_eq(
            ct[start + t],
            l.yp_spec(params[t].0, params[t].1),
            l.y_spec(l.index_spec(params[t].2 / 8 + 1), params[t].1),
            params[t].2,
            params[t].3,
            q,
        )
}

/// Every zero position before `(a, b, c, d)` has been recorded.
pub open spec fn yp_full_covered(
    l: WitnessLayout,
    params: Seq<(int, int, int)>,
    wh: Map<(int, int, int), int>,
    a: int,
    b: int,
    c: int,
    d: int,
) -> bool {
    forall|iyp: int, j: int, p: int|
        #[trigger] yp_zero_pos(l, iyp, j, p) && lex_before(iyp, j, p / 8 + 1, p % 8, a, b, c, d)
            ==> wh.dom().contains((iyp, j, p)) && 0 <= wh[(iyp, j, p)] < params.len()
            && params[wh[(iyp, j, p)]] == (iyp, j, p)
}

/// Every conjugation entry before `(a, b, c, d, e)` has been recorded.
pub open spec fn yp_ct_covered(
    l: WitnessLayout,
    params: Seq<(int, int, int, int)>,
    wh: Map<(int, int, int, int), int>,
    a: int,
    b: int,
    c: int,
    d: int,
    e: int,
) -> bool {
    forall|iyp: int, j: int, p: int, ll: int|
        #[trigger] yp_sigma_pos(l, iyp, j, p, ll) && lex_before5(iyp, j, p / 8 + 1, p % 8, ll, a, b, c, d, e)
            ==> wh.dom().contains((iyp, j, p, ll)) && 0 <= wh[(iyp, j, p, ll)] < params.len()
            && params[wh[(iyp, j, p, ll)]] == (iyp, j, p, ll)
}

/// The postconditions of [`add_form_constraints_yp`] from its loop invariants.
proof fn lemma_yp_post(
    l: WitnessLayout,
    q: int,
    full: Seq<DotConstraint>,
    sf: int,
    pf: Seq<(int, int, int)>,
    wf_: Map<(int, int, int), int>,
    ct: Seq<ConstTermConstraint>,
    sc: int,
    pc: Seq<(int, int, int, int)>,
    wc: Map<(int, int, int, int), int>,
)
    requires
        l.wf(),
        q >= 3,
        0 <= sf,
        0 <= sc,
        yp_full_sound(l, q, full, sf, pf),
        yp_ct_sound(l, q, ct, sc, pc),
        keys_distinct(pf),
        keys_distinct(pc),
        yp_full_covered(l, pf, wf_, l.num_yp + 1, 1, 1, 0),
        yp_ct_covered(l, pc, wc, l.num_yp + 1, 1, 1, 0, 0),
    ensures
        forall|t: int|
            sf <= t < full.len() ==> (#[trigger] full[t]).a@.len() == 0 && exists|iyp: int, j: int, p: int|
                #![trigger yp_zero_pos(l, iyp, j, p)]
                yp_zero_pos(l, iyp, j, p) && is_zero_full(
                    full[t],
                    l.yp_spec(iyp, j),
                    p,
                    q,
                ),
        forall|iyp: int, j: int, p: int|
            #[trigger] yp_zero_pos(l, iyp, j, p) ==> exists|t: int|
                sf <= t < full.len() && is_zero_full(
                    #[trigger] full[t],
                    l.yp_spec(iyp, j),
                    p,
                    q,
                ),
        forall|t: int|
            sc <= t < ct.len() ==> (#[trigger] ct[t]).b0 == 0 && exists|
                iyp: int,
                j: int,
                p: int,
                ll: int,
            |
                #![trigger yp_sigma_pos(l, iyp, j, p, ll)]
                yp_sigma_pos(l, iyp, j, p, ll) && is_sigma_eq(
                    ct[t],
                    l.yp_spec(iyp, j),
                    l.y_spec(l.index_spec(p / 8 + 1), j),
                    p,
                    ll,
                    q,
                ),
        forall|iyp: int, j: int, p: int, ll: int|
            #[trigger] yp_sigma_pos(l, iyp, j, p, ll) ==> exists|t: int|
                sc <= t < ct.len() && is_sigma_eq(
                    #[trigger] ct[t],
                    l.yp_spec(iyp, j),
                    l.y_spec(l.index_spec(p / 8 + 1), j),
                    p,
                    ll,
                    q,
                ),
        distinct_from(full, sf),
        distinct_from(ct, sc),
{
        assert forall|t: int|
            sf <= t < full.len() implies exists|iyp: int, j: int, p: int|
                #![trigger yp_zero_pos(l, iyp, j, p)]
                yp_zero_pos(l, iyp, j, p) && is_zero_full(
                    #[trigger] full[t],
                    l.yp_spec(iyp, j),
                    p,
                    q,
                ) by {
            let pr = pf[t - sf];
            assert(yp_zero_pos(l, pr.0, pr.1, pr.2));
            assert(is_zero_full(full[sf + (t - sf)], l.yp_spec(pr.0, pr.1), pr.2, q));
            assert(sf + (t - sf) == t);
        }
        assert forall|iyp: int, j: int, p: int|
            #[trigger] yp_zero_pos(l, iyp, j, p) implies exists|t: int|
                sf <= t < full.len() && is_zero_full(
                    #[trigger] full[t],
                    l.yp_spec(iyp, j),
                    p,
                    q,
                ) by {
            let tt = wf_[(iyp, j, p)];
            assert(pf[tt] == (iyp, j, p));
            assert(is_zero_full(full[sf + tt], l.yp_spec(iyp, j), p, q));
        }
        assert forall|t: int|
            sc <= t < ct.len() implies exists|iyp: int, j: int, p: int, ll: int|
                #![trigger yp_sigma_pos(l, iyp, j, p, ll)]
                yp_sigma_pos(l, iyp, j, p, ll) && is_sigma_eq(
                    #[trigger] ct[t],
                    l.yp_spec(iyp, j),
                    l.y_spec(l.index_spec(p / 8 + 1), j),
                    p,
                    ll,
                    q,
                ) by {
            let pr = pc[t - sc];
            assert(yp_sigma_pos(l, pr.0, pr.1, pr.2, pr.3));
            assert(sc + (t - sc) == t);
            assert(is_sigma_eq(
                ct[t],
                l.yp_spec(pr.0, pr.1),
                l.y_spec(l.index_spec(pr.2 / 8 + 1), pr.1),
                pr.2,
                pr.3,
                q,
            ));
        }
        assert forall|iyp: int, j: int, p: int, ll: int|
            #[trigger] yp_sigma_pos(l, iyp, j, p, ll) implies exists|t: int|
                sc <= t < ct.len() && is_sigma_eq(
                    #[trigger] ct[t],
                    l.yp_spec(iyp, j),
                    l.y_spec(l.index_spec(p / 8 + 1), j),
                    p,
                    ll,
                    q,
                ) by {
            let tt = wc[(iyp, j, p, ll)];
            assert(pc[tt] == (iyp, j, p, ll));
            assert(is_sigma_eq(
                ct[sc + tt],
                l.yp_spec(iyp, j),
                l.y_spec(l.index_spec(p / 8 + 1), j),
                p,
                ll,
                q,
            ));
        }
        assert(q >= 3);
        lemma_yp_full_distinct(l, q, full, sf, pf);
        lemma_yp_ct_distinct(l, q, ct, sc, pc);
}

/// Conjugation + padding for the `y'_{·,j}` vectors: at `R`-positions `k`
/// with `index'(k) = iyp`, every coefficient of `y'_{iyp,j}[k]` matches
/// `σ_{-1}` of `y_{index(k),j}[k]`; elsewhere `y'_{iyp,j}[k] = 0 ∈ R`.
/// Appends, in some order, exactly one constraint per such position (and
/// nothing else); all other parts of the statement are unchanged.
#[verifier::spinoff_prover]
#[verifier::rlimit(100)]
pub fn add_form_constraints_yp(stmt: &mut Statement, layout: &WitnessLayout, ring: &Ring)
    requires
        layout.wf(),
        ring.wf(),
    ensures
        final(stmt).ring == old(stmt).ring,
        final(stmt).n == old(stmt).n,
        final(stmt).r == old(stmt).r,
        final(stmt).beta_sq == old(stmt).beta_sq,
        final(stmt).full@.subrange(0, old(stmt).full@.len() as int) == old(stmt).full@,
        final(stmt).const_term@.subrange(0, old(stmt).const_term@.len() as int)
            == old(stmt).const_term@,
        final(stmt).full@.len() >= old(stmt).full@.len(),
        final(stmt).const_term@.len() >= old(stmt).const_term@.len(),
        forall|t: int|
            old(stmt).full@.len() <= t < final(stmt).full@.len() ==> (#[trigger] final(stmt).full@[t]).a@.len() == 0 && exists|iyp: int, j: int, p: int|
                #![trigger yp_zero_pos(*layout, iyp, j, p)]
                yp_zero_pos(*layout, iyp, j, p) && is_zero_full(
                    final(stmt).full@[t],
                    layout.yp_spec(iyp, j),
                    p,
                    ring.m.q as int,
                ),
        forall|iyp: int, j: int, p: int|
            #[trigger] yp_zero_pos(*layout, iyp, j, p) ==> exists|t: int|
                old(stmt).full@.len() <= t < final(stmt).full@.len() && is_zero_full(
                    #[trigger] final(stmt).full@[t],
                    layout.yp_spec(iyp, j),
                    p,
                    ring.m.q as int,
                ),
        forall|t: int|
            old(stmt).const_term@.len() <= t < final(stmt).const_term@.len() ==> (#[trigger] final(stmt).const_term@[t]).b0 == 0 && exists|
                iyp: int,
                j: int,
                p: int,
                ll: int,
            |
                #![trigger yp_sigma_pos(*layout, iyp, j, p, ll)]
                yp_sigma_pos(*layout, iyp, j, p, ll) && is_sigma_eq(
                    final(stmt).const_term@[t],
                    layout.yp_spec(iyp, j),
                    layout.y_spec(layout.index_spec(p / 8 + 1), j),
                    p,
                    ll,
                    ring.m.q as int,
                ),
        forall|iyp: int, j: int, p: int, ll: int|
            #[trigger] yp_sigma_pos(*layout, iyp, j, p, ll) ==> exists|t: int|
                old(stmt).const_term@.len() <= t < final(stmt).const_term@.len() && is_sigma_eq(
                    #[trigger] final(stmt).const_term@[t],
                    layout.yp_spec(iyp, j),
                    layout.y_spec(layout.index_spec(p / 8 + 1), j),
                    p,
                    ll,
                    ring.m.q as int,
                ),
        distinct_from(final(stmt).full@, old(stmt).full@.len() as int),
        distinct_from(final(stmt).const_term@, old(stmt).const_term@.len() as int),
{
    let m = &ring.m;
    let n = layout.n_sigs;
    let ghost q = ring.m.q as int;
    let ghost sf = stmt.full@.len() as int;
    let ghost sc = stmt.const_term@.len() as int;
    let ghost mut pf: Seq<(int, int, int)> = Seq::empty();
    let ghost mut wf_: Map<(int, int, int), int> = Map::empty();
    let ghost mut pc: Seq<(int, int, int, int)> = Seq::empty();
    let ghost mut wc: Map<(int, int, int, int), int> = Map::empty();
    proof {
        layout.lemma_counts();
    }
    let mut i_yp: usize = 1;
    while i_yp <= layout.num_yp
        invariant
            layout.wf(),
            ring.wf(),
            m == &ring.m,
            q == ring.m.q,
            n == layout.n_sigs,
            1 <= layout.rho <= layout.n_sigs,
            1 <= layout.num_y <= layout.n_sigs,
            1 <= i_yp <= layout.num_yp + 1,
            stmt.ring == old(stmt).ring,
            stmt.n == old(stmt).n,
            stmt.r == old(stmt).r,
            stmt.beta_sq == old(stmt).beta_sq,
            sf == old(stmt).full@.len(),
            sc == old(stmt).const_term@.len(),
            stmt.full@.subrange(0, sf) == old(stmt).full@,
            stmt.const_term@.subrange(0, sc) == old(stmt).const_term@,
            yp_full_sound(*layout, q, stmt.full@, sf, pf),
            keys_distinct(pf),
            yp_ct_sound(*layout, q, stmt.const_term@, sc, pc),
            keys_distinct(pc),
            yp_full_covered(*layout, pf, wf_, i_yp as int, 1, 1, 0),
            keys3_before(pf, i_yp as int, 1, 1, 0),
            yp_ct_covered(*layout, pc, wc, i_yp as int, 1, 1, 0, 0),
            keys4_before(pc, i_yp as int, 1, 1, 0, 0),
        decreases layout.num_yp + 1 - i_yp,
    {
        let mut j: usize = 1;
        while j <= 2
            invariant
                layout.wf(),
                ring.wf(),
                m == &ring.m,
                q == ring.m.q,
                n == layout.n_sigs,
                1 <= layout.rho <= layout.n_sigs,
                1 <= layout.num_y <= layout.n_sigs,
                1 <= i_yp <= layout.num_yp,
                1 <= j <= 3,
                stmt.ring == old(stmt).ring,
                stmt.n == old(stmt).n,
                stmt.r == old(stmt).r,
                stmt.beta_sq == old(stmt).beta_sq,
                sf == old(stmt).full@.len(),
                sc == old(stmt).const_term@.len(),
                stmt.full@.subrange(0, sf) == old(stmt).full@,
                stmt.const_term@.subrange(0, sc) == old(stmt).const_term@,
                yp_full_sound(*layout, q, stmt.full@, sf, pf),
                keys_distinct(pf),
                yp_ct_sound(*layout, q, stmt.const_term@, sc, pc),
                keys_distinct(pc),
                yp_full_covered(*layout, pf, wf_, i_yp as int, j as int, 1, 0),
                keys3_before(pf, i_yp as int, j as int, 1, 0),
                yp_ct_covered(*layout, pc, wc, i_yp as int, j as int, 1, 0, 0),
                keys4_before(pc, i_yp as int, j as int, 1, 0, 0),
            decreases 3 - j,
        {
            let yp_vec = layout.yp_idx(i_yp, j);
            let mut k: usize = 1;
            while k <= n
                invariant
                    layout.wf(),
                    ring.wf(),
                    m == &ring.m,
                    q == ring.m.q,
                    n == layout.n_sigs,
                    1 <= layout.rho <= layout.n_sigs,
                    1 <= layout.num_y <= layout.n_sigs,
                    1 <= i_yp <= layout.num_yp,
                    1 <= j <= 2,
                    yp_vec == layout.yp_spec(i_yp as int, j as int),
                    1 <= k <= n + 1,
                    stmt.ring == old(stmt).ring,
                    stmt.n == old(stmt).n,
                    stmt.r == old(stmt).r,
                    stmt.beta_sq == old(stmt).beta_sq,
                    sf == old(stmt).full@.len(),
                    sc == old(stmt).const_term@.len(),
                    stmt.full@.subrange(0, sf) == old(stmt).full@,
                    stmt.const_term@.subrange(0, sc) == old(stmt).const_term@,
                    yp_full_sound(*layout, q, stmt.full@, sf, pf),
                    keys_distinct(pf),
                    yp_ct_sound(*layout, q, stmt.const_term@, sc, pc),
                    keys_distinct(pc),
                    yp_full_covered(*layout, pf, wf_, i_yp as int, j as int, k as int, 0),
                    keys3_before(pf, i_yp as int, j as int, k as int, 0),
                    yp_ct_covered(*layout, pc, wc, i_yp as int, j as int, k as int, 0, 0),
                    keys4_before(pc, i_yp as int, j as int, k as int, 0, 0),
                decreases n + 1 - k,
            {
                let pos = C * (k - 1);
                if layout.index_prime(k) == i_yp {
                    let y_vec = layout.y_idx(layout.index(k), j);
                    let mut t: usize = 0;
                    while t < C
                        invariant
                            layout.wf(),
                            ring.wf(),
                            m == &ring.m,
                            q == ring.m.q,
                            n == layout.n_sigs,
                            1 <= i_yp <= layout.num_yp,
                            1 <= j <= 2,
                            yp_vec == layout.yp_spec(i_yp as int, j as int),
                            y_vec == layout.y_spec(layout.index_spec(k as int), j as int),
                            1 <= k <= n,
                            layout.index_prime_spec(k as int) == i_yp,
                            pos == C * (k - 1),
                            0 <= t <= C,
                            stmt.ring == old(stmt).ring,
                            stmt.n == old(stmt).n,
                            stmt.r == old(stmt).r,
                            stmt.beta_sq == old(stmt).beta_sq,
                            sf == old(stmt).full@.len(),
                            sc == old(stmt).const_term@.len(),
                            stmt.full@.subrange(0, sf) == old(stmt).full@,
                            stmt.const_term@.subrange(0, sc) == old(stmt).const_term@,
                            yp_full_sound(*layout, q, stmt.full@, sf, pf),
                            keys_distinct(pf),
                            yp_ct_sound(*layout, q, stmt.const_term@, sc, pc),
                            keys_distinct(pc),
                            yp_full_covered(*layout, pf, wf_, i_yp as int, j as int, k as int + 1, 0),
                            keys3_before(pf, i_yp as int, j as int, k as int + 1, 0),
                            yp_ct_covered(*layout, pc, wc, i_yp as int, j as int, k as int, t as int, 0),
                            keys4_before(pc, i_yp as int, j as int, k as int, t as int, 0),
                        decreases C - t,
                    {
                        let mut l: usize = 0;
                        while l < D
                            invariant
                                layout.wf(),
                                ring.wf(),
                                m == &ring.m,
                                q == ring.m.q,
                                n == layout.n_sigs,
                                1 <= i_yp <= layout.num_yp,
                                1 <= j <= 2,
                                yp_vec == layout.yp_spec(i_yp as int, j as int),
                                y_vec == layout.y_spec(layout.index_spec(k as int), j as int),
                                1 <= k <= n,
                                layout.index_prime_spec(k as int) == i_yp,
                                pos == C * (k - 1),
                                0 <= t < C,
                                0 <= l <= D,
                                stmt.ring == old(stmt).ring,
                                stmt.n == old(stmt).n,
                                stmt.r == old(stmt).r,
                                stmt.beta_sq == old(stmt).beta_sq,
                                sf == old(stmt).full@.len(),
                                sc == old(stmt).const_term@.len(),
                                stmt.full@.subrange(0, sf) == old(stmt).full@,
                                stmt.const_term@.subrange(0, sc) == old(stmt).const_term@,
                                yp_full_sound(*layout, q, stmt.full@, sf, pf),
                                keys_distinct(pf),
                                yp_ct_sound(*layout, q, stmt.const_term@, sc, pc),
                                keys_distinct(pc),
                                yp_full_covered(*layout, pf, wf_, i_yp as int, j as int, k as int + 1, 0),
                                keys3_before(pf, i_yp as int, j as int, k as int + 1, 0),
                                yp_ct_covered(*layout, pc, wc, i_yp as int, j as int, k as int, t as int, l as int),
                                keys4_before(pc, i_yp as int, j as int, k as int, t as int, l as int),
                            decreases D - l,
                        {
                            let c = sigma_equality_constraint(yp_vec, y_vec, pos + t, l, m);
                            let ghost prev = stmt.const_term@;
                            let ghost prev_pc = pc;
                            stmt.const_term.push(c);
                            proof {
                                let key = (i_yp as int, j as int, (pos + t) as int, l as int);
                                vstd::arithmetic::div_mod::lemma_fundamental_div_mod_converse(
                                    (pos + t) as int,
                                    8,
                                    k - 1,
                                    t as int,
                                );
                                let gi = pc.len() as int;
                                lemma_keys4_push(pc, key, i_yp as int, j as int, k as int, t as int, l as int, i_yp as int, j as int, k as int, t as int, l + 1);
                                pc = pc.push(key);
                                wc = wc.insert(key, gi);
                                assert forall|tt: int| 0 <= tt < pc.len() implies yp_sigma_pos(
                                    *layout,
                                    (#[trigger] pc[tt]).0,
                                    pc[tt].1,
                                    pc[tt].2,
                                    pc[tt].3,
                                ) && is_sigma_eq(
                                    stmt.const_term@[sc + tt],
                                    layout.yp_spec(pc[tt].0, pc[tt].1),
                                    layout.y_spec(layout.index_spec(pc[tt].2 / 8 + 1), pc[tt].1),
                                    pc[tt].2,
                                    pc[tt].3,
                                    q,
                                ) by {
                                    if tt < gi {
                                        assert(stmt.const_term@[sc + tt] == prev[sc + tt]);
                                        assert(pc[tt] == prev_pc[tt]);
                                    }
                                }
                                assert(stmt.const_term@.subrange(0, sc) =~= prev.subrange(0, sc));
                            }
                            l += 1;
                        }
                        t += 1;
                    }
                } else {
                    let mut t: usize = 0;
                    while t < C
                        invariant
                            layout.wf(),
                            ring.wf(),
                            m == &ring.m,
                            q == ring.m.q,
                            n == layout.n_sigs,
                            1 <= i_yp <= layout.num_yp,
                            1 <= j <= 2,
                            yp_vec == layout.yp_spec(i_yp as int, j as int),
                            1 <= k <= n,
                            layout.index_prime_spec(k as int) != i_yp,
                            pos == C * (k - 1),
                            0 <= t <= C,
                            stmt.ring == old(stmt).ring,
                            stmt.n == old(stmt).n,
                            stmt.r == old(stmt).r,
                            stmt.beta_sq == old(stmt).beta_sq,
                            sf == old(stmt).full@.len(),
                            sc == old(stmt).const_term@.len(),
                            stmt.full@.subrange(0, sf) == old(stmt).full@,
                            stmt.const_term@.subrange(0, sc) == old(stmt).const_term@,
                            yp_full_sound(*layout, q, stmt.full@, sf, pf),
                            keys_distinct(pf),
                            yp_ct_sound(*layout, q, stmt.const_term@, sc, pc),
                            keys_distinct(pc),
                            yp_full_covered(*layout, pf, wf_, i_yp as int, j as int, k as int, t as int),
                            keys3_before(pf, i_yp as int, j as int, k as int, t as int),
                            yp_ct_covered(*layout, pc, wc, i_yp as int, j as int, k as int + 1, 0, 0),
                            keys4_before(pc, i_yp as int, j as int, k as int + 1, 0, 0),
                        decreases C - t,
                    {
                        let c = full_zero_constraint(yp_vec, pos + t, m);
                        let ghost prev = stmt.full@;
                        let ghost prev_pf = pf;
                        stmt.full.push(c);
                        proof {
                            let key = (i_yp as int, j as int, (pos + t) as int);
                            vstd::arithmetic::div_mod::lemma_fundamental_div_mod_converse(
                                (pos + t) as int,
                                8,
                                k - 1,
                                t as int,
                            );
                            let gi = pf.len() as int;
                            lemma_keys3_push(pf, key, i_yp as int, j as int, k as int, t as int, i_yp as int, j as int, k as int, t + 1);
                            pf = pf.push(key);
                            wf_ = wf_.insert(key, gi);
                            assert forall|tt: int| 0 <= tt < pf.len() implies yp_zero_pos(
                                *layout,
                                (#[trigger] pf[tt]).0,
                                pf[tt].1,
                                pf[tt].2,
                            ) && is_zero_full(
                                stmt.full@[sf + tt],
                                layout.yp_spec(pf[tt].0, pf[tt].1),
                                pf[tt].2,
                                q,
                            ) by {
                                if tt < gi {
                                    assert(stmt.full@[sf + tt] == prev[sf + tt]);
                                    assert(pf[tt] == prev_pf[tt]);
                                }
                            }
                            assert(stmt.full@.subrange(0, sf) =~= prev.subrange(0, sf));
                        }
                        t += 1;
                    }
                }
                k += 1;
            }
            j += 1;
        }
        i_yp += 1;
    }
    proof {
        assert(q >= 3);
        lemma_yp_post(*layout, q, stmt.full@, sf, pf, wf_, stmt.const_term@, sc, pc, wc);
    }
}


/// Position `p` of `e'_{iyp}` belongs to a signature whose primed block is
/// not `iyp`, so it must be zero.
pub open spec fn ep_zero_pos(l: WitnessLayout, iyp: int, p: int) -> bool {
    &&& 1 <= iyp <= l.num_yp
    &&& 0 <= p < C * l.n_sigs
    &&& l.index_prime_spec(p / 8 + 1) != iyp
}

/// Position `p` of `e'_{iyp}` belongs to a signature whose primed block is
/// `iyp`; coefficient `ll` must match the conjugate of `e`.
pub open spec fn ep_sigma_pos(l: WitnessLayout, iyp: int, p: int, ll: int) -> bool {
    &&& 1 <= iyp <= l.num_yp
    &&& 0 <= p < C * l.n_sigs
    &&& l.index_prime_spec(p / 8 + 1) == iyp
    &&& 0 <= ll < D
}

/// The zero constraints appended so far, one per recorded position.
pub open spec fn ep_full_sound(
    l: WitnessLayout,
    q: int,
    full: Seq<DotConstraint>,
    start: int,
    params: Seq<(int, int)>,
) -> bool {
    &&& full.len() == start + params.len()
    &&& forall|t: int|
        0 <= t < params.len() ==> ep_zero_pos(l, (#[trigger] params[t]).0, params[t].1)
            && is_zero_full(full[start + t], l.ep_spec(params[t].0), params[t].1, q)
}

/// The conjugation constraints appended so far, one per recorded entry.
pub open spec fn ep_ct_sound(
    l: WitnessLayout,
    q: int,
    ct: Seq<ConstTermConstraint>,
    start: int,
    params: Seq<(int, int, int)>,
) -> bool {
    &&& ct.len() == start + params.len()
    &&& forall|t: int|
        0 <= t < params.len() ==> ep_sigma_pos(l, (#[trigger] params[t]).0, params[t].1, params[t].2)
            && is_sigma_eq(
            ct[start + t],
            l.ep_spec(params[t].0),
            l.e_spec(l.index_spec(params[t].1 / 8 + 1)),
            params[t].1,
            params[t].2,
            q,
        )
}

/// Every zero position before `(a, b, c)` has been recorded.
pub open spec fn ep_full_covered(
    l: WitnessLayout,
    params: Seq<(int, int)>,
    wh: Map<(int, int), int>,
    a: int,
    b: int,
    c: int,
) -> bool {
    forall|iyp: int, p: int|
        #[trigger] ep_zero_pos(l, iyp, p) && lex_before(iyp, p / 8 + 1, p % 8, 0, a, b, c, 0)
            ==> wh.dom().contains((iyp, p)) && 0 <= wh[(iyp, p)] < params.len()
            && params[wh[(iyp, p)]] == (iyp, p)
}

/// Every conjugation entry before `(a, b, c, d)` has been recorded.
pub open spec fn ep_ct_covered(
    l: WitnessLayout,
    params: Seq<(int, int, int)>,
    wh: Map<(int, int, int), int>,
    a: int,
    b: int,
    c: int,
    d: int,
) -> bool {
    forall|iyp: int, p: int, ll: int|
        #[trigger] ep_sigma_pos(l, iyp, p, ll) && lex_before(iyp, p / 8 + 1, p % 8, ll, a, b, c, d)
            ==> wh.dom().contains((iyp, p, ll)) && 0 <= wh[(iyp, p, ll)] < params.len()
            && params[wh[(iyp, p, ll)]] == (iyp, p, ll)
}

/// The postconditions of [`add_form_constraints_ep`] from its loop invariants.
proof fn lemma_ep_post(
    l: WitnessLayout,
    q: int,
    full: Seq<DotConstraint>,
    sf: int,
    pf: Seq<(int, int)>,
    wf_: Map<(int, int), int>,
    ct: Seq<ConstTermConstraint>,
    sc: int,
    pc: Seq<(int, int, int)>,
    wc: Map<(int, int, int), int>,
)
    requires
        l.wf(),
        q >= 3,
        0 <= sf,
        0 <= sc,
        ep_full_sound(l, q, full, sf, pf),
        ep_ct_sound(l, q, ct, sc, pc),
        keys_distinct(pf),
        keys_distinct(pc),
        ep_full_covered(l, pf, wf_, l.num_yp + 1, 1, 0),
        ep_ct_covered(l, pc, wc, l.num_yp + 1, 1, 0, 0),
    ensures
        forall|t: int|
            sf <= t < full.len() ==> (#[trigger] full[t]).a@.len() == 0 && exists|iyp: int, p: int|
                #![trigger ep_zero_pos(l, iyp, p)]
                ep_zero_pos(l, iyp, p) && is_zero_full(
                    full[t],
                    l.ep_spec(iyp),
                    p,
                    q,
                ),
        forall|iyp: int, p: int|
            #[trigger] ep_zero_pos(l, iyp, p) ==> exists|t: int|
                sf <= t < full.len() && is_zero_full(
                    #[trigger] full[t],
                    l.ep_spec(iyp),
                    p,
                    q,
                ),
        forall|t: int|
            sc <= t < ct.len() ==> (#[trigger] ct[t]).b0 == 0 && exists|iyp: int, p: int, ll: int|
                #![trigger ep_sigma_pos(l, iyp, p, ll)]
                ep_sigma_pos(l, iyp, p, ll) && is_sigma_eq(
                    ct[t],
                    l.ep_spec(iyp),
                    l.e_spec(l.index_spec(p / 8 + 1)),
                    p,
                    ll,
                    q,
                ),
        forall|iyp: int, p: int, ll: int|
            #[trigger] ep_sigma_pos(l, iyp, p, ll) ==> exists|t: int|
                sc <= t < ct.len() && is_sigma_eq(
                    #[trigger] ct[t],
                    l.ep_spec(iyp),
                    l.e_spec(l.index_spec(p / 8 + 1)),
                    p,
                    ll,
                    q,
                ),
        distinct_from(full, sf),
        distinct_from(ct, sc),
{
        assert forall|t: int|
            sf <= t < full.len() implies (#[trigger] full[t]).a@.len() == 0 && exists|iyp: int, p: int|
                #![trigger ep_zero_pos(l, iyp, p)]
                ep_zero_pos(l, iyp, p) && is_zero_full(
                    full[t],
                    l.ep_spec(iyp),
                    p,
                    q,
                ) by {
            let pr = pf[t - sf];
            assert(ep_zero_pos(l, pr.0, pr.1));
            assert(sf + (t - sf) == t);
        }
        assert forall|iyp: int, p: int|
            #[trigger] ep_zero_pos(l, iyp, p) implies exists|t: int|
                sf <= t < full.len() && is_zero_full(
                    #[trigger] full[t],
                    l.ep_spec(iyp),
                    p,
                    q,
                ) by {
            let tt = wf_[(iyp, p)];
            assert(pf[tt] == (iyp, p));
            assert(is_zero_full(full[sf + tt], l.ep_spec(iyp), p, q));
        }
        assert forall|t: int|
            sc <= t < ct.len() implies (#[trigger] ct[t]).b0 == 0 && exists|iyp: int, p: int, ll: int|
                #![trigger ep_sigma_pos(l, iyp, p, ll)]
                ep_sigma_pos(l, iyp, p, ll) && is_sigma_eq(
                    ct[t],
                    l.ep_spec(iyp),
                    l.e_spec(l.index_spec(p / 8 + 1)),
                    p,
                    ll,
                    q,
                ) by {
            let pr = pc[t - sc];
            assert(ep_sigma_pos(l, pr.0, pr.1, pr.2));
            assert(sc + (t - sc) == t);
        }
        assert forall|iyp: int, p: int, ll: int|
            #[trigger] ep_sigma_pos(l, iyp, p, ll) implies exists|t: int|
                sc <= t < ct.len() && is_sigma_eq(
                    #[trigger] ct[t],
                    l.ep_spec(iyp),
                    l.e_spec(l.index_spec(p / 8 + 1)),
                    p,
                    ll,
                    q,
                ) by {
            let tt = wc[(iyp, p, ll)];
            assert(pc[tt] == (iyp, p, ll));
            assert(is_sigma_eq(
                ct[sc + tt],
                l.ep_spec(iyp),
                l.e_spec(l.index_spec(p / 8 + 1)),
                p,
                ll,
                q,
            ));
        }
        assert(q >= 3);
        lemma_ep_full_distinct(l, q, full, sf, pf);
        lemma_ep_ct_distinct(l, q, ct, sc, pc);
}

/// Conjugation + padding for the `e'_·` vectors: matching positions equate
/// `e'_{iyp}[k] = σ_{-1}(e_{index(k)}[k])` coefficient-wise; non-matching
/// positions are zero in `R`. Appends, in some order, exactly one constraint
/// per such position (and nothing else); all other parts of the statement
/// are unchanged.
#[verifier::spinoff_prover]
#[verifier::rlimit(100)]
pub fn add_form_constraints_ep(stmt: &mut Statement, layout: &WitnessLayout, ring: &Ring)
    requires
        layout.wf(),
        ring.wf(),
    ensures
        final(stmt).ring == old(stmt).ring,
        final(stmt).n == old(stmt).n,
        final(stmt).r == old(stmt).r,
        final(stmt).beta_sq == old(stmt).beta_sq,
        final(stmt).full@.subrange(0, old(stmt).full@.len() as int) == old(stmt).full@,
        final(stmt).const_term@.subrange(0, old(stmt).const_term@.len() as int)
            == old(stmt).const_term@,
        final(stmt).full@.len() >= old(stmt).full@.len(),
        final(stmt).const_term@.len() >= old(stmt).const_term@.len(),
        forall|t: int|
            old(stmt).full@.len() <= t < final(stmt).full@.len() ==> (#[trigger] final(stmt).full@[t]).a@.len() == 0 && exists|iyp: int, p: int|
                #![trigger ep_zero_pos(*layout, iyp, p)]
                ep_zero_pos(*layout, iyp, p) && is_zero_full(
                    final(stmt).full@[t],
                    layout.ep_spec(iyp),
                    p,
                    ring.m.q as int,
                ),
        forall|iyp: int, p: int|
            #[trigger] ep_zero_pos(*layout, iyp, p) ==> exists|t: int|
                old(stmt).full@.len() <= t < final(stmt).full@.len() && is_zero_full(
                    #[trigger] final(stmt).full@[t],
                    layout.ep_spec(iyp),
                    p,
                    ring.m.q as int,
                ),
        forall|t: int|
            old(stmt).const_term@.len() <= t < final(stmt).const_term@.len() ==> (#[trigger] final(stmt).const_term@[t]).b0 == 0 && exists|iyp: int, p: int, ll: int|
                #![trigger ep_sigma_pos(*layout, iyp, p, ll)]
                ep_sigma_pos(*layout, iyp, p, ll) && is_sigma_eq(
                    final(stmt).const_term@[t],
                    layout.ep_spec(iyp),
                    layout.e_spec(layout.index_spec(p / 8 + 1)),
                    p,
                    ll,
                    ring.m.q as int,
                ),
        forall|iyp: int, p: int, ll: int|
            #[trigger] ep_sigma_pos(*layout, iyp, p, ll) ==> exists|t: int|
                old(stmt).const_term@.len() <= t < final(stmt).const_term@.len() && is_sigma_eq(
                    #[trigger] final(stmt).const_term@[t],
                    layout.ep_spec(iyp),
                    layout.e_spec(layout.index_spec(p / 8 + 1)),
                    p,
                    ll,
                    ring.m.q as int,
                ),
        distinct_from(final(stmt).full@, old(stmt).full@.len() as int),
        distinct_from(final(stmt).const_term@, old(stmt).const_term@.len() as int),
{
    let m = &ring.m;
    let n = layout.n_sigs;
    let ghost q = ring.m.q as int;
    let ghost sf = stmt.full@.len() as int;
    let ghost sc = stmt.const_term@.len() as int;
    let ghost mut pf: Seq<(int, int)> = Seq::empty();
    let ghost mut wf_: Map<(int, int), int> = Map::empty();
    let ghost mut pc: Seq<(int, int, int)> = Seq::empty();
    let ghost mut wc: Map<(int, int, int), int> = Map::empty();
    proof {
        layout.lemma_counts();
    }
    let mut i_ep: usize = 1;
    while i_ep <= layout.num_yp
        invariant
            layout.wf(),
            ring.wf(),
            m == &ring.m,
            q == ring.m.q,
            n == layout.n_sigs,
            1 <= layout.rho <= layout.n_sigs,
            1 <= layout.num_y <= layout.n_sigs,
            stmt.ring == old(stmt).ring,
            stmt.n == old(stmt).n,
            stmt.r == old(stmt).r,
            stmt.beta_sq == old(stmt).beta_sq,
            sf == old(stmt).full@.len(),
            sc == old(stmt).const_term@.len(),
            stmt.full@.subrange(0, sf) == old(stmt).full@,
            stmt.const_term@.subrange(0, sc) == old(stmt).const_term@,
            1 <= i_ep <= layout.num_yp + 1,
            ep_full_sound(*layout, q, stmt.full@, sf, pf),
            keys_distinct(pf),
            ep_ct_sound(*layout, q, stmt.const_term@, sc, pc),
            keys_distinct(pc),
            ep_full_covered(*layout, pf, wf_, i_ep as int, 1, 0),
            keys2_before(pf, i_ep as int, 1, 0),
            ep_ct_covered(*layout, pc, wc, i_ep as int, 1, 0, 0),
            keys3l_before(pc, i_ep as int, 1, 0, 0),
        decreases layout.num_yp + 1 - i_ep,
    {
        let ep_vec = layout.ep_idx(i_ep);
        let mut k: usize = 1;
        while k <= n
            invariant
                layout.wf(),
                ring.wf(),
                m == &ring.m,
                q == ring.m.q,
                n == layout.n_sigs,
                1 <= layout.rho <= layout.n_sigs,
                1 <= layout.num_y <= layout.n_sigs,
                stmt.ring == old(stmt).ring,
                stmt.n == old(stmt).n,
                stmt.r == old(stmt).r,
                stmt.beta_sq == old(stmt).beta_sq,
                sf == old(stmt).full@.len(),
                sc == old(stmt).const_term@.len(),
                stmt.full@.subrange(0, sf) == old(stmt).full@,
                stmt.const_term@.subrange(0, sc) == old(stmt).const_term@,
                1 <= i_ep <= layout.num_yp,
                ep_vec == layout.ep_spec(i_ep as int),
                1 <= k <= n + 1,
                ep_full_sound(*layout, q, stmt.full@, sf, pf),
                keys_distinct(pf),
                ep_ct_sound(*layout, q, stmt.const_term@, sc, pc),
                keys_distinct(pc),
                ep_full_covered(*layout, pf, wf_, i_ep as int, k as int, 0),
                keys2_before(pf, i_ep as int, k as int, 0),
                ep_ct_covered(*layout, pc, wc, i_ep as int, k as int, 0, 0),
                keys3l_before(pc, i_ep as int, k as int, 0, 0),
            decreases n + 1 - k,
        {
            let pos = C * (k - 1);
            if layout.index_prime(k) == i_ep {
                let e_vec = layout.e_idx(layout.index(k));
                let mut t: usize = 0;
                while t < C
                    invariant
                        layout.wf(),
                        ring.wf(),
                        m == &ring.m,
                        q == ring.m.q,
                        n == layout.n_sigs,
                        1 <= layout.rho <= layout.n_sigs,
                        1 <= layout.num_y <= layout.n_sigs,
                        stmt.ring == old(stmt).ring,
                        stmt.n == old(stmt).n,
                        stmt.r == old(stmt).r,
                        stmt.beta_sq == old(stmt).beta_sq,
                        sf == old(stmt).full@.len(),
                        sc == old(stmt).const_term@.len(),
                        stmt.full@.subrange(0, sf) == old(stmt).full@,
                        stmt.const_term@.subrange(0, sc) == old(stmt).const_term@,
                        1 <= i_ep <= layout.num_yp,
                        ep_vec == layout.ep_spec(i_ep as int),
                        e_vec == layout.e_spec(layout.index_spec(k as int)),
                        1 <= k <= n,
                        layout.index_prime_spec(k as int) == i_ep,
                        pos == C * (k - 1),
                        0 <= t <= C,
                        ep_full_sound(*layout, q, stmt.full@, sf, pf),
                        keys_distinct(pf),
                        ep_ct_sound(*layout, q, stmt.const_term@, sc, pc),
                        keys_distinct(pc),
                        ep_full_covered(*layout, pf, wf_, i_ep as int, k as int + 1, 0),
                        keys2_before(pf, i_ep as int, k as int + 1, 0),
                        ep_ct_covered(*layout, pc, wc, i_ep as int, k as int, t as int, 0),
                        keys3l_before(pc, i_ep as int, k as int, t as int, 0),
                    decreases C - t,
                {
                    let mut l: usize = 0;
                    while l < D
                        invariant
                            layout.wf(),
                            ring.wf(),
                            m == &ring.m,
                            q == ring.m.q,
                            n == layout.n_sigs,
                            1 <= layout.rho <= layout.n_sigs,
                            1 <= layout.num_y <= layout.n_sigs,
                            stmt.ring == old(stmt).ring,
                            stmt.n == old(stmt).n,
                            stmt.r == old(stmt).r,
                            stmt.beta_sq == old(stmt).beta_sq,
                            sf == old(stmt).full@.len(),
                            sc == old(stmt).const_term@.len(),
                            stmt.full@.subrange(0, sf) == old(stmt).full@,
                            stmt.const_term@.subrange(0, sc) == old(stmt).const_term@,
                            1 <= i_ep <= layout.num_yp,
                            ep_vec == layout.ep_spec(i_ep as int),
                            e_vec == layout.e_spec(layout.index_spec(k as int)),
                            1 <= k <= n,
                            layout.index_prime_spec(k as int) == i_ep,
                            pos == C * (k - 1),
                            0 <= t < C,
                            0 <= l <= D,
                            ep_full_sound(*layout, q, stmt.full@, sf, pf),
                            keys_distinct(pf),
                            ep_ct_sound(*layout, q, stmt.const_term@, sc, pc),
                            keys_distinct(pc),
                            ep_full_covered(*layout, pf, wf_, i_ep as int, k as int + 1, 0),
                            keys2_before(pf, i_ep as int, k as int + 1, 0),
                            ep_ct_covered(*layout, pc, wc, i_ep as int, k as int, t as int, l as int),
                            keys3l_before(pc, i_ep as int, k as int, t as int, l as int),
                        decreases D - l,
                    {
                        let c = sigma_equality_constraint(ep_vec, e_vec, pos + t, l, m);
                        let ghost prev = stmt.const_term@;
                        let ghost prev_pc = pc;
                        stmt.const_term.push(c);
                        proof {
                            let key = (i_ep as int, (pos + t) as int, l as int);
                            vstd::arithmetic::div_mod::lemma_fundamental_div_mod_converse(
                                (pos + t) as int,
                                8,
                                k - 1,
                                t as int,
                            );
                            let gi = pc.len() as int;
                            lemma_keys3l_push(pc, key, i_ep as int, k as int, t as int, l as int, i_ep as int, k as int, t as int, l + 1);
                            pc = pc.push(key);
                            wc = wc.insert(key, gi);
                            assert forall|tt: int| 0 <= tt < pc.len() implies ep_sigma_pos(
                                *layout,
                                (#[trigger] pc[tt]).0,
                                pc[tt].1,
                                pc[tt].2,
                            ) && is_sigma_eq(
                                stmt.const_term@[sc + tt],
                                layout.ep_spec(pc[tt].0),
                                layout.e_spec(layout.index_spec(pc[tt].1 / 8 + 1)),
                                pc[tt].1,
                                pc[tt].2,
                                q,
                            ) by {
                                if tt < gi {
                                    assert(stmt.const_term@[sc + tt] == prev[sc + tt]);
                                    assert(pc[tt] == prev_pc[tt]);
                                }
                            }
                            assert(stmt.const_term@.subrange(0, sc) =~= prev.subrange(0, sc));
                        }
                        l += 1;
                    }
                    t += 1;
                }
            } else {
                let mut t: usize = 0;
                while t < C
                    invariant
                        layout.wf(),
                        ring.wf(),
                        m == &ring.m,
                        q == ring.m.q,
                        n == layout.n_sigs,
                        1 <= layout.rho <= layout.n_sigs,
                        1 <= layout.num_y <= layout.n_sigs,
                        stmt.ring == old(stmt).ring,
                        stmt.n == old(stmt).n,
                        stmt.r == old(stmt).r,
                        stmt.beta_sq == old(stmt).beta_sq,
                        sf == old(stmt).full@.len(),
                        sc == old(stmt).const_term@.len(),
                        stmt.full@.subrange(0, sf) == old(stmt).full@,
                        stmt.const_term@.subrange(0, sc) == old(stmt).const_term@,
                        1 <= i_ep <= layout.num_yp,
                        ep_vec == layout.ep_spec(i_ep as int),
                        1 <= k <= n,
                        layout.index_prime_spec(k as int) != i_ep,
                        pos == C * (k - 1),
                        0 <= t <= C,
                        ep_full_sound(*layout, q, stmt.full@, sf, pf),
                        keys_distinct(pf),
                        ep_ct_sound(*layout, q, stmt.const_term@, sc, pc),
                        keys_distinct(pc),
                        ep_full_covered(*layout, pf, wf_, i_ep as int, k as int, t as int),
                        keys2_before(pf, i_ep as int, k as int, t as int),
                        ep_ct_covered(*layout, pc, wc, i_ep as int, k as int + 1, 0, 0),
                        keys3l_before(pc, i_ep as int, k as int + 1, 0, 0),
                    decreases C - t,
                {
                    let c = full_zero_constraint(ep_vec, pos + t, m);
                    let ghost prev = stmt.full@;
                    let ghost prev_pf = pf;
                    stmt.full.push(c);
                    proof {
                        let key = (i_ep as int, (pos + t) as int);
                        vstd::arithmetic::div_mod::lemma_fundamental_div_mod_converse(
                            (pos + t) as int,
                            8,
                            k - 1,
                            t as int,
                        );
                        let gi = pf.len() as int;
                        lemma_keys2_push(pf, key, i_ep as int, k as int, t as int, i_ep as int, k as int, t + 1);
                        pf = pf.push(key);
                        wf_ = wf_.insert(key, gi);
                        assert forall|tt: int| 0 <= tt < pf.len() implies ep_zero_pos(
                            *layout,
                            (#[trigger] pf[tt]).0,
                            pf[tt].1,
                        ) && is_zero_full(stmt.full@[sf + tt], layout.ep_spec(pf[tt].0), pf[tt].1, q) by {
                            if tt < gi {
                                assert(stmt.full@[sf + tt] == prev[sf + tt]);
                                assert(pf[tt] == prev_pf[tt]);
                            }
                        }
                        assert(stmt.full@.subrange(0, sf) =~= prev.subrange(0, sf));
                    }
                    t += 1;
                }
            }
            k += 1;
        }
        i_ep += 1;
    }
    proof {
        assert(q >= 3);
        lemma_ep_post(*layout, q, stmt.full@, sf, pf, wf_, stmt.const_term@, sc, pc, wc);
    }
}


/// Position `p` of `e_{iy}` must be zero: it belongs to a signature outside
/// block `iy`, or to slot 4..7.
pub open spec fn e_zero_pos(l: WitnessLayout, iy: int, p: int) -> bool {
    &&& 1 <= iy <= l.num_y
    &&& 0 <= p < C * l.n_sigs
    &&& (l.index_spec(p / 8 + 1) != iy || p % 8 >= 4)
}

/// Coefficient `ll ≥ 1` of position `p` of `e_{iy}` must be zero (slots
/// 0..3 of an in-block position hold a constant).
pub open spec fn e_coef_pos(l: WitnessLayout, iy: int, p: int, ll: int) -> bool {
    &&& 1 <= iy <= l.num_y
    &&& 0 <= p < C * l.n_sigs
    &&& l.index_spec(p / 8 + 1) == iy
    &&& p % 8 < 4
    &&& 1 <= ll < D
}

/// The zero constraints appended so far, one per recorded position.
pub open spec fn ef_sound(
    l: WitnessLayout,
    q: int,
    full: Seq<DotConstraint>,
    start: int,
    params: Seq<(int, int)>,
) -> bool {
    &&& full.len() == start + params.len()
    &&& forall|t: int|
        0 <= t < params.len() ==> e_zero_pos(l, (#[trigger] params[t]).0, params[t].1)
            && is_zero_full(full[start + t], l.e_spec(params[t].0), params[t].1, q)
}

/// The coefficient constraints appended so far, one per recorded entry.
pub open spec fn ec_sound(
    l: WitnessLayout,
    q: int,
    ct: Seq<ConstTermConstraint>,
    start: int,
    params: Seq<(int, int, int)>,
) -> bool {
    &&& ct.len() == start + params.len()
    &&& forall|t: int|
        0 <= t < params.len() ==> e_coef_pos(l, (#[trigger] params[t]).0, params[t].1, params[t].2)
            && is_coef_zero(ct[start + t], l.e_spec(params[t].0), params[t].1, params[t].2, q)
}

/// Every zero position before `(a, b, c)` has been recorded.
pub open spec fn ef_covered(
    l: WitnessLayout,
    params: Seq<(int, int)>,
    wh: Map<(int, int), int>,
    a: int,
    b: int,
    c: int,
) -> bool {
    forall|iy: int, p: int|
        #[trigger] e_zero_pos(l, iy, p) && lex_before(iy, p / 8 + 1, p % 8, 0, a, b, c, 0)
            ==> wh.dom().contains((iy, p)) && 0 <= wh[(iy, p)] < params.len()
            && params[wh[(iy, p)]] == (iy, p)
}

/// Every coefficient entry before `(a, b, c, d)` has been recorded.
pub open spec fn ec_covered(
    l: WitnessLayout,
    params: Seq<(int, int, int)>,
    wh: Map<(int, int, int), int>,
    a: int,
    b: int,
    c: int,
    d: int,
) -> bool {
    forall|iy: int, p: int, ll: int|
        #[trigger] e_coef_pos(l, iy, p, ll) && lex_before(iy, p / 8 + 1, p % 8, ll, a, b, c, d)
            ==> wh.dom().contains((iy, p, ll)) && 0 <= wh[(iy, p, ll)] < params.len()
            && params[wh[(iy, p, ll)]] == (iy, p, ll)
}

/// The postconditions of [`add_form_constraints_e`] from its loop invariants.
proof fn lemma_e_post(
    l: WitnessLayout,
    q: int,
    full: Seq<DotConstraint>,
    sf: int,
    pf: Seq<(int, int)>,
    wf_: Map<(int, int), int>,
    ct: Seq<ConstTermConstraint>,
    sc: int,
    pc: Seq<(int, int, int)>,
    wc: Map<(int, int, int), int>,
)
    requires
        l.wf(),
        q >= 3,
        0 <= sf,
        0 <= sc,
        ef_sound(l, q, full, sf, pf),
        ec_sound(l, q, ct, sc, pc),
        keys_distinct(pf),
        keys_distinct(pc),
        ef_covered(l, pf, wf_, l.num_y + 1, 1, 0),
        ec_covered(l, pc, wc, l.num_y + 1, 1, 0, 0),
    ensures
        forall|t: int|
            sf <= t < full.len() ==> (#[trigger] full[t]).a@.len() == 0 && exists|iy: int, p: int|
                #![trigger e_zero_pos(l, iy, p)]
                e_zero_pos(l, iy, p) && is_zero_full(
                    full[t],
                    l.e_spec(iy),
                    p,
                    q,
                ),
        forall|iy: int, p: int|
            #[trigger] e_zero_pos(l, iy, p) ==> exists|t: int|
                sf <= t < full.len() && is_zero_full(
                    #[trigger] full[t],
                    l.e_spec(iy),
                    p,
                    q,
                ),
        forall|t: int|
            sc <= t < ct.len() ==> (#[trigger] ct[t]).b0 == 0 && exists|iy: int, p: int, ll: int|
                #![trigger e_coef_pos(l, iy, p, ll)]
                e_coef_pos(l, iy, p, ll) && is_coef_zero(
                    ct[t],
                    l.e_spec(iy),
                    p,
                    ll,
                    q,
                ),
        forall|iy: int, p: int, ll: int|
            #[trigger] e_coef_pos(l, iy, p, ll) ==> exists|t: int|
                sc <= t < ct.len() && is_coef_zero(
                    #[trigger] ct[t],
                    l.e_spec(iy),
                    p,
                    ll,
                    q,
                ),
        distinct_from(full, sf),
        distinct_from(ct, sc),
{
        assert forall|t: int|
            sf <= t < full.len() implies (#[trigger] full[t]).a@.len() == 0 && exists|iy: int, p: int|
                #![trigger e_zero_pos(l, iy, p)]
                e_zero_pos(l, iy, p) && is_zero_full(
                    full[t],
                    l.e_spec(iy),
                    p,
                    q,
                ) by {
            let pr = pf[t - sf];
            assert(e_zero_pos(l, pr.0, pr.1));
            assert(sf + (t - sf) == t);
        }
        assert forall|iy: int, p: int|
            #[trigger] e_zero_pos(l, iy, p) implies exists|t: int|
                sf <= t < full.len() && is_zero_full(
                    #[trigger] full[t],
                    l.e_spec(iy),
                    p,
                    q,
                ) by {
            let tt = wf_[(iy, p)];
            assert(pf[tt] == (iy, p));
            assert(is_zero_full(full[sf + tt], l.e_spec(iy), p, q));
        }
        assert forall|t: int|
            sc <= t < ct.len() implies (#[trigger] ct[t]).b0 == 0 && exists|iy: int, p: int, ll: int|
                #![trigger e_coef_pos(l, iy, p, ll)]
                e_coef_pos(l, iy, p, ll) && is_coef_zero(
                    ct[t],
                    l.e_spec(iy),
                    p,
                    ll,
                    q,
                ) by {
            let pr = pc[t - sc];
            assert(e_coef_pos(l, pr.0, pr.1, pr.2));
            assert(sc + (t - sc) == t);
        }
        assert forall|iy: int, p: int, ll: int|
            #[trigger] e_coef_pos(l, iy, p, ll) implies exists|t: int|
                sc <= t < ct.len() && is_coef_zero(
                    #[trigger] ct[t],
                    l.e_spec(iy),
                    p,
                    ll,
                    q,
                ) by {
            let tt = wc[(iy, p, ll)];
            assert(pc[tt] == (iy, p, ll));
            assert(is_coef_zero(ct[sc + tt], l.e_spec(iy), p, ll, q));
        }
        assert(q >= 3);
        lemma_ef_distinct(l, q, full, sf, pf);
        lemma_ec_distinct(l, q, ct, sc, pc);
}

/// Structure + padding for the `e_·` vectors: in-block positions hold an
/// `ε` of degree < 4 (only coefficient 0 of slots 0..3 is free), everything
/// else is zero. Appends, in some order, exactly one constraint per such
/// position or coefficient (and nothing else); all other parts of the
/// statement are unchanged.
#[verifier::spinoff_prover]
#[verifier::rlimit(100)]
pub fn add_form_constraints_e(stmt: &mut Statement, layout: &WitnessLayout, ring: &Ring)
    requires
        layout.wf(),
        ring.wf(),
    ensures
        final(stmt).ring == old(stmt).ring,
        final(stmt).n == old(stmt).n,
        final(stmt).r == old(stmt).r,
        final(stmt).beta_sq == old(stmt).beta_sq,
        final(stmt).full@.subrange(0, old(stmt).full@.len() as int) == old(stmt).full@,
        final(stmt).const_term@.subrange(0, old(stmt).const_term@.len() as int)
            == old(stmt).const_term@,
        final(stmt).full@.len() >= old(stmt).full@.len(),
        final(stmt).const_term@.len() >= old(stmt).const_term@.len(),
        forall|t: int|
            old(stmt).full@.len() <= t < final(stmt).full@.len() ==> (#[trigger] final(stmt).full@[t]).a@.len() == 0 && exists|iy: int, p: int|
                #![trigger e_zero_pos(*layout, iy, p)]
                e_zero_pos(*layout, iy, p) && is_zero_full(
                    final(stmt).full@[t],
                    layout.e_spec(iy),
                    p,
                    ring.m.q as int,
                ),
        forall|iy: int, p: int|
            #[trigger] e_zero_pos(*layout, iy, p) ==> exists|t: int|
                old(stmt).full@.len() <= t < final(stmt).full@.len() && is_zero_full(
                    #[trigger] final(stmt).full@[t],
                    layout.e_spec(iy),
                    p,
                    ring.m.q as int,
                ),
        forall|t: int|
            old(stmt).const_term@.len() <= t < final(stmt).const_term@.len() ==> (#[trigger] final(stmt).const_term@[t]).b0 == 0 && exists|iy: int, p: int, ll: int|
                #![trigger e_coef_pos(*layout, iy, p, ll)]
                e_coef_pos(*layout, iy, p, ll) && is_coef_zero(
                    final(stmt).const_term@[t],
                    layout.e_spec(iy),
                    p,
                    ll,
                    ring.m.q as int,
                ),
        forall|iy: int, p: int, ll: int|
            #[trigger] e_coef_pos(*layout, iy, p, ll) ==> exists|t: int|
                old(stmt).const_term@.len() <= t < final(stmt).const_term@.len() && is_coef_zero(
                    #[trigger] final(stmt).const_term@[t],
                    layout.e_spec(iy),
                    p,
                    ll,
                    ring.m.q as int,
                ),
        distinct_from(final(stmt).full@, old(stmt).full@.len() as int),
        distinct_from(final(stmt).const_term@, old(stmt).const_term@.len() as int),
{
    let m = &ring.m;
    let n = layout.n_sigs;
    let ghost q = ring.m.q as int;
    let ghost sf = stmt.full@.len() as int;
    let ghost sc = stmt.const_term@.len() as int;
    let ghost mut pf: Seq<(int, int)> = Seq::empty();
    let ghost mut wf_: Map<(int, int), int> = Map::empty();
    let ghost mut pc: Seq<(int, int, int)> = Seq::empty();
    let ghost mut wc: Map<(int, int, int), int> = Map::empty();
    proof {
        layout.lemma_counts();
    }
    let mut i_y: usize = 1;
    while i_y <= layout.num_y
        invariant
            layout.wf(),
            ring.wf(),
            m == &ring.m,
            q == ring.m.q,
            n == layout.n_sigs,
            1 <= layout.rho <= layout.n_sigs,
            1 <= layout.num_y <= layout.n_sigs,
            stmt.ring == old(stmt).ring,
            stmt.n == old(stmt).n,
            stmt.r == old(stmt).r,
            stmt.beta_sq == old(stmt).beta_sq,
            sf == old(stmt).full@.len(),
            sc == old(stmt).const_term@.len(),
            stmt.full@.subrange(0, sf) == old(stmt).full@,
            stmt.const_term@.subrange(0, sc) == old(stmt).const_term@,
            ef_sound(*layout, q, stmt.full@, sf, pf),
            keys_distinct(pf),
            ec_sound(*layout, q, stmt.const_term@, sc, pc),
            keys_distinct(pc),
            1 <= i_y <= layout.num_y + 1,
            ef_covered(*layout, pf, wf_, i_y as int, 1, 0),
            keys2_before(pf, i_y as int, 1, 0),
            ec_covered(*layout, pc, wc, i_y as int, 1, 0, 0),
            keys3l_before(pc, i_y as int, 1, 0, 0),
        decreases layout.num_y + 1 - i_y,
    {
        proof {
            assert((i_y - 1) * layout.rho <= (layout.num_y - 1) * layout.rho) by (nonlinear_arith)
                requires
                    1 <= i_y <= layout.num_y,
                    layout.rho >= 1,
            ;
            assert(i_y * layout.rho <= layout.num_y * layout.rho) by (nonlinear_arith)
                requires
                    1 <= i_y <= layout.num_y,
                    layout.rho >= 1,
            ;
            layout.lemma_counts();
            assert(layout.num_y * layout.rho == (layout.num_y - 1) * layout.rho + layout.rho) by (nonlinear_arith);
        }
        let k_lo = (i_y - 1) * layout.rho + 1;
        let k_hi = if i_y * layout.rho < n { i_y * layout.rho } else { n };
        let e_vec = layout.e_idx(i_y);
        let mut k: usize = 1;
        while k <= n
            invariant
                layout.wf(),
                ring.wf(),
                m == &ring.m,
                q == ring.m.q,
                n == layout.n_sigs,
                1 <= layout.rho <= layout.n_sigs,
                1 <= layout.num_y <= layout.n_sigs,
                stmt.ring == old(stmt).ring,
                stmt.n == old(stmt).n,
                stmt.r == old(stmt).r,
                stmt.beta_sq == old(stmt).beta_sq,
                sf == old(stmt).full@.len(),
                sc == old(stmt).const_term@.len(),
                stmt.full@.subrange(0, sf) == old(stmt).full@,
                stmt.const_term@.subrange(0, sc) == old(stmt).const_term@,
                ef_sound(*layout, q, stmt.full@, sf, pf),
                keys_distinct(pf),
                ec_sound(*layout, q, stmt.const_term@, sc, pc),
                keys_distinct(pc),
                1 <= i_y <= layout.num_y,
                k_lo == (i_y - 1) * layout.rho + 1,
                k_hi == (if i_y * layout.rho < n { i_y * layout.rho } else { n as int }),
                e_vec == layout.e_spec(i_y as int),
                1 <= k <= n + 1,
                ef_covered(*layout, pf, wf_, i_y as int, k as int, 0),
                keys2_before(pf, i_y as int, k as int, 0),
                ec_covered(*layout, pc, wc, i_y as int, k as int, 0, 0),
                keys3l_before(pc, i_y as int, k as int, 0, 0),
            decreases n + 1 - k,
        {
            proof {
                lemma_index_range(layout.rho as int, k as int, i_y as int);
            }
            let pos = C * (k - 1);
            let inblock = k_lo <= k && k <= k_hi;
            let mut t: usize = 0;
            while t < C
                invariant
                    layout.wf(),
                    ring.wf(),
                    m == &ring.m,
                    q == ring.m.q,
                    n == layout.n_sigs,
                    1 <= layout.rho <= layout.n_sigs,
                    1 <= layout.num_y <= layout.n_sigs,
                    stmt.ring == old(stmt).ring,
                    stmt.n == old(stmt).n,
                    stmt.r == old(stmt).r,
                    stmt.beta_sq == old(stmt).beta_sq,
                    sf == old(stmt).full@.len(),
                    sc == old(stmt).const_term@.len(),
                    stmt.full@.subrange(0, sf) == old(stmt).full@,
                    stmt.const_term@.subrange(0, sc) == old(stmt).const_term@,
                    ef_sound(*layout, q, stmt.full@, sf, pf),
                    keys_distinct(pf),
                    ec_sound(*layout, q, stmt.const_term@, sc, pc),
                    keys_distinct(pc),
                    1 <= i_y <= layout.num_y,
                    e_vec == layout.e_spec(i_y as int),
                    1 <= k <= n,
                    inblock == (layout.index_spec(k as int) == i_y),
                    pos == C * (k - 1),
                    0 <= t <= C,
                    ef_covered(*layout, pf, wf_, i_y as int, k as int, t as int),
                    keys2_before(pf, i_y as int, k as int, t as int),
                    inblock ==> ec_covered(*layout, pc, wc, i_y as int, k as int, t as int, 0),
                    inblock ==> keys3l_before(pc, i_y as int, k as int, t as int, 0),
                    !inblock ==> ec_covered(*layout, pc, wc, i_y as int, k as int + 1, 0, 0),
                    !inblock ==> keys3l_before(pc, i_y as int, k as int + 1, 0, 0),
                decreases C - t,
            {
                proof {
                    vstd::arithmetic::div_mod::lemma_fundamental_div_mod_converse(
                        (pos + t) as int,
                        8,
                        k - 1,
                        t as int,
                    );
                }
                if inblock && t < 4 {
                    let mut l: usize = 1;
                    while l < D
                        invariant
                            layout.wf(),
                            ring.wf(),
                            m == &ring.m,
                            q == ring.m.q,
                            n == layout.n_sigs,
                            1 <= layout.rho <= layout.n_sigs,
                            1 <= layout.num_y <= layout.n_sigs,
                            stmt.ring == old(stmt).ring,
                            stmt.n == old(stmt).n,
                            stmt.r == old(stmt).r,
                            stmt.beta_sq == old(stmt).beta_sq,
                            sf == old(stmt).full@.len(),
                            sc == old(stmt).const_term@.len(),
                            stmt.full@.subrange(0, sf) == old(stmt).full@,
                            stmt.const_term@.subrange(0, sc) == old(stmt).const_term@,
                            ef_sound(*layout, q, stmt.full@, sf, pf),
                            keys_distinct(pf),
                            ec_sound(*layout, q, stmt.const_term@, sc, pc),
                            keys_distinct(pc),
                            1 <= i_y <= layout.num_y,
                            e_vec == layout.e_spec(i_y as int),
                            1 <= k <= n,
                            layout.index_spec(k as int) == i_y,
                            inblock,
                            pos == C * (k - 1),
                            0 <= t < 4,
                            (pos + t) / 8 + 1 == k,
                            (pos + t) % 8 == t,
                            1 <= l <= D,
                            ef_covered(*layout, pf, wf_, i_y as int, k as int, t as int),
                            keys2_before(pf, i_y as int, k as int, t as int),
                            ec_covered(*layout, pc, wc, i_y as int, k as int, t as int, l as int),
                            keys3l_before(pc, i_y as int, k as int, t as int, l as int),
                        decreases D - l,
                    {
                        let c = coef_zero_constraint(e_vec, pos + t, l, m);
                        let ghost prev = stmt.const_term@;
                        let ghost prev_pc = pc;
                        stmt.const_term.push(c);
                        proof {
                            let key = (i_y as int, (pos + t) as int, l as int);
                            let gi = pc.len() as int;
                            vstd::arithmetic::div_mod::lemma_fundamental_div_mod_converse((pos + t) as int, 8, k - 1, t as int);
                            lemma_keys3l_push(pc, key, i_y as int, k as int, t as int, l as int, i_y as int, k as int, t as int, l + 1);
                            pc = pc.push(key);
                            wc = wc.insert(key, gi);
                            assert forall|tt: int| 0 <= tt < pc.len() implies e_coef_pos(
                                *layout,
                                (#[trigger] pc[tt]).0,
                                pc[tt].1,
                                pc[tt].2,
                            ) && is_coef_zero(
                                stmt.const_term@[sc + tt],
                                layout.e_spec(pc[tt].0),
                                pc[tt].1,
                                pc[tt].2,
                                q,
                            ) by {
                                if tt < gi {
                                    assert(stmt.const_term@[sc + tt] == prev[sc + tt]);
                                    assert(pc[tt] == prev_pc[tt]);
                                }
                            }
                            assert(stmt.const_term@.subrange(0, sc) =~= prev.subrange(0, sc));
                        }
                        l += 1;
                    }
                } else {
                    let c = full_zero_constraint(e_vec, pos + t, m);
                    let ghost prev = stmt.full@;
                    let ghost prev_pf = pf;
                    stmt.full.push(c);
                    proof {
                        let key = (i_y as int, (pos + t) as int);
                        let gi = pf.len() as int;
                        vstd::arithmetic::div_mod::lemma_fundamental_div_mod_converse((pos + t) as int, 8, k - 1, t as int);
                        lemma_keys2_push(pf, key, i_y as int, k as int, t as int, i_y as int, k as int, t + 1);
                        pf = pf.push(key);
                        wf_ = wf_.insert(key, gi);
                        assert forall|tt: int| 0 <= tt < pf.len() implies e_zero_pos(
                            *layout,
                            (#[trigger] pf[tt]).0,
                            pf[tt].1,
                        ) && is_zero_full(stmt.full@[sf + tt], layout.e_spec(pf[tt].0), pf[tt].1, q) by {
                            if tt < gi {
                                assert(stmt.full@[sf + tt] == prev[sf + tt]);
                                assert(pf[tt] == prev_pf[tt]);
                            }
                        }
                        assert(stmt.full@.subrange(0, sf) =~= prev.subrange(0, sf));
                    }
                }
                t += 1;
            }
            k += 1;
        }
        i_y += 1;
    }
    proof {
        assert(q >= 3);
        lemma_e_post(*layout, q, stmt.full@, sf, pf, wf_, stmt.const_term@, sc, pc, wc);
    }
}

/// Distinct `(i_yp, j)` name distinct `y'` vectors.
proof fn lemma_yp_spec_injective(l: WitnessLayout, a1: int, j1: int, a2: int, j2: int)
    requires
        1 <= a1 <= l.num_yp,
        1 <= a2 <= l.num_yp,
        j1 == 1 || j1 == 2,
        j2 == 1 || j2 == 2,
    ensures
        (a1, j1) != (a2, j2) ==> l.yp_spec(a1, j1) != l.yp_spec(a2, j2),
{
    let ny = l.num_yp as int;
    assert((j1 - 1) * ny == if j1 == 1 { 0 } else { ny }) by (nonlinear_arith)
        requires
            j1 == 1 || j1 == 2,
    ;
    assert((j2 - 1) * ny == if j2 == 1 { 0 } else { ny }) by (nonlinear_arith)
        requires
            j2 == 1 || j2 == 2,
    ;
}

/// Zero constraints recorded for distinct `y'` positions are distinct.
proof fn lemma_yp_full_distinct(l: WitnessLayout, q: int, full: Seq<DotConstraint>, start: int, params: Seq<(int, int, int)>)
    requires
        start >= 0,
        yp_full_sound(l, q, full, start, params),
        keys_distinct(params),
    ensures
        distinct_from(full, start),
{
    reveal(distinct_from);
    assert forall|t1: int, t2: int| start <= t1 < t2 < full.len() implies #[trigger] full[t1] != #[trigger] full[t2] by {
        let p1 = params[t1 - start];
        let p2 = params[t2 - start];
        assert(p1 != p2);
        assert(yp_zero_pos(l, p1.0, p1.1, p1.2));
        assert(yp_zero_pos(l, p2.0, p2.1, p2.2));
        lemma_yp_spec_injective(l, p1.0, p1.1, p2.0, p2.1);
    }
}

/// Conjugation constraints recorded for distinct `y'` entries are distinct.
proof fn lemma_yp_ct_distinct(
    l: WitnessLayout,
    q: int,
    ct: Seq<ConstTermConstraint>,
    start: int,
    params: Seq<(int, int, int, int)>,
)
    requires
        start >= 0,
        q >= 3,
        yp_ct_sound(l, q, ct, start, params),
        keys_distinct(params),
    ensures
        distinct_from(ct, start),
{
    reveal(distinct_from);
    assert forall|t1: int, t2: int| start <= t1 < t2 < ct.len() implies #[trigger] ct[t1] != #[trigger] ct[t2] by {
        let p1 = params[t1 - start];
        let p2 = params[t2 - start];
        assert(p1 != p2);
        assert(yp_sigma_pos(l, p1.0, p1.1, p1.2, p1.3));
        assert(yp_sigma_pos(l, p2.0, p2.1, p2.2, p2.3));
        lemma_yp_spec_injective(l, p1.0, p1.1, p2.0, p2.1);
        if p1.3 != p2.3 {
            lemma_coef_extract_distinct(p1.3, p2.3, q);
        }
    }
}

/// Zero constraints recorded for distinct `e'` positions are distinct.
proof fn lemma_ep_full_distinct(l: WitnessLayout, q: int, full: Seq<DotConstraint>, start: int, params: Seq<(int, int)>)
    requires
        start >= 0,
        ep_full_sound(l, q, full, start, params),
        keys_distinct(params),
    ensures
        distinct_from(full, start),
{
    reveal(distinct_from);
    assert forall|t1: int, t2: int| start <= t1 < t2 < full.len() implies #[trigger] full[t1] != #[trigger] full[t2] by {
        let p1 = params[t1 - start];
        let p2 = params[t2 - start];
        assert(p1 != p2);
        assert(ep_zero_pos(l, p1.0, p1.1));
        assert(ep_zero_pos(l, p2.0, p2.1));
    }
}

/// Conjugation constraints recorded for distinct `e'` entries are distinct.
proof fn lemma_ep_ct_distinct(l: WitnessLayout, q: int, ct: Seq<ConstTermConstraint>, start: int, params: Seq<(int, int, int)>)
    requires
        start >= 0,
        q >= 3,
        ep_ct_sound(l, q, ct, start, params),
        keys_distinct(params),
    ensures
        distinct_from(ct, start),
{
    reveal(distinct_from);
    assert forall|t1: int, t2: int| start <= t1 < t2 < ct.len() implies #[trigger] ct[t1] != #[trigger] ct[t2] by {
        let p1 = params[t1 - start];
        let p2 = params[t2 - start];
        assert(p1 != p2);
        assert(ep_sigma_pos(l, p1.0, p1.1, p1.2));
        assert(ep_sigma_pos(l, p2.0, p2.1, p2.2));
        if p1.2 != p2.2 {
            lemma_coef_extract_distinct(p1.2, p2.2, q);
        }
    }
}

/// Zero constraints recorded for distinct `e` positions are distinct.
proof fn lemma_ef_distinct(l: WitnessLayout, q: int, full: Seq<DotConstraint>, start: int, params: Seq<(int, int)>)
    requires
        start >= 0,
        ef_sound(l, q, full, start, params),
        keys_distinct(params),
    ensures
        distinct_from(full, start),
{
    reveal(distinct_from);
    assert forall|t1: int, t2: int| start <= t1 < t2 < full.len() implies #[trigger] full[t1] != #[trigger] full[t2] by {
        let p1 = params[t1 - start];
        let p2 = params[t2 - start];
        assert(p1 != p2);
        assert(e_zero_pos(l, p1.0, p1.1));
        assert(e_zero_pos(l, p2.0, p2.1));
    }
}

/// Coefficient constraints recorded for distinct `e` entries are distinct.
proof fn lemma_ec_distinct(l: WitnessLayout, q: int, ct: Seq<ConstTermConstraint>, start: int, params: Seq<(int, int, int)>)
    requires
        start >= 0,
        q >= 3,
        ec_sound(l, q, ct, start, params),
        keys_distinct(params),
    ensures
        distinct_from(ct, start),
{
    reveal(distinct_from);
    assert forall|t1: int, t2: int| start <= t1 < t2 < ct.len() implies #[trigger] ct[t1] != #[trigger] ct[t2] by {
        let p1 = params[t1 - start];
        let p2 = params[t2 - start];
        assert(p1 != p2);
        assert(e_coef_pos(l, p1.0, p1.1, p1.2));
        assert(e_coef_pos(l, p2.0, p2.1, p2.2));
        if p1.2 != p2.2 {
            lemma_coef_extract_distinct(p1.2, p2.2, q);
        }
    }
}


/// Slot `t` of the embedding of the centered coefficients of `f`, mod `q`.
pub open spec fn emb_slot(f: FPoly, t: int, q: int) -> Seq<int> {
    Seq::new(D as nat, |j: int| emb_fp(f, t, j, q))
}

/// The monomial `Y` of `S`.
pub open spec fn y_poly() -> Seq<int> {
    Seq::new(D as nat, |k: int| if k == 1 { 1int } else { 0int })
}

/// The slot-`k` Falcon equation of signature `s` (0-indexed) as a linear
/// constraint: `y_{·,1}[8s+k] + Σ_b φ_b · y_{·,2}[8s+b] + q · v[8s+k] = c_k`,
/// where `φ_b` is slot `k − b` of `h` for `b ≤ k` and `Y ·` slot `k + 8 − b`
/// otherwise (the `k`-th row of the subring product with `h`).
pub open spec fn is_falcon_eq(
    c: DotConstraint,
    l: WitnessLayout,
    ring: Ring,
    sig: FalconSig,
    s: int,
    k: int,
) -> bool {
    let q = ring.m.q as int;
    let pos = 8 * s;
    let iy = l.index_spec(s + 1);
    &&& c.a@.len() == 0
    &&& c.phi@.len() == 3
    &&& c.phi@[0].0 == l.y_spec(iy, 1)
    &&& c.phi@[0].1@.len() == 1
    &&& c.phi@[0].1@[0].0 == pos + k
    &&& elem(c.phi@[0].1@[0].1) == one_poly(q)
    &&& c.phi@[1].0 == l.y_spec(iy, 2)
    &&& c.phi@[1].1@.len() == C
    &&& forall|b: int|
        0 <= b < C ==> (#[trigger] c.phi@[1].1@[b]).0 == pos + b && elem(c.phi@[1].1@[b].1) == (
        if b <= k {
            emb_slot(sig.h, k - b, q)
        } else {
            crate::labrador::statement::poly_mul(ring, y_poly(), emb_slot(sig.h, k + 8 - b, q))
        })
    &&& c.phi@[2].0 == l.v_spec()
    &&& c.phi@[2].1@.len() == 1
    &&& c.phi@[2].1@[0].0 == pos + k
    &&& elem(c.phi@[2].1@[0].1) == const_poly(FALCON_Q as int, q)
    &&& elem(c.b) == emb_slot(sig.c, k, q)
}

/// The slots of `embed_fpoly_centered(f)` as sequences.
proof fn lemma_embed_slots(f: FPoly, slots: [RingElem; C], q: int)
    requires
        forall|i: int|
            0 <= i < FALCON_N ==> (#[trigger] slots[i % 8]).c[i / 8] == centered_of(
                f.c[i] as int,
                FALCON_Q as int,
            ) % q,
    ensures
        forall|t: int| 0 <= t < C ==> elem(#[trigger] slots[t]) == emb_slot(f, t, q),
{
    assert forall|t: int| 0 <= t < C implies elem(#[trigger] slots[t]) == emb_slot(f, t, q) by {
        assert forall|j: int| 0 <= j < D implies elem(slots[t])[j] == emb_slot(f, t, q)[j] by {
            lemma_slot_index(t, j);
            let i = 8 * j + t;
            assert(slots[i % 8].c[i / 8] == centered_of(f.c[i] as int, FALCON_Q as int) % q);
        }
        assert(elem(slots[t]) =~= emb_slot(f, t, q));
    }
}

/// The Falcon-verification constraints: eight linear `S`-constraints per
/// signature, one per slot of the subring decomposition, appended in order
/// (signature by signature, slot by slot).
pub fn add_falcon_eq_constraints(
    stmt: &mut Statement,
    layout: &WitnessLayout,
    sigs: &[FalconSig],
    ring: &Ring,
)
    requires
        layout.wf(),
        ring.wf(),
        sigs@.len() == layout.n_sigs,
        forall|s: int| 0 <= s < sigs@.len() ==> (#[trigger] sigs@[s]).h.wf() && sigs@[s].c.wf(),
    ensures
        final(stmt).ring == old(stmt).ring,
        final(stmt).n == old(stmt).n,
        final(stmt).r == old(stmt).r,
        final(stmt).beta_sq == old(stmt).beta_sq,
        final(stmt).const_term@ == old(stmt).const_term@,
        final(stmt).full@.len() == old(stmt).full@.len() + C * sigs@.len(),
        final(stmt).full@.subrange(0, old(stmt).full@.len() as int) == old(stmt).full@,
        forall|s: int, k: int|
            0 <= s < sigs@.len() && 0 <= k < C ==> is_falcon_eq(
                #[trigger] final(stmt).full@[old(stmt).full@.len() + C * s + k],
                *layout,
                *ring,
                sigs@[s],
                s,
                k,
            ),
{
    let m = &ring.m;
    let q = FALCON_Q as u64;
    let y_mono = RingElem::monomial(m, 1);
    assert(elem(y_mono) =~= y_poly());
    let ghost start = stmt.full@.len() as int;
    proof {
        layout.lemma_counts();
    }
    for si in 0..sigs.len()
        invariant
            layout.wf(),
            ring.wf(),
            m == &ring.m,
            q == FALCON_Q,
            sigs@.len() == layout.n_sigs,
            1 <= layout.rho <= layout.n_sigs,
            1 <= layout.num_y <= layout.n_sigs,
            forall|s: int| 0 <= s < sigs@.len() ==> (#[trigger] sigs@[s]).h.wf() && sigs@[s].c.wf(),
            elem(y_mono) == y_poly(),
            y_mono.wf(ring.m),
            stmt.ring == old(stmt).ring,
            stmt.n == old(stmt).n,
            stmt.r == old(stmt).r,
            stmt.beta_sq == old(stmt).beta_sq,
            stmt.const_term@ == old(stmt).const_term@,
            start == old(stmt).full@.len(),
            stmt.full@.len() == start + C * si,
            stmt.full@.subrange(0, start) == old(stmt).full@,
            forall|s: int, k: int|
                0 <= s < si && 0 <= k < C ==> is_falcon_eq(
                    #[trigger] stmt.full@[start + C * s + k],
                    *layout,
                    *ring,
                    sigs@[s],
                    s,
                    k,
                ),
    {
        let sig = &sigs[si];
        let i = si + 1;
        let i_y = layout.index(i);
        let pos = C * si;
        let h_slots = embed_fpoly_centered(&sig.h, m);
        let c_slots = embed_fpoly_centered(&sig.c, m);
        proof {
            lemma_embed_slots(sig.h, h_slots, ring.m.q as int);
            lemma_embed_slots(sig.c, c_slots, ring.m.q as int);
        }
        let y1 = layout.y_idx(i_y, 1);
        let y2 = layout.y_idx(i_y, 2);
        let v = layout.v_idx();
        for k in 0..C
            invariant
                layout.wf(),
                ring.wf(),
                m == &ring.m,
                q == FALCON_Q,
                si < sigs@.len(),
                sigs@.len() == layout.n_sigs,
                *sig == sigs@[si as int],
                pos == C * si,
                i_y == layout.index_spec(si + 1),
                y1 == layout.y_spec(i_y as int, 1),
                y2 == layout.y_spec(i_y as int, 2),
                v == layout.v_spec(),
                elem(y_mono) == y_poly(),
                y_mono.wf(ring.m),
                forall|t: int| 0 <= t < C ==> elem(#[trigger] h_slots[t]) == emb_slot(sig.h, t, ring.m.q as int),
                forall|t: int| 0 <= t < C ==> elem(#[trigger] c_slots[t]) == emb_slot(sig.c, t, ring.m.q as int),
                slots_wf(h_slots, ring.m),
                stmt.ring == old(stmt).ring,
                stmt.n == old(stmt).n,
                stmt.r == old(stmt).r,
                stmt.beta_sq == old(stmt).beta_sq,
                stmt.const_term@ == old(stmt).const_term@,
                start == old(stmt).full@.len(),
                stmt.full@.len() == start + C * si + k,
                stmt.full@.subrange(0, start) == old(stmt).full@,
                forall|s: int, kk: int|
                    0 <= s < si && 0 <= kk < C ==> is_falcon_eq(
                        #[trigger] stmt.full@[start + C * s + kk],
                        *layout,
                        *ring,
                        sigs@[s],
                        s,
                        kk,
                    ),
                forall|kk: int|
                    0 <= kk < k ==> is_falcon_eq(
                        #[trigger] stmt.full@[start + C * si + kk],
                        *layout,
                        *ring,
                        sigs@[si as int],
                        si as int,
                        kk,
                    ),
        {
            let one = RingElem::constant(m, 1);
            let qe = RingElem::constant(m, q);
            assert(elem(one) =~= one_poly(ring.m.q as int));
            assert(elem(qe) =~= const_poly(FALCON_Q as int, ring.m.q as int));
            let phi_y1 = vec![(pos + k, one)];
            let phi_v = vec![(pos + k, qe)];
            let mut phi_y2: Vec<(usize, RingElem)> = Vec::new();
            for b in 0..C
                invariant
                    ring.wf(),
                    m == &ring.m,
                    0 <= k < C,
                    pos + C <= C * MAX_SIGS,
                    elem(y_mono) == y_poly(),
                    y_mono.wf(ring.m),
                    forall|t: int| 0 <= t < C ==> elem(#[trigger] h_slots[t]) == emb_slot(sig.h, t, ring.m.q as int),
                    slots_wf(h_slots, ring.m),
                    phi_y2@.len() == b,
                    forall|bb: int|
                        0 <= bb < b ==> (#[trigger] phi_y2@[bb]).0 == pos + bb && elem(phi_y2@[bb].1) == (
                        if bb <= k {
                            emb_slot(sig.h, k - bb, ring.m.q as int)
                        } else {
                            crate::labrador::statement::poly_mul(
                                *ring,
                                y_poly(),
                                emb_slot(sig.h, k + 8 - bb, ring.m.q as int),
                            )
                        }),
            {
                let coef = if b <= k {
                    h_slots[k - b]
                } else {
                    assert(h_slots[(k + C - b) as int].wf(ring.m));
                    ring.mul(&y_mono, &h_slots[k + C - b])
                };
                phi_y2.push((pos + b, coef));
            }
            let c = DotConstraint { a: vec![], phi: vec![(y1, phi_y1), (y2, phi_y2), (v, phi_v)], b: c_slots[k] };
            let ghost prev = stmt.full@;
            stmt.full.push(c);
            proof {
                assert(is_falcon_eq(c, *layout, *ring, sigs@[si as int], si as int, k as int));
                assert forall|s: int, kk: int|
                    0 <= s < si && 0 <= kk < C implies is_falcon_eq(
                        #[trigger] stmt.full@[start + C * s + kk],
                        *layout,
                        *ring,
                        sigs@[s],
                        s,
                        kk,
                    ) by {
                    assert(C * s + kk < C * si) by (nonlinear_arith)
                        requires
                            0 <= s < si,
                            0 <= kk < C,
                    ;
                    assert(stmt.full@[start + C * s + kk] == prev[start + C * s + kk]);
                }
                assert forall|kk: int|
                    0 <= kk < k + 1 implies is_falcon_eq(
                        #[trigger] stmt.full@[start + C * si + kk],
                        *layout,
                        *ring,
                        sigs@[si as int],
                        si as int,
                        kk,
                    ) by {
                    if kk < k {
                        assert(stmt.full@[start + C * si + kk] == prev[start + C * si + kk]);
                    }
                }
                assert(stmt.full@.subrange(0, start) =~= prev.subrange(0, start));
            }
        }
        proof {
            assert forall|s: int, kk: int|
                0 <= s < si + 1 && 0 <= kk < C implies is_falcon_eq(
                    #[trigger] stmt.full@[start + C * s + kk],
                    *layout,
                    *ring,
                    sigs@[s],
                    s,
                    kk,
                ) by {
                if s == si {
                    assert(stmt.full@[start + C * si + kk] == stmt.full@[start + C * s + kk]);
                }
            }
        }
    }
}


/// The four-square constraint of signature `s` (0-indexed): the stored pairs
/// `(y_{·,1}, y'_{·,1})`, `(y_{·,2}, y'_{·,2})`, `(e, e')` each carry `1/2`
/// (doubled by the symmetric evaluation), with right-hand side `β² mod q'`.
pub open spec fn is_four_square_ct(
    c: ConstTermConstraint,
    l: WitnessLayout,
    ring: Ring,
    beta_sq: int,
    s: int,
) -> bool {
    let q = ring.m.q as int;
    let iy = l.index_spec(s + 1);
    let iyp = l.index_prime_spec(s + 1);
    let half = const_poly(vstd::arithmetic::power::pow(2, (q - 2) as nat) % q, q);
    &&& c.phi@.len() == 0
    &&& c.b0 == beta_sq % q
    &&& c.a@.len() == 3
    &&& c.a@[0].0 == l.y_spec(iy, 1) && c.a@[0].1 == l.yp_spec(iyp, 1) && elem(c.a@[0].2) == half
    &&& c.a@[1].0 == l.y_spec(iy, 2) && c.a@[1].1 == l.yp_spec(iyp, 2) && elem(c.a@[1].2) == half
    &&& c.a@[2].0 == l.e_spec(iy) && c.a@[2].1 == l.ep_spec(iyp) && elem(c.a@[2].2) == half
}

/// The stored pair `(min(a, b), max(a, b), coef)`.
fn sym_pair(a: usize, b: usize, coef: RingElem) -> (t: (usize, usize, RingElem))
    ensures
        t.0 == (if a <= b { a } else { b }),
        t.1 == (if a <= b { b } else { a }),
        t.2 == coef,
{
    if a <= b {
        (a, b, coef)
    } else {
        (b, a, coef)
    }
}

/// The four-square constraints: one constant-term `S`-constraint per
/// signature checking `‖s_1‖² + ‖s_2‖² + ‖ε‖² = β²` in `Z_{q'}`, appended in
/// signature order.
pub fn add_four_square_constraints(
    stmt: &mut Statement,
    layout: &WitnessLayout,
    beta_sq: i64,
    ring: &Ring,
)
    requires
        layout.wf(),
        ring.wf(),
    ensures
        final(stmt).ring == old(stmt).ring,
        final(stmt).n == old(stmt).n,
        final(stmt).r == old(stmt).r,
        final(stmt).beta_sq == old(stmt).beta_sq,
        final(stmt).full@ == old(stmt).full@,
        final(stmt).const_term@.len() == old(stmt).const_term@.len() + layout.n_sigs,
        final(stmt).const_term@.subrange(0, old(stmt).const_term@.len() as int)
            == old(stmt).const_term@,
        forall|s: int|
            0 <= s < layout.n_sigs ==> is_four_square_ct(
                #[trigger] final(stmt).const_term@[old(stmt).const_term@.len() + s],
                *layout,
                *ring,
                beta_sq as int,
                s,
            ),
{
    let m = &ring.m;
    proof {
        vstd::arithmetic::div_mod::lemma_small_mod(2, ring.m.q as nat);
        layout.lemma_counts();
    }
    let inv2 = RingElem::constant(m, m.inv(2));
    let beta_sq_residue = m.from_i64(beta_sq);
    proof {
        let q = ring.m.q as int;
        let h = vstd::arithmetic::power::pow(2, (q - 2) as nat) % q;
        vstd::arithmetic::div_mod::lemma_small_mod(h as nat, q as nat);
        assert(elem(inv2) =~= const_poly(h, q));
    }
    let ghost start = stmt.const_term@.len() as int;
    for si in 0..layout.n_sigs
        invariant
            layout.wf(),
            ring.wf(),
            m == &ring.m,
            1 <= layout.rho <= layout.n_sigs,
            1 <= layout.num_y <= layout.n_sigs,
            elem(inv2) == const_poly(
                vstd::arithmetic::power::pow(2, (ring.m.q - 2) as nat) % (ring.m.q as int),
                ring.m.q as int,
            ),
            beta_sq_residue == (beta_sq as int) % (ring.m.q as int),
            stmt.ring == old(stmt).ring,
            stmt.n == old(stmt).n,
            stmt.r == old(stmt).r,
            stmt.beta_sq == old(stmt).beta_sq,
            stmt.full@ == old(stmt).full@,
            start == old(stmt).const_term@.len(),
            stmt.const_term@.len() == start + si,
            stmt.const_term@.subrange(0, start) == old(stmt).const_term@,
            forall|s: int|
                0 <= s < si ==> is_four_square_ct(
                    #[trigger] stmt.const_term@[start + s],
                    *layout,
                    *ring,
                    beta_sq as int,
                    s,
                ),
    {
        let i = si + 1;
        let i_y = layout.index(i);
        let i_yp = layout.index_prime(i);
        let y1 = layout.y_idx(i_y, 1);
        let yp1 = layout.yp_idx(i_yp, 1);
        let y2 = layout.y_idx(i_y, 2);
        let yp2 = layout.yp_idx(i_yp, 2);
        let e = layout.e_idx(i_y);
        let ep = layout.ep_idx(i_yp);
        proof {
            assert(y1 == i_y - 1 && y2 == layout.num_y + i_y - 1) by (nonlinear_arith)
                requires
                    y1 == (1 - 1) * layout.num_y + (i_y - 1),
                    y2 == (2 - 1) * layout.num_y + (i_y - 1),
            ;
            assert(yp1 == 2 * layout.num_y + i_yp - 1 && yp2 == 2 * layout.num_y + layout.num_yp
                + i_yp - 1) by (nonlinear_arith)
                requires
                    yp1 == 2 * layout.num_y + (1 - 1) * layout.num_yp + (i_yp - 1),
                    yp2 == 2 * layout.num_y + (2 - 1) * layout.num_yp + (i_yp - 1),
            ;
        }
        let c = ConstTermConstraint {
            a: vec![sym_pair(y1, yp1, inv2), sym_pair(y2, yp2, inv2), sym_pair(e, ep, inv2)],
            phi: vec![],
            b0: beta_sq_residue,
        };
        let ghost prev = stmt.const_term@;
        stmt.const_term.push(c);
        proof {
            assert(is_four_square_ct(c, *layout, *ring, beta_sq as int, si as int));
            assert forall|s: int| 0 <= s < si + 1 implies is_four_square_ct(
                #[trigger] stmt.const_term@[start + s],
                *layout,
                *ring,
                beta_sq as int,
                s,
            ) by {
                if s < si {
                    assert(stmt.const_term@[start + s] == prev[start + s]);
                }
            }
            assert(stmt.const_term@.subrange(0, start) =~= prev.subrange(0, start));
        }
    }
}


// ---------------------------------------------------------------------------
// The whole statement
// ---------------------------------------------------------------------------

/// A full constraint is one of the padding / form zero constraints.
pub open spec fn form_full_ok(c: DotConstraint, l: WitnessLayout, q: int) -> bool {
    ||| exists|iy: int, j: int, p: int|
        #![trigger pad_y_pos(l, iy, j, p)]
        pad_y_pos(l, iy, j, p) && is_zero_full(c, l.y_spec(iy, j), p, q)
    ||| exists|iyp: int, j: int, p: int|
        #![trigger yp_zero_pos(l, iyp, j, p)]
        yp_zero_pos(l, iyp, j, p) && is_zero_full(c, l.yp_spec(iyp, j), p, q)
    ||| exists|iy: int, p: int|
        #![trigger e_zero_pos(l, iy, p)]
        e_zero_pos(l, iy, p) && is_zero_full(c, l.e_spec(iy), p, q)
    ||| exists|iyp: int, p: int|
        #![trigger ep_zero_pos(l, iyp, p)]
        ep_zero_pos(l, iyp, p) && is_zero_full(c, l.ep_spec(iyp), p, q)
}

/// A constant-term constraint is one of the form constraints.
pub open spec fn form_ct_ok(c: ConstTermConstraint, l: WitnessLayout, q: int) -> bool {
    ||| exists|iyp: int, j: int, p: int, ll: int|
        #![trigger yp_sigma_pos(l, iyp, j, p, ll)]
        yp_sigma_pos(l, iyp, j, p, ll) && is_sigma_eq(
            c,
            l.yp_spec(iyp, j),
            l.y_spec(l.index_spec(p / 8 + 1), j),
            p,
            ll,
            q,
        )
    ||| exists|iy: int, p: int, ll: int|
        #![trigger e_coef_pos(l, iy, p, ll)]
        e_coef_pos(l, iy, p, ll) && is_coef_zero(c, l.e_spec(iy), p, ll, q)
    ||| exists|iyp: int, p: int, ll: int|
        #![trigger ep_sigma_pos(l, iyp, p, ll)]
        ep_sigma_pos(l, iyp, p, ll) && is_sigma_eq(
            c,
            l.ep_spec(iyp),
            l.e_spec(l.index_spec(p / 8 + 1)),
            p,
            ll,
            q,
        )
}

/// A ring element whose coefficient sequence is reduced is well formed.
proof fn lemma_elem_wf(x: RingElem, m: Modulus)
    requires
        forall|k: int| 0 <= k < D ==> 0 <= #[trigger] elem(x)[k] < m.q,
    ensures
        x.wf(m),
{
    assert forall|k: int| 0 <= k < D implies #[trigger] x.c[k] < m.q by {
        assert(elem(x)[k] == x.c[k]);
    }
}

/// Zero constraints on in-range positions are well formed.
proof fn lemma_zero_full_wf(c: DotConstraint, idx: int, p: int, r: int, n: int, m: Modulus)
    requires
        m.wf(),
        is_zero_full(c, idx, p, m.q as int),
        0 <= idx < r,
        0 <= p < n,
    ensures
        c.wf(r, n, m),
{
    lemma_elem_wf(c.b, m);
    lemma_elem_wf(c.phi@[0].1@[0].1, m);
}

/// Coefficient constraints on in-range positions are well formed.
proof fn lemma_coef_zero_wf(c: ConstTermConstraint, idx: int, p: int, l: int, r: int, n: int, m: Modulus)
    requires
        m.wf(),
        is_coef_zero(c, idx, p, l, m.q as int),
        0 <= idx < r,
        0 <= p < n,
    ensures
        c.wf(r, n, m),
{
    lemma_elem_wf(c.phi@[0].1@[0].1, m);
}

/// Conjugation constraints on in-range positions are well formed.
proof fn lemma_sigma_eq_wf(
    c: ConstTermConstraint,
    conj: int,
    src: int,
    p: int,
    l: int,
    r: int,
    n: int,
    m: Modulus,
)
    requires
        m.wf(),
        is_sigma_eq(c, conj, src, p, l, m.q as int),
        0 <= conj < r,
        0 <= src < r,
        0 <= p < n,
    ensures
        c.wf(r, n, m),
{
    lemma_elem_wf(c.phi@[0].1@[0].1, m);
    lemma_elem_wf(c.phi@[1].1@[0].1, m);
}

/// Indices of in-range positions land in range.
proof fn lemma_index_bounds(l: WitnessLayout, k: int)
    requires
        l.wf(),
        1 <= k <= l.n_sigs,
    ensures
        1 <= l.index_spec(k) <= l.num_y,
        1 <= l.index_prime_spec(k) <= l.num_yp,
{
    l.lemma_counts();
    let rho = l.rho as int;
    vstd::arithmetic::div_mod::lemma_div_is_ordered(k + rho - 1, l.n_sigs + rho - 1, rho);
    vstd::arithmetic::div_mod::lemma_div_is_ordered(rho, k + rho - 1, rho);
    vstd::arithmetic::div_mod::lemma_div_by_self(rho);
}

/// Every vector index of the layout lies below `r`.
proof fn lemma_vec_indices(l: WitnessLayout, iy: int, iyp: int, j: int)
    requires
        l.wf(),
        1 <= iy <= l.num_y,
        1 <= iyp <= l.num_yp,
        j == 1 || j == 2,
    ensures
        0 <= l.y_spec(iy, j) < l.r_spec(),
        0 <= l.yp_spec(iyp, j) < l.r_spec(),
        0 <= l.e_spec(iy) < l.r_spec(),
        0 <= l.ep_spec(iyp) < l.r_spec(),
        0 <= l.v_spec() < l.r_spec(),
{
    if j == 1 {
        assert(l.y_spec(iy, j) == iy - 1);
        assert(l.yp_spec(iyp, j) == 2 * l.num_y + iyp - 1);
    } else {
        assert(l.y_spec(iy, j) == l.num_y + iy - 1);
        assert(l.yp_spec(iyp, j) == 2 * l.num_y + l.num_yp + iyp - 1);
    }
}

/// A position below `8N` belongs to signature `p / 8 + 1 ∈ [1, N]`.
proof fn lemma_pos_sig(l: WitnessLayout, p: int)
    requires
        l.wf(),
        0 <= p < C * l.n_sigs,
    ensures
        1 <= p / 8 + 1 <= l.n_sigs,
{
    vstd::arithmetic::div_mod::lemma_div_is_ordered(p, C * l.n_sigs - 1, 8);
    vstd::arithmetic::div_mod::lemma_fundamental_div_mod_converse(
        C * l.n_sigs - 1,
        8,
        l.n_sigs - 1,
        7,
    );
}

/// Padding / form zero constraints are well formed.
proof fn lemma_form_full_wf(c: DotConstraint, l: WitnessLayout, m: Modulus)
    requires
        m.wf(),
        l.wf(),
        form_full_ok(c, l, m.q as int),
    ensures
        c.wf(l.r_spec(), C * l.n_sigs, m),
{
    let q = m.q as int;
    let r = l.r_spec();
    let n = C * l.n_sigs;
    l.lemma_counts();
    if exists|iy: int, j: int, p: int|
        #![trigger pad_y_pos(l, iy, j, p)]
        pad_y_pos(l, iy, j, p) && is_zero_full(c, l.y_spec(iy, j), p, q) {
        let (iy, j, p) = choose|iy: int, j: int, p: int|
            #![trigger pad_y_pos(l, iy, j, p)]
            pad_y_pos(l, iy, j, p) && is_zero_full(c, l.y_spec(iy, j), p, q);
        lemma_vec_indices(l, iy, 1, j);
        lemma_zero_full_wf(c, l.y_spec(iy, j), p, r, n, m);
    } else if exists|iyp: int, j: int, p: int|
        #![trigger yp_zero_pos(l, iyp, j, p)]
        yp_zero_pos(l, iyp, j, p) && is_zero_full(c, l.yp_spec(iyp, j), p, q) {
        let (iyp, j, p) = choose|iyp: int, j: int, p: int|
            #![trigger yp_zero_pos(l, iyp, j, p)]
            yp_zero_pos(l, iyp, j, p) && is_zero_full(c, l.yp_spec(iyp, j), p, q);
        lemma_vec_indices(l, 1, iyp, j);
        lemma_zero_full_wf(c, l.yp_spec(iyp, j), p, r, n, m);
    } else if exists|iy: int, p: int|
        #![trigger e_zero_pos(l, iy, p)]
        e_zero_pos(l, iy, p) && is_zero_full(c, l.e_spec(iy), p, q) {
        let (iy, p) = choose|iy: int, p: int|
            #![trigger e_zero_pos(l, iy, p)]
            e_zero_pos(l, iy, p) && is_zero_full(c, l.e_spec(iy), p, q);
        lemma_vec_indices(l, iy, 1, 1);
        lemma_zero_full_wf(c, l.e_spec(iy), p, r, n, m);
    } else {
        let (iyp, p) = choose|iyp: int, p: int|
            #![trigger ep_zero_pos(l, iyp, p)]
            ep_zero_pos(l, iyp, p) && is_zero_full(c, l.ep_spec(iyp), p, q);
        lemma_vec_indices(l, 1, iyp, 1);
        lemma_zero_full_wf(c, l.ep_spec(iyp), p, r, n, m);
    }
}

/// Form constant-term constraints are well formed.
proof fn lemma_form_ct_wf(c: ConstTermConstraint, l: WitnessLayout, m: Modulus)
    requires
        m.wf(),
        l.wf(),
        form_ct_ok(c, l, m.q as int),
    ensures
        c.wf(l.r_spec(), C * l.n_sigs, m),
{
    let q = m.q as int;
    let r = l.r_spec();
    let n = C * l.n_sigs;
    l.lemma_counts();
    if exists|iyp: int, j: int, p: int, ll: int|
        #![trigger yp_sigma_pos(l, iyp, j, p, ll)]
        yp_sigma_pos(l, iyp, j, p, ll) && is_sigma_eq(
            c,
            l.yp_spec(iyp, j),
            l.y_spec(l.index_spec(p / 8 + 1), j),
            p,
            ll,
            q,
        ) {
        let (iyp, j, p, ll) = choose|iyp: int, j: int, p: int, ll: int|
            #![trigger yp_sigma_pos(l, iyp, j, p, ll)]
            yp_sigma_pos(l, iyp, j, p, ll) && is_sigma_eq(
                c,
                l.yp_spec(iyp, j),
                l.y_spec(l.index_spec(p / 8 + 1), j),
                p,
                ll,
                q,
            );
        lemma_pos_sig(l, p);
        lemma_index_bounds(l, p / 8 + 1);
        lemma_vec_indices(l, l.index_spec(p / 8 + 1), iyp, j);
        lemma_sigma_eq_wf(c, l.yp_spec(iyp, j), l.y_spec(l.index_spec(p / 8 + 1), j), p, ll, r, n, m);
    } else if exists|iy: int, p: int, ll: int|
        #![trigger e_coef_pos(l, iy, p, ll)]
        e_coef_pos(l, iy, p, ll) && is_coef_zero(c, l.e_spec(iy), p, ll, q) {
        let (iy, p, ll) = choose|iy: int, p: int, ll: int|
            #![trigger e_coef_pos(l, iy, p, ll)]
            e_coef_pos(l, iy, p, ll) && is_coef_zero(c, l.e_spec(iy), p, ll, q);
        lemma_vec_indices(l, iy, 1, 1);
        lemma_coef_zero_wf(c, l.e_spec(iy), p, ll, r, n, m);
    } else {
        let (iyp, p, ll) = choose|iyp: int, p: int, ll: int|
            #![trigger ep_sigma_pos(l, iyp, p, ll)]
            ep_sigma_pos(l, iyp, p, ll) && is_sigma_eq(
                c,
                l.ep_spec(iyp),
                l.e_spec(l.index_spec(p / 8 + 1)),
                p,
                ll,
                q,
            );
        lemma_pos_sig(l, p);
        lemma_index_bounds(l, p / 8 + 1);
        lemma_vec_indices(l, l.index_spec(p / 8 + 1), iyp, 1);
        lemma_sigma_eq_wf(c, l.ep_spec(iyp), l.e_spec(l.index_spec(p / 8 + 1)), p, ll, r, n, m);
    }
}

/// Falcon-equation constraints are well formed.
proof fn lemma_falcon_eq_wf(c: DotConstraint, l: WitnessLayout, ring: Ring, sig: FalconSig, s: int, k: int)
    requires
        ring.wf(),
        l.wf(),
        0 <= s < l.n_sigs,
        0 <= k < C,
        is_falcon_eq(c, l, ring, sig, s, k),
    ensures
        c.wf(l.r_spec(), C * l.n_sigs, ring.m),
{
    let m = ring.m;
    let q = m.q as int;
    lemma_index_bounds(l, s + 1);
    lemma_vec_indices(l, l.index_spec(s + 1), 1, 1);
    lemma_vec_indices(l, l.index_spec(s + 1), 1, 2);
    lemma_elem_wf(c.b, m);
    lemma_elem_wf(c.phi@[0].1@[0].1, m);
    lemma_elem_wf(c.phi@[2].1@[0].1, m);
    assert forall|b: int| 0 <= b < C implies (#[trigger] c.phi@[1].1@[b]).1.wf(m) by {
        lemma_elem_wf(c.phi@[1].1@[b].1, m);
    }
}

/// Four-square constraints are well formed.
proof fn lemma_four_square_wf(c: ConstTermConstraint, l: WitnessLayout, ring: Ring, beta_sq: int, s: int)
    requires
        ring.wf(),
        l.wf(),
        0 <= s < l.n_sigs,
        is_four_square_ct(c, l, ring, beta_sq, s),
    ensures
        c.wf(l.r_spec(), C * l.n_sigs, ring.m),
{
    let m = ring.m;
    lemma_index_bounds(l, s + 1);
    lemma_vec_indices(l, l.index_spec(s + 1), l.index_prime_spec(s + 1), 1);
    lemma_vec_indices(l, l.index_spec(s + 1), l.index_prime_spec(s + 1), 2);
    lemma_elem_wf(c.a@[0].2, m);
    lemma_elem_wf(c.a@[1].2, m);
    lemma_elem_wf(c.a@[2].2, m);
}

/// An element of a sequence's prefix is the sequence's element.
proof fn lemma_prefix<T>(a: Seq<T>, b: Seq<T>, i: int)
    requires
        b.len() <= a.len(),
        a.subrange(0, b.len() as int) == b,
        0 <= i < b.len(),
    ensures
        a[i] == b[i],
{
    assert(a.subrange(0, b.len() as int)[i] == a[i]);
}

/// `stmt` is the aggregated Falcon statement for `sigs` over `ring` with
/// layout `l` and norm bound `beta_sq`: well formed, the `8N` Falcon
/// equations (in order) then the form zero constraints, the `N` four-square
/// constraints (in order) then the form constraints, and every padding and
/// form position constrained.
pub open spec fn is_falcon_statement(stmt: Statement, l: WitnessLayout, ring: Ring, sigs: Seq<FalconSig>, beta_sq: i128) -> bool {
    let q = ring.m.q as int;
    let n = sigs.len();
    &&& stmt.ring == ring
    &&& stmt.n == C * n
    &&& stmt.r == l.r_spec()
    &&& stmt.beta_sq == beta_sq
    &&& stmt.wf()
    &&& stmt.full@.len() >= C * n
    &&& forall|s: int, k: int|
        0 <= s < n && 0 <= k < C ==> is_falcon_eq(
            #[trigger] stmt.full@[C * s + k],
            l,
            ring,
            sigs[s],
            s,
            k,
        )
    &&& forall|t: int|
        C * n <= t < stmt.full@.len() ==> form_full_ok(#[trigger] stmt.full@[t], l, q)
    &&& stmt.const_term@.len() >= n
    &&& forall|s: int|
        0 <= s < n ==> is_four_square_ct(
            #[trigger] stmt.const_term@[s],
            l,
            ring,
            FALCON_BETA_SQ as int,
            s,
        )
    &&& forall|t: int|
        n <= t < stmt.const_term@.len() ==> form_ct_ok(#[trigger] stmt.const_term@[t], l, q)
    &&& forall|iy: int, j: int, p: int|
        #[trigger] pad_y_pos(l, iy, j, p) ==> exists|t: int|
            0 <= t < stmt.full@.len() && is_zero_full(
                #[trigger] stmt.full@[t],
                l.y_spec(iy, j),
                p,
                q,
            )
    &&& forall|iyp: int, j: int, p: int|
        #[trigger] yp_zero_pos(l, iyp, j, p) ==> exists|t: int|
            0 <= t < stmt.full@.len() && is_zero_full(
                #[trigger] stmt.full@[t],
                l.yp_spec(iyp, j),
                p,
                q,
            )
    &&& forall|iy: int, p: int|
        #[trigger] e_zero_pos(l, iy, p) ==> exists|t: int|
            0 <= t < stmt.full@.len() && is_zero_full(
                #[trigger] stmt.full@[t],
                l.e_spec(iy),
                p,
                q,
            )
    &&& forall|iyp: int, p: int|
        #[trigger] ep_zero_pos(l, iyp, p) ==> exists|t: int|
            0 <= t < stmt.full@.len() && is_zero_full(
                #[trigger] stmt.full@[t],
                l.ep_spec(iyp),
                p,
                q,
            )
    &&& forall|iyp: int, j: int, p: int, ll: int|
        #[trigger] yp_sigma_pos(l, iyp, j, p, ll) ==> exists|t: int|
            0 <= t < stmt.const_term@.len() && is_sigma_eq(
                #[trigger] stmt.const_term@[t],
                l.yp_spec(iyp, j),
                l.y_spec(l.index_spec(p / 8 + 1), j),
                p,
                ll,
                q,
            )
    &&& forall|iy: int, p: int, ll: int|
        #[trigger] e_coef_pos(l, iy, p, ll) ==> exists|t: int|
            0 <= t < stmt.const_term@.len() && is_coef_zero(
                #[trigger] stmt.const_term@[t],
                l.e_spec(iy),
                p,
                ll,
                q,
            )
    &&& forall|iyp: int, p: int, ll: int|
        #[trigger] ep_sigma_pos(l, iyp, p, ll) ==> exists|t: int|
            0 <= t < stmt.const_term@.len() && is_sigma_eq(
                #[trigger] stmt.const_term@[t],
                l.ep_spec(iyp),
                l.e_spec(l.index_spec(p / 8 + 1)),
                p,
                ll,
                q,
            )
}

/// The aggregated Falcon statement for `sigs` (only `h` and `c` are read):
/// the Falcon equations, the four-square constraints, then the padding and
/// form constraints.
pub fn falcon_statement(sigs: &[FalconSig], layout: &WitnessLayout, ring: &Ring, beta_sq: i128) -> (stmt: Statement)
    requires
        layout.wf(),
        layout.n_sigs == sigs@.len(),
        ring.wf(),
        ring.m.q < 0x1000_0000_0000_0000,
        forall|s: int| 0 <= s < sigs@.len() ==> (#[trigger] sigs@[s]).h.wf() && sigs@[s].c.wf(),
    ensures
        is_falcon_statement(stmt, *layout, *ring, sigs@, beta_sq),
{
    let mut stmt = Statement {
        ring: *ring,
        n: layout.n_s(),
        r: layout.r(),
        full: Vec::new(),
        const_term: Vec::new(),
        beta_sq,
    };
    add_falcon_eq_constraints(&mut stmt, layout, sigs, ring);
    add_four_square_constraints(&mut stmt, layout, FALCON_BETA_SQ, ring);
    let ghost f1 = stmt.full@;
    let ghost c1 = stmt.const_term@;
    add_padding_constraints_y(&mut stmt, layout, ring);
    let ghost f2 = stmt.full@;
    let ghost c2 = stmt.const_term@;
    add_form_constraints_yp(&mut stmt, layout, ring);
    let ghost f3 = stmt.full@;
    let ghost c3 = stmt.const_term@;
    add_form_constraints_e(&mut stmt, layout, ring);
    let ghost f4 = stmt.full@;
    let ghost c4 = stmt.const_term@;
    add_form_constraints_ep(&mut stmt, layout, ring);
    proof {
        let layout = *layout;
        let q = ring.m.q as int;
        let n = sigs@.len();
        let ff = stmt.full@;
        let cc = stmt.const_term@;
        layout.lemma_counts();
        // Prefix chains.
        assert forall|i: int| 0 <= i < f1.len() implies #[trigger] ff[i] == f1[i] by {
            lemma_prefix(ff, f4, i);
            lemma_prefix(f4, f3, i);
            lemma_prefix(f3, f2, i);
            lemma_prefix(f2, f1, i);
        }
        assert forall|i: int| 0 <= i < f2.len() implies #[trigger] ff[i] == f2[i] by {
            lemma_prefix(ff, f4, i);
            lemma_prefix(f4, f3, i);
            lemma_prefix(f3, f2, i);
        }
        assert forall|i: int| 0 <= i < f3.len() implies #[trigger] ff[i] == f3[i] by {
            lemma_prefix(ff, f4, i);
            lemma_prefix(f4, f3, i);
        }
        assert forall|i: int| 0 <= i < f4.len() implies #[trigger] ff[i] == f4[i] by {
            lemma_prefix(ff, f4, i);
        }
        assert forall|i: int| 0 <= i < c1.len() implies #[trigger] cc[i] == c1[i] by {
            lemma_prefix(cc, c4, i);
            lemma_prefix(c4, c3, i);
            lemma_prefix(c3, c2, i);
        }
        assert forall|i: int| 0 <= i < c3.len() implies #[trigger] cc[i] == c3[i] by {
            lemma_prefix(cc, c4, i);
            lemma_prefix(c4, c3, i);
        }
        assert forall|i: int| 0 <= i < c4.len() implies #[trigger] cc[i] == c4[i] by {
            lemma_prefix(cc, c4, i);
        }
        // The Falcon equations and four-square constraints.
        assert forall|s: int, k: int| 0 <= s < n && 0 <= k < C implies is_falcon_eq(
            #[trigger] ff[C * s + k],
            layout,
            *ring,
            sigs@[s],
            s,
            k,
        ) by {
            assert(C * s + k < C * n) by (nonlinear_arith)
                requires
                    0 <= s < n,
                    0 <= k < C,
            ;
            assert(ff[C * s + k] == f1[0 + C * s + k]);
        }
        assert forall|s: int| 0 <= s < n implies is_four_square_ct(
            #[trigger] cc[s],
            layout,
            *ring,
            FALCON_BETA_SQ as int,
            s,
        ) by {
            assert(cc[s] == c1[0 + s]);
        }
        // The form constraints.
        assert forall|t: int| C * n <= t < ff.len() implies form_full_ok(#[trigger] ff[t], layout, q) by {
            if t < f2.len() {
                assert(ff[t] == f2[t]);
                assert(f2[t].a@.len() == 0 || true);
            } else if t < f3.len() {
                assert(ff[t] == f3[t]);
                assert(f3[t].a@.len() == 0);
            } else if t < f4.len() {
                assert(ff[t] == f4[t]);
                assert(f4[t].a@.len() == 0);
            } else {
                assert(ff[t].a@.len() == 0);
            }
        }
        assert forall|t: int| n <= t < cc.len() implies form_ct_ok(#[trigger] cc[t], layout, q) by {
            if t < c3.len() {
                assert(cc[t] == c3[t]);
                assert(c3[t].b0 == 0);
            } else if t < c4.len() {
                assert(cc[t] == c4[t]);
                assert(c4[t].b0 == 0);
            } else {
                assert(cc[t].b0 == 0);
            }
        }
        // Coverage.
        assert forall|iy: int, j: int, p: int| #[trigger] pad_y_pos(layout, iy, j, p) implies exists|t: int|
            0 <= t < ff.len() && is_zero_full(#[trigger] ff[t], layout.y_spec(iy, j), p, q) by {
            let t = choose|t: int|
                f1.len() <= t < f2.len() && is_zero_full(#[trigger] f2[t], layout.y_spec(iy, j), p, q);
            assert(ff[t] == f2[t]);
        }
        assert forall|iyp: int, j: int, p: int| #[trigger] yp_zero_pos(layout, iyp, j, p) implies exists|t: int|
            0 <= t < ff.len() && is_zero_full(#[trigger] ff[t], layout.yp_spec(iyp, j), p, q) by {
            let t = choose|t: int|
                f2.len() <= t < f3.len() && is_zero_full(#[trigger] f3[t], layout.yp_spec(iyp, j), p, q);
            assert(ff[t] == f3[t]);
        }
        assert forall|iy: int, p: int| #[trigger] e_zero_pos(layout, iy, p) implies exists|t: int|
            0 <= t < ff.len() && is_zero_full(#[trigger] ff[t], layout.e_spec(iy), p, q) by {
            let t = choose|t: int|
                f3.len() <= t < f4.len() && is_zero_full(#[trigger] f4[t], layout.e_spec(iy), p, q);
            assert(ff[t] == f4[t]);
        }
        assert forall|iyp: int, j: int, p: int, ll: int| #[trigger] yp_sigma_pos(layout, iyp, j, p, ll) implies exists|t: int|
            0 <= t < cc.len() && is_sigma_eq(
                #[trigger] cc[t],
                layout.yp_spec(iyp, j),
                layout.y_spec(layout.index_spec(p / 8 + 1), j),
                p,
                ll,
                q,
            ) by {
            let t = choose|t: int|
                c2.len() <= t < c3.len() && is_sigma_eq(
                    #[trigger] c3[t],
                    layout.yp_spec(iyp, j),
                    layout.y_spec(layout.index_spec(p / 8 + 1), j),
                    p,
                    ll,
                    q,
                );
            assert(cc[t] == c3[t]);
        }
        assert forall|iy: int, p: int, ll: int| #[trigger] e_coef_pos(layout, iy, p, ll) implies exists|t: int|
            0 <= t < cc.len() && is_coef_zero(#[trigger] cc[t], layout.e_spec(iy), p, ll, q) by {
            let t = choose|t: int|
                c3.len() <= t < c4.len() && is_coef_zero(#[trigger] c4[t], layout.e_spec(iy), p, ll, q);
            assert(cc[t] == c4[t]);
        }
        // Well-formedness.
        assert forall|k: int| 0 <= k < ff.len() implies (#[trigger] ff[k]).wf(
            stmt.r as int,
            stmt.n as int,
            ring.m,
        ) by {
            if k < C * n {
                let s = k / 8;
                let kk = k % 8;
                vstd::arithmetic::div_mod::lemma_fundamental_div_mod(k, 8);
                assert(0 <= s < n) by {
                    vstd::arithmetic::div_mod::lemma_div_is_ordered(k, C * n - 1, 8);
                    vstd::arithmetic::div_mod::lemma_fundamental_div_mod_converse(C * n - 1, 8, n - 1, 7);
                }
                assert(ff[C * s + kk] == ff[k]);
                lemma_falcon_eq_wf(ff[k], layout, *ring, sigs@[s], s, kk);
            } else {
                lemma_form_full_wf(ff[k], layout, ring.m);
            }
        }
        assert forall|k: int| 0 <= k < cc.len() implies (#[trigger] cc[k]).wf(
            stmt.r as int,
            stmt.n as int,
            ring.m,
        ) by {
            if k < n {
                lemma_four_square_wf(cc[k], layout, *ring, FALCON_BETA_SQ as int, k);
            } else {
                lemma_form_ct_wf(cc[k], layout, ring.m);
            }
        }
    }
    stmt
}

/// Build the LaBRADOR statement, honest witness, and layout for an
/// aggregation of `N` decoded Falcon-512 signatures.
///
/// `beta_sq` is the global ℓ²-norm bound on the entire padded witness. The
/// full constraints are the `8N` Falcon equations (in order) followed by
/// the padding / form zero constraints; the constant-term constraints are
/// the `N` four-square constraints (in order) followed by the form
/// constraints. `None` only if some slack `β² − ‖s1‖² − ‖s2‖²` is no sum of
/// four squares.
pub fn build_falcon_statement(sigs: &[FalconSig], ring: &Ring, beta_sq: i128) -> (res: Option<
    (Statement, Witness, WitnessLayout),
>)
    requires
        ring.wf(),
        ring.m.q < 0x1000_0000_0000_0000,
        1 <= sigs@.len() <= MAX_SIGS,
        forall|s: int| 0 <= s < sigs@.len() ==> sig_encodable(#[trigger] sigs@[s]),
    ensures
        match res {
            Some((stmt, w, l)) => {
                let q = ring.m.q as int;
                let n = sigs@.len();
                &&& l.wf()
                &&& l.n_sigs == n
                &&& is_falcon_statement(stmt, l, *ring, sigs@, beta_sq)
                &&& w.w@.len() == l.r_spec()
                &&& forall|vi: int|
                    0 <= vi < l.r_spec() ==> (#[trigger] w.w@[vi])@.len() == C * n && elems_wf(
                        w.w@[vi]@,
                        ring.m,
                    )
                &&& exists|eps: Seq<Seq<int>>|
                    #![trigger eps.len()]
                    {
                        &&& eps.len() == n
                        &&& forall|s: int|
                            0 <= s < n ==> is_four_squares(#[trigger] eps[s], norm_slack(sigs@[s]))
                        &&& forall|vi: int, p: int, j: int|
                            0 <= vi < l.r_spec() && 0 <= p < C * n && 0 <= j < D
                                ==> (#[trigger] w.w@[vi]@[p].c[j]) == honest_value(
                                l,
                                sigs@,
                                eps,
                                vi,
                                p,
                                j,
                                q,
                            )
                    }
            },
            None => exists|s: int|
                0 <= s < sigs@.len() && forall|a: int, b: int, c: int, d: int|
                    a >= 0 && b >= 0 && c >= 0 && d >= 0 ==> #[trigger] (a * a) + #[trigger] (b * b)
                        + #[trigger] (c * c) + #[trigger] (d * d) != norm_slack(#[trigger] sigs@[s]),
        },
{
    let (witness, layout) = match build_honest_witness(sigs, ring) {
        Some(x) => x,
        None => {
            return None;
        },
    };
    let stmt = falcon_statement(sigs, &layout, ring, beta_sq);
    Some((stmt, witness, layout))
}

} // verus!
