//! Arithmetic in the Falcon-512 ring `R_f = Z_12289[X] / (X^512 + 1)`.
//!
//! Used only to check and encode signatures, so the negacyclic schoolbook
//! product is enough. Coefficients are canonical residues in `[0, 12289)`;
//! signed short vectors enter through [`FPoly::from_i32`] and are read back
//! through [`FPoly::centered`] / [`FPoly::norm_sq`].
use crate::modring::modulus::centered_of;
use crate::modring::polyspec::{
    ints32, lemma_wrap_coeff_commutes, lemma_wrap_coeff_distributes, negacyclic_coeff, row_reached,
    sum_sq, wrap_partial, wrap_term,
};
use vstd::arithmetic::div_mod::*;
use vstd::arithmetic::mul::*;
use vstd::prelude::*;
use vstd::std_specs::cmp::PartialEqSpecImpl;

verus! {

/// The Falcon modulus.
pub const FALCON_Q: u32 = 12289;

/// The Falcon-512 ring degree.
pub const FALCON_N: usize = 512;

/// Falcon's acceptance bound on `||(s1, s2)||^2` for the 512 parameter set
/// (`beta = 5834`, so this is `beta^2`).
pub const FALCON_BETA_SQ: i64 = 34035556;

/// An element of `R_f`, in coefficient representation.
#[derive(Clone, Copy, Eq, Debug)]
pub struct FPoly {
    /// Coefficients `c[i]` of `X^i`, each a canonical residue in `[0, q)`.
    pub c: [u32; FALCON_N],
}

impl PartialEq for FPoly {
    fn eq(&self, other: &Self) -> (r: bool) {
        for i in 0..FALCON_N
            invariant
                forall|j: int| 0 <= j < i ==> #[trigger] self.c[j] == other.c[j],
        {
            if self.c[i] != other.c[i] {
                return false;
            }
        }
        assert(self.c@ =~= other.c@);
        true
    }
}

impl PartialEqSpecImpl for FPoly {
    open spec fn obeys_eq_spec() -> bool {
        true
    }

    open spec fn eq_spec(&self, other: &Self) -> bool {
        self.c@ == other.c@
    }
}

/// The centered coefficients of a Falcon polynomial.
pub open spec fn fpoly_centered(f: FPoly) -> Seq<int> {
    Seq::new(FALCON_N as nat, |i: int| centered_of(f.c[i] as int, FALCON_Q as int))
}

/// Coefficient `k` of `a · b` in `R_f`.
pub open spec fn fpoly_mul_coeff(a: FPoly, b: FPoly, k: int) -> int {
    negacyclic_coeff(ints32(a.c), ints32(b.c), k) % (FALCON_Q as int)
}

/// `a + b mod q`, assuming `a, b < q`.
fn add_q(a: u32, b: u32) -> (r: u32)
    requires
        a < FALCON_Q,
        b < FALCON_Q,
    ensures
        r == (a + b) % (FALCON_Q as int),
        r < FALCON_Q,
{
    let s = a + b;
    if s >= FALCON_Q {
        proof {
            lemma_mod_sub_multiples_vanish(s as int, FALCON_Q as int);
            lemma_small_mod((s - FALCON_Q) as nat, FALCON_Q as nat);
        }
        s - FALCON_Q
    } else {
        proof {
            lemma_small_mod(s as nat, FALCON_Q as nat);
        }
        s
    }
}

/// `a - b mod q`, assuming `a, b < q`.
fn sub_q(a: u32, b: u32) -> (r: u32)
    requires
        a < FALCON_Q,
        b < FALCON_Q,
    ensures
        r == (a - b) % (FALCON_Q as int),
        r < FALCON_Q,
{
    if a >= b {
        proof {
            lemma_small_mod((a - b) as nat, FALCON_Q as nat);
        }
        a - b
    } else {
        proof {
            lemma_mod_add_multiples_vanish(a - b, FALCON_Q as int);
            lemma_small_mod((a + FALCON_Q - b) as nat, FALCON_Q as nat);
        }
        a + FALCON_Q - b
    }
}

/// `x mod q` for a signed 64-bit integer.
fn reduce_q(x: i64) -> (r: u32)
    ensures
        r == (x as int) % (FALCON_Q as int),
        r < FALCON_Q,
{
    let q: i64 = FALCON_Q as i64;
    if x >= 0 {
        let r = (x % q) as u32;
        r
    } else {
        let k: i64 = -(x + 1);
        let t: i64 = k % q;
        proof {
            lemma_fundamental_div_mod(k as int, q as int);
            let d = k as int / q as int;
            assert(x == -(d * q) - t - 1);
            assert(x == (-(d + 1)) * q + (q - 1 - t)) by (nonlinear_arith)
                requires
                    x == -(d * q) - t - 1,
            ;
            lemma_fundamental_div_mod_converse_mod(x as int, q as int, -(d + 1), q - 1 - t);
        }
        (q - 1 - t) as u32
    }
}

impl FPoly {
    /// Every coefficient is a canonical residue mod 12289.
    pub open spec fn wf(&self) -> bool {
        forall|i: int| 0 <= i < FALCON_N ==> #[trigger] self.c[i] < FALCON_Q
    }

    /// The zero polynomial.
    pub fn zero() -> (p: Self)
        ensures
            forall|i: int| 0 <= i < FALCON_N ==> #[trigger] p.c[i] == 0,
            p.wf(),
    {
        FPoly { c: [0u32; FALCON_N] }
    }

    /// Build from residues already in `[0, q)`.
    pub fn from_residues(c: [u32; FALCON_N]) -> (p: Self)
        requires
            forall|i: int| 0 <= i < FALCON_N ==> #[trigger] c[i] < FALCON_Q,
        ensures
            p.c == c,
            p.wf(),
    {
        FPoly { c }
    }

    /// Build from signed (centered) coefficients, reducing mod `q`.
    pub fn from_i32(coeffs: &[i32; FALCON_N]) -> (p: Self)
        ensures
            forall|i: int| 0 <= i < FALCON_N ==> #[trigger] p.c[i] == (coeffs[i] as int) % (
            FALCON_Q as int),
            p.wf(),
    {
        let mut p = Self::zero();
        for i in 0..FALCON_N
            invariant
                forall|j: int| 0 <= j < i ==> #[trigger] p.c[j] == (coeffs[j] as int) % (
                FALCON_Q as int),
                p.wf(),
        {
            p.c[i] = reduce_q(coeffs[i] as i64);
        }
        p
    }

    /// The centered representative of coefficient `i`, in `(-q/2, q/2]`.
    pub fn centered(&self, i: usize) -> (r: i32)
        requires
            self.wf(),
            i < FALCON_N,
        ensures
            r == centered_of(self.c[i as int] as int, FALCON_Q as int),
            -6144 <= r <= 6144,
    {
        let x = self.c[i] as i32;
        if x > FALCON_Q as i32 / 2 {
            x - FALCON_Q as i32
        } else {
            x
        }
    }

    /// Coefficient-wise sum.
    pub fn add(&self, other: &FPoly) -> (r: FPoly)
        requires
            self.wf(),
            other.wf(),
        ensures
            forall|i: int| 0 <= i < FALCON_N ==> #[trigger] r.c[i] == (self.c[i] + other.c[i]) % (
            FALCON_Q as int),
            r.wf(),
    {
        let mut r = FPoly::zero();
        for i in 0..FALCON_N
            invariant
                self.wf(),
                other.wf(),
                r.wf(),
                forall|j: int| 0 <= j < i ==> #[trigger] r.c[j] == (self.c[j] + other.c[j]) % (
                FALCON_Q as int),
        {
            r.c[i] = add_q(self.c[i], other.c[i]);
        }
        r
    }

    /// Coefficient-wise difference.
    pub fn sub(&self, other: &FPoly) -> (r: FPoly)
        requires
            self.wf(),
            other.wf(),
        ensures
            forall|i: int| 0 <= i < FALCON_N ==> #[trigger] r.c[i] == (self.c[i] - other.c[i]) % (
            FALCON_Q as int),
            r.wf(),
    {
        let mut r = FPoly::zero();
        for i in 0..FALCON_N
            invariant
                self.wf(),
                other.wf(),
                r.wf(),
                forall|j: int| 0 <= j < i ==> #[trigger] r.c[j] == (self.c[j] - other.c[j]) % (
                FALCON_Q as int),
        {
            r.c[i] = sub_q(self.c[i], other.c[i]);
        }
        r
    }

    /// Coefficient-wise negation.
    pub fn neg(&self) -> (r: FPoly)
        requires
            self.wf(),
        ensures
            forall|i: int| 0 <= i < FALCON_N ==> #[trigger] r.c[i] == (-self.c[i]) % (
            FALCON_Q as int),
            r.wf(),
    {
        let mut r = FPoly::zero();
        for i in 0..FALCON_N
            invariant
                self.wf(),
                r.wf(),
                forall|j: int| 0 <= j < i ==> #[trigger] r.c[j] == (-self.c[j]) % (FALCON_Q as int),
        {
            r.c[i] = if self.c[i] == 0 {
                proof {
                    lemma_small_mod(0, FALCON_Q as nat);
                }
                0
            } else {
                proof {
                    lemma_mod_add_multiples_vanish(-self.c[i as int], FALCON_Q as int);
                    lemma_small_mod((FALCON_Q - self.c[i as int]) as nat, FALCON_Q as nat);
                }
                FALCON_Q - self.c[i]
            };
        }
        r
    }

    /// Negacyclic schoolbook product in `R_f` (`X^512 = -1`), accumulated
    /// exactly in `i64` and reduced once at the end.
    pub fn mul(&self, other: &FPoly) -> (r: FPoly)
        requires
            self.wf(),
            other.wf(),
        ensures
            forall|k: int| 0 <= k < FALCON_N ==> #[trigger] r.c[k] == fpoly_mul_coeff(*self, *other, k),
            r.wf(),
    {
        let ghost a = ints32(self.c);
        let ghost b = ints32(other.c);
        let mut acc = [0i64; FALCON_N];
        let qq: i64 = 12289 * 12289;
        for i in 0..FALCON_N
            invariant
                self.wf(),
                other.wf(),
                a == ints32(self.c),
                b == ints32(other.c),
                qq == 12289 * 12289,
                forall|k: int| 0 <= k < FALCON_N ==> #[trigger] acc[k] == wrap_partial(a, b, k, i as nat, -1),
                forall|k: int| 0 <= k < FALCON_N ==> -(i as int) * qq <= #[trigger] acc[k] <= (i as int) * qq,
        {
            let ai = self.c[i] as i64;
            if ai == 0 {
                proof {
                    assert forall|k: int| 0 <= k < FALCON_N implies #[trigger] acc[k] == wrap_partial(
                        a,
                        b,
                        k,
                        (i + 1) as nat,
                        -1,
                    ) by {
                        assert(a[i as int] == 0);
                        if k >= i {
                            lemma_mul_basics(b[k - i]);
                        } else {
                            lemma_mul_basics(b[k - i + 512]);
                        }
                    }
                    assert forall|k: int| 0 <= k < FALCON_N implies -((i + 1) as int) * qq <= #[trigger] acc[k] <= ((i + 1) as int) * qq by {
                        assert((i + 1) as int * qq == i as int * qq + qq) by (nonlinear_arith);
                    }
                }
            } else {
                for j in 0..FALCON_N
                    invariant
                        self.wf(),
                        other.wf(),
                        i < FALCON_N,
                        ai == self.c[i as int],
                        a == ints32(self.c),
                        b == ints32(other.c),
                        qq == 12289 * 12289,
                        forall|k: int|
                            0 <= k < FALCON_N ==> #[trigger] acc[k] == wrap_partial(a, b, k, i as nat, -1) + (
                            if row_reached(FALCON_N as int, i as int, j as int, k) {
                                wrap_term(a, b, i as int, k, -1)
                            } else {
                                0
                            }),
                        forall|k: int|
                            0 <= k < FALCON_N ==> -(i as int) * qq - (if row_reached(FALCON_N as int, i as int, j as int, k) { qq } else { 0 })
                                <= #[trigger] acc[k] <= (i as int) * qq + (if row_reached(FALCON_N as int, i as int, j as int, k) { qq } else { 0 }),
                {
                    let bj = other.c[j] as i64;
                    proof {
                        assert(0 <= ai * bj <= qq) by (nonlinear_arith)
                            requires
                                0 <= ai < 12289,
                                0 <= bj < 12289,
                                qq == 12289 * 12289,
                        ;
                        assert((i as int) * qq <= 511 * qq) by (nonlinear_arith)
                            requires
                                i < 512,
                                qq > 0,
                        ;
                    }
                    let p = ai * bj;
                    let k = i + j;
                    if k < FALCON_N {
                        acc[k] = acc[k] + p;
                    } else {
                        acc[k - FALCON_N] = acc[k - FALCON_N] - p;
                    }
                }
                proof {
                    assert forall|k: int| 0 <= k < FALCON_N implies -((i + 1) as int) * qq <= #[trigger] acc[k] <= ((i + 1) as int) * qq by {
                        assert((i + 1) as int * qq == i as int * qq + qq) by (nonlinear_arith);
                    }
                }
            }
        }
        let mut r = FPoly::zero();
        for i in 0..FALCON_N
            invariant
                a == ints32(self.c),
                b == ints32(other.c),
                forall|k: int| 0 <= k < FALCON_N ==> #[trigger] acc[k] == wrap_partial(a, b, k, 512, -1),
                r.wf(),
                forall|k: int| 0 <= k < i ==> #[trigger] r.c[k] == fpoly_mul_coeff(*self, *other, k),
        {
            r.c[i] = reduce_q(acc[i]);
        }
        r
    }

    /// Squared Euclidean norm of the centered coefficient vector.
    pub fn norm_sq(&self) -> (n: i64)
        requires
            self.wf(),
        ensures
            n == sum_sq(fpoly_centered(*self), FALCON_N as nat),
            0 <= n <= 19327352832,
    {
        let ghost cs = fpoly_centered(*self);
        let mut acc: i64 = 0;
        for i in 0..FALCON_N
            invariant
                self.wf(),
                cs == fpoly_centered(*self),
                acc == sum_sq(cs, i as nat),
                0 <= acc <= i * 37748736,
        {
            let v = self.centered(i) as i64;
            proof {
                assert(0 <= v * v <= 37748736) by (nonlinear_arith)
                    requires
                        -6144 <= v <= 6144,
                ;
            }
            acc = acc + v * v;
        }
        acc
    }
}

/// Multiplication in `R_f` is commutative: `a · b = b · a`.
pub proof fn law_fpoly_mul_commutative(a: FPoly, b: FPoly)
    ensures
        forall|k: int|
            0 <= k < FALCON_N ==> #[trigger] fpoly_mul_coeff(a, b, k) == fpoly_mul_coeff(b, a, k),
{
    assert forall|k: int| 0 <= k < FALCON_N implies #[trigger] fpoly_mul_coeff(a, b, k)
        == fpoly_mul_coeff(b, a, k) by {
        lemma_wrap_coeff_commutes(ints32(a.c), ints32(b.c), k, -1);
    }
}

/// Multiplication in `R_f` distributes over addition: when `bc = b + c`,
/// every coefficient of `a · bc` is the sum mod 12289 of those of `a · b`
/// and `a · c`.
pub proof fn law_fpoly_mul_distributive(a: FPoly, b: FPoly, c: FPoly, bc: FPoly)
    requires
        forall|i: int| 0 <= i < FALCON_N ==> #[trigger] bc.c[i] == (b.c[i] + c.c[i]) % (FALCON_Q as int),
    ensures
        forall|k: int|
            0 <= k < FALCON_N ==> #[trigger] fpoly_mul_coeff(a, bc, k) == (fpoly_mul_coeff(a, b, k)
                + fpoly_mul_coeff(a, c, k)) % (FALCON_Q as int),
{
    let q = FALCON_Q as int;
    let (sa, sb, sc, sbc) = (ints32(a.c), ints32(b.c), ints32(c.c), ints32(bc.c));
    assert forall|j: int| 0 <= j < sa.len() implies #[trigger] sbc[j] == (sb[j] + sc[j]) % q by {
        assert(bc.c[j] == (b.c[j] + c.c[j]) % q);
    }
    assert forall|k: int| 0 <= k < FALCON_N implies #[trigger] fpoly_mul_coeff(a, bc, k) == (
    fpoly_mul_coeff(a, b, k) + fpoly_mul_coeff(a, c, k)) % q by {
        lemma_wrap_coeff_distributes(sa, sb, sc, sbc, k, -1, q);
    }
}

} // verus!
