//! Prime field `F_Q` for the LaBRADOR modulus `Q`.
//!
//! Field elements are canonical residues in `[0, q)`, stored as `u64`; products
//! go through `u128`, so every operation is exact for `q < 2^62`.
use vstd::arithmetic::div_mod::*;
use vstd::arithmetic::mul::*;
use vstd::arithmetic::power::*;
use vstd::arithmetic::power2::*;
use vstd::prelude::*;

verus! {

/// The centered representative of a residue `a` in `(-q/2, q/2]`.
pub open spec fn centered_of(a: int, q: int) -> int {
    if a > q / 2 {
        a - q
    } else {
        a
    }
}

/// `a^e mod q` over the integers.
pub open spec fn pow_mod(a: int, e: nat, q: int) -> int {
    pow(a, e) % q
}

/// The bases (and trial divisors) of the deterministic Miller–Rabin test.
pub open spec fn small_primes() -> Seq<int> {
    seq![2int, 3, 5, 7, 11, 13, 17, 19, 23, 29, 31, 37]
}

/// `n = d · 2^s` with `d` odd (for `n > 0`): returns `(d, s)`.
pub open spec fn odd_part(n: nat) -> (nat, nat)
    decreases n,
{
    if n > 0 && n % 2 == 0 {
        let (d, s) = odd_part(n / 2);
        (d, s + 1)
    } else {
        (n, 0)
    }
}

/// `x^(2^i) mod n`, computed by `i` successive modular squarings of `x mod n`.
pub open spec fn square_chain(x: int, i: nat, n: int) -> int
    decreases i,
{
    if i == 0 {
        x % n
    } else {
        let y = square_chain(x, (i - 1) as nat, n);
        (y * y) % n
    }
}

/// `n` is a strong probable prime to base `a`: with `n - 1 = d · 2^s`,
/// either `a^d ≡ ±1`, or `a^(d·2^i) ≡ -1` for some `1 <= i < s`.
pub open spec fn strong_probable_prime(n: int, a: int) -> bool {
    let (d, s) = odd_part((n - 1) as nat);
    let x = pow(a % n, d) % n;
    x == 1 || x == n - 1 || exists|i: nat| 1 <= i < s && #[trigger] square_chain(x, i, n) == n - 1
}

/// The deterministic primality test over `u64`: small primes are accepted,
/// multiples of a small prime rejected, and every other `n` must be a strong
/// probable prime to all twelve bases `2, 3, …, 37`.
pub open spec fn passes_primality_test(n: int) -> bool {
    &&& n >= 2
    &&& (small_primes().contains(n) || (
        (forall|k: int| 0 <= k < 12 ==> #[trigger] (n % small_primes()[k]) != 0)
        && (forall|k: int| 0 <= k < 12 ==> #[trigger] strong_probable_prime(n, small_primes()[k]))))
}

/// A prime modulus together with the field operations on `[0, q)`.
#[derive(Clone, Copy, Debug, PartialEq, Eq)]
pub struct Modulus {
    /// The prime `q`.
    pub q: u64,
}

proof fn lemma_pow_step(r: int, b: int, k: nat, q: int)
    requires
        q > 0,
    ensures
        ({
            let r2 = if k % 2 == 1 { (r * b) % q } else { r };
            let b2 = (b * b) % q;
            (r2 * pow(b2, k / 2)) % q == (r * pow(b, k)) % q
        }),
{
    let h = k / 2;
    let t = k % 2;
    lemma_pow_adds(b, 2 * h, t);
    lemma_pow_multiplies(b, 2, h);
    lemma_square_is_pow2(b);
    lemma_pow_mod_noop(b * b, h, q);
    let ph = pow(b * b, h);
    assert(pow(b, 2 * h) == ph);
    assert(pow(b, k) == ph * pow(b, t)) by {
        assert(k == 2 * h + t);
    }
    lemma_mul_mod_noop_general(r, pow((b * b) % q, h), q);
    lemma_mul_mod_noop_general(r, ph, q);
    if t == 1 {
        lemma_pow1(b);
        lemma_mul_mod_noop_general(r * b, pow((b * b) % q, h), q);
        lemma_mul_mod_noop_general(r * b, ph, q);
        assert((r * b) * ph == r * (ph * b)) by (nonlinear_arith);
    } else {
        lemma_pow0(b);
        assert(ph * 1 == ph);
    }
}

/// `a * b mod n` for any `n > 0`.
fn mul_mod_n(a: u64, b: u64, n: u64) -> (r: u64)
    requires
        n > 0,
    ensures
        r == (a as int * b as int) % (n as int),
{
    proof {
        lemma_mul_upper_bound(a as int, u64::MAX as int, b as int, u64::MAX as int);
        assert(0xffff_ffff_ffff_ffffint * 0xffff_ffff_ffff_ffffint <= u128::MAX);
    }
    let p: u128 = (a as u128) * (b as u128);
    (p % (n as u128)) as u64
}

/// `a^e mod n` by square-and-multiply, for any `n > 0`.
fn pow_mod_n(a: u64, e: u64, n: u64) -> (r: u64)
    requires
        n > 0,
    ensures
        r == pow(a as int, e as nat) % (n as int),
{
    let mut x: u64 = 1 % n;
    let mut b: u64 = a % n;
    let mut k: u64 = e;
    proof {
        lemma_pow_mod_noop(a as int, e as nat, n as int);
        lemma_mul_mod_noop_general(1, pow((a % n) as int, e as nat), n as int);
        assert(1 * pow((a % n) as int, e as nat) == pow((a % n) as int, e as nat));
    }
    while k > 0
        invariant
            n > 0,
            x < n,
            b < n,
            (x * pow(b as int, k as nat)) % (n as int) == pow(a as int, e as nat) % (n as int),
        decreases k,
    {
        proof {
            lemma_pow_step(x as int, b as int, k as nat, n as int);
        }
        if k % 2 == 1 {
            x = mul_mod_n(x, b, n);
        }
        b = mul_mod_n(b, b, n);
        k = k / 2;
    }
    proof {
        lemma_pow0(b as int);
        lemma_small_mod(x as nat, n as nat);
    }
    x
}

impl Modulus {
    /// The arithmetic below is exact for `3 <= q < 2^62`.
    pub open spec fn wf(self) -> bool {
        3 <= self.q < 0x4000_0000_0000_0000
    }

    /// Build a modulus. The modulus must be at least 3, below `2^62`, and pass
    /// the primality test.
    pub fn new(q: u64) -> (m: Self)
        requires
            3 <= q < 0x4000_0000_0000_0000,
            passes_primality_test(q as int),
        ensures
            m.q == q,
            m.wf(),
    {
        Modulus { q }
    }

    /// `a + b mod q`, assuming `a, b < q`.
    pub fn add(&self, a: u64, b: u64) -> (r: u64)
        requires
            self.wf(),
            a < self.q,
            b < self.q,
        ensures
            r == (a + b) % (self.q as int),
            r < self.q,
    {
        let s = a + b;
        if s >= self.q {
            proof {
                lemma_mod_sub_multiples_vanish(s as int, self.q as int);
                lemma_small_mod((s - self.q) as nat, self.q as nat);
            }
            s - self.q
        } else {
            proof {
                lemma_small_mod(s as nat, self.q as nat);
            }
            s
        }
    }

    /// `a - b mod q`, assuming `a, b < q`.
    pub fn sub(&self, a: u64, b: u64) -> (r: u64)
        requires
            self.wf(),
            a < self.q,
            b < self.q,
        ensures
            r == (a - b) % (self.q as int),
            r < self.q,
    {
        if a >= b {
            proof {
                lemma_small_mod((a - b) as nat, self.q as nat);
            }
            a - b
        } else {
            proof {
                lemma_mod_add_multiples_vanish(a - b, self.q as int);
                lemma_small_mod((a + self.q - b) as nat, self.q as nat);
            }
            a + self.q - b
        }
    }

    /// `-a mod q`, assuming `a < q`.
    pub fn neg(&self, a: u64) -> (r: u64)
        requires
            self.wf(),
            a < self.q,
        ensures
            r == (-a) % (self.q as int),
            r < self.q,
    {
        if a == 0 {
            0
        } else {
            proof {
                lemma_mod_add_multiples_vanish(-a, self.q as int);
                lemma_small_mod((self.q - a) as nat, self.q as nat);
            }
            self.q - a
        }
    }

    /// `a * b mod q`.
    pub fn mul(&self, a: u64, b: u64) -> (r: u64)
        requires
            self.wf(),
        ensures
            r == (a * b) % (self.q as int),
            r < self.q,
    {
        mul_mod_n(a, b, self.q)
    }

    /// Reduce an arbitrary `u128` into `[0, q)`.
    pub fn reduce(&self, x: u128) -> (r: u64)
        requires
            self.wf(),
        ensures
            r == (x as int) % (self.q as int),
            r < self.q,
    {
        (x % (self.q as u128)) as u64
    }

    /// Map a signed integer into `[0, q)`.
    pub fn from_i64(&self, x: i64) -> (r: u64)
        requires
            self.wf(),
        ensures
            r == (x as int) % (self.q as int),
            r < self.q,
    {
        let q = self.q;
        if x >= 0 {
            let r = (x as u64) % q;
            assert(r == (x as int) % (q as int));
            r
        } else {
            let k: u64 = (-(x + 1)) as u64;
            let t: u64 = k % q;
            proof {
                // x = -(k + 1), so x mod q = q - 1 - (k mod q).
                lemma_fundamental_div_mod(k as int, q as int);
                let d = k as int / q as int;
                assert(x == -(d * q) - t - 1);
                assert(x + (d + 1) * q == q - 1 - t) by (nonlinear_arith)
                    requires
                        x == -(d * q) - t - 1,
                ;
                assert(x == (-(d + 1)) * q + (q - 1 - t)) by (nonlinear_arith)
                    requires
                        x + (d + 1) * q == q - 1 - t,
                ;
                lemma_fundamental_div_mod_converse_mod(x as int, q as int, -(d + 1), q - 1 - t);
            }
            q - 1 - t
        }
    }

    /// The centered representative of `a` in `(-q/2, q/2]`.
    pub fn centered(&self, a: u64) -> (r: i64)
        requires
            self.wf(),
            a < self.q,
        ensures
            r == centered_of(a as int, self.q as int),
    {
        if a > self.q / 2 {
            a as i64 - self.q as i64
        } else {
            a as i64
        }
    }

    /// `a^e mod q`.
    pub fn pow(&self, a: u64, e: u64) -> (r: u64)
        requires
            self.wf(),
        ensures
            r == pow(a as int, e as nat) % (self.q as int),
            r < self.q,
    {
        pow_mod_n(a, e, self.q)
    }

    /// Multiplicative inverse `a^(q-2)` (Fermat's little theorem for prime `q`).
    /// `a` must not be a multiple of `q`.
    pub fn inv(&self, a: u64) -> (r: u64)
        requires
            self.wf(),
            a % self.q != 0,
        ensures
            r == pow(a as int, (self.q - 2) as nat) % (self.q as int),
            r < self.q,
    {
        self.pow(a, self.q - 2)
    }

    /// A square root of `a`, or `None`. Tonelli–Shanks; `0` maps to `0`,
    /// and a non-residue (Euler's criterion) gives `None`.
    pub fn sqrt(&self, a: u64) -> (res: Option<u64>)
        requires
            self.wf(),
            a < self.q,
        ensures
            res matches Some(x) ==> x < self.q && (x * x) % (self.q as int) == a,
            a == 0 ==> res == Some(0u64),
            (a != 0 && pow(a as int, ((self.q - 1) / 2) as nat) % (self.q as int) != 1) ==> res
                is None,
    {
        let q = self.q;
        if a == 0 {
            proof {
                lemma_small_mod(0, q as nat);
                assert(0int * 0int == 0);
            }
            return Some(0);
        }
        // Euler's criterion.
        if self.pow(a, (q - 1) / 2) != 1 {
            return None;
        }
        if q % 4 == 3 {
            let x = self.pow(a, (q + 1) / 4);
            proof {
                lemma_sqrt_3mod4(a as int, q as int);
            }
            return Some(x);
        }
        // Write q - 1 = m * 2^s with m odd.
        let mut s: u32 = 0;
        let mut m: u64 = q - 1;
        proof {
            lemma2_to64();
            lemma2_to64_rest();
        }
        while m % 2 == 0
            invariant
                self.wf(),
                q == self.q,
                m > 0,
                m <= q - 1,
                s < 62,
                m as int * pow2(s as nat) == q - 1,
                pow2(62) == 0x4000_0000_0000_0000,
            decreases m,
        {
            proof {
                lemma_pow2_unfold((s + 1) as nat);
                assert((m / 2) as int * pow2((s + 1) as nat) == m as int * pow2(s as nat)) by (
                nonlinear_arith)
                    requires
                        m % 2 == 0,
                        pow2((s + 1) as nat) == 2 * pow2(s as nat),
                ;
                if s + 1 >= 62 {
                    if s + 1 > 62 {
                        lemma_pow2_strictly_increases(62, (s + 1) as nat);
                    }
                    assert((m / 2) as int * pow2((s + 1) as nat) >= pow2((s + 1) as nat)) by (
                    nonlinear_arith)
                        requires
                            m / 2 >= 1,
                    ;
                }
            }
            m = m / 2;
            s = s + 1;
        }
        // Find a non-residue z.
        let mut z: u64 = 2;
        while z < q && self.pow(z, (q - 1) / 2) != q - 1
            invariant
                self.wf(),
                q == self.q,
                2 <= z <= q,
            decreases q - z,
        {
            z = z + 1;
        }
        if z >= q {
            return None;
        }
        let mut c = self.pow(z, m);
        let mut t = self.pow(a, m);
        let mut r = self.pow(a, (m + 1) / 2);
        proof {
            lemma_ts_init(a as int, m as nat, q as int);
        }
        loop
            invariant
                self.wf(),
                q == self.q,
                0 < a < q,
                pow(a as int, ((q - 1) / 2) as nat) % (q as int) == 1,
                c < q,
                t < q,
                r < q,
                s < 62,
                (r * r) % (q as int) == (a * t) % (q as int),
            decreases s,
        {
            if t == 1 {
                proof {
                    lemma_small_mod(a as nat, q as nat);
                }
                return Some(r);
            }
            if s == 0 {
                return None;
            }
            // Smallest i with t^(2^i) == 1.
            let mut i: u32 = 0;
            let mut t2 = t;
            while t2 != 1
                invariant
                    self.wf(),
                    q == self.q,
                    0 < a < q,
                    i < s,
                    t2 < q,
                decreases s - i,
            {
                if i + 1 >= s {
                    return None;
                }
                t2 = self.mul(t2, t2);
                i = i + 1;
            }
            let b = self.pow(c, 1u64 << (s - i - 1));
            proof {
                lemma_ts_step(a as int, r as int, t as int, b as int, q as int);
            }
            r = self.mul(r, b);
            c = self.mul(b, b);
            t = self.mul(t, c);
            s = i;
        }
    }

    /// A square root of `-1`, i.e. an element `r` with `r^2 = q - 1`.
    pub fn sqrt_minus_one(&self) -> (res: Option<u64>)
        requires
            self.wf(),
        ensures
            res matches Some(x) ==> x < self.q && (x * x) % (self.q as int) == self.q - 1,
            pow((self.q - 1) as int, ((self.q - 1) / 2) as nat) % (self.q as int) != 1 ==> res
                is None,
    {
        self.sqrt(self.q - 1)
    }

    /// The candidate root `g^((q-1)/n) mod q` of the search for a primitive
    /// `n`-th root of unity.
    pub open spec fn root_candidate(&self, g: int, n: u64) -> int {
        pow(g, ((self.q - 1) / n as int) as nat) % (self.q as int)
    }

    /// The candidate from `g` has `candidate^(n/2) ≡ -1`.
    pub open spec fn root_accepts(&self, g: int, n: u64) -> bool {
        pow(self.root_candidate(g, n), (n / 2) as nat) % (self.q as int) == self.q - 1
    }

    /// An element `psi` with `psi^(n/2) = -1` (hence `psi^n = 1`): a primitive
    /// `n`-th root of unity for `n` a power of two. Searches `g = 2, 3, …`
    /// and tries `psi = g^((q-1)/n)`.
    pub fn primitive_root_of_unity(&self, n: u64) -> (res: Option<u64>)
        requires
            self.wf(),
            n >= 2,
            n % 2 == 0,
        ensures
            res matches Some(psi) ==> psi < self.q && pow(psi as int, (n / 2) as nat) % (
            self.q as int) == self.q - 1 && pow(psi as int, n as nat) % (self.q as int) == 1,
            res matches Some(psi) ==> exists|g: int|
                2 <= g < self.q && #[trigger] self.root_accepts(g, n) && psi == self.root_candidate(g, n)
                    && forall|h: int| 2 <= h < g ==> !#[trigger] self.root_accepts(h, n),
            res is None <==> forall|g: int| 2 <= g < self.q ==> !#[trigger] self.root_accepts(g, n),
    {
        let q = self.q;
        let mut g: u64 = 2;
        while g < q
            invariant
                self.wf(),
                q == self.q,
                n >= 2,
                n % 2 == 0,
                g >= 2,
                forall|h: int| 2 <= h < g ==> !#[trigger] self.root_accepts(h, n),
            decreases q - g,
        {
            let psi = self.pow(g, (q - 1) / n);
            assert(psi == self.root_candidate(g as int, n));
            if self.pow(psi, n / 2) == q - 1 {
                proof {
                    let h = (n / 2) as nat;
                    let p = pow(psi as int, h);
                    lemma_pow_adds(psi as int, h, h);
                    assert(h + h == n);
                    lemma_mul_mod_noop_general(p, p, q as int);
                    assert(((q - 1) as int * (q - 1) as int) % (q as int) == 1) by (nonlinear_arith)
                        requires
                            q >= 3,
                    {
                        assert((q - 1) as int * (q - 1) as int == (q - 2) as int * (q as int) + 1)
                            by (nonlinear_arith);
                        lemma_fundamental_div_mod_converse_mod(
                            (q - 1) as int * (q - 1) as int,
                            q as int,
                            (q - 2) as int,
                            1,
                        );
                    }
                }
                assert(self.root_accepts(g as int, n));
                return Some(psi);
            }
            assert(!self.root_accepts(g as int, n));
            g = g + 1;
        }
        None
    }
}


/// Congruent factors give congruent products.
proof fn lemma_mul_congruent(x: int, y: int, z: int, q: int)
    requires
        q > 0,
        x % q == y % q,
    ensures
        (x * z) % q == (y * z) % q,
{
    lemma_mul_mod_noop_left(x, z, q);
    lemma_mul_mod_noop_left(y, z, q);
}

/// `(pow(a, (m+1)/2) mod q)^2 ≡ a · (pow(a, m) mod q)` for odd `m`.
proof fn lemma_ts_init(a: int, m: nat, q: int)
    requires
        q > 0,
        m % 2 == 1,
    ensures
        ((pow(a, ((m + 1) / 2) as nat) % q) * (pow(a, ((m + 1) / 2) as nat) % q)) % q
            == (a * (pow(a, m) % q)) % q,
{
    let h = ((m + 1) / 2) as nat;
    let p = pow(a, h);
    lemma_mul_mod_noop_general(p, p, q);
    lemma_pow_adds(a, h, h);
    assert(h + h == m + 1);
    lemma_pow_adds(a, m, 1);
    lemma_pow1(a);
    lemma_mul_mod_noop_general(a, pow(a, m), q);
    assert(pow(a, m) * a == a * pow(a, m)) by (nonlinear_arith);
}

/// The Tonelli–Shanks update keeps `r^2 ≡ a·t (mod q)`.
proof fn lemma_ts_step(a: int, r: int, t: int, b: int, q: int)
    requires
        q > 0,
        (r * r) % q == (a * t) % q,
    ensures
        (((r * b) % q) * ((r * b) % q)) % q == (a * ((t * ((b * b) % q)) % q)) % q,
{
    lemma_mul_mod_noop_general(r * b, r * b, q);
    assert((r * b) * (r * b) == (r * r) * (b * b)) by (nonlinear_arith);
    lemma_mul_congruent(r * r, a * t, b * b, q);
    assert((a * t) * (b * b) == a * (t * (b * b))) by (nonlinear_arith);
    lemma_mul_mod_noop_general(t, b * b, q);
    lemma_mul_mod_noop_general(a, t * ((b * b) % q), q);
    lemma_mul_mod_noop_general(a, t * (b * b), q);
}

/// For `q ≡ 3 (mod 4)` and `a^((q-1)/2) ≡ 1`, `a^((q+1)/4)` squares to `a`.
proof fn lemma_sqrt_3mod4(a: int, q: int)
    requires
        q > 2,
        q % 4 == 3,
        0 <= a < q,
        pow(a, ((q - 1) / 2) as nat) % q == 1,
    ensures
        ((pow(a, ((q + 1) / 4) as nat) % q) * (pow(a, ((q + 1) / 4) as nat) % q)) % q == a,
{
    let h = ((q + 1) / 4) as nat;
    let e = ((q - 1) / 2) as nat;
    let p = pow(a, h);
    lemma_mul_mod_noop_general(p, p, q);
    lemma_pow_adds(a, h, h);
    assert(h + h == e + 1);
    lemma_pow_adds(a, e, 1);
    lemma_pow1(a);
    lemma_mul_mod_noop_general(pow(a, e), a, q);
    lemma_small_mod(a as nat, q as nat);
}

/// Split off the even part: `n - 1 = d · 2^s` with `d` odd.
fn odd_decompose(n: u64) -> (res: (u64, u64))
    requires
        n >= 2,
    ensures
        res.0 as nat == odd_part((n - 1) as nat).0,
        res.1 as nat == odd_part((n - 1) as nat).1,
        res.0 % 2 == 1,
{
    let mut d: u64 = n - 1;
    let mut s: u64 = 0;
    while d % 2 == 0
        invariant
            d > 0,
            s + d <= n - 1,
            odd_part(d as nat).0 == odd_part((n - 1) as nat).0,
            odd_part(d as nat).1 + s == odd_part((n - 1) as nat).1,
        decreases d,
    {
        d = d / 2;
        s = s + 1;
    }
    (d, s)
}

/// Does `n` pass the strong-probable-prime test to base `a`?
fn is_strong_probable_prime(n: u64, a: u64, d: u64, s: u64) -> (res: bool)
    requires
        n >= 3,
        d as nat == odd_part((n - 1) as nat).0,
        s as nat == odd_part((n - 1) as nat).1,
    ensures
        res == strong_probable_prime(n as int, a as int),
{
    let mut x = pow_mod_n(a % n, d, n);
    if x == 1 || x == n - 1 {
        return true;
    }
    let ghost x0 = x as int;
    let mut i: u64 = 1;
    proof {
        lemma_small_mod(x as nat, n as nat);
    }
    while i < s
        invariant
            n >= 3,
            1 <= i,
            d as nat == odd_part((n - 1) as nat).0,
            s as nat == odd_part((n - 1) as nat).1,
            x0 == pow((a % n) as int, d as nat) % (n as int),
            x as int == square_chain(x0, (i - 1) as nat, n as int),
            x < n,
            forall|j: nat| 1 <= j < i ==> #[trigger] square_chain(x0, j, n as int) != n - 1,
        decreases s - i,
    {
        x = mul_mod_n(x, x, n);
        assert(x as int == square_chain(x0, i as nat, n as int));
        if x == n - 1 {
            proof {
                let ds = odd_part((n - 1) as nat);
                let xx = pow((a as int) % (n as int), ds.0) % (n as int);
                assert(xx == x0);
                assert(1 <= i < ds.1 && square_chain(xx, i as nat, n as int) == n - 1);
            }
            return true;
        }
        i = i + 1;
    }
    proof {
        assert forall|j: nat| 1 <= j < s implies #[trigger] square_chain(x0, j, n as int) != n - 1 by {
        }
    }
    false
}

/// Deterministic Miller–Rabin primality test with the bases `2, 3, …, 37`.
pub fn is_prime(n: u64) -> (res: bool)
    ensures
        res == passes_primality_test(n as int),
{
    if n < 2 {
        return false;
    }
    let ps: [u64; 12] = [2, 3, 5, 7, 11, 13, 17, 19, 23, 29, 31, 37];
    assert(forall|k: int| 0 <= k < 12 ==> ps@[k] as int == #[trigger] small_primes()[k]);
    assert(forall|k: int| 0 <= k < 12 ==> #[trigger] ps@[k] >= 2);
    let mut k: usize = 0;
    while k < 12
        invariant
            n >= 2,
            forall|k: int| 0 <= k < 12 ==> ps@[k] as int == #[trigger] small_primes()[k],
            forall|k: int| 0 <= k < 12 ==> #[trigger] ps@[k] >= 2,
            forall|j: int| 0 <= j < k ==> (n as int) != #[trigger] small_primes()[j] && (n as int)
                % small_primes()[j] != 0,
        decreases 12 - k,
    {
        if n == ps[k] {
            assert(small_primes()[k as int] == n as int);
            return true;
        }
        if n % ps[k] == 0 {
            proof {
                assert forall|j: int| 0 <= j < 12 implies small_primes()[j] != n as int by {
                    if j > k && small_primes()[j] == n as int {
                        assert(small_primes()[j] % small_primes()[k as int] != 0);
                    }
                }
                assert(!small_primes().contains(n as int));
                assert((n as int) % small_primes()[k as int] == 0);
            }
            return false;
        }
        k = k + 1;
    }
    assert(!small_primes().contains(n as int));
    let (d, s) = odd_decompose(n);
    k = 0;
    while k < 12
        invariant
            n >= 3,
            d as nat == odd_part((n - 1) as nat).0,
            s as nat == odd_part((n - 1) as nat).1,
            !small_primes().contains(n as int),
            forall|k: int| 0 <= k < 12 ==> ps@[k] as int == #[trigger] small_primes()[k],
            forall|j: int| 0 <= j < k ==> #[trigger] strong_probable_prime(n as int, small_primes()[j]),
        decreases 12 - k,
    {
        if !is_strong_probable_prime(n, ps[k], d, s) {
            assert(!strong_probable_prime(n as int, small_primes()[k as int]));
            return false;
        }
        k = k + 1;
    }
    true
}

/// Smallest prime `>= min_value` congruent to `5 (mod 8)`, if one fits in
/// `u64`.
///
/// `q ≡ 5 (mod 8)` makes `X^64 + 1` split into exactly two irreducible
/// degree-32 factors mod `q` (the two-splitting ring).
pub fn find_prime_5mod8(min_value: u64) -> (res: Option<u64>)
    ensures
        res matches Some(c) ==> c >= min_value && c % 8 == 5 && passes_primality_test(c as int)
            && forall|x: int|
            min_value <= x < c && x % 8 == 5 ==> !#[trigger] passes_primality_test(x),
        res is None ==> forall|x: int|
            min_value <= x <= u64::MAX && x % 8 == 5 ==> !#[trigger] passes_primality_test(x),
{
    let off = (5 + 8 - min_value % 8) % 8;
    if min_value > u64::MAX - off {
        return None;
    }
    let mut c = min_value + off;
    loop
        invariant
            c % 8 == 5,
            c >= min_value,
            forall|x: int| min_value <= x < c && x % 8 == 5 ==> !#[trigger] passes_primality_test(x),
        decreases u64::MAX - c,
    {
        if is_prime(c) {
            return Some(c);
        }
        if c > u64::MAX - 8 {
            return None;
        }
        c = c + 8;
    }
}

/// Largest prime `< bound` congruent to `5 (mod 8)`, if any.
pub fn find_prime_5mod8_below(bound: u64) -> (res: Option<u64>)
    ensures
        res matches Some(c) ==> c < bound && c % 8 == 5 && passes_primality_test(c as int)
            && forall|x: int| c < x < bound && x % 8 == 5 ==> !#[trigger] passes_primality_test(x),
        res is None ==> forall|x: int|
            0 <= x < bound && x % 8 == 5 ==> !#[trigger] passes_primality_test(x),
{
    let mut c = bound;
    while c > 0
        invariant
            c <= bound,
            forall|x: int| c <= x < bound && x % 8 == 5 ==> !#[trigger] passes_primality_test(x),
        decreases c,
    {
        c = c - 1;
        if c % 8 == 5 && is_prime(c) {
            return Some(c);
        }
    }
    None
}

/// Largest prime `< bound` congruent to `1 (mod m)`, if any. With `m = 2D`
/// such a prime admits a primitive `2D`-th root of unity (negacyclic NTT).
pub fn find_prime_ntt_friendly_below(bound: u64, m: u64) -> (res: Option<u64>)
    requires
        m >= 2,
    ensures
        res matches Some(c) ==> c < bound && c % m == 1 && passes_primality_test(c as int)
            && forall|x: int| c < x < bound && x % (m as int) == 1 ==> !#[trigger] passes_primality_test(x),
        res is None ==> forall|x: int|
            0 <= x < bound && x % (m as int) == 1 ==> !#[trigger] passes_primality_test(x),
{
    let mut c = bound;
    while c > 0
        invariant
            m >= 2,
            c <= bound,
            forall|x: int|
                c <= x < bound && x % (m as int) == 1 ==> !#[trigger] passes_primality_test(x),
        decreases c,
    {
        c = c - 1;
        if c % m == 1 && is_prime(c) {
            return Some(c);
        }
    }
    None
}
} // verus!
