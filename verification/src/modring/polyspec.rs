//! Mathematical model of polynomial arithmetic over the integers.
//!
//! A polynomial of degree `< n` is a `Seq<int>` of its `n` coefficients.
//! The product modulo `X^n - s` sums, for every output position `k`, the
//! terms `a_i · b_j` with `i + j ≡ k (mod n)`; a term with `i + j >= n`
//! wraps around and picks up a factor `s`. The LaBRADOR and Falcon rings
//! are the negacyclic case `s = -1`.
use vstd::arithmetic::div_mod::{lemma_add_mod_noop, lemma_mul_mod_noop_right};
use vstd::arithmetic::mul::{lemma_mul_is_commutative, lemma_mul_is_distributive_add};
use vstd::prelude::*;

verus! {

/// The contribution of `a_i` to coefficient `k` of `a · b mod (X^n - s)`.
pub open spec fn wrap_term(a: Seq<int>, b: Seq<int>, i: int, k: int, s: int) -> int {
    if i <= k {
        a[i] * b[k - i]
    } else {
        s * (a[i] * b[k - i + a.len()])
    }
}

/// `Σ_{i < upto} wrap_term(a, b, i, k, s)`.
pub open spec fn wrap_partial(a: Seq<int>, b: Seq<int>, k: int, upto: nat, s: int) -> int
    decreases upto,
{
    if upto == 0 {
        0
    } else {
        wrap_partial(a, b, k, (upto - 1) as nat, s) + wrap_term(a, b, (upto - 1) as int, k, s)
    }
}

/// Coefficient `k` of `a · b mod (X^n - s)` over the integers (`n = a.len()`).
pub open spec fn wrap_coeff(a: Seq<int>, b: Seq<int>, k: int, s: int) -> int {
    wrap_partial(a, b, k, a.len(), s)
}

/// Coefficient `k` of the negacyclic product `a · b mod (X^n + 1)`.
pub open spec fn negacyclic_coeff(a: Seq<int>, b: Seq<int>, k: int) -> int {
    wrap_coeff(a, b, k, -1)
}

/// Has row `i` of the schoolbook product already reached position `k` after
/// its first `j` terms?
pub open spec fn row_reached(n: int, i: int, j: int, k: int) -> bool {
    if k >= i {
        k - i < j
    } else {
        k - i + n < j
    }
}

/// Coefficients of an array of residues, as integers.
pub open spec fn ints<const N: usize>(a: [u64; N]) -> Seq<int> {
    a@.map_values(|x: u64| x as int)
}

/// Sum of squares of a sequence of integers.
pub open spec fn sum_sq(v: Seq<int>, upto: nat) -> int
    decreases upto,
{
    if upto == 0 {
        0
    } else {
        sum_sq(v, (upto - 1) as nat) + v[upto - 1] * v[upto - 1]
    }
}

/// A sum of squares is non-negative.
pub proof fn lemma_sum_sq_nonneg(v: Seq<int>, upto: nat)
    ensures
        0 <= sum_sq(v, upto),
    decreases upto,
{
    if upto > 0 {
        lemma_sum_sq_nonneg(v, (upto - 1) as nat);
        let x = v[upto - 1];
        assert(0 <= x * x) by (nonlinear_arith);
    }
}

/// Coefficients of an array of `u32` residues, as integers.
pub open spec fn ints32<const N: usize>(a: [u32; N]) -> Seq<int> {
    a@.map_values(|x: u32| x as int)
}

/// Coefficients of an array of signed integers, as integers.
pub open spec fn ints_signed<const N: usize>(a: [i64; N]) -> Seq<int> {
    a@.map_values(|x: i64| x as int)
}

/// `Σ_{lo <= i < hi} f(i)`.
pub open spec fn sum_range(f: spec_fn(int) -> int, lo: int, hi: int) -> int
    decreases hi - lo,
{
    if hi <= lo {
        0
    } else {
        sum_range(f, lo, hi - 1) + f(hi - 1)
    }
}

/// `j ↦ f(c - j)`: `f` read backwards around `c`.
pub open spec fn reflect(f: spec_fn(int) -> int, c: int) -> spec_fn(int) -> int {
    |j: int| f(c - j)
}

/// The terms `i ↦ wrap_term(a, b, i, k, s)` of coefficient `k`.
pub open spec fn wrap_terms(a: Seq<int>, b: Seq<int>, k: int, s: int) -> spec_fn(int) -> int {
    |i: int| wrap_term(a, b, i, k, s)
}

/// Coefficient-wise sum of two integer sequences.
pub open spec fn seq_add(x: Seq<int>, y: Seq<int>) -> Seq<int> {
    Seq::new(x.len(), |i: int| x[i] + y[i])
}

/// The sequence `1, 0, 0, …` of length `n`: the constant polynomial `1`.
pub open spec fn unit_seq(n: nat) -> Seq<int> {
    Seq::new(n, |i: int| if i == 0 { 1int } else { 0int })
}

/// A sum over `[lo, hi)` splits at any `mid` in between.
pub(crate) proof fn lemma_sum_split(f: spec_fn(int) -> int, lo: int, mid: int, hi: int)
    requires
        lo <= mid <= hi,
    ensures
        sum_range(f, lo, hi) == sum_range(f, lo, mid) + sum_range(f, mid, hi),
    decreases hi - mid,
{
    if hi > mid {
        lemma_sum_split(f, lo, mid, hi - 1);
    }
}

/// Sums of functions that agree on the range are equal.
pub(crate) proof fn lemma_sum_ext(f: spec_fn(int) -> int, g: spec_fn(int) -> int, lo: int, hi: int)
    requires
        forall|i: int| lo <= i < hi ==> #[trigger] f(i) == g(i),
    ensures
        sum_range(f, lo, hi) == sum_range(g, lo, hi),
    decreases hi - lo,
{
    if hi > lo {
        lemma_sum_ext(f, g, lo, hi - 1);
    }
}

/// Summing `f` over `[lo, hi)` equals summing `f(c - j)` over the mirrored range.
proof fn lemma_sum_reverse(f: spec_fn(int) -> int, lo: int, hi: int, c: int)
    requires
        lo <= hi,
    ensures
        sum_range(f, lo, hi) == sum_range(reflect(f, c), c - hi + 1, c - lo + 1),
    decreases hi - lo,
{
    if hi > lo {
        lemma_sum_reverse(f, lo, hi - 1, c);
        let g = reflect(f, c);
        lemma_sum_split(g, c - hi + 1, c - hi + 2, c - lo + 1);
        assert(sum_range(g, c - hi + 1, c - hi + 1) == 0);
        assert(sum_range(g, c - hi + 1, c - hi + 2) == g(c - hi + 1));
    }
}

/// The partial coefficient sum is a `sum_range` of its terms.
pub(crate) proof fn lemma_wrap_partial_sum(a: Seq<int>, b: Seq<int>, k: int, upto: nat, s: int)
    ensures
        wrap_partial(a, b, k, upto, s) == sum_range(wrap_terms(a, b, k, s), 0, upto as int),
    decreases upto,
{
    if upto > 0 {
        lemma_wrap_partial_sum(a, b, k, (upto - 1) as nat, s);
    }
}

/// Multiplication modulo `X^n - s` is commutative, coefficient by coefficient.
pub proof fn lemma_wrap_coeff_commutes(a: Seq<int>, b: Seq<int>, k: int, s: int)
    requires
        a.len() == b.len(),
        0 <= k < a.len(),
    ensures
        wrap_coeff(a, b, k, s) == wrap_coeff(b, a, k, s),
{
    let n = a.len() as int;
    lemma_wrap_partial_sum(a, b, k, a.len(), s);
    lemma_wrap_partial_sum(b, a, k, b.len(), s);
    let fa = wrap_terms(a, b, k, s);
    let fb = wrap_terms(b, a, k, s);
    lemma_sum_split(fa, 0, k + 1, n);
    lemma_sum_split(fb, 0, k + 1, n);
    lemma_sum_reverse(fa, 0, k + 1, k);
    assert forall|j: int| 0 <= j < k + 1 implies #[trigger] reflect(fa, k)(j) == fb(j) by {
        lemma_mul_is_commutative(a[k - j], b[j]);
    }
    lemma_sum_ext(reflect(fa, k), fb, 0, k + 1);
    lemma_sum_reverse(fa, k + 1, n, n + k);
    assert forall|j: int| k + 1 <= j < n implies #[trigger] reflect(fa, n + k)(j) == fb(j) by {
        lemma_mul_is_commutative(a[n + k - j], b[j]);
    }
    lemma_sum_ext(reflect(fa, n + k), fb, k + 1, n);
}

/// Multiplication modulo `X^n - s` distributes over a coefficient-wise sum
/// on the right.
proof fn lemma_wrap_partial_add_right(
    a: Seq<int>,
    b: Seq<int>,
    c: Seq<int>,
    k: int,
    upto: nat,
    s: int,
)
    requires
        b.len() == a.len(),
        c.len() == a.len(),
        0 <= k < a.len(),
        upto <= a.len(),
    ensures
        wrap_partial(a, seq_add(b, c), k, upto, s) == wrap_partial(a, b, k, upto, s)
            + wrap_partial(a, c, k, upto, s),
    decreases upto,
{
    if upto > 0 {
        lemma_wrap_partial_add_right(a, b, c, k, (upto - 1) as nat, s);
        let i = upto - 1;
        let n = a.len() as int;
        if i <= k {
            lemma_mul_is_distributive_add(a[i], b[k - i], c[k - i]);
        } else {
            lemma_mul_is_distributive_add(a[i], b[k - i + n], c[k - i + n]);
            lemma_mul_is_distributive_add(s, a[i] * b[k - i + n], a[i] * c[k - i + n]);
        }
    }
}

/// Coefficients congruent mod `q` on the right give congruent products.
proof fn lemma_wrap_partial_congruent_right(
    a: Seq<int>,
    x: Seq<int>,
    y: Seq<int>,
    k: int,
    upto: nat,
    s: int,
    q: int,
)
    requires
        q > 0,
        x.len() == a.len(),
        y.len() == a.len(),
        0 <= k < a.len(),
        upto <= a.len(),
        forall|j: int| 0 <= j < a.len() ==> #[trigger] x[j] % q == y[j] % q,
    ensures
        wrap_partial(a, x, k, upto, s) % q == wrap_partial(a, y, k, upto, s) % q,
    decreases upto,
{
    if upto > 0 {
        let up = (upto - 1) as nat;
        lemma_wrap_partial_congruent_right(a, x, y, k, up, s, q);
        let i = upto - 1;
        let n = a.len() as int;
        let j = if i <= k { k - i } else { k - i + n };
        assert(x[j] % q == y[j] % q);
        lemma_mul_mod_noop_right(a[i], x[j], q);
        lemma_mul_mod_noop_right(a[i], y[j], q);
        let tx = wrap_term(a, x, i, k, s);
        let ty = wrap_term(a, y, i, k, s);
        if i > k {
            lemma_mul_mod_noop_right(s, a[i] * x[j], q);
            lemma_mul_mod_noop_right(s, a[i] * y[j], q);
        }
        assert(tx % q == ty % q);
        lemma_add_mod_noop(wrap_partial(a, x, k, up, s), tx, q);
        lemma_add_mod_noop(wrap_partial(a, y, k, up, s), ty, q);
    }
}

/// Multiplication modulo `X^n - s`, reduced mod `q`, distributes over a sum
/// reduced mod `q`: coefficient `k` of `a · ((b + c) mod q)` is congruent to
/// the sum of coefficients `k` of `a · b` and `a · c`.
pub proof fn lemma_wrap_coeff_distributes(a: Seq<int>, b: Seq<int>, c: Seq<int>, bc: Seq<int>, k: int, s: int, q: int)
    requires
        q > 0,
        b.len() == a.len(),
        c.len() == a.len(),
        bc.len() == a.len(),
        0 <= k < a.len(),
        forall|j: int| 0 <= j < a.len() ==> #[trigger] bc[j] == (b[j] + c[j]) % q,
    ensures
        wrap_coeff(a, bc, k, s) % q == (wrap_coeff(a, b, k, s) % q + wrap_coeff(a, c, k, s) % q) % q,
{
    let sum = seq_add(b, c);
    assert forall|j: int| 0 <= j < a.len() implies #[trigger] bc[j] % q == sum[j] % q by {
        vstd::arithmetic::div_mod::lemma_mod_twice(b[j] + c[j], q);
    }
    lemma_wrap_partial_congruent_right(a, bc, sum, k, a.len(), s, q);
    lemma_wrap_partial_add_right(a, b, c, k, a.len(), s);
    lemma_add_mod_noop(wrap_coeff(a, b, k, s), wrap_coeff(a, c, k, s), q);
}

/// The constant polynomial `1` is a left identity: the partial sums of
/// `1 · b` hold `b_k` as soon as the first term is in.
proof fn lemma_wrap_partial_unit(b: Seq<int>, k: int, upto: nat, s: int)
    requires
        b.len() >= 1,
        0 <= k < b.len(),
        1 <= upto <= b.len(),
    ensures
        wrap_partial(unit_seq(b.len()), b, k, upto, s) == b[k],
    decreases upto,
{
    let e = unit_seq(b.len());
    if upto > 1 {
        lemma_wrap_partial_unit(b, k, (upto - 1) as nat, s);
        let i = upto - 1;
        assert(e[i] == 0);
        if i <= k {
            assert(e[i] * b[k - i] == 0);
        } else {
            assert(e[i] * b[k - i + b.len()] == 0);
            assert(s * 0 == 0);
        }
    } else {
        assert(e[0] == 1);
        assert(wrap_partial(e, b, k, 0, s) == 0);
        assert(wrap_term(e, b, 0, k, s) == 1 * b[k - 0]);
        assert(1 * b[k] == b[k]);
    }
}

/// The constant polynomial `1` is a multiplicative identity modulo `X^n - s`.
pub proof fn lemma_wrap_coeff_unit(b: Seq<int>, k: int, s: int)
    requires
        0 <= k < b.len(),
    ensures
        wrap_coeff(unit_seq(b.len()), b, k, s) == b[k],
{
    lemma_wrap_partial_unit(b, k, b.len(), s);
}

/// Sums of functions that agree mod `q` on the range agree mod `q`.
pub(crate) proof fn lemma_sum_congruent(f: spec_fn(int) -> int, g: spec_fn(int) -> int, lo: int, hi: int, q: int)
    requires
        q > 0,
        forall|i: int| lo <= i < hi ==> #[trigger] f(i) % q == g(i) % q,
    ensures
        sum_range(f, lo, hi) % q == sum_range(g, lo, hi) % q,
    decreases hi - lo,
{
    if hi > lo {
        lemma_sum_congruent(f, g, lo, hi - 1, q);
        assert(f(hi - 1) % q == g(hi - 1) % q);
        lemma_add_mod_noop(sum_range(f, lo, hi - 1), f(hi - 1), q);
        lemma_add_mod_noop(sum_range(g, lo, hi - 1), g(hi - 1), q);
    }
}

} // verus!
