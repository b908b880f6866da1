//! LaBRADOR's principal relation: a statement is a set of dot-product
//! constraints over the LaBRADOR ring `S_{q'} = Z_{q'}[X] / (X^64 + 1)`,
//! plus a global ℓ₂-norm bound on the witness.
//!
//! Witness: vectors `w_1, …, w_r ∈ S_{q'}^n`. A *full* constraint `f^(k)` is
//!
//! ```text
//! f^(k)(w) = Σ_{i,j} a^(k)_{i,j} ⟨w_i, w_j⟩ + Σ_i ⟨φ^(k)_i, w_i⟩ − b^(k)   ∈ S_{q'}
//! ```
//!
//! with `a^(k)_{i,j} = a^(k)_{j,i}`, and the constraint demands `f^(k) = 0`.
//! A *constant-term* constraint has the same shape but only its constant
//! term must vanish mod `q'`. The witness must also satisfy
//! `Σ ‖w_i‖₂² ≤ β²`.
//!
//! Ring elements are modelled by their coefficient sequences (`elem`), and
//! ring products by the CRT-path product of the ring context (`poly_mul`).
use crate::modring::crt::{crt_mul_seq, Ring};
use crate::modring::modulus::Modulus;
use crate::modring::poly::{elem_norm_sq, RingElem, D};
use crate::modring::polyspec::ints;
use vstd::prelude::*;

verus! {

// ---------------------------------------------------------------------------
// Ring elements as coefficient sequences
// ---------------------------------------------------------------------------

/// The coefficient sequence of a ring element.
pub open spec fn elem(e: RingElem) -> Seq<int> {
    ints(e.c)
}

/// The zero polynomial.
pub open spec fn zero_poly() -> Seq<int> {
    Seq::new(D as nat, |k: int| 0int)
}

/// Coefficient-wise sum mod `q`.
pub open spec fn poly_add(x: Seq<int>, y: Seq<int>, q: int) -> Seq<int> {
    Seq::new(D as nat, |k: int| (x[k] + y[k]) % q)
}

/// Coefficient-wise difference mod `q`.
pub open spec fn poly_sub(x: Seq<int>, y: Seq<int>, q: int) -> Seq<int> {
    Seq::new(D as nat, |k: int| (x[k] - y[k]) % q)
}

/// Product in the ring context `ring` (its CRT-path product).
pub open spec fn poly_mul(ring: Ring, x: Seq<int>, y: Seq<int>) -> Seq<int> {
    crt_mul_seq(x, y, ring.r as int, ring.m.q as int)
}

/// The modulus of a ring context, as an integer.
pub open spec fn qof(ring: Ring) -> int {
    ring.m.q as int
}

/// `x` is the zero ring element exactly when its coefficient sequence is.
pub proof fn lemma_zero_elem(x: RingElem)
    ensures
        (forall|i: int| 0 <= i < D ==> #[trigger] x.c[i] == 0) <==> elem(x) == zero_poly(),
{
    if elem(x) == zero_poly() {
        assert forall|i: int| 0 <= i < D implies #[trigger] x.c[i] == 0 by {
            assert(elem(x)[i] == zero_poly()[i]);
        }
    }
    if forall|i: int| 0 <= i < D ==> #[trigger] x.c[i] == 0 {
        assert(elem(x) =~= zero_poly());
    }
}

// ---------------------------------------------------------------------------
// The relation, mathematically
// ---------------------------------------------------------------------------

/// `Σ_{t < n} a_t · b_t` in `S_{q'}`.
pub open spec fn inner_spec(ring: Ring, a: Seq<RingElem>, b: Seq<RingElem>, n: nat) -> Seq<int>
    decreases n,
{
    if n == 0 {
        zero_poly()
    } else {
        poly_add(
            inner_spec(ring, a, b, (n - 1) as nat),
            poly_mul(ring, elem(a[n - 1]), elem(b[n - 1])),
            qof(ring),
        )
    }
}

/// The contribution of one stored pair `(i, j, a_ij)` of a quadratic form:
/// `a_ij ⟨w_i, w_j⟩`, counted twice when `i ≠ j`.
pub open spec fn quad_term(ring: Ring, w: Seq<Seq<RingElem>>, t: (usize, usize, RingElem)) -> Seq<
    int,
> {
    let ip = inner_spec(ring, w[t.0 as int], w[t.1 as int], w[t.0 as int].len());
    let term = poly_mul(ring, elem(t.2), ip);
    if t.0 != t.1 {
        poly_add(term, term, qof(ring))
    } else {
        term
    }
}

/// The quadratic part over the first `n` stored pairs.
pub open spec fn quad_sum(
    ring: Ring,
    w: Seq<Seq<RingElem>>,
    a: Seq<(usize, usize, RingElem)>,
    n: nat,
) -> Seq<int>
    decreases n,
{
    if n == 0 {
        zero_poly()
    } else {
        poly_add(quad_sum(ring, w, a, (n - 1) as nat), quad_term(ring, w, a[n - 1]), qof(ring))
    }
}

/// `Σ_{t < n} p_t · w_i[pos_t]` for a sparse `φ_i = [(pos_t, p_t)]`.
pub open spec fn sparse_sum(
    ring: Ring,
    wi: Seq<RingElem>,
    sp: Seq<(usize, RingElem)>,
    n: nat,
) -> Seq<int>
    decreases n,
{
    if n == 0 {
        zero_poly()
    } else {
        poly_add(
            sparse_sum(ring, wi, sp, (n - 1) as nat),
            poly_mul(ring, elem(sp[n - 1].1), elem(wi[sp[n - 1].0 as int])),
            qof(ring),
        )
    }
}

/// The linear part `Σ_i ⟨φ_i, w_i⟩` over the first `n` entries of `phi`.
pub open spec fn phi_sum(
    ring: Ring,
    w: Seq<Seq<RingElem>>,
    phi: Seq<(usize, Vec<(usize, RingElem)>)>,
    n: nat,
) -> Seq<int>
    decreases n,
{
    if n == 0 {
        zero_poly()
    } else {
        let e = phi[n - 1];
        poly_add(
            phi_sum(ring, w, phi, (n - 1) as nat),
            sparse_sum(ring, w[e.0 as int], e.1@, e.1@.len()),
            qof(ring),
        )
    }
}

/// `Σ a_ij ⟨w_i, w_j⟩ + Σ ⟨φ_i, w_i⟩` for a constraint's `a` and `phi`.
pub open spec fn form_value(
    ring: Ring,
    w: Seq<Seq<RingElem>>,
    a: Seq<(usize, usize, RingElem)>,
    phi: Seq<(usize, Vec<(usize, RingElem)>)>,
) -> Seq<int> {
    poly_add(quad_sum(ring, w, a, a.len()), phi_sum(ring, w, phi, phi.len()), qof(ring))
}

/// `f(w) = Σ a_ij ⟨w_i, w_j⟩ + Σ ⟨φ_i, w_i⟩ − b`.
pub open spec fn eval_full_spec(ring: Ring, c: DotConstraint, w: Seq<Seq<RingElem>>) -> Seq<int> {
    poly_sub(form_value(ring, w, c.a@, c.phi@), elem(c.b), qof(ring))
}

/// The constant term of `f(w)` (with right-hand side `b0`), in `[0, q')`.
pub open spec fn eval_const_spec(
    ring: Ring,
    c: ConstTermConstraint,
    w: Seq<Seq<RingElem>>,
) -> int {
    (form_value(ring, w, c.a@, c.phi@)[0] - c.b0) % qof(ring)
}

/// `Σ_{t < n} ‖v_t‖²` over centered coefficients.
pub open spec fn row_norm(q: int, v: Seq<RingElem>, n: nat) -> int
    decreases n,
{
    if n == 0 {
        0
    } else {
        row_norm(q, v, (n - 1) as nat) + elem_norm_sq(v[n - 1], q)
    }
}

/// `Σ_{i < n} ‖w_i‖²`.
pub open spec fn wit_norm(q: int, w: Seq<Seq<RingElem>>, n: nat) -> int
    decreases n,
{
    if n == 0 {
        0
    } else {
        wit_norm(q, w, (n - 1) as nat) + row_norm(q, w[n - 1], w[n - 1].len())
    }
}

// ---------------------------------------------------------------------------
// Shapes
// ---------------------------------------------------------------------------

/// Every element is a canonical residue.
pub open spec fn elems_wf(v: Seq<RingElem>, m: Modulus) -> bool {
    forall|t: int| 0 <= t < v.len() ==> (#[trigger] v[t]).wf(m)
}

/// The quadratic pairs index vectors below `r` and carry reduced coefficients.
pub open spec fn a_wf(a: Seq<(usize, usize, RingElem)>, r: int, m: Modulus) -> bool {
    forall|t: int|
        0 <= t < a.len() ==> {
            &&& (#[trigger] a[t]).0 < r
            &&& a[t].1 < r
            &&& a[t].2.wf(m)
        }
}

/// Each sparse `φ_i` indexes a vector below `r`, positions below `n`, and
/// carries reduced coefficients.
pub open spec fn phi_wf(phi: Seq<(usize, Vec<(usize, RingElem)>)>, r: int, n: int, m: Modulus) -> bool {
    forall|t: int|
        0 <= t < phi.len() ==> {
            &&& (#[trigger] phi[t]).0 < r
            &&& forall|s: int|
                0 <= s < phi[t].1@.len() ==> {
                    &&& (#[trigger] phi[t].1@[s]).0 < n
                    &&& phi[t].1@[s].1.wf(m)
                }
        }
}

/// `w` holds `r` vectors of `n` reduced elements each.
pub open spec fn wit_shape(w: Seq<Seq<RingElem>>, r: int, n: int, m: Modulus) -> bool {
    &&& w.len() == r
    &&& forall|i: int| 0 <= i < r ==> (#[trigger] w[i]).len() == n && elems_wf(w[i], m)
}

// ---------------------------------------------------------------------------
// Types
// ---------------------------------------------------------------------------

/// Sparse symmetric quadratic form plus doubly sparse linear part.
///
/// `a` stores `(i, j, a_ij)` with `i ≤ j`; the pair stands for both `a_ij`
/// and `a_ji`, counted once when `i = j` and twice otherwise. `phi` lists
/// `(i, [(pos, p)])`: `φ_i[pos] = p`, all other positions zero.
#[derive(Clone, Debug)]
pub struct DotConstraint {
    /// `(i, j, a_{i,j})` with `i ≤ j`.
    pub a: Vec<(usize, usize, RingElem)>,
    /// `(i, [(pos, p)])` — `φ_i[pos] = p`, all other positions zero.
    pub phi: Vec<(usize, Vec<(usize, RingElem)>)>,
    /// Right-hand side `b ∈ S_{q'}`.
    pub b: RingElem,
}

/// A constant-term constraint: same shape as [`DotConstraint`] but only the
/// constant term of `f` must be zero (modulo `q'`).
#[derive(Clone, Debug)]
pub struct ConstTermConstraint {
    /// `(i, j, a_{i,j})` with `i ≤ j`.
    pub a: Vec<(usize, usize, RingElem)>,
    /// `(i, [(pos, p)])` — `φ_i[pos] = p`, all other positions zero.
    pub phi: Vec<(usize, Vec<(usize, RingElem)>)>,
    /// Right-hand side as a single coefficient of `Z_{q'}`.
    pub b0: u64,
}

/// A LaBRADOR principal-relation statement.
#[derive(Clone, Debug)]
pub struct Statement {
    /// The LaBRADOR ring context.
    pub ring: Ring,
    /// Witness rank (length of each `w_i`).
    pub n: usize,
    /// Witness multiplicity (number of vectors).
    pub r: usize,
    /// Full dot-product constraints `f^(k)`.
    pub full: Vec<DotConstraint>,
    /// Constant-term constraints `f'^(l)`.
    pub const_term: Vec<ConstTermConstraint>,
    /// Norm bound `β²`.
    pub beta_sq: i128,
}

/// A LaBRADOR witness: `r` vectors of length `n` each.
#[derive(Clone, Debug)]
pub struct Witness {
    /// The vectors `w_1, …, w_r`.
    pub w: Vec<Vec<RingElem>>,
}

/// The vectors of a witness as sequences.
pub open spec fn vecs(w: Seq<Vec<RingElem>>) -> Seq<Seq<RingElem>> {
    w.map_values(|v: Vec<RingElem>| v@)
}

impl DotConstraint {
    /// Indices below `(r, n)` and reduced coefficients.
    pub open spec fn wf(&self, r: int, n: int, m: Modulus) -> bool {
        &&& a_wf(self.a@, r, m)
        &&& phi_wf(self.phi@, r, n, m)
        &&& self.b.wf(m)
    }
}

impl ConstTermConstraint {
    /// Indices below `(r, n)` and reduced coefficients.
    pub open spec fn wf(&self, r: int, n: int, m: Modulus) -> bool {
        &&& a_wf(self.a@, r, m)
        &&& phi_wf(self.phi@, r, n, m)
        &&& self.b0 < m.q
    }
}

impl Statement {
    /// A usable ring context and constraints that fit the `(r, n)` shape.
    pub open spec fn wf(&self) -> bool {
        &&& self.ring.wf()
        &&& self.ring.m.q < 0x1000_0000_0000_0000
        &&& forall|k: int|
            0 <= k < self.full@.len() ==> (#[trigger] self.full@[k]).wf(
                self.r as int,
                self.n as int,
                self.ring.m,
            )
        &&& forall|k: int|
            0 <= k < self.const_term@.len() ==> (#[trigger] self.const_term@[k]).wf(
                self.r as int,
                self.n as int,
                self.ring.m,
            )
    }
}

impl Witness {
    /// The vectors of the witness.
    pub open spec fn view_vecs(&self) -> Seq<Seq<RingElem>> {
        vecs(self.w@)
    }

    /// Number of vectors.
    pub fn r(&self) -> (r: usize)
        ensures
            r == self.w@.len(),
    {
        self.w.len()
    }


    /// Length of the first vector (0 when there is none).
    pub open spec fn n_spec(&self) -> nat {
        if self.w@.len() == 0 {
            0
        } else {
            self.w@[0]@.len()
        }
    }

    /// Length of each vector (that of the first one; 0 when there is none).
    pub fn n(&self) -> (n: usize)
        ensures
            n == self.n_spec(),
    {
        if self.w.len() == 0 {
            0
        } else {
            self.w[0].len()
        }
    }

    /// Total ℓ₂-norm squared of the witness, over centered coefficients.
    pub fn norm_sq(&self, ring: &Ring) -> (s: i128)
        requires
            ring.m.wf(),
            ring.m.q < 0x1000_0000_0000_0000,
            forall|i: int| 0 <= i < self.w@.len() ==> elems_wf(#[trigger] self.w@[i]@, ring.m),
            wit_norm(ring.m.q as int, self.view_vecs(), self.w@.len()) <= i128::MAX,
        ensures
            s == wit_norm(ring.m.q as int, self.view_vecs(), self.w@.len()),
    {
        let ghost q = ring.m.q as int;
        let ghost wv = self.view_vecs();
        let mut s: i128 = 0;
        for i in 0..self.w.len()
            invariant
                ring.m.wf(),
                ring.m.q < 0x1000_0000_0000_0000,
                q == ring.m.q,
                wv == self.view_vecs(),
                forall|i: int| 0 <= i < self.w@.len() ==> elems_wf(#[trigger] self.w@[i]@, ring.m),
                wit_norm(q, wv, self.w@.len()) <= i128::MAX,
                s == wit_norm(q, wv, i as nat),
        {
            proof {
                lemma_wit_norm_mono(q, wv, (i + 1) as nat, self.w@.len());
                assert(wv[i as int] == self.w@[i as int]@);
            }
            let row = &self.w[i];
            for j in 0..row.len()
                invariant
                    ring.m.wf(),
                    ring.m.q < 0x1000_0000_0000_0000,
                    q == ring.m.q,
                    elems_wf(row@, ring.m),
                    row@ == wv[i as int],
                    wit_norm(q, wv, (i + 1) as nat) <= i128::MAX,
                    wit_norm(q, wv, (i + 1) as nat) == wit_norm(q, wv, i as nat) + row_norm(q, row@, row@.len()),
                    s == wit_norm(q, wv, i as nat) + row_norm(q, row@, j as nat),
            {
                proof {
                    lemma_row_norm_mono(q, row@, (j + 1) as nat, row@.len());
                    lemma_wit_norm_nonneg(q, wv, i as nat);
                }
                let e = row[j].norm_sq(&ring.m);
                s = s + e;
            }
        }
        s
    }
}

/// `z = x + y` coefficient-wise mod `q`, as sequences.
pub proof fn lemma_add_elem(x: RingElem, y: RingElem, z: RingElem, q: int)
    requires
        forall|i: int| 0 <= i < D ==> #[trigger] z.c[i] == (x.c[i] + y.c[i]) % q,
    ensures
        elem(z) == poly_add(elem(x), elem(y), q),
{
    assert(elem(z) =~= poly_add(elem(x), elem(y), q));
}

/// `z = x − y` coefficient-wise mod `q`, as sequences.
pub proof fn lemma_sub_elem(x: RingElem, y: RingElem, z: RingElem, q: int)
    requires
        forall|i: int| 0 <= i < D ==> #[trigger] z.c[i] == (x.c[i] - y.c[i]) % q,
    ensures
        elem(z) == poly_sub(elem(x), elem(y), q),
{
    assert(elem(z) =~= poly_sub(elem(x), elem(y), q));
}

/// The zero element is the zero polynomial.
pub proof fn lemma_zero_is_zero(x: RingElem)
    requires
        forall|i: int| 0 <= i < D ==> #[trigger] x.c[i] == 0,
    ensures
        elem(x) == zero_poly(),
{
    assert(elem(x) =~= zero_poly());
}

/// `⟨a, b⟩ = Σ a_i · b_i` in `S_{q'}`.
pub fn ring_inner_product(ring: &Ring, a: &[RingElem], b: &[RingElem]) -> (res: RingElem)
    requires
        ring.wf(),
        a@.len() == b@.len(),
        elems_wf(a@, ring.m),
        elems_wf(b@, ring.m),
    ensures
        elem(res) == inner_spec(*ring, a@, b@, a@.len()),
        res.wf(ring.m),
{
    let mut acc = RingElem::zero();
    proof {
        lemma_zero_is_zero(acc);
    }
    for i in 0..a.len()
        invariant
            ring.wf(),
            a@.len() == b@.len(),
            elems_wf(a@, ring.m),
            elems_wf(b@, ring.m),
            elem(acc) == inner_spec(*ring, a@, b@, i as nat),
            acc.wf(ring.m),
    {
        assert(a@[i as int].wf(ring.m) && b@[i as int].wf(ring.m));
        let p = ring.mul(&a[i], &b[i]);
        let next = acc.add(&ring.m, &p);
        proof {
            lemma_add_elem(acc, p, next, qof(*ring));
        }
        acc = next;
    }
    acc
}

/// `⟨φ_i, w⟩ = Σ_t p_t · w[pos_t]` for a sparse `φ_i = [(pos_t, p_t)]`.
pub fn sparse_phi_inner_product(ring: &Ring, sparse: &Vec<(usize, RingElem)>, wi: &Vec<RingElem>) -> (res: RingElem)
    requires
        ring.wf(),
        elems_wf(wi@, ring.m),
        forall|s: int|
            0 <= s < sparse@.len() ==> {
                &&& (#[trigger] sparse@[s]).0 < wi@.len()
                &&& sparse@[s].1.wf(ring.m)
            },
    ensures
        elem(res) == sparse_sum(*ring, wi@, sparse@, sparse@.len()),
        res.wf(ring.m),
{
    let mut acc = RingElem::zero();
    proof {
        lemma_zero_is_zero(acc);
    }
    for s in 0..sparse.len()
        invariant
            ring.wf(),
            elems_wf(wi@, ring.m),
            forall|s: int|
                0 <= s < sparse@.len() ==> {
                    &&& (#[trigger] sparse@[s]).0 < wi@.len()
                    &&& sparse@[s].1.wf(ring.m)
                },
            elem(acc) == sparse_sum(*ring, wi@, sparse@, s as nat),
            acc.wf(ring.m),
    {
        let pos = sparse[s].0;
        let coef = sparse[s].1;
        assert(sparse@[s as int].0 < wi@.len());
        assert(wi@[pos as int].wf(ring.m));
        let term = ring.mul(&coef, &wi[pos]);
        let next = acc.add(&ring.m, &term);
        proof {
            lemma_add_elem(acc, term, next, qof(*ring));
        }
        acc = next;
    }
    acc
}

/// `Σ_i ⟨φ_i, w_i⟩` for a doubly sparse `phi`.
fn sparse_phi_contribution(
    phi: &Vec<(usize, Vec<(usize, RingElem)>)>,
    ring: &Ring,
    w: &Witness,
) -> (res: RingElem)
    requires
        ring.wf(),
        wit_shape(w.view_vecs(), w.w@.len() as int, w.n_spec() as int, ring.m),
        phi_wf(phi@, w.w@.len() as int, w.n_spec() as int, ring.m),
    ensures
        elem(res) == phi_sum(*ring, w.view_vecs(), phi@, phi@.len()),
        res.wf(ring.m),
{
    let ghost wv = w.view_vecs();
    let mut acc = RingElem::zero();
    proof {
        lemma_zero_is_zero(acc);
    }
    for t in 0..phi.len()
        invariant
            ring.wf(),
            wv == w.view_vecs(),
            wit_shape(wv, w.w@.len() as int, w.n_spec() as int, ring.m),
            phi_wf(phi@, w.w@.len() as int, w.n_spec() as int, ring.m),
            elem(acc) == phi_sum(*ring, wv, phi@, t as nat),
            acc.wf(ring.m),
    {
        let i = phi[t].0;
        assert(phi@[t as int].0 < w.w@.len());
        assert(wv[i as int] == w.w@[i as int]@);
        let part = sparse_phi_inner_product(ring, &phi[t].1, &w.w[i]);
        let next = acc.add(&ring.m, &part);
        proof {
            lemma_add_elem(acc, part, next, qof(*ring));
        }
        acc = next;
    }
    acc
}

/// `Σ a_ij ⟨w_i, w_j⟩` (pairs with `i ≠ j` counted twice).
fn quad_contribution(a: &Vec<(usize, usize, RingElem)>, ring: &Ring, w: &Witness) -> (res: RingElem)
    requires
        ring.wf(),
        wit_shape(w.view_vecs(), w.w@.len() as int, w.n_spec() as int, ring.m),
        a_wf(a@, w.w@.len() as int, ring.m),
    ensures
        elem(res) == quad_sum(*ring, w.view_vecs(), a@, a@.len()),
        res.wf(ring.m),
{
    let ghost wv = w.view_vecs();
    let m = &ring.m;
    let mut acc = RingElem::zero();
    proof {
        lemma_zero_is_zero(acc);
    }
    for t in 0..a.len()
        invariant
            ring.wf(),
            m == &ring.m,
            wv == w.view_vecs(),
            wit_shape(wv, w.w@.len() as int, w.n_spec() as int, ring.m),
            a_wf(a@, w.w@.len() as int, ring.m),
            elem(acc) == quad_sum(*ring, wv, a@, t as nat),
            acc.wf(ring.m),
    {
        let (i, j, aij) = a[t];
        assert(a@[t as int].0 < w.w@.len() && a@[t as int].1 < w.w@.len());
        assert(wv[i as int] == w.w@[i as int]@ && wv[j as int] == w.w@[j as int]@);
        let ip = ring_inner_product(ring, &w.w[i], &w.w[j]);
        let mut term = ring.mul(&aij, &ip);
        if i != j {
            let doubled = term.add(m, &term);
            proof {
                lemma_add_elem(term, term, doubled, qof(*ring));
            }
            term = doubled;
        }
        let next = acc.add(m, &term);
        proof {
            lemma_add_elem(acc, term, next, qof(*ring));
        }
        acc = next;
    }
    acc
}

/// Evaluate a `DotConstraint` directly on a witness, returning
/// `Σ a_{i,j} ⟨w_i, w_j⟩ + Σ ⟨φ_i, w_i⟩ − b`.
pub fn eval_full(c: &DotConstraint, ring: &Ring, w: &Witness) -> (res: RingElem)
    requires
        ring.wf(),
        wit_shape(w.view_vecs(), w.w@.len() as int, w.n_spec() as int, ring.m),
        c.wf(w.w@.len() as int, w.n_spec() as int, ring.m),
    ensures
        elem(res) == eval_full_spec(*ring, *c, w.view_vecs()),
        res.wf(ring.m),
{
    let m = &ring.m;
    let quad = quad_contribution(&c.a, ring, w);
    let lin = sparse_phi_contribution(&c.phi, ring, w);
    let acc = quad.add(m, &lin);
    let res = acc.sub(m, &c.b);
    proof {
        lemma_add_elem(quad, lin, acc, qof(*ring));
        lemma_sub_elem(acc, c.b, res, qof(*ring));
    }
    res
}

/// Evaluate a `ConstTermConstraint`, returning its constant term in `[0, q')`.
pub fn eval_const_term(c: &ConstTermConstraint, ring: &Ring, w: &Witness) -> (res: u64)
    requires
        ring.wf(),
        wit_shape(w.view_vecs(), w.w@.len() as int, w.n_spec() as int, ring.m),
        c.wf(w.w@.len() as int, w.n_spec() as int, ring.m),
    ensures
        res == eval_const_spec(*ring, *c, w.view_vecs()),
        res < ring.m.q,
{
    let m = &ring.m;
    let quad = quad_contribution(&c.a, ring, w);
    let lin = sparse_phi_contribution(&c.phi, ring, w);
    let acc = quad.add(m, &lin);
    proof {
        lemma_add_elem(quad, lin, acc, qof(*ring));
        assert(elem(acc)[0] == acc.c[0]);
    }
    m.sub(acc.c[0], c.b0)
}

/// Check that `w` satisfies every constraint of `s` and the norm bound.
pub fn satisfies(s: &Statement, w: &Witness) -> (ok: bool)
    requires
        s.wf(),
        forall|i: int|
            0 <= i < w.w@.len() ==> (#[trigger] w.w@[i]@).len() == w.n_spec() && elems_wf(
                w.w@[i]@,
                s.ring.m,
            ),
        wit_norm(s.ring.m.q as int, w.view_vecs(), w.w@.len()) <= i128::MAX,
    ensures
        ok == {
            &&& w.w@.len() == s.r
            &&& w.n_spec() == s.n
            &&& forall|k: int|
                0 <= k < s.full@.len() ==> eval_full_spec(s.ring, #[trigger] s.full@[k], w.view_vecs())
                    == zero_poly()
            &&& forall|k: int|
                0 <= k < s.const_term@.len() ==> eval_const_spec(
                    s.ring,
                    #[trigger] s.const_term@[k],
                    w.view_vecs(),
                ) == 0
            &&& wit_norm(s.ring.m.q as int, w.view_vecs(), w.w@.len()) <= s.beta_sq
        },
{
    if w.r() != s.r || w.n() != s.n {
        return false;
    }
    let ghost wv = w.view_vecs();
    assert(wit_shape(wv, w.w@.len() as int, w.n_spec() as int, s.ring.m)) by {
        assert forall|i: int| 0 <= i < w.w@.len() implies (#[trigger] wv[i]).len() == w.n_spec()
            && elems_wf(wv[i], s.ring.m) by {
            assert(wv[i] == w.w@[i]@);
        }
    }
    for k in 0..s.full.len()
        invariant
            s.wf(),
            wv == w.view_vecs(),
            w.w@.len() == s.r,
            w.n_spec() == s.n,
            wit_shape(wv, w.w@.len() as int, w.n_spec() as int, s.ring.m),
            forall|j: int| 0 <= j < k ==> eval_full_spec(s.ring, #[trigger] s.full@[j], wv) == zero_poly(),
    {
        assert(s.full@[k as int].wf(s.r as int, s.n as int, s.ring.m));
        let e = eval_full(&s.full[k], &s.ring, w);
        let z = e.is_zero();
        proof {
            lemma_zero_elem(e);
        }
        if !z {
            return false;
        }
    }
    for k in 0..s.const_term.len()
        invariant
            s.wf(),
            wv == w.view_vecs(),
            w.w@.len() == s.r,
            w.n_spec() == s.n,
            wit_shape(wv, w.w@.len() as int, w.n_spec() as int, s.ring.m),
            forall|j: int| 0 <= j < k ==> eval_const_spec(s.ring, #[trigger] s.const_term@[j], wv) == 0,
    {
        assert(s.const_term@[k as int].wf(s.r as int, s.n as int, s.ring.m));
        if eval_const_term(&s.const_term[k], &s.ring, w) != 0 {
            return false;
        }
    }
    w.norm_sq(&s.ring) <= s.beta_sq
}

/// Norms of the first `n` elements grow with `n`.
pub proof fn lemma_row_norm_mono(q: int, v: Seq<RingElem>, n1: nat, n2: nat)
    requires
        n1 <= n2,
    ensures
        0 <= row_norm(q, v, n1) <= row_norm(q, v, n2),
    decreases n2,
{
    if n2 > n1 {
        lemma_row_norm_mono(q, v, n1, (n2 - 1) as nat);
        crate::modring::polyspec::lemma_sum_sq_nonneg(
            crate::modring::poly::centered_coeffs(v[n2 - 1], q),
            D as nat,
        );
    } else if n1 > 0 {
        lemma_row_norm_mono(q, v, (n1 - 1) as nat, (n1 - 1) as nat);
        crate::modring::polyspec::lemma_sum_sq_nonneg(
            crate::modring::poly::centered_coeffs(v[n1 - 1], q),
            D as nat,
        );
    }
}

/// Witness norms are non-negative.
proof fn lemma_wit_norm_nonneg(q: int, w: Seq<Seq<RingElem>>, n: nat)
    ensures
        0 <= wit_norm(q, w, n),
    decreases n,
{
    if n > 0 {
        lemma_wit_norm_nonneg(q, w, (n - 1) as nat);
        lemma_row_norm_mono(q, w[n - 1], w[n - 1].len(), w[n - 1].len());
    }
}

/// Norms of the first `n` vectors grow with `n`.
proof fn lemma_wit_norm_mono(q: int, w: Seq<Seq<RingElem>>, n1: nat, n2: nat)
    requires
        n1 <= n2,
    ensures
        wit_norm(q, w, n1) <= wit_norm(q, w, n2),
    decreases n2,
{
    if n2 > n1 {
        lemma_wit_norm_mono(q, w, n1, (n2 - 1) as nat);
        lemma_row_norm_mono(q, w[n2 - 1], w[n2 - 1].len(), w[n2 - 1].len());
    }
}

} // verus!
