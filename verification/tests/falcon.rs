use aggregate_falcon::falcon::embed::{embed_fpoly_centered, embed_signed, extract_centered, mul_subring, C};
use aggregate_falcon::falcon::falcon_ring::{FPoly, FALCON_N, FALCON_Q};
use aggregate_falcon::falcon::parse::BitReader;
use aggregate_falcon::falcon::relation::{
    add_form_constraints_e, add_form_constraints_ep, add_form_constraints_yp, add_padding_constraints_y, add_slots,
    all_slots_zero, four_square, scale_slots, sigma_minus_one, sub_slots, WitnessLayout,
};
use aggregate_falcon::modring::crt::Ring;
use aggregate_falcon::modring::modulus::{find_prime_5mod8, Modulus};
use aggregate_falcon::modring::poly::{RingElem, D};
use aggregate_falcon::modring::rng::SplitMix64;
use aggregate_falcon::labrador::statement::Statement;
use std::collections::HashSet;

fn ring() -> Ring {
    Ring::new(Modulus::new(find_prime_5mod8(1 << 44).unwrap())).unwrap()
}

/// A degree-512 negacyclic polynomial mod the LaBRADOR modulus, used as a
/// reference oracle for the subring multiplication.
struct BigPoly {
    c: [u64; FALCON_N],
}

impl BigPoly {
    fn zero() -> Self {
        BigPoly { c: [0u64; FALCON_N] }
    }

    fn random(m: &Modulus, max_centered: i64, rng: &mut SplitMix64) -> Self {
        let mut p = BigPoly::zero();
        let span = (2 * max_centered + 1) as u64;
        for i in 0..FALCON_N {
            let r = (rng.next() % span) as i64 - max_centered;
            p.c[i] = m.from_i64(r);
        }
        p
    }

    fn mul(&self, m: &Modulus, other: &BigPoly) -> BigPoly {
        let mut out = BigPoly::zero();
        for i in 0..FALCON_N {
            if self.c[i] == 0 {
                continue;
            }
            for j in 0..FALCON_N {
                let p = m.mul(self.c[i], other.c[j]);
                let k = i + j;
                if k < FALCON_N {
                    out.c[k] = m.add(out.c[k], p);
                } else {
                    out.c[k - FALCON_N] = m.sub(out.c[k - FALCON_N], p);
                }
            }
        }
        out
    }

    fn embed(&self, m: &Modulus) -> [RingElem; C] {
        let mut signed = [0i64; FALCON_N];
        for i in 0..FALCON_N {
            signed[i] = m.centered(self.c[i]);
        }
        embed_signed(&signed, m)
    }
}

fn uniform_fpoly(rng: &mut SplitMix64) -> FPoly {
    let mut p = FPoly::zero();
    for i in 0..FALCON_N {
        p.c[i] = rng.below(FALCON_Q as u64) as u32;
    }
    p
}

fn monomial(k: usize) -> FPoly {
    let mut p = FPoly::zero();
    let neg = (k / FALCON_N) % 2 == 1;
    p.c[k % FALCON_N] = if neg { FALCON_Q - 1 } else { 1 };
    p
}

#[test]
fn embed_extract_round_trip() {
    let rg = ring();
    let mut rng = SplitMix64::new(7);
    let a = BigPoly::random(&rg.m, 1_000, &mut rng);
    let slots = a.embed(&rg.m);
    let back = extract_centered(&slots, &rg.m);
    for i in 0..FALCON_N {
        assert_eq!(back[i], rg.m.centered(a.c[i]));
    }
}

#[test]
fn mul_subring_matches_bigpoly_multiplication() {
    let rg = ring();
    for seed in 0..6 {
        let mut rng = SplitMix64::new(100 + seed);
        let a = BigPoly::random(&rg.m, 50_000, &mut rng);
        let b = BigPoly::random(&rg.m, 50_000, &mut rng);

        let c_direct = a.mul(&rg.m, &b);
        let c_subring = mul_subring(&a.embed(&rg.m), &b.embed(&rg.m), &rg);
        assert_eq!(
            extract_centered(&c_subring, &rg.m),
            extract_centered(&c_direct.embed(&rg.m), &rg.m),
            "subring mul disagrees with degree-512 negacyclic mul (seed {seed})"
        );
    }
}

#[test]
fn embedding_preserves_norm() {
    let rg = ring();
    let mut rng = SplitMix64::new(99);
    let a = BigPoly::random(&rg.m, 5_000, &mut rng);
    let slots = a.embed(&rg.m);

    let direct_norm: i128 = (0..FALCON_N)
        .map(|i| {
            let v = rg.m.centered(a.c[i]) as i128;
            v * v
        })
        .sum();
    let slot_norm: i128 = slots.iter().map(|s| s.norm_sq(&rg.m)).sum();
    assert_eq!(direct_norm, slot_norm);
}

#[test]
fn falcon_ring_add_sub_inverse() {
    let mut rng = SplitMix64::new(1);
    for _ in 0..50 {
        let a = uniform_fpoly(&mut rng);
        let b = uniform_fpoly(&mut rng);
        assert_eq!(a.add(&b).sub(&b), a);
    }
}

#[test]
fn mul_commutative_and_distributive() {
    let mut rng = SplitMix64::new(2);
    for _ in 0..20 {
        let a = uniform_fpoly(&mut rng);
        let b = uniform_fpoly(&mut rng);
        let c = uniform_fpoly(&mut rng);
        assert_eq!(a.mul(&b), b.mul(&a));
        assert_eq!(a.mul(&b.add(&c)), a.mul(&b).add(&a.mul(&c)));
    }
}

#[test]
fn x_pow_512_is_minus_one() {
    let x256 = monomial(256);
    let mut neg_one = FPoly::zero();
    neg_one.c[0] = FALCON_Q - 1;
    assert_eq!(x256.mul(&x256), neg_one);
}

#[test]
fn identity_and_norm() {
    let mut rng = SplitMix64::new(3);
    let mut one = FPoly::zero();
    one.c[0] = 1;
    let a = uniform_fpoly(&mut rng);
    assert_eq!(a.mul(&one), a);

    let mut s = [0i32; FALCON_N];
    s[0] = 3;
    s[1] = -4;
    assert_eq!(FPoly::from_i32(&s).norm_sq(), 25);
}

#[test]
fn bit_reader_reads_msb_first() {
    let data = [0b1011_0010u8];
    let mut r = BitReader::new(&data);
    assert_eq!(r.bits(4), Some(0b1011));
    assert_eq!(r.bits(4), Some(0b0010));
    assert_eq!(r.bit(), None);
}

#[test]
fn four_square_round_trips() {
    for n in [0i64, 1, 2, 7, 23, 100, 5_000, 34_035_556] {
        let (a, b, c, d) = four_square(n).unwrap();
        assert_eq!(a * a + b * b + c * c + d * d, n, "n = {n}");
    }
}

#[test]
fn slot_helpers_are_self_consistent() {
    let rg = ring();
    let mut rng = SplitMix64::new(7);
    let make = |seed: u64| {
        let mut r = SplitMix64::new(seed);
        let mut s = [RingElem::zero(); C];
        for k in 0..C {
            for j in 0..D {
                s[k].c[j] = r.below(rg.m.q);
            }
        }
        s
    };
    let a = make(rng.next());
    let b = make(rng.next());
    let sum = add_slots(&a, &b, &rg.m);
    assert!(all_slots_zero(&sub_slots(&sub_slots(&sum, &a, &rg.m), &b, &rg.m)));
    let scaled = scale_slots(&a, 2, &rg.m);
    let twice = add_slots(&a, &a, &rg.m);
    for k in 0..C {
        assert_eq!(scaled[k], twice[k]);
    }
}

#[test]
fn witness_layout_matches_paper_formulas() {
    let cases = [
        (1, 1, 1, 1, 3 * 1 + 3 * 1 + 1),
        (2, 1, 2, 1, 3 * 2 + 3 * 1 + 1),
        (4, 2, 2, 2, 3 * 2 + 3 * 2 + 1),
        (9, 3, 3, 3, 3 * 3 + 3 * 3 + 1),
        (10, 3, 4, 3, 3 * 4 + 3 * 3 + 1),
    ];
    for (n, expect_rho, expect_num_y, expect_num_yp, expect_r) in cases {
        let l = WitnessLayout::new(n);
        assert_eq!(l.rho, expect_rho, "ρ for N={n}");
        assert_eq!(l.num_y, expect_num_y, "num_y for N={n}");
        assert_eq!(l.num_yp, expect_num_yp, "num_yp for N={n}");
        assert_eq!(l.r(), expect_r, "r for N={n}");
        assert_eq!(l.n_s(), 8 * n, "n_S for N={n}");

        for i in 1..=n {
            let idx = l.index(i);
            let idxp = l.index_prime(i);
            assert!(1 <= idx && idx <= l.num_y);
            assert!(1 <= idxp && idxp <= l.num_yp);
            assert_eq!((idx - 1) * l.rho + idxp, i, "(idx, idx') round-trip for i={i}");
        }
    }
}

#[test]
fn sigma_minus_one_is_an_involution() {
    let ring = ring();
    let m = &ring.m;
    let mut rng = SplitMix64::new(0x5151);
    let mut s = RingElem::zero();
    for i in 0..D {
        s.c[i] = rng.below(m.q);
    }
    let t = sigma_minus_one(&s, m);
    assert_eq!(t.c[0], s.c[0]);
    assert_eq!(t.c[1], m.neg(s.c[D - 1]));
    assert_eq!(sigma_minus_one(&t, m).c, s.c);
    assert_eq!(t.norm_sq(m), s.norm_sq(m));
}

fn empty_statement(ring: &Ring, layout: &WitnessLayout) -> Statement {
    Statement { ring: ring.clone(), n: layout.n_s(), r: layout.r(), full: vec![], const_term: vec![], beta_sq: 0 }
}

#[test]
fn padding_and_form_builders_append_each_constraint_once() {
    let ring = ring();
    for n in [1usize, 2, 3, 5] {
        let layout = WitnessLayout::new(n);
        let (ny, nyp) = (layout.num_y, layout.num_yp);

        let mut st = empty_statement(&ring, &layout);
        add_padding_constraints_y(&mut st, &layout, &ring);
        let keys: HashSet<(usize, usize)> = st.full.iter().map(|c| (c.phi[0].0, c.phi[0].1[0].0)).collect();
        assert_eq!(keys.len(), st.full.len());
        assert_eq!(st.full.len(), 16 * n * (ny - 1));

        let mut st = empty_statement(&ring, &layout);
        add_form_constraints_yp(&mut st, &layout, &ring);
        let keys: HashSet<(usize, usize)> = st.full.iter().map(|c| (c.phi[0].0, c.phi[0].1[0].0)).collect();
        assert_eq!(keys.len(), st.full.len());
        assert_eq!(st.full.len(), 16 * n * (nyp - 1));
        let ct: HashSet<(usize, usize, Vec<u64>)> =
            st.const_term.iter().map(|c| (c.phi[0].0, c.phi[0].1[0].0, c.phi[0].1[0].1.c.to_vec())).collect();
        assert_eq!(ct.len(), st.const_term.len());
        assert_eq!(st.const_term.len(), 2 * 8 * D * n);

        let mut st = empty_statement(&ring, &layout);
        add_form_constraints_ep(&mut st, &layout, &ring);
        let keys: HashSet<(usize, usize)> = st.full.iter().map(|c| (c.phi[0].0, c.phi[0].1[0].0)).collect();
        assert_eq!(keys.len(), st.full.len());
        assert_eq!(st.full.len(), 8 * n * (nyp - 1));
        assert_eq!(st.const_term.len(), 8 * D * n);

        let mut st = empty_statement(&ring, &layout);
        add_form_constraints_e(&mut st, &layout, &ring);
        let keys: HashSet<(usize, usize)> = st.full.iter().map(|c| (c.phi[0].0, c.phi[0].1[0].0)).collect();
        assert_eq!(keys.len(), st.full.len());
        assert_eq!(st.full.len(), 8 * n * ny - 4 * n);
        let ct: HashSet<(usize, usize, Vec<u64>)> =
            st.const_term.iter().map(|c| (c.phi[0].0, c.phi[0].1[0].0, c.phi[0].1[0].1.c.to_vec())).collect();
        assert_eq!(ct.len(), st.const_term.len());
        assert_eq!(st.const_term.len(), 4 * (D - 1) * n);
    }
}

#[test]
fn centered_embedding_keeps_the_norm() {
    let ring = ring();
    let m = &ring.m;
    let mut rng = SplitMix64::new(0xe4b);
    for _ in 0..4 {
        let f = uniform_fpoly(&mut rng);
        let slots = embed_fpoly_centered(&f, m);
        let total: i128 = slots.iter().map(|s| s.norm_sq(m)).sum();
        assert_eq!(total, f.norm_sq() as i128);
    }
}
