use aggregate_falcon::labrador::challenge::{check_norms, sample_challenge, W};
use aggregate_falcon::labrador::commit::{add_vec, expand_matrix, matmul};
use aggregate_falcon::labrador::garbage::{decompose, recompose};
use aggregate_falcon::labrador::jl::{parse_pi_row, project_vector, PROJECTION_ROWS};
use aggregate_falcon::labrador::outer::{expand_b_mats, expand_sym_mats, outer_commit_sym, outer_commit_v};
use aggregate_falcon::labrador::prover_v2::{prove_v2, IterationParams};
use aggregate_falcon::labrador::aggregate_v2::{prove_aggregate, verify_aggregate, FoldStep, RecursionParams};
use aggregate_falcon::labrador::fold::{fold, fold_statement, ChopLayout, EIdx, ELayout, FoldedLayout};
use aggregate_falcon::labrador::packing::{pack, pack_breakdown, read_header, unpack_with, IterCoding, HEADER_LEN};
use aggregate_falcon::labrador::proofs::{AggregateProofV2, VerifyError};
use aggregate_falcon::labrador::verification_v2::verify_v2;
use aggregate_falcon::labrador::statement::{
    ring_inner_product, satisfies, ConstTermConstraint, DotConstraint, Statement, Witness,
};
use aggregate_falcon::labrador::transcript::Transcript;
use aggregate_falcon::labrador::wire::{
    decode_signed_modq, encode_signed_modq, zigzag_decode, zigzag_encode, BitReader, BitWriter, WireError,
};
use aggregate_falcon::modring::crt::Ring;
use aggregate_falcon::modring::modulus::{find_prime_5mod8, Modulus};
use aggregate_falcon::modring::poly::{RingElem, D};
use aggregate_falcon::modring::rng::SplitMix64;

fn ring() -> Ring {
    Ring::new(Modulus::new(find_prime_5mod8(1 << 44).unwrap())).unwrap()
}

fn random_vec(ring: &Ring, n: usize, seed: u64) -> Vec<RingElem> {
    let mut rng = SplitMix64::new(seed);
    (0..n)
        .map(|_| {
            let mut p = RingElem::zero();
            for k in 0..D {
                p.c[k] = rng.below(ring.m.q);
            }
            p
        })
        .collect()
}

fn into_sparse(v: Vec<RingElem>) -> Vec<(usize, RingElem)> {
    v.into_iter().enumerate().collect()
}

#[test]
fn satisfies_trivially_zero_statement() {
    let ring = ring();
    let w = Witness { w: vec![random_vec(&ring, 3, 1), random_vec(&ring, 3, 2)] };
    let s = Statement { ring, n: 3, r: 2, full: vec![], const_term: vec![], beta_sq: i128::MAX };
    assert!(satisfies(&s, &w));
}

#[test]
fn linear_constraint_built_from_witness_is_satisfied() {
    let ring = ring();
    let w0 = random_vec(&ring, 5, 11);
    let phi0 = random_vec(&ring, 5, 12);
    let b = ring_inner_product(&ring, &phi0, &w0);
    let s = Statement {
        ring: ring.clone(),
        n: 5,
        r: 1,
        full: vec![DotConstraint { a: vec![], phi: vec![(0, into_sparse(phi0))], b }],
        const_term: vec![],
        beta_sq: i128::MAX,
    };
    let w = Witness { w: vec![w0] };
    assert!(satisfies(&s, &w));
}

#[test]
fn quadratic_constraint_built_from_witness_is_satisfied() {
    let ring = ring();
    let w0 = random_vec(&ring, 4, 21);
    let g = ring_inner_product(&ring, &w0, &w0);
    let one = RingElem::constant(&ring.m, 1);
    let s = Statement {
        ring: ring.clone(),
        n: 4,
        r: 1,
        full: vec![DotConstraint { a: vec![(0, 0, one)], phi: vec![], b: g }],
        const_term: vec![],
        beta_sq: i128::MAX,
    };
    let w = Witness { w: vec![w0] };
    assert!(satisfies(&s, &w));
}

#[test]
fn tampering_witness_breaks_satisfaction() {
    let ring = ring();
    let w0 = random_vec(&ring, 3, 31);
    let phi0 = random_vec(&ring, 3, 32);
    let b = ring_inner_product(&ring, &phi0, &w0);
    let mut tampered = w0.clone();
    tampered[0].c[0] = ring.m.add(tampered[0].c[0], 1);
    let s = Statement {
        ring: ring.clone(),
        n: 3,
        r: 1,
        full: vec![DotConstraint { a: vec![], phi: vec![(0, into_sparse(phi0))], b }],
        const_term: vec![],
        beta_sq: i128::MAX,
    };
    assert!(!satisfies(&s, &Witness { w: vec![tampered] }));
}

#[test]
fn norm_bound_is_enforced() {
    let ring = ring();
    let mut w0 = vec![RingElem::zero(); 2];
    w0[0].c[0] = 100;
    let s = Statement { ring, n: 2, r: 1, full: vec![], const_term: vec![], beta_sq: 9999 };
    assert!(!satisfies(&s, &Witness { w: vec![w0.clone()] }));
    let s2 = Statement { beta_sq: 10000, ..s };
    assert!(satisfies(&s2, &Witness { w: vec![w0] }));
}

#[test]
fn bitwriter_bitreader_roundtrip() {
    let mut w = BitWriter::new();
    w.write_bits(0xDEAD_BEEF, 32);
    w.write_bits(0b101, 3);
    w.write_bits(0xFFFF_FFFF_FFFF_FFFF, 64);
    w.write_bits(0, 5);
    let bytes = w.finish();

    let mut r = BitReader::new(&bytes);
    assert_eq!(r.read_bits(32).unwrap(), 0xDEAD_BEEF);
    assert_eq!(r.read_bits(3).unwrap(), 0b101);
    assert_eq!(r.read_bits(64).unwrap(), 0xFFFF_FFFF_FFFF_FFFF);
    assert_eq!(r.read_bits(5).unwrap(), 0);
}

#[test]
fn write_len_roundtrip() {
    for &len in &[0u64, 1, 2, 5, 255, 256, 1_000, 10_000, 1u64 << 20, 1u64 << 40] {
        let mut w = BitWriter::new();
        w.write_len(len);
        let bytes = w.finish();
        let mut r = BitReader::new(&bytes);
        assert_eq!(r.read_len().unwrap(), len, "len={len}");
    }
}

#[test]
fn write_gr_roundtrip() {
    let cases = [(0u64, 0u32), (1, 0), (5, 2), (100, 3), (1 << 16, 8)];
    for &(value, k) in &cases {
        let mut w = BitWriter::new();
        w.write_gr(value, k);
        let bytes = w.finish();
        let mut r = BitReader::new(&bytes);
        assert_eq!(r.read_gr(k).unwrap(), value, "value={value} k={k}");
    }
}

#[test]
fn zigzag_roundtrip() {
    for x in [0i64, 1, -1, 5, -5, i32::MAX as i64, i32::MIN as i64] {
        assert_eq!(zigzag_decode(zigzag_encode(x)), x);
    }
}

#[test]
fn signed_modq_roundtrip() {
    let q = 1_000_003u64;
    for x in [0i128, 1, -1, 500_000, -500_000] {
        let u = encode_signed_modq(x, q);
        assert!(u < q);
        assert_eq!(decode_signed_modq(u, q), x);
    }
}

#[test]
fn zigzag_exact_values() {
    assert_eq!(zigzag_encode(0), 0);
    assert_eq!(zigzag_encode(-1), 1);
    assert_eq!(zigzag_encode(1), 2);
    assert_eq!(zigzag_encode(-2), 3);
    assert_eq!(zigzag_encode(i64::MAX), u64::MAX - 1);
    assert_eq!(zigzag_encode(i64::MIN), u64::MAX);
    assert_eq!(zigzag_decode(u64::MAX), i64::MIN);
}

#[test]
fn bit_stream_is_lsb_first_and_zero_padded() {
    let mut w = BitWriter::new();
    w.write_bits(0b1, 1);
    w.write_bits(0b0, 1);
    w.write_bits(0b11, 2);
    assert_eq!(w.finish(), vec![0b0000_1101u8]);
}

#[test]
fn reading_past_the_end_is_truncated() {
    let bytes = [0xFFu8];
    let mut r = BitReader::new(&bytes);
    assert!(r.read_bits(9).is_err());
    assert_eq!(r.read_bits(8).unwrap(), 0xFF);
    assert!(r.read_len().is_err());
}

#[test]
fn length_prefix_of_bit_length_64_round_trips() {
    let mut w = BitWriter::new();
    w.write_len(1u64 << 63);
    w.write_len(u64::MAX);
    let bytes = w.finish();
    let mut r = BitReader::new(&bytes);
    assert_eq!(r.read_len().unwrap(), 1u64 << 63);
    assert_eq!(r.read_len().unwrap(), u64::MAX);
}

#[test]
fn same_inputs_same_outputs() {
    let mut a = Transcript::new(b"test");
    let mut b = Transcript::new(b"test");
    a.absorb(b"x", &[1, 2, 3]);
    b.absorb(b"x", &[1, 2, 3]);
    assert_eq!(a.challenge_bytes(b"c1", 32), b.challenge_bytes(b"c1", 32));
    a.absorb(b"y", &[7]);
    b.absorb(b"y", &[7]);
    assert_eq!(a.derive_u64(b"u"), b.derive_u64(b"u"));
}

#[test]
fn different_labels_diverge() {
    let mut a = Transcript::new(b"test");
    let mut b = Transcript::new(b"test");
    a.absorb(b"x", &[1]);
    b.absorb(b"y", &[1]);
    assert_ne!(a.challenge_bytes(b"c", 16), b.challenge_bytes(b"c", 16));
}

#[test]
fn derive_below_is_uniform_enough() {
    let mut t = Transcript::new(b"u");
    let n = 10_000;
    let mut counts = [0u32; 7];
    for _ in 0..n {
        counts[t.derive_below(b"x", 7).unwrap() as usize] += 1;
    }
    let expect = n / 7;
    for c in counts {
        let dev = (c as i64 - expect as i64).abs();
        assert!(dev < (expect / 2) as i64, "skew: {counts:?}");
    }
}

#[test]
fn every_sample_obeys_both_bounds() {
    let r = ring();
    let mut t = Transcript::new(b"chal-test");
    for i in 0u64..1000 {
        let c = sample_challenge(&mut t, &i.to_le_bytes(), &r).unwrap();
        assert!(check_norms(&r, &c));
        let nz = c.c.iter().filter(|&&x| x != 0).count();
        assert_eq!(nz, W);
    }
}

#[test]
fn expand_matrix_is_deterministic_given_same_transcript() {
    let r = ring();
    let mut t1 = Transcript::new(b"unit");
    let mut t2 = Transcript::new(b"unit");
    t1.absorb(b"x", &[1, 2]);
    t2.absorb(b"x", &[1, 2]);
    let a = expand_matrix(&mut t1, b"A", 2, 3, &r).unwrap();
    let b = expand_matrix(&mut t2, b"A", 2, 3, &r).unwrap();
    assert_eq!(a, b);
}

#[test]
fn commit_inner_is_linear() {
    let r = ring();
    let mut t = Transcript::new(b"unit");
    let a = expand_matrix(&mut t, b"A", 3, 4, &r).unwrap();

    let mut rng = SplitMix64::new(7);
    let mk_vec = |rng: &mut SplitMix64, n: usize| {
        (0..n)
            .map(|_| {
                let mut p = RingElem::zero();
                for k in 0..D {
                    p.c[k] = rng.below(r.m.q);
                }
                p
            })
            .collect::<Vec<_>>()
    };
    let w1 = mk_vec(&mut rng, 4);
    let w2 = mk_vec(&mut rng, 4);
    let w12 = add_vec(&r, &w1, &w2);

    let v1 = matmul(&r, &a, &w1);
    let v2 = matmul(&r, &a, &w2);
    let v12 = matmul(&r, &a, &w12);
    let sum = add_vec(&r, &v1, &v2);
    for k in 0..v12.len() {
        assert_eq!(v12[k], sum[k]);
    }
}

fn mk_random_vec(ring: &Ring, n: usize, seed: u64) -> Vec<RingElem> {
    random_vec(ring, n, seed)
}

#[test]
fn outer_commit_v_is_linear() {
    let ring = ring();
    let m = &ring.m;
    let r = 2usize;
    let t1 = 3usize;
    let kappa = 2usize;
    let kappa1 = 4usize;

    let mut tr = Transcript::new(b"outer-commit-v");
    let b_mats = expand_b_mats(&mut tr, b"B", r, t1, kappa1, kappa, &ring).unwrap();

    let v: Vec<Vec<Vec<RingElem>>> = (0..r)
        .map(|i| (0..t1).map(|k| mk_random_vec(&ring, kappa, (i * 17 + k) as u64 + 1)).collect())
        .collect();
    let v_prime: Vec<Vec<Vec<RingElem>>> = (0..r)
        .map(|i| (0..t1).map(|k| mk_random_vec(&ring, kappa, (i * 31 + k) as u64 + 100)).collect())
        .collect();

    let u_v = outer_commit_v(&ring, &b_mats, &v);
    let u_vp = outer_commit_v(&ring, &b_mats, &v_prime);
    let sum: Vec<Vec<Vec<RingElem>>> = (0..r)
        .map(|i| {
            (0..t1)
                .map(|k| (0..kappa).map(|c| v[i][k][c].add(m, &v_prime[i][k][c])).collect())
                .collect()
        })
        .collect();
    let u_sum = outer_commit_v(&ring, &b_mats, &sum);

    for r1 in 0..kappa1 {
        assert_eq!(u_sum[r1], u_v[r1].add(m, &u_vp[r1]), "linearity at row {r1}");
    }
}

#[test]
fn outer_commit_sym_only_touches_upper_triangle() {
    let ring = ring();
    let r = 3usize;
    let t_chunks = 2usize;
    let kappa1 = 3usize;

    let mut tr = Transcript::new(b"outer-commit-sym");
    let c_mats = expand_sym_mats(&mut tr, b"C", r, t_chunks, kappa1, &ring).unwrap();

    let mut chunks = vec![vec![vec![RingElem::zero(); t_chunks]; r]; r];
    for i in 0..r {
        for j in i..r {
            for k in 0..t_chunks {
                let seed = (i * 100 + j * 10 + k) as u64 + 1;
                chunks[i][j][k] = mk_random_vec(&ring, 1, seed).into_iter().next().unwrap();
            }
        }
    }
    let u_clean = outer_commit_sym(&ring, &c_mats, &chunks);

    let mut polluted = chunks.clone();
    for i in 1..r {
        for j in 0..i {
            for k in 0..t_chunks {
                polluted[i][j][k] = mk_random_vec(&ring, 1, 9999 + (i * 100 + j * 10 + k) as u64)
                    .into_iter()
                    .next()
                    .unwrap();
            }
        }
    }
    let u_polluted = outer_commit_sym(&ring, &c_mats, &polluted);

    assert_eq!(u_clean, u_polluted, "strict-lower triangle must be ignored");
}

#[test]
fn outer_commit_v_is_deterministic() {
    let ring = ring();
    let r = 2usize;
    let t1 = 2usize;
    let kappa = 2usize;
    let kappa1 = 3usize;

    let v: Vec<Vec<Vec<RingElem>>> = (0..r)
        .map(|i| (0..t1).map(|k| mk_random_vec(&ring, kappa, (i + k * 7) as u64 + 1)).collect())
        .collect();

    let mut t1 = Transcript::new(b"det");
    let b1 = expand_b_mats(&mut t1, b"B", r, 2, kappa1, kappa, &ring).unwrap();
    let mut t2 = Transcript::new(b"det");
    let b2 = expand_b_mats(&mut t2, b"B", r, 2, kappa1, kappa, &ring).unwrap();
    assert_eq!(b1, b2);

    let u1 = outer_commit_v(&ring, &b1, &v);
    let u2 = outer_commit_v(&ring, &b2, &v);
    assert_eq!(u1, u2);
}

#[test]
fn decompose_recompose_round_trips_on_small_values() {
    let r = ring();
    let mut rng = SplitMix64::new(11);
    for _ in 0..50 {
        let mut x = RingElem::zero();
        for k in 0..D {
            let v = (rng.next() % 200_000) as i64 - 100_000;
            x.c[k] = r.m.from_i64(v);
        }
        let chunks = decompose(&x, &r.m, 100, 4);
        for c in &chunks {
            for k in 0..D {
                let centered = r.m.centered(c.c[k]).abs();
                assert!(centered <= 50, "chunk coef magnitude {centered} > 50");
            }
        }
        let restored = recompose(&chunks, &r.m, 100);
        assert_eq!(restored, x);
    }
}

#[test]
fn hand_computed_projection_matches() {
    let r = ring();
    let m = &r.m;
    let mut w = vec![RingElem::zero(); 2];
    w[0].c[0] = 5;
    w[0].c[1] = m.from_i64(-3);
    w[1].c[0] = 2;
    let pi = vec![vec![(0usize, 1i8), (1, -1), (D, 1)]];
    let mut pi_padded: Vec<Vec<(usize, i8)>> = pi.clone();
    while pi_padded.len() < PROJECTION_ROWS {
        pi_padded.push(vec![]);
    }
    let p = project_vector(&pi_padded, &w, m);
    assert_eq!(p[0], 10);
    for j in 1..PROJECTION_ROWS {
        assert_eq!(p[j], 0);
    }
}

#[test]
fn distribution_is_approximately_50_25_25() {
    let mut t = Transcript::new(b"jl-dist");
    let cols = 10_000;
    let nbytes = (cols + 3) / 4;
    let bytes = t.challenge_bytes(b"r0", nbytes);
    let row = parse_pi_row(&bytes, cols);
    let total = row.len();
    let pos = row.iter().filter(|(_, s)| *s == 1).count();
    let neg = row.iter().filter(|(_, s)| *s == -1).count();
    assert!((total as i64 - cols as i64 / 2).abs() < cols as i64 / 10);
    assert!((pos as i64 - cols as i64 / 4).abs() < cols as i64 / 10);
    assert!((neg as i64 - cols as i64 / 4).abs() < cols as i64 / 10);
}

fn small_params() -> IterationParams {
    IterationParams { b: 1 << 12, b1: 1 << 12, t1: 4, b2: 1 << 12, t2: 4, kappa: 2, kappa1: 3, next_beta_sq: i128::MAX }
}

#[test]
fn prove_v2_shapes_and_openings_on_a_small_statement() {
    let ring = ring();
    let w0 = random_vec(&ring, 3, 21);
    let w1 = random_vec(&ring, 3, 22);
    let phi0 = random_vec(&ring, 3, 23);
    let b = ring_inner_product(&ring, &phi0, &w0);
    let stmt = Statement {
        ring: ring.clone(),
        n: 3,
        r: 2,
        full: vec![DotConstraint { a: vec![], phi: vec![(0, into_sparse(phi0))], b }],
        const_term: vec![],
        beta_sq: i128::MAX,
    };
    let witness = Witness { w: vec![w0.clone(), w1.clone()] };
    let params = small_params();
    let mut t = Transcript::new(b"prove-v2-small");
    let proof = prove_v2(&stmt, &witness, &params, &mut t).expect("draws succeed");
    assert_eq!(proof.u1.len(), 3);
    assert_eq!(proof.u2.len(), 3);
    assert_eq!(proof.p.len(), PROJECTION_ROWS);
    let last = proof.last_msg.expect("the last message is present");
    assert_eq!(last.z0.len(), 3);
    assert_eq!(last.z1.len(), 3);
    assert_eq!(last.v.len(), 2);
    assert_eq!(last.v[0].len(), 2);
    assert_eq!(last.g[0][1], ring_inner_product(&ring, &w0, &w1));
    assert_eq!(last.g[1][0], RingElem::zero());
    // The low chunk of z is a balanced base-b digit.
    for k in 0..3 {
        for c in 0..D {
            assert!(ring.m.centered(last.z0[k].c[c]).abs() <= (params.b / 2) as i64);
        }
    }
}

#[test]
fn prove_v2_is_deterministic_in_its_transcript() {
    let ring = ring();
    let w0 = random_vec(&ring, 2, 31);
    let stmt = Statement { ring: ring.clone(), n: 2, r: 1, full: vec![], const_term: vec![], beta_sq: i128::MAX };
    let witness = Witness { w: vec![w0] };
    let params = small_params();
    let mut t1 = Transcript::new(b"same");
    let mut t2 = Transcript::new(b"same");
    let p1 = prove_v2(&stmt, &witness, &params, &mut t1).unwrap();
    let p2 = prove_v2(&stmt, &witness, &params, &mut t2).unwrap();
    assert_eq!(p1.u1, p2.u1);
    assert_eq!(p1.p, p2.p);
    assert_eq!(p1.u2, p2.u2);
}

fn small_vec(ring: &Ring, n: usize, seed: u64) -> Vec<RingElem> {
    let mut rng = SplitMix64::new(seed);
    (0..n)
        .map(|_| {
            let mut p = RingElem::zero();
            for k in 0..D {
                p.c[k] = ring.m.from_i64(rng.below(11) as i64 - 5);
            }
            p
        })
        .collect()
}

fn small_statement() -> (Statement, Witness) {
    let ring = ring();
    let w0 = small_vec(&ring, 3, 41);
    let w1 = small_vec(&ring, 3, 42);
    let phi0 = random_vec(&ring, 3, 43);
    let phi1 = random_vec(&ring, 3, 44);
    let b = ring_inner_product(&ring, &phi0, &w0);
    let b0 = ring_inner_product(&ring, &phi1, &w1).c[0];
    let stmt = Statement {
        ring: ring.clone(),
        n: 3,
        r: 2,
        full: vec![DotConstraint { a: vec![], phi: vec![(0, into_sparse(phi0))], b }],
        const_term: vec![ConstTermConstraint { a: vec![], phi: vec![(1, into_sparse(phi1))], b0 }],
        beta_sq: 1i128 << 100,
    };
    (stmt, Witness { w: vec![w0, w1] })
}

#[test]
fn prove_v2_output_passes_verify_v2() {
    let (stmt, witness) = small_statement();
    assert!(satisfies(&stmt, &witness));
    let params = small_params();
    let mut tp = Transcript::new(b"v2-small");
    let proof = prove_v2(&stmt, &witness, &params, &mut tp).unwrap();
    let mut tv = Transcript::new(b"v2-small");
    assert_eq!(verify_v2(&stmt, &proof, &params, &mut tv), Ok(()));
}

#[test]
fn verify_v2_rejects_a_tampered_u1() {
    let (stmt, witness) = small_statement();
    let params = small_params();
    let mut tp = Transcript::new(b"v2-small");
    let mut proof = prove_v2(&stmt, &witness, &params, &mut tp).unwrap();
    proof.u1[0].c[0] = stmt.ring.m.add(proof.u1[0].c[0], 1);
    let mut tv = Transcript::new(b"v2-small");
    assert_eq!(verify_v2(&stmt, &proof, &params, &mut tv), Err(VerifyError::OuterCommitment("u_1")));
}

#[test]
fn verify_v2_rejects_a_tampered_u2() {
    let (stmt, witness) = small_statement();
    let params = small_params();
    let mut tp = Transcript::new(b"v2-small");
    let mut proof = prove_v2(&stmt, &witness, &params, &mut tp).unwrap();
    proof.u2[0].c[0] = stmt.ring.m.add(proof.u2[0].c[0], 1);
    let mut tv = Transcript::new(b"v2-small");
    assert_eq!(verify_v2(&stmt, &proof, &params, &mut tv), Err(VerifyError::OuterCommitment("u_2")));
}

#[test]
fn verify_v2_rejects_a_tampered_opening() {
    let (stmt, witness) = small_statement();
    let params = small_params();
    let mut tp = Transcript::new(b"v2-small");
    let mut proof = prove_v2(&stmt, &witness, &params, &mut tp).unwrap();
    if let Some(lm) = proof.last_msg.as_mut() {
        lm.z0[0].c[0] = stmt.ring.m.add(lm.z0[0].c[0], 1);
    }
    let mut tv = Transcript::new(b"v2-small");
    assert_eq!(verify_v2(&stmt, &proof, &params, &mut tv), Err(VerifyError::InnerCommitmentOpening));
}

#[test]
fn verify_v2_rejects_a_tampered_commitment() {
    let (stmt, witness) = small_statement();
    let params = small_params();
    let mut tp = Transcript::new(b"v2-small");
    let mut proof = prove_v2(&stmt, &witness, &params, &mut tp).unwrap();
    if let Some(lm) = proof.last_msg.as_mut() {
        lm.v[0][0].c[0] = stmt.ring.m.add(lm.v[0][0].c[0], 1);
    }
    let mut tv = Transcript::new(b"v2-small");
    assert!(verify_v2(&stmt, &proof, &params, &mut tv).is_err());
}

#[test]
fn verify_v2_rejects_a_tampered_projection() {
    let (stmt, witness) = small_statement();
    let params = small_params();
    let mut tp = Transcript::new(b"v2-small");
    let mut proof = prove_v2(&stmt, &witness, &params, &mut tp).unwrap();
    proof.p[0] = proof.p[0].wrapping_add(1);
    let mut tv = Transcript::new(b"v2-small");
    assert!(verify_v2(&stmt, &proof, &params, &mut tv).is_err());
}

#[test]
fn verify_v2_rejects_a_huge_projection() {
    let (stmt, witness) = small_statement();
    let params = small_params();
    let mut tp = Transcript::new(b"v2-small");
    let mut proof = prove_v2(&stmt, &witness, &params, &mut tp).unwrap();
    proof.p[0] = 1i128 << 60;
    let mut tv = Transcript::new(b"v2-small");
    assert_eq!(verify_v2(&stmt, &proof, &params, &mut tv), Err(VerifyError::JlBound));
}

#[test]
fn verify_v2_reports_shape_faults_first() {
    let (stmt, witness) = small_statement();
    let params = small_params();
    let mut tp = Transcript::new(b"v2-small");
    let mut proof = prove_v2(&stmt, &witness, &params, &mut tp).unwrap();
    proof.last_msg = None;
    let mut tv = Transcript::new(b"v2-small");
    assert_eq!(verify_v2(&stmt, &proof, &params, &mut tv), Err(VerifyError::ProofShape("last message")));
    proof.u1.pop();
    let mut tv = Transcript::new(b"v2-small");
    assert_eq!(verify_v2(&stmt, &proof, &params, &mut tv), Err(VerifyError::ProofShape("u1 length")));
}

#[test]
fn verify_v2_enforces_the_piece_norm_bound() {
    let (stmt, witness) = small_statement();
    let mut params = small_params();
    let mut tp = Transcript::new(b"v2-small");
    let proof = prove_v2(&stmt, &witness, &params, &mut tp).unwrap();
    params.next_beta_sq = 0;
    let mut tv = Transcript::new(b"v2-small");
    assert_eq!(verify_v2(&stmt, &proof, &params, &mut tv), Err(VerifyError::NormBound));
}

fn small_aggregate() -> AggregateProofV2 {
    let (stmt, witness) = small_statement();
    let params = small_params();
    let mut tp = Transcript::new(b"v2-pack");
    let proof = prove_v2(&stmt, &witness, &params, &mut tp).unwrap();
    AggregateProofV2 { q_prime: stmt.ring.m.q, n_sigs: 2, beta_sq: stmt.beta_sq, intermediate: vec![], final_iter: proof }
}

fn small_codings() -> Vec<IterCoding> {
    vec![IterCoding { k_z: 6, k_g: 10, k_p: 8 }]
}

#[test]
fn packed_proof_unpacks_to_the_same_proof() {
    let p = small_aggregate();
    let codings = small_codings();
    let bytes = pack(&p, &codings);
    let header = read_header(&bytes).unwrap();
    assert_eq!(header.q_prime, p.q_prime);
    assert_eq!(header.n_sigs, 2);
    assert_eq!(header.beta_sq, p.beta_sq);
    assert_eq!(header.n_intermediate, 0);
    assert_eq!(header.payload_len, bytes.len() - HEADER_LEN);
    let back = unpack_with(&bytes, &header, &codings).unwrap();
    assert_eq!(back.q_prime, p.q_prime);
    assert_eq!(back.beta_sq, p.beta_sq);
    assert!(back.intermediate.is_empty());
    assert_eq!(back.final_iter.u1, p.final_iter.u1);
    assert_eq!(back.final_iter.p, p.final_iter.p);
    assert_eq!(back.final_iter.b_double_prime, p.final_iter.b_double_prime);
    assert_eq!(back.final_iter.u2, p.final_iter.u2);
    let a = back.final_iter.last_msg.unwrap();
    let b = p.final_iter.last_msg.unwrap();
    assert_eq!(a.z0, b.z0);
    assert_eq!(a.z1, b.z1);
    assert_eq!(a.v, b.v);
    assert_eq!(a.g, b.g);
    assert_eq!(a.h, b.h);
}

#[test]
fn negative_beta_survives_the_header() {
    let mut p = small_aggregate();
    p.beta_sq = -12345;
    let bytes = pack(&p, &small_codings());
    assert_eq!(read_header(&bytes).unwrap().beta_sq, -12345);
}

#[test]
fn short_or_cut_streams_are_truncated() {
    let p = small_aggregate();
    let codings = small_codings();
    let bytes = pack(&p, &codings);
    assert!(matches!(read_header(&bytes[..HEADER_LEN - 1]), Err(WireError::Truncated)));
    let header = read_header(&bytes).unwrap();
    let cut = &bytes[..bytes.len() - 1];
    assert!(matches!(unpack_with(cut, &header, &codings), Err(WireError::Truncated)));
}

#[test]
fn unpack_rejects_a_depth_mismatch() {
    let p = small_aggregate();
    let codings = small_codings();
    let bytes = pack(&p, &codings);
    let header = read_header(&bytes).unwrap();
    let two = vec![codings[0], codings[0]];
    assert!(matches!(
        unpack_with(&bytes, &header, &two),
        Err(WireError::BadShape("depth/n_intermediate mismatch"))
    ));
}

#[test]
fn breakdown_parts_cover_the_payload() {
    let p = small_aggregate();
    let codings = small_codings();
    let bytes = pack(&p, &codings);
    let b = pack_breakdown(&p, &codings);
    assert_eq!(b.intermediate_u1 + b.intermediate_u2 + b.intermediate_p + b.intermediate_bpp, 0);
    assert_eq!(b.final_u1, (3 * D * 45 + 7) / 8);
    let parts = b.final_u1 + b.final_u2 + b.final_p + b.final_bpp + b.final_z0 + b.final_z1 + b.final_v
        + b.final_g + b.final_h;
    let payload = bytes.len() - HEADER_LEN;
    assert!(parts + 32 >= payload && parts <= payload + 32, "parts {parts} vs payload {payload}");
}

#[test]
fn e_layout_positions_are_a_bijection_onto_the_flat_vector() {
    let el = ELayout::new(3, 2, 3, 2);
    assert_eq!(el.n_upper, 6);
    assert_eq!(el.g_off, 12);
    assert_eq!(el.h_off, 30);
    assert_eq!(el.m, 42);
    let mut seen = vec![false; el.m];
    for i in 0..3 {
        for k in 0..2 {
            for p in 0..2 {
                seen[el.pos(EIdx::V(i, k, p))] = true;
            }
        }
        for j in i..3 {
            for k in 0..3 {
                seen[el.pos(EIdx::G(i, j, k))] = true;
            }
            for k in 0..2 {
                seen[el.pos(EIdx::H(i, j, k))] = true;
            }
        }
    }
    assert!(seen.iter().all(|&b| b));
    assert_eq!(el.pos(EIdx::G(0, 0, 0)), 12);
    assert_eq!(el.pos(EIdx::G(1, 1, 0)), 15);
    assert_eq!(el.pos(EIdx::H(2, 2, 1)), 41);
}

#[test]
fn chop_and_folded_layouts_locate_entries() {
    let c = ChopLayout::new(10, 3);
    assert_eq!(c.piece_len, 4);
    assert_eq!(c.locate(9), (2, 1));
    let f = FoldedLayout::new(10, 7, 3, 2);
    assert_eq!(f.r_prime, 8);
    assert_eq!(f.n_prime, 4);
    assert_eq!(f.z0(5), (1, 1));
    assert_eq!(f.z1(5), (4, 1));
    assert_eq!(f.e(6), (7, 2));
}

fn next_params() -> IterationParams {
    IterationParams { b: 1 << 12, b1: 1 << 12, t1: 4, b2: 1 << 12, t2: 4, kappa: 2, kappa1: 3, next_beta_sq: i128::MAX }
}

#[test]
fn fold_output_satisfies_the_folded_statement() {
    let (stmt, witness) = small_statement();
    let params = small_params();
    let mut tp = Transcript::new(b"fold-small");
    let mut tf = Transcript::new(b"fold-small");
    let proof = prove_v2(&stmt, &witness, &params, &mut tp).unwrap();
    let out = fold(&stmt, &proof, &params, 1, 1, 1i128 << 100, &mut tf).unwrap();
    assert_eq!(out.statement.r, 3);
    assert_eq!(out.statement.full.len(), 2 + 3 + 2 * 3);
    assert!(satisfies(&out.statement, &out.witness));
}

#[test]
fn fold_statement_matches_the_provers_fold() {
    let (stmt, witness) = small_statement();
    let params = small_params();
    let mut tp = Transcript::new(b"fold-small");
    let mut tf = Transcript::new(b"fold-small");
    let mut tv = Transcript::new(b"fold-small");
    let proof = prove_v2(&stmt, &witness, &params, &mut tp).unwrap();
    let out = fold(&stmt, &proof, &params, 1, 2, 1i128 << 100, &mut tf).unwrap();
    let s = fold_statement(&stmt, &proof.clone().into_intermediate(), &params, 1, 2, 1i128 << 100, &mut tv).unwrap();
    assert_eq!(s.n, out.statement.n);
    assert_eq!(s.r, out.statement.r);
    assert_eq!(s.full.len(), out.statement.full.len());
    for (a, b) in s.full.iter().zip(out.statement.full.iter()) {
        assert_eq!(a.b, b.b);
        assert_eq!(a.phi.len(), b.phi.len());
    }
    assert!(satisfies(&s, &out.witness));
}

fn recursion_params() -> RecursionParams {
    RecursionParams {
        num_sigs: 2,
        iterations: vec![small_params(), next_params()],
        folds: vec![FoldStep { nu: 1, mu: 1, beta_sq: 1i128 << 100 }],
    }
}

#[test]
fn recursive_proof_round_trips() {
    let (stmt, witness) = small_statement();
    let params = recursion_params();
    let proof = prove_aggregate(&stmt, &witness, &params, b"recursion").unwrap();
    assert_eq!(proof.intermediate.len(), 1);
    assert!(proof.intermediate[0].last_msg.is_none());
    assert_eq!(verify_aggregate(&stmt, &proof, &params, b"recursion"), Ok(()));
}

#[test]
fn recursive_proof_rejects_a_tampered_intermediate_u1() {
    let (stmt, witness) = small_statement();
    let params = recursion_params();
    let mut proof = prove_aggregate(&stmt, &witness, &params, b"recursion").unwrap();
    proof.intermediate[0].u1[0].c[0] = stmt.ring.m.add(proof.intermediate[0].u1[0].c[0], 1);
    assert!(verify_aggregate(&stmt, &proof, &params, b"recursion").is_err());
}

#[test]
fn recursive_proof_rejects_a_tampered_final_opening() {
    let (stmt, witness) = small_statement();
    let params = recursion_params();
    let mut proof = prove_aggregate(&stmt, &witness, &params, b"recursion").unwrap();
    if let Some(lm) = proof.final_iter.last_msg.as_mut() {
        lm.z0[0].c[0] = stmt.ring.m.add(lm.z0[0].c[0], 1);
    }
    assert!(verify_aggregate(&stmt, &proof, &params, b"recursion").is_err());
}

#[test]
fn recursive_verifier_checks_depth_and_modulus() {
    let (stmt, witness) = small_statement();
    let params = recursion_params();
    let proof = prove_aggregate(&stmt, &witness, &params, b"recursion").unwrap();
    let mut short = proof.clone();
    short.intermediate.clear();
    assert_eq!(verify_aggregate(&stmt, &short, &params, b"recursion"), Err(VerifyError::BadIterationStage));
    let mut other = proof.clone();
    other.q_prime = 7;
    assert_eq!(
        verify_aggregate(&stmt, &other, &params, b"recursion"),
        Err(VerifyError::ModulusMismatch { got: 7, want: stmt.ring.m.q })
    );
}
