use aggregate_falcon::aggregate::{aggregate, verify, AggregateError, FalconInstance, VerifyError};
use aggregate_falcon::falcon::falcon_ring::FALCON_BETA_SQ;
use aggregate_falcon::falcon::parse::{decode_instance, FalconSig};
use aggregate_falcon::falcon::relation::build_falcon_statement;
use aggregate_falcon::labrador::prover::prove;
use aggregate_falcon::labrador::statement::satisfies;
use aggregate_falcon::labrador::transcript::Transcript;
use aggregate_falcon::labrador::verification::verify as verify_iteration;
use aggregate_falcon::modring::crt::Ring;
use aggregate_falcon::modring::modulus::{find_prime_5mod8, Modulus};
use pqcrypto_falcon::falcon512;
use pqcrypto_traits::sign::{DetachedSignature, PublicKey};

fn ring() -> Ring {
    Ring::new(Modulus::new(find_prime_5mod8(1 << 44).unwrap())).unwrap()
}

fn norm_sq(sig: &FalconSig) -> i64 {
    sig.s1.norm_sq() + sig.s2.norm_sq()
}

fn fresh_sigs(n: usize, tag: &str) -> Vec<FalconSig> {
    (0..n)
        .map(|i| {
            let msg = format!("{tag} message #{i}").into_bytes();
            let (pk, sk) = falcon512::keypair();
            let sig = falcon512::detached_sign(&msg, &sk);
            decode_instance(pk.as_bytes(), sig.as_bytes(), &msg).expect("decode a genuine signature")
        })
        .collect()
}

fn make_sigs(n: usize) -> (Vec<FalconInstance>, Vec<(Vec<u8>, Vec<u8>)>) {
    let mut instances = Vec::with_capacity(n);
    let mut pairs = Vec::with_capacity(n);
    for i in 0..n {
        let msg = format!("e2e roundtrip msg #{i}").into_bytes();
        let (pk, sk) = falcon512::keypair();
        let sig = falcon512::detached_sign(&msg, &sk);
        let pk_bytes = pk.as_bytes().to_vec();
        let sig_bytes = sig.as_bytes().to_vec();
        pairs.push((pk_bytes.clone(), msg.clone()));
        instances.push(FalconInstance { public_key: pk_bytes, message: msg, signature: sig_bytes });
    }
    (instances, pairs)
}

#[test]
fn genuine_signatures_decode_within_norm_bound() {
    let messages: [&[u8]; 4] = [
        b"",
        b"hello falcon",
        b"a slightly longer message for aggregation testing",
        &[0xABu8; 137],
    ];
    for (k, msg) in messages.iter().enumerate() {
        let (pk, sk) = falcon512::keypair();
        let sig = falcon512::detached_sign(msg, &sk);
        assert!(
            falcon512::verify_detached_signature(&sig, msg, &pk).is_ok(),
            "pqcrypto verify failed for message {k}"
        );
        let decoded = decode_instance(pk.as_bytes(), sig.as_bytes(), msg)
            .expect("decode_instance should succeed on a genuine signature");
        assert_eq!(decoded.c, decoded.s1.add(&decoded.s2.mul(&decoded.h)));
        let n = norm_sq(&decoded);
        assert!(n <= FALCON_BETA_SQ, "message {k}: norm^2 {n} exceeds bound {FALCON_BETA_SQ}");
    }
}

#[test]
fn wrong_message_breaks_the_norm_bound() {
    let (pk, sk) = falcon512::keypair();
    let sig = falcon512::detached_sign(b"the real message", &sk);
    let decoded = decode_instance(pk.as_bytes(), sig.as_bytes(), b"a different message")
        .expect("decoding still structurally succeeds");
    assert!(norm_sq(&decoded) > FALCON_BETA_SQ, "wrong message should blow past the norm bound");
}

#[test]
fn corrupt_headers_are_rejected() {
    let (pk, sk) = falcon512::keypair();
    let sig = falcon512::detached_sign(b"m", &sk);

    let mut bad_pk = pk.as_bytes().to_vec();
    bad_pk[0] ^= 0xFF;
    assert!(decode_instance(&bad_pk, sig.as_bytes(), b"m").is_err());

    let mut bad_sig = sig.as_bytes().to_vec();
    bad_sig[0] ^= 0xFF;
    assert!(decode_instance(pk.as_bytes(), &bad_sig, b"m").is_err());

    assert!(decode_instance(&pk.as_bytes()[..10], sig.as_bytes(), b"m").is_err());
}

#[test]
fn honest_witness_satisfies_falcon_statement() {
    let ring = ring();
    let sigs = fresh_sigs(4, "phase 3c test");
    let beta_sq: i128 = 1 << 60;
    let (stmt, witness, _layout) = build_falcon_statement(&sigs, &ring, beta_sq).unwrap();
    assert!(satisfies(&stmt, &witness), "honest Falcon-512 witness must satisfy the assembled statement");
}

#[test]
fn flipping_one_witness_coefficient_breaks_satisfaction() {
    let ring = ring();
    let sigs = fresh_sigs(4, "phase 3c test");
    let beta_sq: i128 = 1 << 60;
    let (stmt, witness, layout) = build_falcon_statement(&sigs, &ring, beta_sq).unwrap();
    let i_y = layout.index(1);
    let i_yp = layout.index_prime(1);
    let targets = [
        layout.y_idx(i_y, 1),
        layout.y_idx(i_y, 2),
        layout.yp_idx(i_yp, 1),
        layout.yp_idx(i_yp, 2),
        layout.e_idx(i_y),
        layout.ep_idx(i_yp),
        layout.v_idx(),
    ];
    for vec_idx in targets {
        let mut bad = witness.clone();
        bad.w[vec_idx][0].c[0] = ring.m.add(bad.w[vec_idx][0].c[0], 1);
        assert!(!satisfies(&stmt, &bad), "perturbing witness vector {vec_idx} must break satisfaction");
    }
}

#[test]
fn tampering_yp_padding_breaks_form_constraints() {
    let ring = ring();
    let sigs = fresh_sigs(4, "phase 3c test");
    let (stmt, witness, layout) = build_falcon_statement(&sigs, &ring, 1 << 60).unwrap();
    let yp = layout.yp_idx(1, 1);
    let mut bad = witness.clone();
    bad.w[yp][8].c[0] = ring.m.add(bad.w[yp][8].c[0], 1);
    assert!(!satisfies(&stmt, &bad), "padding of y' must be pinned to zero");
}

#[test]
fn breaking_sigma_minus_one_tie_is_detected() {
    let ring = ring();
    let sigs = fresh_sigs(4, "phase 3c test");
    let (stmt, witness, layout) = build_falcon_statement(&sigs, &ring, 1 << 60).unwrap();
    let yp = layout.yp_idx(1, 1);
    let mut bad = witness.clone();
    bad.w[yp][0].c[5] = ring.m.add(bad.w[yp][0].c[5], 1);
    assert!(!satisfies(&stmt, &bad), "σ₋₁ˢ tie at active y' position must reject a coefficient flip");
}

#[test]
fn tampering_e_inner_coef_breaks_form_constraints() {
    let ring = ring();
    let sigs = fresh_sigs(4, "phase 3c test");
    let (stmt, witness, layout) = build_falcon_statement(&sigs, &ring, 1 << 60).unwrap();
    let evec = layout.e_idx(1);
    let mut bad = witness.clone();
    bad.w[evec][0].c[5] = ring.m.add(bad.w[evec][0].c[5], 1);
    assert!(!satisfies(&stmt, &bad), "inner coef 5 of slot 0 of e must be pinned");
}

#[test]
fn tampering_a_signature_byte_breaks_falcon_eq() {
    let ring = ring();
    let sigs = fresh_sigs(2, "phase 3c test");
    let (stmt, witness, layout) = build_falcon_statement(&sigs, &ring, 1 << 60).unwrap();
    assert!(satisfies(&stmt, &witness));
    let y2 = layout.y_idx(layout.index(1), 2);
    let mut bad = witness.clone();
    bad.w[y2][3].c[5] = ring.m.add(bad.w[y2][3].c[5], 1);
    assert!(!satisfies(&stmt, &bad), "perturbing an s2 slot must violate the Falcon-eq slot constraints");
}

#[test]
fn form_constraints_catch_each_padding_or_structure_violation() {
    let ring = ring();
    let sigs = fresh_sigs(4, "phase 3c test");
    let (stmt, witness, layout) = build_falcon_statement(&sigs, &ring, 1 << 60).unwrap();
    assert!(satisfies(&stmt, &witness));
    let flip = |vec_idx: usize, pos: usize, coef: usize| {
        let mut bad = witness.clone();
        bad.w[vec_idx][pos].c[coef] = ring.m.add(bad.w[vec_idx][pos].c[coef], 1);
        bad
    };
    assert!(!satisfies(&stmt, &flip(layout.y_idx(1, 1), 8 * 2, 0)), "y padding not caught");
    assert!(!satisfies(&stmt, &flip(layout.yp_idx(1, 1), 8, 0)), "y' padding not caught");
    assert!(!satisfies(&stmt, &flip(layout.yp_idx(1, 1), 2, 5)), "y' σ equality not caught");
    assert!(!satisfies(&stmt, &flip(layout.e_idx(1), 0, 1)), "ε slot 0 c[1] not caught");
    assert!(!satisfies(&stmt, &flip(layout.e_idx(1), 4, 0)), "ε slot 4 not caught");
    assert!(!satisfies(&stmt, &flip(layout.e_idx(1), 8 * 2, 0)), "ε padding not caught");
    assert!(!satisfies(&stmt, &flip(layout.ep_idx(1), 2, 2)), "e' σ equality not caught");
    assert!(!satisfies(&stmt, &flip(layout.ep_idx(1), 8, 3)), "e' padding not caught");
}

fn iteration_setup(n: usize) -> (Ring, aggregate_falcon::labrador::statement::Statement, aggregate_falcon::labrador::proofs::IterationProof) {
    let ring = ring();
    let sigs = fresh_sigs(n, "phase 5");
    let (stmt, witness, _layout) = build_falcon_statement(&sigs, &ring, 1 << 60).unwrap();
    let mut tp = Transcript::new(b"e2e-test");
    let proof = prove(&stmt, &witness, &mut tp).unwrap();
    (ring, stmt, proof)
}

#[test]
fn honest_proof_round_trips_for_n4() {
    let (_ring, stmt, proof) = iteration_setup(4);
    let mut tv = Transcript::new(b"e2e-test");
    verify_iteration(&stmt, &proof, &mut tv).expect("honest proof verifies");
}

#[test]
fn tampering_z_rejects() {
    let (ring, stmt, mut proof) = iteration_setup(2);
    proof.z[0].c[0] = ring.m.add(proof.z[0].c[0], 1);
    let mut tv = Transcript::new(b"e2e-test");
    assert!(verify_iteration(&stmt, &proof, &mut tv).is_err());
}

#[test]
fn tampering_v_rejects() {
    let (ring, stmt, mut proof) = iteration_setup(2);
    proof.v[0][0].c[0] = ring.m.add(proof.v[0][0].c[0], 1);
    let mut tv = Transcript::new(b"e2e-test");
    assert!(verify_iteration(&stmt, &proof, &mut tv).is_err());
}

#[test]
fn tampering_g_rejects() {
    let (ring, stmt, mut proof) = iteration_setup(2);
    proof.g[0][0].c[0] = ring.m.add(proof.g[0][0].c[0], 1);
    let mut tv = Transcript::new(b"e2e-test");
    assert!(verify_iteration(&stmt, &proof, &mut tv).is_err());
}

#[test]
fn tampering_bpp_rejects() {
    let (ring, stmt, mut proof) = iteration_setup(2);
    if !proof.b_double_prime.is_empty() {
        proof.b_double_prime[0].c[0] = ring.m.add(proof.b_double_prime[0].c[0], 1);
    }
    let mut tv = Transcript::new(b"e2e-test");
    assert!(verify_iteration(&stmt, &proof, &mut tv).is_err());
}

#[test]
fn roundtrip_n2() {
    let (sigs, pairs) = make_sigs(2);
    let proof = aggregate(&sigs).expect("aggregate");
    verify(&pairs, &proof).expect("verify");
}

#[test]
fn wrong_public_key_rejects() {
    let (sigs, mut pairs) = make_sigs(2);
    let proof = aggregate(&sigs).expect("aggregate");
    let (other_pk, _) = falcon512::keypair();
    pairs[0].0 = other_pk.as_bytes().to_vec();
    assert!(verify(&pairs, &proof).is_err());
}

#[test]
fn wrong_message_rejects() {
    let (sigs, mut pairs) = make_sigs(2);
    let proof = aggregate(&sigs).expect("aggregate");
    pairs[0].1.push(0xff);
    assert!(verify(&pairs, &proof).is_err());
}

#[test]
fn flipped_proof_byte_rejects() {
    let (sigs, pairs) = make_sigs(2);
    let mut proof = aggregate(&sigs).expect("aggregate");
    proof.iteration.z[0].c[0] ^= 1;
    assert!(verify(&pairs, &proof).is_err());
}

#[test]
fn malformed_nonce_length_rejects() {
    let (sigs, pairs) = make_sigs(2);
    let mut proof = aggregate(&sigs).expect("aggregate");
    proof.nonces[0].pop();
    let err = verify(&pairs, &proof).expect_err("malformed nonce must reject");
    let s = format!("{err:?}");
    assert!(s.contains("nonce length"), "expected nonce-length error, got: {s}");
}

#[test]
fn swapped_public_pairs_rejects() {
    let (sigs, mut pairs) = make_sigs(2);
    let proof = aggregate(&sigs).expect("aggregate");
    pairs.swap(0, 1);
    assert!(verify(&pairs, &proof).is_err(), "swapped (pk, msg) pairs must reject");
}

#[test]
fn empty_input_is_refused() {
    assert!(matches!(aggregate(&[]), Err(AggregateError::EmptyInput)));
}

#[test]
fn pair_count_mismatch_is_reported() {
    let (sigs, mut pairs) = make_sigs(2);
    let proof = aggregate(&sigs).expect("aggregate");
    pairs.pop();
    assert!(matches!(
        verify(&pairs, &proof),
        Err(VerifyError::SigCountMismatch { got: 1, want: 2 })
    ));
}

#[test]
fn tampered_signature_is_not_encodable() {
    let (mut sigs, _pairs) = make_sigs(2);
    // A different message makes s1 long, beyond the Falcon bound.
    sigs[1].message.push(1);
    assert!(matches!(aggregate(&sigs), Err(AggregateError::NotEncodable(1))));
}
