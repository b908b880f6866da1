use aggregate_falcon::modring::crt::Ring;
use aggregate_falcon::modring::modulus::{find_prime_5mod8, find_prime_ntt_friendly_below, is_prime, Modulus};
use aggregate_falcon::modring::ntt::{intt_in_place, mul_ntt, ntt_in_place, NttTables};
use aggregate_falcon::modring::poly::{RingElem, D};
use aggregate_falcon::modring::rng::SplitMix64;

fn ring(bits: u32) -> Ring {
    Ring::new(Modulus::new(find_prime_5mod8(1 << bits).unwrap())).unwrap()
}

fn modulus() -> Modulus {
    Modulus::new(find_prime_5mod8(1 << 44).unwrap())
}

fn uniform_below(m: &Modulus, rng: &mut SplitMix64) -> RingElem {
    let mut p = RingElem::zero();
    for i in 0..D {
        p.c[i] = rng.below(m.q);
    }
    p
}

fn uniform_next(m: &Modulus, rng: &mut SplitMix64) -> RingElem {
    let mut p = RingElem::zero();
    for i in 0..D {
        p.c[i] = rng.next() % m.q;
    }
    p
}

fn ntt_ring(bits: u32) -> (Modulus, NttTables) {
    let q = find_prime_ntt_friendly_below(1u64 << bits, 2 * D as u64).unwrap();
    let m = Modulus::new(q);
    let psi = m.primitive_root_of_unity(2 * D as u64).unwrap();
    (m, NttTables::from_psi(&m, psi))
}

fn uniform_arr(m: &Modulus, rng: &mut SplitMix64) -> [u64; D] {
    let mut p = [0u64; D];
    for slot in p.iter_mut() {
        *slot = rng.below(m.q);
    }
    p
}

#[test]
fn split_combine_round_trip() {
    for bits in [39u32, 44, 50] {
        let rg = ring(bits);
        let mut rng = SplitMix64::new(bits as u64);
        for _ in 0..200 {
            let a = uniform_below(&rg.m, &mut rng);
            assert_eq!(rg.combine(&rg.split(&a)), a);
        }
    }
}

#[test]
fn crt_mul_matches_schoolbook() {
    for bits in [39u32, 44, 50] {
        let rg = ring(bits);
        let mut rng = SplitMix64::new(1000 + bits as u64);
        for _ in 0..300 {
            let a = uniform_below(&rg.m, &mut rng);
            let b = uniform_below(&rg.m, &mut rng);
            assert_eq!(rg.mul(&a, &b), a.mul(&rg.m, &b));
        }
    }
}

#[test]
fn crt_mul_handles_monomials() {
    let rg = ring(44);
    let x32 = RingElem::monomial(&rg.m, 32);
    assert_eq!(rg.mul(&x32, &x32), RingElem::constant(&rg.m, rg.m.neg(1)));
}

#[test]
fn r_squares_to_minus_one() {
    let rg = ring(44);
    assert_eq!(rg.m.mul(rg.r, rg.r), rg.m.q - 1);
}

#[test]
fn primality_known_values() {
    assert!(is_prime(2));
    assert!(is_prime(12289));
    assert!(!is_prime(1));
    assert!(!is_prime(12288));
    assert!(is_prime((1 << 31) - 1));
    assert!(!is_prime(((1u64 << 31) - 1) * ((1u64 << 31) - 1)));
}

#[test]
fn prime_search_is_5_mod_8_and_prime() {
    for bits in [39u32, 44, 50] {
        let q = find_prime_5mod8(1u64 << bits).unwrap();
        assert!(is_prime(q));
        assert_eq!(q % 8, 5);
        assert!(q >= 1u64 << bits);
    }
}

#[test]
fn sqrt_minus_one_squares_to_minus_one() {
    for bits in [39u32, 44, 50] {
        let m = Modulus::new(find_prime_5mod8(1u64 << bits).unwrap());
        let r = m.sqrt_minus_one().expect("q = 5 mod 8 has sqrt(-1)");
        assert_eq!(m.mul(r, r), m.q - 1);
    }
}

#[test]
fn inverse_round_trips() {
    let m = modulus();
    for a in [1u64, 2, 3, 100, m.q - 1, m.q / 2] {
        assert_eq!(m.mul(a, m.inv(a)), 1);
    }
}

#[test]
fn centered_round_trips() {
    let m = modulus();
    for a in [0u64, 1, 7, m.q / 2, m.q / 2 + 1, m.q - 1] {
        assert_eq!(m.from_i64(m.centered(a)), a);
    }
}

#[test]
fn ntt_round_trip() {
    let (m, t) = ntt_ring(44);
    let mut rng = SplitMix64::new(7);
    for _ in 0..200 {
        let a = uniform_arr(&m, &mut rng);
        let mut ah = a;
        ntt_in_place(&m, &mut ah, &t);
        intt_in_place(&m, &mut ah, &t);
        for i in 0..D {
            assert_eq!(a[i], ah[i], "round trip at i={i}");
        }
    }
}

#[test]
fn ntt_mul_matches_schoolbook() {
    for bits in [39u32, 44, 50] {
        let (m, t) = ntt_ring(bits);
        let mut rng = SplitMix64::new(1000 + bits as u64);
        for _ in 0..200 {
            let a = uniform_arr(&m, &mut rng);
            let b = uniform_arr(&m, &mut rng);
            let c_ntt = mul_ntt(&m, &a, &b, &t);
            let aa = RingElem { c: a };
            let bb = RingElem { c: b };
            let c_sb = aa.mul(&m, &bb);
            assert_eq!(c_ntt, c_sb.c, "ntt mul vs schoolbook at bits={bits}");
        }
    }
}

#[test]
fn poly_add_sub_inverse() {
    let m = modulus();
    let mut rng = SplitMix64::new(1);
    for _ in 0..100 {
        let a = uniform_next(&m, &mut rng);
        let b = uniform_next(&m, &mut rng);
        assert_eq!(a.add(&m, &b).sub(&m, &b), a);
    }
}

#[test]
fn mul_is_commutative_and_distributive() {
    let m = modulus();
    let mut rng = SplitMix64::new(2);
    for _ in 0..50 {
        let a = uniform_next(&m, &mut rng);
        let b = uniform_next(&m, &mut rng);
        let c = uniform_next(&m, &mut rng);
        assert_eq!(a.mul(&m, &b), b.mul(&m, &a));
        let lhs = a.mul(&m, &b.add(&m, &c));
        let rhs = a.mul(&m, &b).add(&m, &a.mul(&m, &c));
        assert_eq!(lhs, rhs);
    }
}

#[test]
fn monomial_wraps_with_sign() {
    let m = modulus();
    assert_eq!(RingElem::monomial(&m, 64), RingElem::constant(&m, m.neg(1)));
    let x = RingElem::monomial(&m, 1);
    let x63 = RingElem::monomial(&m, 63);
    assert_eq!(x.mul(&m, &x63), RingElem::constant(&m, m.neg(1)));
}

#[test]
fn one_is_multiplicative_identity() {
    let m = modulus();
    let mut rng = SplitMix64::new(3);
    let one = RingElem::constant(&m, 1);
    for _ in 0..50 {
        let a = uniform_next(&m, &mut rng);
        assert_eq!(a.mul(&m, &one), a);
    }
}
