use std::time::Instant;
use wesolowski_vdf::bigint::BigInteger;
use wesolowski_vdf::groups::rsa::{derive_challenge, generate, is_prime_u64, RSASetupSecret, RSA};
use wesolowski_vdf::{VDFPublicParam, VDFSecretParam, VDF};

fn big(x: u64) -> BigInteger {
    BigInteger::from_u64(x)
}

fn bytes_to_u64(v: &[u8]) -> u64 {
    for i in 0..v.len() - 8 {
        assert_eq!(v[i], 0, "value does not fit a machine word");
    }
    let mut r: u64 = 0;
    for i in v.len() - 8..v.len() {
        r = r * 256 + v[i] as u64;
    }
    r
}

fn big_to_u64(b: &BigInteger) -> u64 {
    bytes_to_u64(&b.to_bytes())
}

fn factor_semiprime(n: u64) -> (u64, u64) {
    let mut d: u64 = 2;
    while d * d <= n {
        if n % d == 0 {
            return (d, n / d);
        }
        d += 1;
    }
    panic!("no small factor found");
}

#[test]
fn concrete_small_group_scenario() {
    // N = 251 * 241 = 60491, x = 7, delta = 8
    let inst = RSA::with_primes(big(251), big(241), 8).unwrap();
    let x = big(7);
    let mut yref: u64 = 7;
    for _ in 0..8 {
        yref = yref * yref % 60491;
    }
    let out = inst.evaluation(&x);
    assert_eq!(big_to_u64(&out.y), yref);
    let out_t = inst.trapdoor(&x, 8);
    assert_eq!(big_to_u64(&out_t.y), yref);
    assert!(out.y.equals(&out_t.y));
    assert!(inst.verify(&x, &out.y, &out.pi));
    assert!(inst.verify(&x, &out_t.y, &out_t.pi));
    let ybad = big(yref + 1);
    assert!(!inst.verify(&x, &ybad, &out.pi));
}

#[test]
fn trivial_difficulty_returns_input() {
    // delta = 0 means y = x and the proof trivially verifies.
    let inst = RSA::with_primes(big(251), big(241), 0).unwrap();
    let x = big(123);
    let out = inst.evaluation(&x);
    assert_eq!(big_to_u64(&out.y), 123);
    assert!(inst.verify(&x, &out.y, &out.pi));
}

#[test]
fn evaluate_and_trapdoor_agree() {
    let inst = RSA::with_primes(big(251), big(241), 16).unwrap();
    for xv in [2u64, 7, 5000, 60490] {
        let x = big(xv);
        let slow = inst.evaluation(&x);
        let fast = inst.trapdoor(&x, 16);
        assert!(slow.y.equals(&fast.y));
        assert!(slow.pi.equals(&fast.pi));
        assert!(inst.verify(&x, &slow.y, &slow.pi));
    }
}

#[test]
fn soundness_byte_flips_rejected() {
    let inst = RSA::with_primes(big(251), big(241), 12).unwrap();
    let x = big(5);
    let out = inst.evaluation(&x);
    assert!(inst.verify(&x, &out.y, &out.pi));
    for pos in [248usize, 255] {
        let mut yb = out.y.to_bytes();
        yb[pos] ^= 0x01;
        let ybad = BigInteger::from_be_bytes(yb.as_slice());
        assert!(!inst.verify(&x, &ybad, &out.pi));
        let mut pb = out.pi.to_bytes();
        pb[pos] ^= 0x01;
        let pbad = BigInteger::from_be_bytes(pb.as_slice());
        assert!(!inst.verify(&x, &out.y, &pbad));
    }
}

#[test]
fn group_generation_builds_valid_group() {
    let secret = RSASetupSecret::new(b"generation-seed".to_vec(), b"generation-salt".to_vec());
    let (s, p) = generate(&secret, 1).unwrap();
    let n = bytes_to_u64(&p.to_vec());
    let phi = bytes_to_u64(&s.to_vec());
    let (f1, f2) = factor_semiprime(n);
    assert!(is_prime_u64(f1));
    assert!(is_prime_u64(f2));
    assert_ne!(f1, f2);
    assert_eq!(n, f1 * f2);
    assert_eq!(phi, (f1 - 1) * (f2 - 1));
}

#[test]
fn setup_reproducible_from_secret() {
    let s1 = RSASetupSecret::new(b"seed-a".to_vec(), b"salt-a".to_vec());
    let s2 = RSASetupSecret::new(b"seed-a".to_vec(), b"salt-a".to_vec());
    let i1 = RSA::setup(s1, 8, 1).unwrap();
    let i2 = RSA::setup(s2, 8, 1).unwrap();
    assert_eq!(i1.public_bytes(), i2.public_bytes());
    assert_eq!(i1.secret_bytes(), i2.secret_bytes());
    let x = big(11);
    let o1 = i1.evaluation(&x);
    assert!(i2.verify(&x, &o1.y, &o1.pi));
}

#[test]
fn evaluation_cost_grows_with_delta_while_verify_stays_flat() {
    let cheap = RSA::with_primes(big(251), big(241), 10).unwrap();
    let costly = RSA::with_primes(big(251), big(241), 100).unwrap();
    let x = big(7);
    let t0 = Instant::now();
    let o_cheap = cheap.evaluation(&x);
    let t_cheap = t0.elapsed();
    let t1 = Instant::now();
    let o_costly = costly.evaluation(&x);
    let t_costly = t1.elapsed();
    assert!(t_costly > t_cheap);
    let tv = Instant::now();
    assert!(costly.verify(&x, &o_costly.y, &o_costly.pi));
    let t_verify = tv.elapsed();
    assert!(cheap.verify(&x, &o_cheap.y, &o_cheap.pi));
    assert!(t_verify < t_costly);
}

#[test]
fn operations_through_the_vdf_trait() {
    let secret = RSASetupSecret::new(b"trait-seed".to_vec(), b"trait-salt".to_vec());
    let inst = <RSA as VDF>::setup(secret, 8, 1).unwrap();
    let x = big(9);
    let slow = <RSA as VDF>::evaluation(&inst, &x);
    let fast = <RSA as VDF>::trapdoor(&inst, &x, 8);
    assert!(slow.y.equals(&fast.y));
    assert!(<RSA as VDF>::verify(&inst, &x, &slow.y, &slow.pi));
}

#[test]
fn challenge_is_prime_and_transcript_dependent() {
    let x = big(7);
    let y1 = big(100);
    let y2 = big(101);
    let l1 = derive_challenge(&x, &y1, 8);
    let l2 = derive_challenge(&x, &y2, 8);
    let l3 = derive_challenge(&x, &y1, 9);
    assert!(is_prime_u64(l1));
    assert!(is_prime_u64(l2));
    assert!(is_prime_u64(l3));
    assert!(l1 >= 3);
    assert_ne!(l1, l2);
    assert_ne!(l1, l3);
    assert_eq!(l1, derive_challenge(&x, &y1, 8));
}
