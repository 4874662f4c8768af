use wesolowski_vdf::groups::CustomPRNG;
use wesolowski_vdf::groups::derive as derive_bytes;

#[test]
fn derive_is_deterministic() {
    let a = derive_bytes(b"secret-seed", b"public-salt", 100).unwrap();
    let b = derive_bytes(b"secret-seed", b"public-salt", 100).unwrap();
    assert_eq!(a, b);
    assert_eq!(a.len(), 100);
}

#[test]
fn derive_depends_on_salt_and_seed() {
    let a = derive_bytes(b"secret-seed", b"public-salt", 64).unwrap();
    let b = derive_bytes(b"secret-seed", b"other-salt", 64).unwrap();
    let c = derive_bytes(b"other-seed", b"public-salt", 64).unwrap();
    assert_ne!(a, b);
    assert_ne!(a, c);
}

#[test]
fn derive_prefix_consistency() {
    let long = derive_bytes(b"seed", b"salt", 64).unwrap();
    let short = derive_bytes(b"seed", b"salt", 32).unwrap();
    assert_eq!(&long[..32], &short[..]);
}

#[test]
fn derive_rejects_overlong_request() {
    assert!(derive_bytes(b"seed", b"salt", 8160).is_ok());
    assert!(derive_bytes(b"seed", b"salt", 8161).is_err());
}

#[test]
fn prng_from_salt_is_deterministic() {
    let gen1: CustomPRNG<32> = CustomPRNG::new(b"key-material");
    let gen2: CustomPRNG<32> = CustomPRNG::new(b"key-material");
    let a = gen1.from_salt(b"one-salt").unwrap();
    let b = gen2.from_salt(b"one-salt").unwrap();
    assert!(a.equals(&b));
    let c = gen1.from_salt(b"two-salt").unwrap();
    assert!(!a.equals(&c));
}
