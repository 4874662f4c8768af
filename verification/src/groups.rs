//! Deterministic derivation of pseudorandom big integers from a secret seed.
//!
//! The derivation is extract-then-expand: HKDF-SHA256 extracts a
//! pseudorandom key from the salt and the secret key, then one expand step
//! under a fixed domain-separation label produces the requested number of
//! output bytes.  The output is a pure function of (secret key, salt,
//! output length), and the request fails exactly when it exceeds the
//! expand primitive's limit of 255 hash blocks.

pub mod rsa;

use vstd::prelude::*;
use crate::bigint::{be_val, lemma_be_val_bound, p256, BigInteger};

verus! {

/// Carries the requested output length of the expand step.
struct OkmLength(usize);

/// Relies on `ring::hkdf::KeyType`: ring reads the requested output length
/// through this trait; nothing is proved through it and no verified code
/// calls it.
impl ring::hkdf::KeyType for OkmLength {
    #[verifier::external_body]
    fn len(&self) -> usize {
        self.0
    }
}

/// The full output stream of HKDF-SHA256 expand (all 255 hash blocks) for a
/// given pseudorandom key, determined by the secret, the salt and the info
/// string alone; an expand of `n` bytes returns its first `n` bytes.
pub uninterp spec fn hkdf_sha256_stream(secret: Seq<u8>, salt: Seq<u8>, info: Seq<u8>) -> Seq<u8>;

/// Largest output length the expand step can produce: 255 hash blocks.
pub const MAX_DERIVE_LENGTH: usize = 8160;

/// Relies on `ring::hkdf`: `Salt::new` + `Salt::extract` (one extract), then
/// `Prk::expand` + `Okm::fill` (one expand of exactly `out_len` bytes, the
/// prefix of the expand stream).  `expand` fails exactly when `out_len`
/// exceeds 255 hash blocks, and `fill` only on a length mismatch, which the
/// matching buffer rules out; the body only converts around the calls.
#[verifier::external_body]
fn hkdf_sha256_raw(secret: &[u8], salt: &[u8], info: &[u8], out_len: usize) -> (r: Result<
    Vec<u8>,
    HKDFExpandError,
>)
    ensures
        match r {
            Ok(v) => out_len <= MAX_DERIVE_LENGTH && v@ == hkdf_sha256_stream(
                secret@,
                salt@,
                info@,
            ).take(out_len as int) && v@.len() == out_len,
            Err(_) => out_len > MAX_DERIVE_LENGTH,
        },
{
    let salt = ring::hkdf::Salt::new(ring::hkdf::HKDF_SHA256, salt);
    let prk = salt.extract(secret);
    let info_parts = [info];
    let okm = match prk.expand(&info_parts, OkmLength(out_len)) {
        Ok(okm) => okm,
        Err(_) => return Err(HKDFExpandError {}),
    };
    let mut out = vec![0u8; out_len];
    match okm.fill(&mut out) {
        Ok(()) => Ok(out),
        Err(_) => Err(HKDFExpandError {}),
    }
}

/// Domain-separation label under which big pseudorandom integers are drawn.
pub open spec fn info_label_spec() -> Seq<u8> {
    seq![
        69u8, 120u8, 112u8, 97u8, 110u8, 103u8, 105u8, 110u8, 103u8, 32u8,
        107u8, 101u8, 121u8, 32u8, 116u8, 111u8, 32u8, 111u8, 98u8, 116u8,
        97u8, 105u8, 110u8, 32u8, 97u8, 32u8, 98u8, 105u8, 103u8, 32u8,
        112u8, 115u8, 101u8, 117u8, 100u8, 111u8, 114u8, 97u8, 110u8, 100u8,
        111u8, 109u8, 32u8, 105u8, 110u8, 116u8, 101u8, 103u8, 101u8, 114u8
    ]
}

/// The domain-separation label as bytes.
fn info_label() -> (r: Vec<u8>)
    ensures
        r@ == info_label_spec(),
{
    let mut v: Vec<u8> = Vec::new();
    v.push(69);
    v.push(120);
    v.push(112);
    v.push(97);
    v.push(110);
    v.push(103);
    v.push(105);
    v.push(110);
    v.push(103);
    v.push(32);
    v.push(107);
    v.push(101);
    v.push(121);
    v.push(32);
    v.push(116);
    v.push(111);
    v.push(32);
    v.push(111);
    v.push(98);
    v.push(116);
    v.push(97);
    v.push(105);
    v.push(110);
    v.push(32);
    v.push(97);
    v.push(32);
    v.push(98);
    v.push(105);
    v.push(103);
    v.push(32);
    v.push(112);
    v.push(115);
    v.push(101);
    v.push(117);
    v.push(100);
    v.push(111);
    v.push(114);
    v.push(97);
    v.push(110);
    v.push(100);
    v.push(111);
    v.push(109);
    v.push(32);
    v.push(105);
    v.push(110);
    v.push(116);
    v.push(101);
    v.push(103);
    v.push(101);
    v.push(114);
    proof {
        assert(v@ =~= info_label_spec());
    }
    v
}

/// The first `len` bytes of the derivation stream for a secret key and a
/// salt, under the fixed label.
pub open spec fn prng_bytes(secret: Seq<u8>, salt: Seq<u8>, len: nat) -> Seq<u8> {
    hkdf_sha256_stream(secret, salt, info_label_spec()).take(len as int)
}

/// Error returned when a requested expansion length exceeds what the
/// extract-then-expand primitive can produce.
#[derive(Debug)]
pub struct HKDFExpandError {}

/// Derives `output_length` pseudorandom bytes from a secret key and a salt:
/// one extract, then one expand under the fixed label.  Deterministic: the
/// result is a pure function of the three arguments.  Fails exactly when
/// the requested length exceeds the expand primitive's maximum of 255 hash
/// blocks.
pub fn derive(secret_key: &[u8], salt: &[u8], output_length: usize) -> (r: Result<
    Vec<u8>,
    HKDFExpandError,
>)
    ensures
        match r {
            Ok(v) => output_length <= MAX_DERIVE_LENGTH && v@ == prng_bytes(
                secret_key@,
                salt@,
                output_length as nat,
            ) && v@.len() == output_length,
            Err(_) => output_length > MAX_DERIVE_LENGTH,
        },
{
    let info = info_label();
    hkdf_sha256_raw(secret_key, salt, info.as_slice(), output_length)
}

/// Determinism of the derivation: one triple of secret key, salt and output
/// length denotes one output, so two invocations of `derive` that both
/// succeed return the same bytes.
pub proof fn lemma_derive_deterministic(
    secret: Seq<u8>,
    salt: Seq<u8>,
    len: nat,
    r1: Seq<u8>,
    r2: Seq<u8>,
)
    requires
        r1 == prng_bytes(secret, salt, len),
        r2 == prng_bytes(secret, salt, len),
    ensures
        r1 == r2,
{
}

/// Pseudorandom generator drawing fixed-width big integers of `LENGTH` bytes
/// from a secret key, one per salt.
pub struct CustomPRNG<const LENGTH: usize> {
    secret_key: Vec<u8>,
}

impl<const LENGTH: usize> CustomPRNG<LENGTH> {
    /// The key material the generator was built over.
    pub closed spec fn key(&self) -> Seq<u8> {
        self.secret_key@
    }

    /// Remembers the key material to derive integers from.
    pub fn new(secret_key: &[u8]) -> (r: Self)
        ensures
            r.key() == secret_key@,
    {
        let mut own: Vec<u8> = Vec::new();
        let mut i: usize = 0;
        while i < secret_key.len()
            invariant
                i <= secret_key@.len(),
                own@ =~= secret_key@.take(i as int),
            decreases secret_key@.len() - i,
        {
            own.push(secret_key[i]);
            i = i + 1;
        }
        proof {
            assert(own@ =~= secret_key@);
        }
        CustomPRNG { secret_key: own }
    }

    /// Draws the pseudorandom big integer determined by this generator's key
    /// and the given salt: the big-endian value of exactly `LENGTH` derived
    /// bytes, so below 256^LENGTH.
    pub fn from_salt(&self, salt: &[u8]) -> (r: Result<BigInteger, HKDFExpandError>)
        requires
            LENGTH <= 256,
        ensures
            match r {
                Ok(b) => b.as_nat() == be_val(prng_bytes(self.key(), salt@, LENGTH as nat))
                    && b.as_nat() < p256(LENGTH as nat),
                Err(_) => false,
            },
    {
        match derive(self.secret_key.as_slice(), salt, LENGTH) {
            Ok(v) => {
                proof {
                    lemma_be_val_bound(v@);
                }
                Ok(BigInteger::from_be_bytes(v.as_slice()))
            },
            Err(e) => Err(e),
        }
    }
}

} // verus!
