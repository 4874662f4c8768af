//! RSA group of unknown order, 2048-bit, and its deterministic generator.
//!
//! The generator draws pseudorandom candidates from the seed-to-integer
//! derivation, keeps the first two that pass the probable-prime test (and
//! are distinct), and forms the public modulus N = p*q together with the
//! secret totient (p-1)*(q-1), the trapdoor of the delay function.

use vstd::prelude::*;
use vstd::arithmetic::power::*;
use vstd::arithmetic::power2::*;
use vstd::arithmetic::div_mod::*;
use vstd::arithmetic::mul::*;
use crate::bigint::{
    be_val, checked_mul, lemma_be_val_bound, lemma_p256_pos, lemma_p256_small, lemma_p256_unfold,
    lemma_pow2_bytes, lemma_pow_mul_mod, mul_exact, mul_mod, p256, pow2_mod, pow_mod,
    pow_mod_spec, pow_pow2_mod, rem_raw, ring_size, shr1_raw, sub_one, BigInteger,
};
use crate::groups::prng_bytes;
use crate::{VDF, VDFOutProof, VDFPublicParam, VDFSecretParam, VDFSetupSecret};

verus! {

/// Big-endian encoding of a machine word on 8 bytes.
pub open spec fn u64_bytes_spec(x: u64) -> Seq<u8> {
    Seq::new(8, |i: int| ((x as nat / p256((7 - i) as nat)) % 256) as u8)
}

/// Appends the 8-byte big-endian encoding of `x` to `v`.
fn push_u64_bytes(v: &mut Vec<u8>, x: u64)
    ensures
        final(v)@ == old(v)@ + u64_bytes_spec(x),
{
    proof {
        lemma_p256_small();
    }
    let ghost base = v@;
    let mut d: u64 = 72057594037927936;
    let mut k: usize = 0;
    while k < 8
        invariant
            k <= 8,
            v@.len() == base.len() + k,
            v@.take(base.len() as int) =~= base,
            k < 8 ==> d == p256((7 - k) as nat),
            forall|t: int| 0 <= t < k ==> v@[base.len() + t] == u64_bytes_spec(x)[t],
        decreases 8 - k,
    {
        proof {
            lemma_p256_pos((7 - k) as nat);
        }
        v.push(((x / d) % 256) as u8);
        if k < 7 {
            proof {
                lemma_p256_unfold((7 - k) as nat);
                lemma_div_by_multiple(p256((6 - k) as nat) as int, 256);
                assert(d as int == p256((6 - k) as nat) * 256);
            }
            d = d / 256;
        }
        k = k + 1;
    }
    proof {
        assert(v@ =~= base + u64_bytes_spec(x));
    }
}

/// The fixed bases against which a candidate's primality is tried.
pub open spec fn mr_bases() -> Seq<u64> {
    seq![2u64, 3u64, 5u64, 7u64, 11u64, 13u64, 17u64, 19u64, 23u64, 29u64, 31u64, 37u64]
}

/// The odd factor left after dividing out every factor of two.
pub open spec fn odd_part(m: nat) -> nat
    decreases m,
{
    if m >= 2 && m % 2 == 0 {
        odd_part(m / 2)
    } else {
        m
    }
}

/// How many factors of two `m` holds.
pub open spec fn two_adic_valuation(m: nat) -> nat
    decreases m,
{
    if m >= 2 && m % 2 == 0 {
        two_adic_valuation(m / 2) + 1
    } else {
        0
    }
}

/// One Miller-Rabin round for base `a`, with n - 1 == d * 2^s and d odd:
/// the base collapses modulo n, or a^d is 1, or some square a^(d*2^j) with
/// j below s is n - 1.
pub open spec fn mr_base_passes(n: nat, a: nat) -> bool {
    let d = odd_part((n - 1) as nat);
    let s = two_adic_valuation((n - 1) as nat);
    ||| a % n == 0
    ||| pow_mod_spec(a % n, d, n) == 1
    ||| exists|j: nat| j < s && pow_mod_spec(a % n, d * pow2(j), n) == (n - 1) as nat
}

/// What the probable-prime test accepts: an odd value other than 1 that
/// passes the Miller-Rabin round for every fixed base.
pub open spec fn is_probable_prime_spec(n: nat) -> bool {
    n % 2 == 1 && n != 1 && (forall|i: int|
        0 <= i < mr_bases().len() ==> mr_base_passes(n, #[trigger] mr_bases()[i] as nat))
}

/// Anything the probable-prime test accepts is at least 3.
pub proof fn lemma_probable_prime_at_least_3(n: nat)
    requires
        is_probable_prime_spec(n),
    ensures
        n >= 3,
        n % 2 == 1,
{
}

/// Doubling the power-of-two factor of an exponent: two equal halves of
/// d * 2^j make d * 2^(j+1).
proof fn lemma_double_exponent(d: nat, j: nat)
    ensures
        d * pow2(j) + d * pow2(j) == d * pow2(j + 1),
{
    lemma_pow2_unfold(j + 1);
    assert(2 * (d * pow2(j)) == d * (2 * pow2(j))) by {
        lemma_mul_is_associative(2, d as int, pow2(j) as int);
        lemma_mul_is_commutative(2, d as int);
        lemma_mul_is_associative(d as int, 2, pow2(j) as int);
    }
}

/// Miller-Rabin probable-prime test with fixed bases.  `true` exactly when
/// the candidate is odd, differs from 1, and passes the Miller-Rabin round
/// for each base.
#[verifier::rlimit(30)]
pub fn is_probable_prime(n: &BigInteger) -> (r: bool)
    ensures
        r == is_probable_prime_spec(n.as_nat()),
{
    let ghost nn = n.as_nat();
    if !n.is_odd() {
        return false;
    }
    let one = BigInteger::from_u64(1);
    if n.equals(&one) {
        return false;
    }
    proof {
        lemma_mod_bound(nn as int, 2);
    }
    n.width_bound();
    proof {
        assert(nn < p256(256));
        assert(pow2(2048) == p256(256)) by {
            lemma_pow2_bytes(256);
        }
    }
    let zero = BigInteger::from_u64(0);
    let nm1 = sub_one(n);
    let ghost m = (nn - 1) as nat;
    // Split n - 1 into its odd part and its power of two.
    let mut dpart = nm1.duplicate();
    let mut s: u64 = 0;
    proof {
        assert(pow2(0) == 1) by {
            lemma2_to64();
        }
        assert(m == dpart.as_nat() * pow2(0)) by {
            lemma_mul_basics(m as int);
        }
    }
    while !dpart.is_odd()
        invariant
            nn >= 3,
            nn < pow2(2048),
            m == nn - 1,
            dpart.as_nat() >= 1,
            m == dpart.as_nat() * pow2(s as nat),
            odd_part(m) == odd_part(dpart.as_nat()),
            two_adic_valuation(m) == two_adic_valuation(dpart.as_nat()) + s,
        decreases dpart.as_nat(),
    {
        proof {
            let d = dpart.as_nat() as int;
            lemma_fundamental_div_mod(d, 2);
            assert(d == 2 * (d / 2));
            assert(s < 2048) by {
                if s >= 2048 {
                    lemma_pow2_pos(s as nat);
                    assert(pow2(2048) <= pow2(s as nat)) by {
                        if s > 2048 {
                            lemma_pow2_strictly_increases(2048, s as nat);
                        }
                    }
                    assert(1 * pow2(s as nat) <= dpart.as_nat() * pow2(s as nat)) by {
                        lemma_mul_inequality(1, dpart.as_nat() as int, pow2(s as nat) as int);
                    }
                    lemma_mul_basics(pow2(s as nat) as int);
                    assert(false);
                }
            }
            assert(dpart.as_nat() * pow2(s as nat) == (d / 2) as nat * pow2((s + 1) as nat)) by {
                lemma_pow2_unfold((s + 1) as nat);
                lemma_mul_is_associative(2, d / 2, pow2(s as nat) as int);
                lemma_mul_is_commutative(2, d / 2);
                lemma_mul_is_associative(d / 2, 2, pow2(s as nat) as int);
            }
        }
        let half = shr1_raw(&dpart);
        dpart = half;
        s = s + 1;
    }
    let ghost dv = dpart.as_nat();
    proof {
        assert(odd_part(dv) == dv);
        assert(two_adic_valuation(dv) == 0);
        assert(odd_part(m) == dv);
        assert(two_adic_valuation(m) == s);
    }
    let bases: Vec<u64> = vec![2, 3, 5, 7, 11, 13, 17, 19, 23, 29, 31, 37];
    proof {
        assert(bases@ =~= mr_bases());
    }
    let mut i: usize = 0;
    let mut ok: bool = true;
    while i < bases.len()
        invariant
            i <= bases@.len(),
            bases@ == mr_bases(),
            nn == n.as_nat(),
            nn % 2 == 1,
            nn != 1,
            nn >= 3,
            one.as_nat() == 1,
            zero.as_nat() == 0,
            nm1.as_nat() == nn - 1,
            dv == dpart.as_nat(),
            dv == odd_part((nn - 1) as nat),
            s as nat == two_adic_valuation((nn - 1) as nat),
            ok == (forall|t: int|
                0 <= t < i ==> mr_base_passes(nn, #[trigger] mr_bases()[t] as nat)),
        decreases bases@.len() - i,
    {
        let a = BigInteger::from_u64(bases[i]);
        let ared = rem_raw(&a, n);
        proof {
            lemma_mod_bound(a.as_nat() as int, nn as int);
        }
        let ghost b = ared.as_nat();
        let mut pass: bool = false;
        if ared.equals(&zero) {
            pass = true;
        } else {
            let x0 = pow_mod(&ared, &dpart, n);
            if x0.equals(&one) {
                pass = true;
            } else if x0.equals(&nm1) {
                pass = true;
                proof {
                    assert(pow2(0) == 1) by {
                        lemma2_to64();
                    }
                    assert(dv * pow2(0) == dv) by {
                        lemma_mul_basics(dv as int);
                    }
                    assert(pow_mod_spec(b, dv * pow2(0), nn) == nn - 1);
                }
            } else {
                proof {
                    assert(pow2(0) == 1) by {
                        lemma2_to64();
                    }
                    assert(dv * pow2(0) == dv) by {
                        lemma_mul_basics(dv as int);
                    }
                }
                let mut x = x0;
                let mut j: u64 = 1;
                while j < s && !pass
                    invariant
                        1 <= j,
                        j <= s || s == 0,
                        nn >= 3,
                        nn == n.as_nat(),
                        b < nn,
                        b == ared.as_nat(),
                        ared.as_nat() == a.as_nat() % nn,
                        nm1.as_nat() == nn - 1,
                        x.as_nat() < nn,
                        !pass ==> x.as_nat() == pow_mod_spec(b, dv * pow2((j - 1) as nat), nn),
                        !pass ==> pow_mod_spec(b, dv, nn) != 1,
                        !pass ==> (forall|t: nat|
                            t < j ==> pow_mod_spec(b, dv * #[trigger] pow2(t), nn) != nn - 1),
                        pass ==> (exists|t: nat|
                            t < s && pow_mod_spec(b, dv * #[trigger] pow2(t), nn) == nn - 1),
                    decreases s - j,
                {
                    let x2 = mul_mod(&x, &x, n);
                    proof {
                        lemma_pow_mul_mod(b, dv * pow2((j - 1) as nat), dv * pow2((j - 1) as nat), nn);
                        lemma_double_exponent(dv, (j - 1) as nat);
                        assert(x2.as_nat() == pow_mod_spec(b, dv * pow2(j as nat), nn));
                    }
                    x = x2;
                    if x.equals(&nm1) {
                        pass = true;
                        proof {
                            assert(pow_mod_spec(b, dv * pow2(j as nat), nn) == nn - 1);
                        }
                    }
                    j = j + 1;
                }
                proof {
                    if !pass {
                        assert(j >= s);
                        assert(forall|t: nat|
                            t < s ==> pow_mod_spec(b, dv * #[trigger] pow2(t), nn) != nn - 1);
                    }
                }
            }
            proof {
                if !pass {
                    if s >= 1 {
                        assert(pow2(0) == 1) by {
                            lemma2_to64();
                        }
                        assert(dv * pow2(0) == dv) by {
                            lemma_mul_basics(dv as int);
                        }
                    }
                }
            }
        }
        proof {
            assert(pass == mr_base_passes(nn, bases@[i as int] as nat));
        }
        if !pass {
            ok = false;
        }
        i = i + 1;
    }
    ok
}

/// Taxonomy of the failures that setup can surface.
#[derive(Debug, PartialEq, Eq, Structural)]
pub enum VDFError {
    /// The seed-to-integer derivation was asked for more than it can give.
    Expansion,
    /// The bounded primality search ran out of attempts.
    GroupGenerationFailed,
}

/// How many candidates each prime slot may try before giving up.
pub const MAX_PRIME_ATTEMPTS: u64 = 4096;

/// Tag byte appended to the salt for the first prime slot: ASCII `p`.
pub const TAG_P: u8 = 112;

/// Tag byte appended to the salt for the second prime slot: ASCII `q`.
pub const TAG_Q: u8 = 113;

/// The salt under which one candidate is drawn: the setup salt, the slot
/// tag, and the counter.
pub open spec fn candidate_salt(salt: Seq<u8>, tag: u8, counter: u64) -> Seq<u8> {
    salt.push(tag) + u64_bytes_spec(counter)
}

/// The candidate value drawn for a slot at a counter.
pub open spec fn candidate(secret: Seq<u8>, salt: Seq<u8>, tag: u8, len: nat, counter: u64) -> nat {
    be_val(prng_bytes(secret, candidate_salt(salt, tag, counter), len))
}

/// Whether the first slot accepts the candidate at `counter`.
pub open spec fn accepts_p(secret: Seq<u8>, salt: Seq<u8>, len: nat, counter: u64) -> bool {
    is_probable_prime_spec(candidate(secret, salt, TAG_P, len, counter))
}

/// Whether the second slot accepts the candidate at `counter`: it must pass
/// the primality test and differ from the first prime.
pub open spec fn accepts_q(
    secret: Seq<u8>,
    salt: Seq<u8>,
    len: nat,
    pv: nat,
    counter: u64,
) -> bool {
    is_probable_prime_spec(candidate(secret, salt, TAG_Q, len, counter)) && candidate(
        secret,
        salt,
        TAG_Q,
        len,
        counter,
    ) != pv
}

/// The secret material that deterministically reproduces a group: a secret
/// seed and a public salt.
pub struct RSASetupSecret {
    secret_seed: Vec<u8>,
    salt: Vec<u8>,
}

impl VDFSetupSecret for RSASetupSecret {

}

impl RSASetupSecret {
    /// The seed this setup secret holds.
    pub closed spec fn seed(&self) -> Seq<u8> {
        self.secret_seed@
    }

    /// The salt this setup secret holds.
    pub closed spec fn salt_bytes(&self) -> Seq<u8> {
        self.salt@
    }

    /// Bundles a secret seed and a salt.
    pub fn new(secret_seed: Vec<u8>, salt: Vec<u8>) -> (r: RSASetupSecret)
        ensures
            r.seed() == secret_seed@,
            r.salt_bytes() == salt@,
    {
        RSASetupSecret { secret_seed, salt }
    }
}

/// The secret pair of primes; its serialization is the derived totient.
pub struct RSASecretParam {
    /// First big prime.
    p: BigInteger,
    /// Second big prime.
    q: BigInteger,
}

impl RSASecretParam {
    #[verifier::type_invariant]
    spec fn inv(self) -> bool {
        2 <= self.p.as_nat() && 2 <= self.q.as_nat() && self.p.as_nat() * self.q.as_nat()
            < ring_size()
    }

    /// The first prime.
    pub closed spec fn prime_p(&self) -> nat {
        self.p.as_nat()
    }

    /// The second prime.
    pub closed spec fn prime_q(&self) -> nat {
        self.q.as_nat()
    }

    /// The totient (p-1)*(q-1), the order of the group and the trapdoor.
    pub open spec fn totient(&self) -> nat {
        ((self.prime_p() - 1) * (self.prime_q() - 1)) as nat
    }

    /// Bundles two primes, refusing values below 2 and products that do not
    /// fit the fixed width.
    pub fn new(p: BigInteger, q: BigInteger) -> (r: Option<RSASecretParam>)
        ensures
            match r {
                Some(s) => s.prime_p() == p.as_nat() && s.prime_q() == q.as_nat() && 2 <= p.as_nat()
                    && 2 <= q.as_nat() && p.as_nat() * q.as_nat() < ring_size(),
                None => p.as_nat() < 2 || q.as_nat() < 2 || p.as_nat() * q.as_nat() >= ring_size(),
            },
    {
        let zero = BigInteger::from_u64(0);
        let one = BigInteger::from_u64(1);
        if p.equals(&zero) || p.equals(&one) || q.equals(&zero) || q.equals(&one) {
            return None;
        }
        match checked_mul(&p, &q) {
            Some(_) => Some(RSASecretParam { p, q }),
            None => None,
        }
    }

    /// An owned copy of the pair.
    pub fn duplicate(&self) -> (r: RSASecretParam)
        ensures
            r.prime_p() == self.prime_p(),
            r.prime_q() == self.prime_q(),
    {
        proof {
            use_type_invariant(self);
        }
        RSASecretParam { p: self.p.duplicate(), q: self.q.duplicate() }
    }
}

impl VDFSecretParam for RSASecretParam {
    /// Serializes the derived secret key: the totient (p-1)*(q-1) on 256
    /// big-endian bytes.
    fn to_vec(&self) -> (r: Vec<u8>)
        ensures
            r@.len() == 256,
            be_val(r@) == self.totient(),
    {
        proof {
            use_type_invariant(self);
        }
        let pm1 = sub_one(&self.p);
        let qm1 = sub_one(&self.q);
        proof {
            assert(pm1.as_nat() * qm1.as_nat() <= self.p.as_nat() * self.q.as_nat()) by {
                lemma_mul_inequality(pm1.as_nat() as int, self.p.as_nat() as int, qm1.as_nat() as int);
                lemma_mul_left_inequality(self.p.as_nat() as int, qm1.as_nat() as int, self.q.as_nat() as int);
            }
        }
        let t = mul_exact(&pm1, &qm1);
        t.to_bytes()
    }
}

/// The public modulus N = p*q; freely shared.
pub struct RSAPublicParam {
    /// RSA modulus.
    n: BigInteger,
}

impl RSAPublicParam {
    #[verifier::type_invariant]
    spec fn inv(self) -> bool {
        2 <= self.n.as_nat()
    }

    /// The modulus.
    pub closed spec fn modulus(&self) -> nat {
        self.n.as_nat()
    }

    /// Wraps a modulus, refusing the degenerate values 0 and 1.
    pub fn new(n: BigInteger) -> (r: Option<RSAPublicParam>)
        ensures
            match r {
                Some(pb) => pb.modulus() == n.as_nat() && n.as_nat() >= 2,
                None => n.as_nat() < 2,
            },
    {
        let zero = BigInteger::from_u64(0);
        let one = BigInteger::from_u64(1);
        if n.equals(&zero) || n.equals(&one) {
            return None;
        }
        Some(RSAPublicParam { n })
    }

    /// An owned copy of the modulus parameter.
    pub fn duplicate(&self) -> (r: RSAPublicParam)
        ensures
            r.modulus() == self.modulus(),
    {
        proof {
            use_type_invariant(self);
        }
        RSAPublicParam { n: self.n.duplicate() }
    }
}

impl VDFPublicParam for RSAPublicParam {
    /// Serializes the modulus on 256 big-endian bytes.
    fn to_vec(&self) -> (r: Vec<u8>)
        ensures
            r@.len() == 256,
            be_val(r@) == self.modulus(),
    {
        self.n.to_bytes()
    }
}

/// Copies a byte vector.
fn clone_bytes(v: &Vec<u8>) -> (r: Vec<u8>)
    ensures
        r@ == v@,
{
    let mut r: Vec<u8> = Vec::new();
    let mut i: usize = 0;
    while i < v.len()
        invariant
            i <= v@.len(),
            r@ =~= v@.take(i as int),
        decreases v@.len() - i,
    {
        r.push(v[i]);
        i = i + 1;
    }
    proof {
        assert(r@ =~= v@);
    }
    r
}

/// Draws pseudorandom candidates for the two prime slots until the
/// probable-prime test accepts one for each (the second also has to differ
/// from the first), and forms the modulus N = p*q and the totient.  Fails
/// after `MAX_PRIME_ATTEMPTS` rejected candidates in either slot.
pub fn generate(secret: &RSASetupSecret, prime_bytes: usize) -> (r: Result<
    (RSASecretParam, RSAPublicParam),
    VDFError,
>)
    requires
        1 <= prime_bytes <= 128,
    ensures
        match r {
            Ok(pair) => {
                &&& pair.1.modulus() == pair.0.prime_p() * pair.0.prime_q()
                &&& pair.0.prime_p() != pair.0.prime_q()
                &&& is_probable_prime_spec(pair.0.prime_p())
                &&& is_probable_prime_spec(pair.0.prime_q())
                &&& pair.0.prime_p() < p256(prime_bytes as nat)
                &&& pair.0.prime_q() < p256(prime_bytes as nat)
                &&& exists|i: u64|
                    #![auto]
                    i < MAX_PRIME_ATTEMPTS && pair.0.prime_p() == candidate(
                        secret.seed(),
                        secret.salt_bytes(),
                        TAG_P,
                        prime_bytes as nat,
                        i,
                    ) && (forall|t: u64|
                        t < i ==> !accepts_p(secret.seed(), secret.salt_bytes(), prime_bytes as nat, t))
                &&& exists|j: u64|
                    #![auto]
                    j < MAX_PRIME_ATTEMPTS && pair.0.prime_q() == candidate(
                        secret.seed(),
                        secret.salt_bytes(),
                        TAG_Q,
                        prime_bytes as nat,
                        j,
                    ) && (forall|t: u64|
                        t < j ==> !accepts_q(
                            secret.seed(),
                            secret.salt_bytes(),
                            prime_bytes as nat,
                            pair.0.prime_p(),
                            t,
                        ))
            },
            Err(e) => e == VDFError::GroupGenerationFailed && ((forall|i: u64|
                i < MAX_PRIME_ATTEMPTS ==> !accepts_p(
                    secret.seed(),
                    secret.salt_bytes(),
                    prime_bytes as nat,
                    i,
                )) || (exists|i: u64|
                #![auto]
                i < MAX_PRIME_ATTEMPTS && accepts_p(
                    secret.seed(),
                    secret.salt_bytes(),
                    prime_bytes as nat,
                    i,
                ) && (forall|t: u64|
                    t < i ==> !accepts_p(secret.seed(), secret.salt_bytes(), prime_bytes as nat, t))
                    && (forall|j: u64|
                    j < MAX_PRIME_ATTEMPTS ==> !accepts_q(
                        secret.seed(),
                        secret.salt_bytes(),
                        prime_bytes as nat,
                        candidate(secret.seed(), secret.salt_bytes(), TAG_P, prime_bytes as nat, i),
                        j,
                    )))),
        },
{
    let ghost sd = secret.seed();
    let ghost st = secret.salt_bytes();
    let ghost len = prime_bytes as nat;
    let mut i: u64 = 0;
    let mut p_opt: Option<BigInteger> = None;
    let ghost mut pi_idx: u64 = 0;
    while i < MAX_PRIME_ATTEMPTS && p_opt.is_none()
        invariant
            i <= MAX_PRIME_ATTEMPTS,
            1 <= prime_bytes <= 128,
            sd == secret.seed(),
            st == secret.salt_bytes(),
            len == prime_bytes as nat,
            match p_opt {
                None => forall|t: u64| t < i ==> !accepts_p(sd, st, len, t),
                Some(pb) => pi_idx < i && pb.as_nat() == candidate(sd, st, TAG_P, len, pi_idx)
                    && is_probable_prime_spec(pb.as_nat()) && pb.as_nat() < p256(len) && (forall|
                    t: u64,
                |
                    t < pi_idx ==> !accepts_p(sd, st, len, t)),
            },
        decreases MAX_PRIME_ATTEMPTS - i,
    {
        let mut psalt = clone_bytes(&secret.salt);
        psalt.push(TAG_P);
        push_u64_bytes(&mut psalt, i);
        proof {
            assert(psalt@ == candidate_salt(st, TAG_P, i));
        }
        let bytes = match crate::groups::derive(secret.secret_seed.as_slice(), psalt.as_slice(), prime_bytes) {
            Ok(b) => b,
            Err(_) => {
                proof {
                    assert(false);
                }
                return Err(VDFError::Expansion);
            },
        };
        let cand = BigInteger::from_be_bytes(bytes.as_slice());
        proof {
            lemma_be_val_bound(bytes@);
            assert(cand.as_nat() == candidate(sd, st, TAG_P, len, i));
        }
        if is_probable_prime(&cand) {
            proof {
                pi_idx = i;
            }
            p_opt = Some(cand);
        }
        i = i + 1;
    }
    let p = match p_opt {
        Some(p) => p,
        None => {
            return Err(VDFError::GroupGenerationFailed);
        },
    };
    let ghost pv = p.as_nat();
    let mut j: u64 = 0;
    let mut q_opt: Option<BigInteger> = None;
    let ghost mut qi_idx: u64 = 0;
    while j < MAX_PRIME_ATTEMPTS && q_opt.is_none()
        invariant
            j <= MAX_PRIME_ATTEMPTS,
            1 <= prime_bytes <= 128,
            sd == secret.seed(),
            st == secret.salt_bytes(),
            len == prime_bytes as nat,
            pv == p.as_nat(),
            pi_idx < MAX_PRIME_ATTEMPTS,
            pv == candidate(sd, st, TAG_P, len, pi_idx),
            is_probable_prime_spec(pv),
            pv < p256(len),
            forall|t: u64| t < pi_idx ==> !accepts_p(sd, st, len, t),
            match q_opt {
                None => forall|t: u64| t < j ==> !accepts_q(sd, st, len, pv, t),
                Some(qb) => qi_idx < j && qb.as_nat() == candidate(sd, st, TAG_Q, len, qi_idx)
                    && is_probable_prime_spec(qb.as_nat()) && qb.as_nat() != pv && qb.as_nat()
                    < p256(len) && (forall|t: u64| t < qi_idx ==> !accepts_q(sd, st, len, pv, t)),
            },
        decreases MAX_PRIME_ATTEMPTS - j,
    {
        let mut qsalt = clone_bytes(&secret.salt);
        qsalt.push(TAG_Q);
        push_u64_bytes(&mut qsalt, j);
        proof {
            assert(qsalt@ == candidate_salt(st, TAG_Q, j));
        }
        let bytes = match crate::groups::derive(secret.secret_seed.as_slice(), qsalt.as_slice(), prime_bytes) {
            Ok(b) => b,
            Err(_) => {
                proof {
                    assert(false);
                }
                return Err(VDFError::Expansion);
            },
        };
        let cand = BigInteger::from_be_bytes(bytes.as_slice());
        proof {
            lemma_be_val_bound(bytes@);
            assert(cand.as_nat() == candidate(sd, st, TAG_Q, len, j));
        }
        if is_probable_prime(&cand) && !cand.equals(&p) {
            proof {
                qi_idx = j;
            }
            q_opt = Some(cand);
        }
        j = j + 1;
    }
    let q = match q_opt {
        Some(q) => q,
        None => {
            proof {
                assert(accepts_p(sd, st, len, pi_idx));
                assert(pi_idx < MAX_PRIME_ATTEMPTS && accepts_p(sd, st, len, pi_idx) && (forall|
                    t: u64,
                |
                    t < pi_idx ==> !accepts_p(sd, st, len, t)) && (forall|jj: u64|
                    jj < MAX_PRIME_ATTEMPTS ==> !accepts_q(
                        sd,
                        st,
                        len,
                        candidate(sd, st, TAG_P, len, pi_idx),
                        jj,
                    )));
            }
            return Err(VDFError::GroupGenerationFailed);
        },
    };
    proof {
        lemma_probable_prime_at_least_3(p.as_nat());
        lemma_probable_prime_at_least_3(q.as_nat());
        lemma_p256_pos(len);
        lemma_p256_pos(128);
        lemma_p256_pos(256);
        lemma_pow_positive(256, len as nat);
        lemma_pow_positive(256, 128);
        lemma_pow_positive(256, 256);
        lemma_pow_increases(256, len, 128);
        assert(p256(len) <= p256(128));
        let pp = p256(128) as int;
        let pa = p.as_nat() as int;
        let qa = q.as_nat() as int;
        assert(pa < pp && qa < pp);
        lemma_mul_strict_upper_bound(pa, pp, qa, pp);
        lemma_mul_strict_inequality(pp - 1, pp, pp - 1);
        lemma_mul_left_inequality(pp, pp - 1, pp);
        assert(pa * qa < pp * pp);
        assert(pp * pp == ring_size() as int) by {
            lemma_pow_adds(256, 128, 128);
            lemma_pow_positive(256, 128);
            lemma_pow_positive(256, 256);
        }
        assert(3 * qa <= pa * qa) by {
            lemma_mul_inequality(3, pa, qa);
        }
    }
    let n = mul_exact(&p, &q);
    let sparam = RSASecretParam { p, q };
    let pparam = RSAPublicParam { n };
    Ok((sparam, pparam))
}


/// A value with no divisor besides 1 and itself.
pub open spec fn is_prime_spec(n: nat) -> bool {
    n >= 2 && (forall|d: nat| 2 <= d < n ==> #[trigger] (n % d) != 0)
}

/// An odd number has no even divisor.
proof fn lemma_odd_no_even_divisor(m: nat, e: nat)
    requires
        m % 2 == 1,
        e % 2 == 0,
        e >= 2,
    ensures
        m % e != 0,
{
    if m % e == 0 {
        lemma_fundamental_div_mod(m as int, e as int);
        let k = m as int / e as int;
        let f = e as int / 2;
        lemma_fundamental_div_mod(e as int, 2);
        assert(m as int == (2 * f) * k);
        assert((2 * f) * k == (f * k) * 2) by {
            lemma_mul_is_associative(2, f, k);
            lemma_mul_is_commutative(2, f * k);
        }
        assert(m as int % 2 == 0) by {
            lemma_mod_multiples_basic(f * k, 2);
        }
        assert(false);
    }
}

/// Primality of a machine word, decided by trial division up to the square
/// root.
pub fn is_prime_u64(m: u64) -> (r: bool)
    ensures
        r == is_prime_spec(m as nat),
{
    if m < 2 {
        return false;
    }
    if m == 2 {
        return true;
    }
    if m % 2 == 0 {
        proof {
            assert(m as nat % 2 == 0);
        }
        return false;
    }
    let mut d: u64 = 3;
    while d <= m / d
        invariant
            3 <= d,
            d % 2 == 1,
            m % 2 == 1,
            m >= 3,
            d <= m + 2,
            forall|e: nat| 2 <= e < d ==> #[trigger] (m as nat % e) != 0,
        decreases m + 2 - d,
    {
        proof {
            lemma_fundamental_div_mod(m as int, d as int);
            assert((d as int) * (d as int) <= (d as int) * ((m / d) as int)) by {
                lemma_mul_left_inequality(d as int, d as int, (m / d) as int);
            }
            assert((d as int) * (d as int) <= m as int);
            assert(3 * (d as int) <= (d as int) * (d as int)) by {
                lemma_mul_inequality(3, d as int, d as int);
            }
        }
        if m % d == 0 {
            proof {
                assert(d < m);
                assert(m as nat % (d as nat) == 0);
            }
            return false;
        }
        proof {
            lemma_odd_no_even_divisor(m as nat, (d + 1) as nat);
        }
        d = d + 2;
    }
    proof {
        assert((d as int) * (d as int) > m as int) by {
            lemma_fundamental_div_mod(m as int, d as int);
            assert((d as int) * (((m / d) as int) + 1) <= (d as int) * (d as int)) by {
                lemma_mul_left_inequality(d as int, ((m / d) as int) + 1, d as int);
            }
            assert((d as int) * (((m / d) as int) + 1) == (d as int) * ((m / d) as int)
                + d as int) by {
                lemma_mul_is_distributive_add(d as int, (m / d) as int, 1);
                lemma_mul_basics(d as int);
            }
        }
        assert forall|e: nat| 2 <= e < m as nat implies #[trigger] (m as nat % e) != 0 by {
            if e >= d {
                if m as nat % e == 0 {
                    lemma_fundamental_div_mod(m as int, e as int);
                    let k = m as int / e as int;
                    assert(m as int == e as int * k + 0);
                    assert(k >= 1) by {
                        if k <= 0 {
                            assert(e as int * k <= e as int * 0) by {
                                lemma_mul_left_inequality(e as int, k, 0);
                            }
                            assert(e as int * 0 == 0) by {
                                lemma_mul_basics(e as int);
                            }
                        }
                    }
                    assert(k >= 2) by {
                        if k == 1 {
                            assert(e as int * 1 == e as int) by {
                                lemma_mul_basics(e as int);
                            }
                        }
                    }
                    assert(k < d) by {
                        if k >= d {
                            assert((d as int) * k <= (e as int) * k) by {
                                lemma_mul_inequality(d as int, e as int, k);
                            }
                            assert((d as int) * (d as int) <= (d as int) * k) by {
                                lemma_mul_left_inequality(d as int, d as int, k);
                            }
                        }
                    }
                    assert(m as nat % (k as nat) == 0) by {
                        lemma_mod_multiples_basic(e as int, k);
                        lemma_mul_is_commutative(e as int, k);
                    }
                    assert(false);
                }
            }
        }
    }
    true
}

/// Digest of a byte string under SHA-256, as a function of the input alone.
pub uninterp spec fn sha256_of(data: Seq<u8>) -> Seq<u8>;

/// Relies on `ring::digest::digest` with SHA256: the digest depends on the
/// input bytes alone and is 32 bytes long.
#[verifier::external_body]
fn sha256_raw(data: &[u8]) -> (r: Vec<u8>)
    ensures
        r@ == sha256_of(data@),
        r@.len() == 32,
{
    ring::digest::digest(&ring::digest::SHA256, data).as_ref().to_vec()
}

/// The transcript that the challenge is derived from.
pub open spec fn transcript(x: Seq<u8>, y: Seq<u8>, delta: u64) -> Seq<u8> {
    x + y + u64_bytes_spec(delta)
}

/// The odd starting point of the challenge search, read off the transcript's
/// digest.
pub open spec fn challenge_seed(x: Seq<u8>, y: Seq<u8>, delta: u64) -> nat {
    let h = sha256_of(transcript(x, y, delta));
    let c0 = (h[0] as nat) * 0x100000000 + (h[1] as nat) * 0x1000000 + (h[2] as nat) * 0x10000
        + (h[3] as nat) * 0x100 + (h[4] as nat);
    let c1 = if c0 % 2 == 0 { (c0 + 1) as nat } else { c0 };
    if c1 < 3 {
        3
    } else {
        c1
    }
}

/// The first prime in the odd progression starting at `c`, with bounded
/// fuel; the fallback once the fuel runs out is the prime 3.
pub open spec fn first_prime_from(c: nat, fuel: nat) -> nat
    decreases fuel,
{
    if fuel == 0 {
        3
    } else if is_prime_spec(c) {
        c
    } else {
        first_prime_from(c + 2, (fuel - 1) as nat)
    }
}

/// How many odd candidates the challenge search may try; far beyond every
/// prime gap in the 33-bit range the seed lies in.
pub const CHALLENGE_SEARCH_BOUND: u64 = 65536;

/// The Fiat-Shamir challenge: a deterministic, public hash-to-prime of
/// (x, y, delta).
pub open spec fn challenge_spec(x: Seq<u8>, y: Seq<u8>, delta: u64) -> nat {
    first_prime_from(challenge_seed(x, y, delta), CHALLENGE_SEARCH_BOUND as nat)
}

/// 3 is prime.
proof fn lemma_3_is_prime()
    ensures
        is_prime_spec(3),
{
    assert forall|d: nat| 2 <= d < 3 implies #[trigger] (3nat % d) != 0 by {
        assert(d == 2);
        assert(3nat % 2nat == 1);
    }
}

/// Whatever the search returns is prime.
pub proof fn lemma_challenge_is_prime(c: nat, fuel: nat)
    ensures
        is_prime_spec(first_prime_from(c, fuel)),
        first_prime_from(c, fuel) >= 2,
    decreases fuel,
{
    lemma_3_is_prime();
    if fuel == 0 {
    } else if is_prime_spec(c) {
    } else {
        lemma_challenge_is_prime(c + 2, (fuel - 1) as nat);
    }
}

/// Computes the challenge prime for (x, y, delta): hash the transcript,
/// force the 32-bit seed odd and at least 3, then walk the odd numbers to
/// the first prime.  Public and deterministic, so prover and verifier
/// derive the same prime from the same transcript.
pub fn derive_challenge(x: &BigInteger, y: &BigInteger, delta: u64) -> (l: u64)
    ensures
        l as nat == challenge_spec(x@, y@, delta),
        is_prime_spec(l as nat),
        2 <= l <= 0x20000000000,
{
    let mut data = x.to_bytes();
    let ybytes = y.to_bytes();
    let ghost xpart = data@;
    let mut t: usize = 0;
    while t < ybytes.len()
        invariant
            t <= ybytes@.len(),
            data@ == xpart + ybytes@.take(t as int),
        decreases ybytes@.len() - t,
    {
        data.push(ybytes[t]);
        proof {
            assert(xpart + ybytes@.take(t + 1) =~= (xpart + ybytes@.take(t as int)).push(
                ybytes@[t as int],
            ));
        }
        t = t + 1;
    }
    proof {
        assert(ybytes@.take(ybytes@.len() as int) =~= ybytes@);
    }
    push_u64_bytes(&mut data, delta);
    proof {
        assert(data@ == transcript(x@, y@, delta));
    }
    let h = sha256_raw(data.as_slice());
    let c0: u64 = (h[0] as u64) * 0x100000000 + (h[1] as u64) * 0x1000000 + (h[2] as u64)
        * 0x10000 + (h[3] as u64) * 0x100 + (h[4] as u64);
    let c1: u64 = if c0 % 2 == 0 {
        c0 + 1
    } else {
        c0
    };
    let mut c: u64 = if c1 < 3 {
        3
    } else {
        c1
    };
    proof {
        assert(c as nat == challenge_seed(x@, y@, delta));
    }
    let ghost chal = challenge_spec(x@, y@, delta);
    let mut k: u64 = 0;
    while k < CHALLENGE_SEARCH_BOUND
        invariant
            k <= CHALLENGE_SEARCH_BOUND,
            c % 2 == 1,
            3 <= c <= 0x10000000000 + 2 * k,
            chal == challenge_spec(x@, y@, delta),
            chal == first_prime_from(c as nat, (CHALLENGE_SEARCH_BOUND - k) as nat),
        decreases CHALLENGE_SEARCH_BOUND - k,
    {
        if is_prime_u64(c) {
            proof {
                assert(first_prime_from(c as nat, (CHALLENGE_SEARCH_BOUND - k) as nat)
                    == c as nat);
            }
            return c;
        }
        c = c + 2;
        k = k + 1;
    }
    proof {
        assert(chal == first_prime_from(c as nat, 0));
        lemma_3_is_prime();
    }
    3
}

/// 2^delta modulo a small (nonzero) challenge, by repeated doubling.
fn pow2_mod_u64(delta: u64, l: u64) -> (r: u64)
    requires
        1 <= l <= 0x20000000000,
    ensures
        r as nat == pow2(delta as nat) % (l as nat),
        r < l,
{
    let mut r: u64 = 1 % l;
    proof {
        lemma2_to64();
        lemma_mod_bound(1, l as int);
    }
    let mut i: u64 = 0;
    while i < delta
        invariant
            i <= delta,
            1 <= l <= 0x20000000000,
            r < l,
            r as nat == pow2(i as nat) % (l as nat),
        decreases delta - i,
    {
        let r2 = (2 * r) % l;
        proof {
            lemma_mul_mod_noop_right(2, pow2(i as nat) as int, l as int);
            lemma_pow2_unfold((i + 1) as nat);
            lemma_mod_bound(2 * pow2(i as nat) as int, l as int);
        }
        r = r2;
        i = i + 1;
    }
    r
}

/// The output of an evaluation: y = x^(2^delta) mod N, with the Wesolowski
/// proof pi attesting to it.
pub struct RSAOutProof {
    /// The delay function output.
    pub y: BigInteger,
    /// The proof that the output is correct.
    pub pi: BigInteger,
}

impl VDFOutProof for RSAOutProof {

}

/// The verifier's algebraic check: with l the challenge derived from
/// (x, y, delta) and r = 2^delta mod l, accept exactly when
/// pi^l * x^r == y modulo N.
pub open spec fn wesolowski_check(
    n: nat,
    x: BigInteger,
    y: BigInteger,
    pi: BigInteger,
    delta: u64,
) -> bool {
    let l = challenge_spec(x@, y@, delta);
    y.as_nat() == (pow_mod_spec(pi.as_nat() % n, l, n) * pow_mod_spec(
        x.as_nat() % n,
        pow2(delta as nat) % l,
        n,
    )) % n
}

/// The two ways generation can exhaust its bounded search: no counter below
/// the bound yields an accepted first-slot candidate, or the first accepted
/// first-slot prime exists and no counter yields an accepted, distinct
/// second-slot candidate.
pub open spec fn generation_exhausted(secret: Seq<u8>, salt: Seq<u8>, len: nat) -> bool {
    (forall|i: u64| i < MAX_PRIME_ATTEMPTS ==> !accepts_p(secret, salt, len, i)) || (exists|i: u64|
        #![auto]
        i < MAX_PRIME_ATTEMPTS && accepts_p(secret, salt, len, i) && (forall|t: u64|
            t < i ==> !accepts_p(secret, salt, len, t)) && (forall|j: u64|
            j < MAX_PRIME_ATTEMPTS ==> !accepts_q(
                secret,
                salt,
                len,
                candidate(secret, salt, TAG_P, len, i),
                j,
            )))
}

/// What a successful setup promises of the instance it returns: difficulty
/// and group shape (N = p*q, p and q distinct accepted primes of the
/// configured length, phi their totient), and that p and q are exactly the
/// minimal-counter candidates of their slots.
pub open spec fn setup_instance_spec(
    inst: RSA,
    secret: RSASetupSecret,
    delta: usize,
    prime_bytes: usize,
) -> bool {
    &&& inst.difficulty() == delta
    &&& inst.modulus() == inst.prime_p() * inst.prime_q()
    &&& inst.modulus() >= 2
    &&& inst.prime_p() != inst.prime_q()
    &&& is_probable_prime_spec(inst.prime_p())
    &&& is_probable_prime_spec(inst.prime_q())
    &&& inst.prime_p() < p256(prime_bytes as nat)
    &&& inst.prime_q() < p256(prime_bytes as nat)
    &&& inst.phi() == ((inst.prime_p() - 1) * (inst.prime_q() - 1)) as nat
    &&& exists|i: u64|
        #![auto]
        i < MAX_PRIME_ATTEMPTS && inst.prime_p() == candidate(
            secret.seed(),
            secret.salt_bytes(),
            TAG_P,
            prime_bytes as nat,
            i,
        ) && (forall|t: u64|
            t < i ==> !accepts_p(secret.seed(), secret.salt_bytes(), prime_bytes as nat, t))
    &&& exists|j: u64|
        #![auto]
        j < MAX_PRIME_ATTEMPTS && inst.prime_q() == candidate(
            secret.seed(),
            secret.salt_bytes(),
            TAG_Q,
            prime_bytes as nat,
            j,
        ) && (forall|t: u64|
            t < j ==> !accepts_q(
                secret.seed(),
                secret.salt_bytes(),
                prime_bytes as nat,
                inst.prime_p(),
                t,
            ))
}

/// A VDF instance over one RSA group: the secret and the public parameters,
/// and the difficulty delta chosen at setup.
pub struct RSA {
    secret_param: RSASecretParam,
    public_param: RSAPublicParam,
    delta: usize,
}

impl RSA {
    #[verifier::type_invariant]
    spec fn inv(self) -> bool {
        self.public_param.modulus() == self.secret_param.prime_p() * self.secret_param.prime_q()
    }

    /// The public modulus N = p*q.
    pub closed spec fn modulus(&self) -> nat {
        self.public_param.modulus()
    }

    /// The secret group order (p-1)*(q-1).
    pub closed spec fn phi(&self) -> nat {
        self.secret_param.totient()
    }

    /// The first secret prime.
    pub closed spec fn prime_p(&self) -> nat {
        self.secret_param.prime_p()
    }

    /// The second secret prime.
    pub closed spec fn prime_q(&self) -> nat {
        self.secret_param.prime_q()
    }

    /// The difficulty stored at setup.
    pub closed spec fn difficulty(&self) -> nat {
        self.delta as nat
    }

    /// The difficulty as the word the challenge derivation consumes.
    pub closed spec fn delta64(&self) -> u64 {
        self.delta as u64
    }

    /// The two spec views of the stored difficulty agree.
    pub proof fn lemma_difficulty64(&self)
        ensures
            self.difficulty() == self.delta64() as nat,
    {
    }

    /// Builds an instance over a freshly generated group.
    pub fn setup(secret: RSASetupSecret, delta: usize, prime_bytes: usize) -> (r: Result<
        RSA,
        VDFError,
    >)
        requires
            1 <= prime_bytes <= 128,
        ensures
            match r {
                Ok(inst) => setup_instance_spec(inst, secret, delta, prime_bytes),
                Err(e) => e == VDFError::GroupGenerationFailed && generation_exhausted(
                    secret.seed(),
                    secret.salt_bytes(),
                    prime_bytes as nat,
                ),
            },
    {
        match generate(&secret, prime_bytes) {
            Ok((s, pb)) => {
                let inst = RSA { secret_param: s, public_param: pb, delta };
                proof {
                    lemma_probable_prime_at_least_3(inst.prime_p());
                    lemma_probable_prime_at_least_3(inst.prime_q());
                    assert(3 * inst.prime_q() <= inst.prime_p() * inst.prime_q()) by {
                        lemma_mul_inequality(3, inst.prime_p() as int, inst.prime_q() as int);
                    }
                }
                Ok(inst)
            },
            Err(e) => Err(e),
        }
    }

    /// Builds an instance directly from two known factors, for small
    /// reproducible groups.  Refuses factors below 2 and products that do
    /// not fit the fixed width.
    pub fn with_primes(p: BigInteger, q: BigInteger, delta: usize) -> (r: Option<RSA>)
        ensures
            match r {
                Some(inst) => {
                    &&& inst.difficulty() == delta
                    &&& inst.prime_p() == p.as_nat()
                    &&& inst.prime_q() == q.as_nat()
                    &&& inst.modulus() == p.as_nat() * q.as_nat()
                    &&& inst.modulus() >= 2
                    &&& inst.phi() == ((p.as_nat() - 1) * (q.as_nat() - 1)) as nat
                },
                None => p.as_nat() < 2 || q.as_nat() < 2 || p.as_nat() * q.as_nat() >= ring_size(),
            },
    {
        match RSASecretParam::new(p, q) {
            None => None,
            Some(s) => {
                proof {
                    use_type_invariant(&s);
                    assert(2 * s.prime_q() <= s.prime_p() * s.prime_q()) by {
                        lemma_mul_inequality(2, s.prime_p() as int, s.prime_q() as int);
                    }
                }
                let n = mul_exact(&s.p, &s.q);
                Some(RSA { secret_param: s, public_param: RSAPublicParam { n }, delta })
            },
        }
    }

    /// Serializes the public modulus.
    pub fn public_bytes(&self) -> (r: Vec<u8>)
        ensures
            r@.len() == 256,
            be_val(r@) == self.modulus(),
    {
        self.public_param.to_vec()
    }

    /// Serializes the secret totient.
    pub fn secret_bytes(&self) -> (r: Vec<u8>)
        ensures
            r@.len() == 256,
            be_val(r@) == self.phi(),
    {
        self.secret_param.to_vec()
    }

    /// Derives the Fiat-Shamir challenge l from (x, y, delta) and computes
    /// the proof pi = x^floor(2^delta / l) mod N incrementally, by long
    /// division over the exponent alongside the squarings.
    pub fn prove(&self, x: &BigInteger, y: &BigInteger, delta: usize) -> (pi: BigInteger)
        ensures
            pi.as_nat() == pow_mod_spec(
                x.as_nat() % self.modulus(),
                pow2(delta as nat) / challenge_spec(x@, y@, delta as u64),
                self.modulus(),
            ),
    {
        proof {
            use_type_invariant(self);
            use_type_invariant(&self.public_param);
        }
        let n = &self.public_param.n;
        let ghost nn = n.as_nat();
        let l = derive_challenge(x, y, delta as u64);
        let xr = rem_raw(x, n);
        proof {
            lemma_mod_bound(x.as_nat() as int, nn as int);
        }
        let ghost bb = xr.as_nat();
        let one = BigInteger::from_u64(1);
        let mut pi = rem_raw(&one, n);
        let mut rr: u64 = 1 % l;
        proof {
            lemma2_to64();
            lemma_pow0(bb as int);
            lemma_basic_div(1, l as int);
            lemma_mod_bound(1, nn as int);
            lemma_small_mod(1, l as nat);
            assert(pi.as_nat() == pow_mod_spec(bb, pow2(0) / (l as nat), nn));
            assert(rr as nat == pow2(0) % (l as nat));
        }
        let mut i: usize = 0;
        while i < delta
            invariant
                i <= delta,
                nn == self.modulus(),
                nn >= 2,
                n.as_nat() == nn,
                2 <= l <= 0x20000000000,
                bb == x.as_nat() % nn,
                bb < nn,
                xr.as_nat() == bb,
                rr < l,
                rr as nat == pow2(i as nat) % (l as nat),
                pi.as_nat() == pow_mod_spec(bb, pow2(i as nat) / (l as nat), nn),
                pi.as_nat() < nn,
            decreases delta - i,
        {
            let ghost e = pow2(i as nat);
            let ghost ll = l as nat;
            let ghost qq = e / ll;
            proof {
                lemma_fundamental_div_mod(e as int, ll as int);
                lemma_pow2_unfold((i + 1) as nat);
                assert(2 * ((ll * qq) as int) == (2 * qq) as int * ll as int) by {
                    lemma_mul_is_associative(2, ll as int, qq as int);
                    lemma_mul_is_commutative(2, ll as int);
                    lemma_mul_is_associative(ll as int, 2, qq as int);
                    lemma_mul_is_commutative(ll as int, 2 * qq as int);
                }
            }
            let r2 = 2 * rr;
            let pi2 = mul_mod(&pi, &pi, n);
            proof {
                lemma_pow_mul_mod(bb, qq, qq, nn);
            }
            if r2 >= l {
                let pinew = mul_mod(&pi2, &xr, n);
                proof {
                    lemma_pow1(bb as int);
                    lemma_small_mod(bb, nn);
                    assert(pow_mod_spec(bb, 1, nn) == bb);
                    lemma_pow_mul_mod(bb, qq + qq, 1, nn);
                    assert((2 * qq + 1) as int * ll as int == (2 * qq) as int * ll as int
                        + ll as int) by {
                        lemma_mul_is_distributive_add_other_way(ll as int, (2 * qq) as int, 1);
                        lemma_mul_basics(ll as int);
                    }
                    lemma_fundamental_div_mod_converse(
                        pow2((i + 1) as nat) as int,
                        ll as int,
                        (2 * qq + 1) as int,
                        (2 * rr - ll) as int,
                    );
                }
                pi = pinew;
                rr = r2 - l;
            } else {
                proof {
                    lemma_fundamental_div_mod_converse(
                        pow2((i + 1) as nat) as int,
                        ll as int,
                        (2 * qq) as int,
                        (2 * rr) as int,
                    );
                }
                pi = pi2;
                rr = r2;
            }
            i = i + 1;
        }
        pi
    }

    /// Computes y = x^(2^delta) mod N by delta sequential squarings, then
    /// the proof; this is the slow path anyone without the secret takes.
    ///
    /// The input is reduced modulo N first.  Callers should supply elements
    /// ranging over the full group (practically, a hash-to-group image of
    /// the public input): 0 and 1 are fixed points of squaring and give
    /// degenerate outputs, though nothing crashes on them.
    pub fn evaluation(&self, x: &BigInteger) -> (r: RSAOutProof)
        ensures
            r.y.as_nat() == pow_mod_spec(
                x.as_nat() % self.modulus(),
                pow2(self.difficulty()),
                self.modulus(),
            ),
            r.pi.as_nat() == pow_mod_spec(
                x.as_nat() % self.modulus(),
                pow2(self.difficulty()) / challenge_spec(x@, r.y@, self.delta64()),
                self.modulus(),
            ),
    {
        proof {
            use_type_invariant(self);
            use_type_invariant(&self.public_param);
        }
        let n = &self.public_param.n;
        let xr = rem_raw(x, n);
        proof {
            lemma_mod_bound(x.as_nat() as int, n.as_nat() as int);
        }
        let y = pow_pow2_mod(&xr, self.delta, n);
        let pi = self.prove(x, &y, self.delta);
        RSAOutProof { y, pi }
    }

    /// Computes y with the secret order: e = 2^delta mod phi once, then a
    /// single exponentiation; the proof is produced as in `prove`.
    pub fn trapdoor(&self, x: &BigInteger, delta: usize) -> (r: RSAOutProof)
        ensures
            r.y.as_nat() == pow_mod_spec(
                x.as_nat() % self.modulus(),
                pow2(delta as nat) % self.phi(),
                self.modulus(),
            ),
            r.pi.as_nat() == pow_mod_spec(
                x.as_nat() % self.modulus(),
                pow2(delta as nat) / challenge_spec(x@, r.y@, delta as u64),
                self.modulus(),
            ),
    {
        proof {
            use_type_invariant(self);
            use_type_invariant(&self.public_param);
            use_type_invariant(&self.secret_param);
        }
        let pm1 = sub_one(&self.secret_param.p);
        let qm1 = sub_one(&self.secret_param.q);
        proof {
            assert(pm1.as_nat() * qm1.as_nat() <= self.secret_param.p.as_nat()
                * self.secret_param.q.as_nat()) by {
                lemma_mul_inequality(
                    pm1.as_nat() as int,
                    self.secret_param.p.as_nat() as int,
                    qm1.as_nat() as int,
                );
                lemma_mul_left_inequality(
                    self.secret_param.p.as_nat() as int,
                    qm1.as_nat() as int,
                    self.secret_param.q.as_nat() as int,
                );
            }
            assert(1 * qm1.as_nat() <= pm1.as_nat() * qm1.as_nat()) by {
                lemma_mul_inequality(1, pm1.as_nat() as int, qm1.as_nat() as int);
            }
        }
        let phi = mul_exact(&pm1, &qm1);
        let e = pow2_mod(delta, &phi);
        let n = &self.public_param.n;
        let xr = rem_raw(x, n);
        proof {
            lemma_mod_bound(x.as_nat() as int, n.as_nat() as int);
        }
        let y = pow_mod(&xr, &e, n);
        let pi = self.prove(x, &y, delta);
        RSAOutProof { y, pi }
    }

    /// Recomputes the challenge l and r = 2^delta mod l, then accepts
    /// exactly when pi^l * x^r == y modulo N.  The cost does not depend on
    /// delta beyond the doubling loop that reduces 2^delta modulo the small
    /// challenge.
    pub fn verify(&self, x: &BigInteger, y: &BigInteger, pi: &BigInteger) -> (r: bool)
        ensures
            r == wesolowski_check(self.modulus(), *x, *y, *pi, self.delta64()),
    {
        proof {
            use_type_invariant(self);
            use_type_invariant(&self.public_param);
        }
        let n = &self.public_param.n;
        let l = derive_challenge(x, y, self.delta as u64);
        let rsmall = pow2_mod_u64(self.delta as u64, l);
        let pir = rem_raw(pi, n);
        let xr = rem_raw(x, n);
        proof {
            lemma_mod_bound(pi.as_nat() as int, n.as_nat() as int);
            lemma_mod_bound(x.as_nat() as int, n.as_nat() as int);
        }
        let lbig = BigInteger::from_u64(l);
        let rbig = BigInteger::from_u64(rsmall);
        let a = pow_mod(&pir, &lbig, n);
        let b = pow_mod(&xr, &rbig, n);
        let lhs = mul_mod(&a, &b, n);
        lhs.equals(y)
    }
}

impl VDF for RSA {
    type SetupSecret = RSASetupSecret;

    type OutProof = RSAOutProof;

    type Error = VDFError;

    fn setup(secret: RSASetupSecret, delta: usize, prime_bytes: usize) -> (r: Result<
        Self,
        VDFError,
    >)
        ensures
            match r {
                Ok(inst) => setup_instance_spec(inst, secret, delta, prime_bytes),
                Err(e) => e == VDFError::GroupGenerationFailed && generation_exhausted(
                    secret.seed(),
                    secret.salt_bytes(),
                    prime_bytes as nat,
                ),
            },
    {
        RSA::setup(secret, delta, prime_bytes)
    }

    fn trapdoor(&self, x: &BigInteger, delta: usize) -> (r: RSAOutProof)
        ensures
            r.y.as_nat() == pow_mod_spec(
                x.as_nat() % self.modulus(),
                pow2(delta as nat) % self.phi(),
                self.modulus(),
            ),
            r.pi.as_nat() == pow_mod_spec(
                x.as_nat() % self.modulus(),
                pow2(delta as nat) / challenge_spec(x@, r.y@, delta as u64),
                self.modulus(),
            ),
    {
        RSA::trapdoor(self, x, delta)
    }

    fn evaluation(&self, x: &BigInteger) -> (r: RSAOutProof)
        ensures
            r.y.as_nat() == pow_mod_spec(
                x.as_nat() % self.modulus(),
                pow2(self.difficulty()),
                self.modulus(),
            ),
            r.pi.as_nat() == pow_mod_spec(
                x.as_nat() % self.modulus(),
                pow2(self.difficulty()) / challenge_spec(x@, r.y@, self.delta64()),
                self.modulus(),
            ),
    {
        RSA::evaluation(self, x)
    }

    fn verify(&self, x: &BigInteger, y: &BigInteger, pi: &BigInteger) -> (r: bool)
        ensures
            r == wesolowski_check(self.modulus(), *x, *y, *pi, self.delta64()),
    {
        RSA::verify(self, x, y, pi)
    }
}



/// Group generation is reproducible from its secret material: two runs over
/// the same seed, salt and candidate length that both succeed pick the same
/// first prime, the same second prime, and so the same modulus and totient.
pub proof fn lemma_generation_deterministic(
    secret: Seq<u8>,
    salt: Seq<u8>,
    len: nat,
    p1: nat,
    q1: nat,
    i1: u64,
    j1: u64,
    p2: nat,
    q2: nat,
    i2: u64,
    j2: u64,
)
    requires
        p1 == candidate(secret, salt, TAG_P, len, i1),
        is_probable_prime_spec(p1),
        forall|t: u64| t < i1 ==> !accepts_p(secret, salt, len, t),
        q1 == candidate(secret, salt, TAG_Q, len, j1),
        is_probable_prime_spec(q1),
        q1 != p1,
        forall|t: u64| t < j1 ==> !accepts_q(secret, salt, len, p1, t),
        p2 == candidate(secret, salt, TAG_P, len, i2),
        is_probable_prime_spec(p2),
        forall|t: u64| t < i2 ==> !accepts_p(secret, salt, len, t),
        q2 == candidate(secret, salt, TAG_Q, len, j2),
        is_probable_prime_spec(q2),
        q2 != p2,
        forall|t: u64| t < j2 ==> !accepts_q(secret, salt, len, p2, t),
    ensures
        p1 == p2,
        q1 == q2,
{
    assert(accepts_p(secret, salt, len, i1));
    assert(accepts_p(secret, salt, len, i2));
    if i1 < i2 {
        assert(false);
    }
    if i2 < i1 {
        assert(false);
    }
    assert(accepts_q(secret, salt, len, p1, j1));
    assert(accepts_q(secret, salt, len, p2, j2));
    if j1 < j2 {
        assert(false);
    }
    if j2 < j1 {
        assert(false);
    }
}

/// Completeness of the protocol: against an honest output
/// y = x^(2^delta) mod N and an honest proof pi = x^floor(2^delta/l) mod N,
/// with l the challenge derived from (x, y, delta), the verifier's check
/// holds.
pub proof fn lemma_completeness(n: nat, x: BigInteger, y: BigInteger, pi: BigInteger, delta: u64)
    requires
        n >= 2,
        y.as_nat() == pow_mod_spec(x.as_nat() % n, pow2(delta as nat), n),
        pi.as_nat() == pow_mod_spec(
            x.as_nat() % n,
            pow2(delta as nat) / challenge_spec(x@, y@, delta),
            n,
        ),
    ensures
        wesolowski_check(n, x, y, pi, delta),
{
    let b = x.as_nat() % n;
    let l = challenge_spec(x@, y@, delta);
    lemma_challenge_is_prime(challenge_seed(x@, y@, delta), CHALLENGE_SEARCH_BOUND as nat);
    let e = pow2(delta as nat);
    let q = e / l;
    let r = e % l;
    lemma_fundamental_div_mod(e as int, l as int);
    lemma_mod_bound(pow(b as int, q), n as int);
    assert(pi.as_nat() < n);
    lemma_small_mod(pi.as_nat(), n);
    lemma_pow_mod_noop(pow(b as int, q), l, n as int);
    lemma_pow_multiplies(b as int, q, l);
    assert(pow_mod_spec(pi.as_nat(), l, n) == pow_mod_spec(b, q * l, n));
    lemma_pow_mul_mod(b, q * l, r, n);
    assert(q * l + r == e) by {
        lemma_mul_is_commutative(q as int, l as int);
    }
}

} // verus!
