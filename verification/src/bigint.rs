//! Fixed-width (2048-bit) non-negative integers in canonical big-endian form.
//!
//! A [`BigInteger`] always holds exactly 256 bytes; its mathematical value is
//! the big-endian interpretation of those bytes.  The modular arithmetic is
//! carried out by `crypto_bigint`'s `U2048` behind a small set of trusted
//! wrappers; everything built on top of them (modular multiplication and
//! exponentiation, byte conversions, comparisons) is verified.

use vstd::prelude::*;
use vstd::arithmetic::power::*;
use vstd::arithmetic::power2::*;
use vstd::arithmetic::div_mod::*;
use vstd::arithmetic::mul::*;
use crypto_bigint::{Encoding, U2048};

verus! {

/// Value of a big-endian byte string.
pub open spec fn be_val(s: Seq<u8>) -> nat
    decreases s.len(),
{
    if s.len() == 0 {
        0
    } else {
        be_val(s.drop_last()) * 256 + s.last() as nat
    }
}

/// 256^k, the number of values a k-byte string can take.
pub open spec fn p256(k: nat) -> nat {
    pow(256, k) as nat
}

/// Size of the fixed-width ring: 256^256 == 2^2048.
pub open spec fn ring_size() -> nat {
    p256(256)
}

pub broadcast proof fn lemma_p256_pos(k: nat)
    ensures
        #[trigger] p256(k) >= 1,
{
    lemma_pow_positive(256, k);
}

pub proof fn lemma_p256_unfold(k: nat)
    requires
        k >= 1,
    ensures
        p256(k) == 256 * p256((k - 1) as nat),
{
    lemma_pow_positive(256, (k - 1) as nat);
    lemma_pow_positive(256, k);
    lemma_pow1(256);
    lemma_pow_adds(256, 1, (k - 1) as nat);
}

/// A big-endian byte string of length k denotes a value below 256^k.
pub proof fn lemma_be_val_bound(s: Seq<u8>)
    ensures
        be_val(s) < p256(s.len()),
    decreases s.len(),
{
    lemma_p256_pos(s.len());
    if s.len() == 0 {
    } else {
        let d = s.drop_last();
        lemma_be_val_bound(d);
        lemma_p256_unfold(s.len());
        lemma_p256_pos(d.len());
        assert(be_val(d) * 256 <= (p256(d.len()) - 1) * 256) by {
            lemma_mul_inequality(be_val(d) as int, p256(d.len()) - 1, 256);
        }
        assert((p256(d.len()) - 1) * 256 == 256 * p256(d.len()) - 256) by {
            lemma_mul_is_distributive_sub_other_way(256, p256(d.len()) as int, 1);
        }
    }
}

/// Peeling the first byte off a big-endian string.
pub proof fn lemma_be_val_first(s: Seq<u8>)
    requires
        s.len() >= 1,
    ensures
        be_val(s) == s[0] * p256((s.len() - 1) as nat) + be_val(s.skip(1)),
    decreases s.len(),
{
    if s.len() == 1 {
        assert(s.skip(1).len() == 0);
        assert(s.drop_last().len() == 0);
        assert(p256(0) == 1) by {
            lemma_pow0(256);
        }
        assert(be_val(s.skip(1)) == 0);
        assert(be_val(s.drop_last()) == 0);
        assert(be_val(s) == s.last() as nat);
        assert(s.last() == s[0]);
    } else {
        let d = s.drop_last();
        lemma_be_val_first(d);
        let k = (s.len() - 2) as nat;
        assert(s.skip(1).drop_last() =~= d.skip(1));
        assert(s.skip(1).last() == s.last());
        lemma_p256_unfold((s.len() - 1) as nat);
        let a = s[0] as int;
        let p = p256(k) as int;
        let rest = be_val(d.skip(1)) as int;
        let lst = s.last() as int;
        assert(d[0] == s[0]);
        assert(be_val(d) as int == a * p + rest);
        assert(be_val(s) as int == be_val(d) * 256 + lst);
        assert(be_val(s.skip(1)) as int == rest * 256 + lst);
        assert((a * p + rest) * 256 == a * p * 256 + rest * 256) by {
            lemma_mul_is_distributive_add_other_way(256, a * p, rest);
        }
        assert(a * p * 256 == a * (p * 256)) by {
            lemma_mul_is_associative(a, p, 256);
        }
        assert(p256((s.len() - 1) as nat) as int == p * 256);
        assert(be_val(s) as int == a * (p * 256) + (rest * 256 + lst));
    }
}

/// Leading zero bytes do not change the value.
pub proof fn lemma_be_val_zero_prefix(s: Seq<u8>, i: nat)
    requires
        i <= s.len(),
        forall|j: int| 0 <= j < i ==> s[j] == 0,
    ensures
        be_val(s) == be_val(s.skip(i as int)),
    decreases i,
{
    if i > 0 {
        lemma_be_val_first(s);
        lemma_be_val_zero_prefix(s.skip(1), (i - 1) as nat);
        assert(s.skip(1).skip(i - 1) =~= s.skip(i as int));
    } else {
        assert(s.skip(0) =~= s);
    }
}

/// Equal-length strings with the same value are equal byte for byte.
pub proof fn lemma_be_val_injective(s1: Seq<u8>, s2: Seq<u8>)
    requires
        s1.len() == s2.len(),
        be_val(s1) == be_val(s2),
    ensures
        s1 =~= s2,
    decreases s1.len(),
{
    if s1.len() > 0 {
        let d1 = s1.drop_last();
        let d2 = s2.drop_last();
        assert(be_val(s1) == be_val(d1) * 256 + s1.last());
        assert(be_val(s2) == be_val(d2) * 256 + s2.last());
        lemma_fundamental_div_mod_converse(be_val(s1) as int, 256, be_val(d1) as int, s1.last() as int);
        lemma_fundamental_div_mod_converse(be_val(s2) as int, 256, be_val(d2) as int, s2.last() as int);
        assert(s1.last() == s2.last());
        assert(be_val(d1) == be_val(d2));
        lemma_be_val_injective(d1, d2);
        assert(s1 =~= d1.push(s1.last()));
        assert(s2 =~= d2.push(s2.last()));
    }
}

/// The parity of the value is the parity of the last byte.
pub proof fn lemma_be_val_parity(s: Seq<u8>)
    requires
        s.len() >= 1,
    ensures
        be_val(s) % 2 == s.last() % 2,
{
    let d = be_val(s.drop_last()) as int;
    assert(d * 256 == 2 * (d * 128)) by {
        lemma_mul_is_associative(2, 128, d);
        lemma_mul_is_commutative(d, 256);
        lemma_mul_is_commutative(d, 128);
    }
    lemma_mod_multiples_vanish(d * 128, s.last() as int, 2);
}

/// A fixed-width (2048-bit) non-negative integer, always kept in its
/// canonical big-endian representation of exactly 256 bytes.
pub struct BigInteger {
    bytes: Vec<u8>,
}

impl View for BigInteger {
    type V = Seq<u8>;

    closed spec fn view(&self) -> Seq<u8> {
        self.bytes@
    }
}

impl BigInteger {
    /// The canonical representation always holds exactly 256 bytes.
    #[verifier::type_invariant]
    spec fn type_inv(self) -> bool {
        self.bytes@.len() == 256
    }

    /// The mathematical value of this integer.
    pub open spec fn as_nat(&self) -> nat {
        be_val(self@)
    }

    /// Learns the width bound: the value of any integer lies below the
    /// ring size, 2^2048.
    pub fn width_bound(&self)
        ensures
            self.as_nat() < ring_size(),
    {
        proof {
            use_type_invariant(self);
            lemma_be_val_bound(self@);
        }
    }

    /// Builds the integer denoted by a big-endian byte string of at most 256
    /// bytes, left-padding with zeros to the fixed width.
    pub fn from_be_bytes(v: &[u8]) -> (r: BigInteger)
        requires
            v@.len() <= 256,
        ensures
            r.as_nat() == be_val(v@),
            r@.len() == 256,
    {
        let mut bytes: Vec<u8> = Vec::new();
        let pad: usize = 256 - v.len();
        let mut i: usize = 0;
        while i < pad
            invariant
                i <= pad,
                pad == 256 - v@.len(),
                bytes@.len() == i,
                forall|j: int| 0 <= j < i ==> bytes@[j] == 0,
            decreases pad - i,
        {
            bytes.push(0);
            i = i + 1;
        }
        let mut k: usize = 0;
        while k < v.len()
            invariant
                k <= v@.len(),
                pad == 256 - v@.len(),
                bytes@.len() == pad + k,
                forall|j: int| 0 <= j < pad ==> bytes@[j] == 0,
                bytes@.skip(pad as int) =~= v@.take(k as int),
            decreases v@.len() - k,
        {
            bytes.push(v[k]);
            k = k + 1;
        }
        proof {
            assert(bytes@.skip(pad as int) =~= v@);
            lemma_be_val_zero_prefix(bytes@, pad as nat);
        }
        BigInteger { bytes }
    }

    /// The canonical 256-byte big-endian encoding.
    pub fn to_bytes(&self) -> (r: Vec<u8>)
        ensures
            r@ == self@,
            r@.len() == 256,
    {
        proof {
            use_type_invariant(self);
        }
        let mut r: Vec<u8> = Vec::new();
        let mut i: usize = 0;
        while i < self.bytes.len()
            invariant
                i <= self.bytes@.len(),
                r@ =~= self.bytes@.take(i as int),
            decreases self.bytes@.len() - i,
        {
            r.push(self.bytes[i]);
            i = i + 1;
        }
        proof {
            assert(r@ =~= self.bytes@);
        }
        r
    }

    /// An owned copy of the same integer.
    pub fn duplicate(&self) -> (r: BigInteger)
        ensures
            r@ == self@,
    {
        proof {
            use_type_invariant(self);
        }
        let bytes = self.to_bytes();
        BigInteger { bytes }
    }

    /// Numeric equality, decided by comparing the canonical representations.
    pub fn equals(&self, other: &BigInteger) -> (r: bool)
        ensures
            r == (self.as_nat() == other.as_nat()),
    {
        proof {
            use_type_invariant(self);
            use_type_invariant(other);
        }
        let mut i: usize = 0;
        let mut eq: bool = true;
        while i < 256
            invariant
                i <= 256,
                self@.len() == 256,
                other@.len() == 256,
                eq == (forall|j: int| 0 <= j < i ==> self@[j] == other@[j]),
            decreases 256 - i,
        {
            if self.bytes[i] != other.bytes[i] {
                eq = false;
            }
            i = i + 1;
        }
        proof {
            if eq {
                assert(self@ =~= other@);
            } else {
                if self.as_nat() == other.as_nat() {
                    lemma_be_val_injective(self@, other@);
                }
            }
        }
        eq
    }

    /// Whether the value is odd, read off the least significant byte.
    pub fn is_odd(&self) -> (r: bool)
        ensures
            r == (self.as_nat() % 2 == 1),
    {
        proof {
            use_type_invariant(self);
            lemma_be_val_parity(self@);
        }
        self.bytes[255] % 2 == 1
    }

    /// The integer denoted by a machine word.
    pub fn from_u64(x: u64) -> (r: BigInteger)
        ensures
            r.as_nat() == x,
            r@.len() == 256,
    {
        proof {
            lemma_p256_small();
            lemma_basic_div(x as int, p256(8) as int);
        }
        let mut v: Vec<u8> = Vec::new();
        let mut d: u64 = 72057594037927936;
        let mut k: usize = 0;
        while k < 8
            invariant
                k <= 8,
                v@.len() == k,
                k < 8 ==> d == p256((7 - k) as nat),
                be_val(v@) == x as nat / p256((8 - k) as nat),
            decreases 8 - k,
        {
            proof {
                lemma_p256_small();
                lemma_p256_pos((7 - k) as nat);
            }
            let c: u8 = ((x / d) % 256) as u8;
            let ghost w = v@;
            v.push(c);
            proof {
                let ghost dd = p256((7 - k) as nat) as int;
                assert(d as int == dd);
                lemma_p256_unfold((8 - k) as nat);
                assert(p256((8 - k) as nat) as int == 256 * dd);
                lemma_div_denominator(x as int, dd, 256);
                assert(dd * 256 == 256 * dd);
                assert((x as int / dd) / 256 == x as int / (256 * dd));
                lemma_fundamental_div_mod((x as int) / dd, 256);
                assert(v@ == w.push(c));
                assert(w.push(c).drop_last() =~= w);
                assert(be_val(v@) == be_val(w) * 256 + c);
                assert(c as int == (x as int / dd) % 256);
                assert(be_val(w) as int == (x as int / dd) / 256);
                assert(be_val(v@) as int == x as int / dd);
            }
            if k < 7 {
                let ghost dold = d;
                d = d / 256;
                proof {
                    lemma_p256_unfold((7 - k) as nat);
                    lemma_div_by_multiple(p256((6 - k) as nat) as int, 256);
                    assert(dold as int == p256((6 - k) as nat) * 256);
                }
            }
            k = k + 1;
        }
        proof {
            assert(p256(0) == 1) by {
                lemma_pow0(256);
            }
            assert(x as int / 1 == x as int) by {
                lemma_div_basics(x as int);
            }
        }
        BigInteger::from_be_bytes(v.as_slice())
    }
}

/// 256^k for small k, written out.
pub proof fn lemma_p256_small()
    ensures
        p256(0) == 1,
        p256(1) == 0x100,
        p256(2) == 0x10000,
        p256(3) == 0x1000000,
        p256(4) == 0x100000000,
        p256(5) == 0x10000000000,
        p256(6) == 0x1000000000000,
        p256(7) == 0x100000000000000,
        p256(8) == 0x10000000000000000,
{
    lemma_pow0(256);
    lemma_p256_unfold(1);
    lemma_p256_unfold(2);
    lemma_p256_unfold(3);
    lemma_p256_unfold(4);
    lemma_p256_unfold(5);
    lemma_p256_unfold(6);
    lemma_p256_unfold(7);
    lemma_p256_unfold(8);
}

/// Result of raising `b` to the `e`-th power, reduced modulo `n`.
pub open spec fn pow_mod_spec(b: nat, e: nat, n: nat) -> nat {
    (pow(b as int, e) % (n as int)) as nat
}

/// Multiplying two reduced powers of the same base modulo `n` adds the
/// exponents.
pub proof fn lemma_pow_mul_mod(b: nat, e1: nat, e2: nat, n: nat)
    requires
        n >= 1,
    ensures
        (pow_mod_spec(b, e1, n) * pow_mod_spec(b, e2, n)) % n == pow_mod_spec(b, e1 + e2, n),
{
    lemma_mul_mod_noop_general(pow(b as int, e1), pow(b as int, e2), n as int);
    lemma_pow_adds(b as int, e1, e2);
}

/// Relies on `crypto_bigint::U2048::add_mod`: modular addition of two values
/// already reduced below the nonzero modulus.
#[verifier::external_body]
pub(crate) fn add_mod_raw(a: &BigInteger, b: &BigInteger, n: &BigInteger) -> (r: BigInteger)
    requires
        a.as_nat() < n.as_nat(),
        b.as_nat() < n.as_nat(),
    ensures
        r.as_nat() == (a.as_nat() + b.as_nat()) % n.as_nat(),
{
    let x = U2048::from_be_slice(&a.bytes);
    let y = U2048::from_be_slice(&b.bytes);
    let m = U2048::from_be_slice(&n.bytes);
    BigInteger { bytes: x.add_mod(&y, &m).to_be_bytes().to_vec() }
}

/// Relies on `crypto_bigint::U2048::wrapping_sub`: subtraction modulo 2^2048.
#[verifier::external_body]
pub(crate) fn sub_wrap_raw(a: &BigInteger, b: &BigInteger) -> (r: BigInteger)
    ensures
        a.as_nat() >= b.as_nat() ==> r.as_nat() == a.as_nat() - b.as_nat(),
        a.as_nat() < b.as_nat() ==> r.as_nat() as int == a.as_nat() - b.as_nat()
            + ring_size(),
{
    let x = U2048::from_be_slice(&a.bytes);
    let y = U2048::from_be_slice(&b.bytes);
    BigInteger { bytes: x.wrapping_sub(&y).to_be_bytes().to_vec() }
}

/// Relies on `crypto_bigint::U2048::mul_wide`: the full 4096-bit product,
/// returned as a low and a high half.
#[verifier::external_body]
pub(crate) fn mul_wide_raw(a: &BigInteger, b: &BigInteger) -> (r: (BigInteger, BigInteger))
    ensures
        r.0.as_nat() + ring_size() * r.1.as_nat() == a.as_nat() * b.as_nat(),
{
    let x = U2048::from_be_slice(&a.bytes);
    let y = U2048::from_be_slice(&b.bytes);
    let (lo, hi) = x.mul_wide(&y);
    (
        BigInteger { bytes: lo.to_be_bytes().to_vec() },
        BigInteger { bytes: hi.to_be_bytes().to_vec() },
    )
}

/// Relies on `crypto_bigint::U2048::const_rem_wide`: remainder of a 4096-bit
/// value, given as a low and a high half, modulo a nonzero divisor.
#[verifier::external_body]
pub(crate) fn rem_wide_raw(lo: &BigInteger, hi: &BigInteger, n: &BigInteger) -> (r: BigInteger)
    requires
        n.as_nat() >= 1,
    ensures
        r.as_nat() == (lo.as_nat() + ring_size() * hi.as_nat()) % n.as_nat(),
{
    let l = U2048::from_be_slice(&lo.bytes);
    let h = U2048::from_be_slice(&hi.bytes);
    let m = U2048::from_be_slice(&n.bytes);
    let (rem, _) = U2048::const_rem_wide((l, h), &m);
    BigInteger { bytes: rem.to_be_bytes().to_vec() }
}

/// Relies on `crypto_bigint::U2048::const_rem`: remainder modulo a nonzero
/// divisor.
#[verifier::external_body]
pub(crate) fn rem_raw(a: &BigInteger, n: &BigInteger) -> (r: BigInteger)
    requires
        n.as_nat() >= 1,
    ensures
        r.as_nat() == a.as_nat() % n.as_nat(),
{
    let x = U2048::from_be_slice(&a.bytes);
    let m = U2048::from_be_slice(&n.bytes);
    let (rem, _) = x.const_rem(&m);
    BigInteger { bytes: rem.to_be_bytes().to_vec() }
}

/// Modular multiplication of two reduced operands.
pub fn mul_mod(a: &BigInteger, b: &BigInteger, n: &BigInteger) -> (r: BigInteger)
    requires
        a.as_nat() < n.as_nat(),
        b.as_nat() < n.as_nat(),
    ensures
        r.as_nat() == (a.as_nat() * b.as_nat()) % n.as_nat(),
        r.as_nat() < n.as_nat(),
{
    let (lo, hi) = mul_wide_raw(a, b);
    let r = rem_wide_raw(&lo, &hi, n);
    proof {
        lemma_mod_bound((lo.as_nat() + ring_size() * hi.as_nat()) as int, n.as_nat() as int);
    }
    r
}

/// Exact product of two operands whose product fits in the fixed width.
pub fn mul_exact(a: &BigInteger, b: &BigInteger) -> (r: BigInteger)
    requires
        a.as_nat() * b.as_nat() < ring_size(),
    ensures
        r.as_nat() == a.as_nat() * b.as_nat(),
{
    let (lo, hi) = mul_wide_raw(a, b);
    proof {
        lemma_mul_basics(ring_size() as int);
        if hi.as_nat() >= 1 {
            lemma_p256_pos(256);
            assert(ring_size() * hi.as_nat() >= ring_size() * 1) by {
                lemma_mul_left_inequality(ring_size() as int, 1, hi.as_nat() as int);
            }
        }
        assert(hi.as_nat() == 0);
        assert(ring_size() * hi.as_nat() == 0);
    }
    lo
}

/// Product of two operands, or nothing when it does not fit the fixed width.
pub fn checked_mul(a: &BigInteger, b: &BigInteger) -> (r: Option<BigInteger>)
    ensures
        match r {
            Some(v) => v.as_nat() == a.as_nat() * b.as_nat() && a.as_nat() * b.as_nat()
                < ring_size(),
            None => a.as_nat() * b.as_nat() >= ring_size(),
        },
{
    let (lo, hi) = mul_wide_raw(a, b);
    let zero = BigInteger::from_u64(0);
    proof {
        lemma_mul_basics(ring_size() as int);
        use_type_invariant(&lo);
        lemma_be_val_bound(lo@);
        if hi.as_nat() >= 1 {
            lemma_p256_pos(256);
            assert(ring_size() * hi.as_nat() >= ring_size() * 1) by {
                lemma_mul_left_inequality(ring_size() as int, 1, hi.as_nat() as int);
            }
        }
    }
    if hi.equals(&zero) {
        Some(lo)
    } else {
        None
    }
}

/// Relies on `crypto_bigint::U2048::shr_vartime` by one bit: a logical
/// right shift, the floor of division by two.
#[verifier::external_body]
pub(crate) fn shr1_raw(a: &BigInteger) -> (r: BigInteger)
    ensures
        r.as_nat() == a.as_nat() / 2,
{
    let x = U2048::from_be_slice(&a.bytes);
    BigInteger { bytes: x.shr_vartime(1).to_be_bytes().to_vec() }
}

/// The predecessor in the wrapping fixed-width ring: one less, except that
/// 0 wraps to 2^2048 - 1.
pub fn sub_one(a: &BigInteger) -> (r: BigInteger)
    ensures
        a.as_nat() >= 1 ==> r.as_nat() == a.as_nat() - 1,
        a.as_nat() == 0 ==> r.as_nat() == ring_size() - 1,
{
    let one = BigInteger::from_u64(1);
    sub_wrap_raw(a, &one)
}

/// 2^delta reduced modulo `m`, computed by repeated modular doubling.
pub fn pow2_mod(delta: usize, m: &BigInteger) -> (r: BigInteger)
    requires
        m.as_nat() >= 1,
    ensures
        r.as_nat() == pow2(delta as nat) % m.as_nat(),
        r.as_nat() < m.as_nat(),
{
    let one = BigInteger::from_u64(1);
    let mut e = rem_raw(&one, m);
    proof {
        lemma_mod_bound(1, m.as_nat() as int);
        assert(pow2(0) == 1) by {
            lemma_pow2_unfold(1);
            lemma2_to64();
        }
    }
    let mut i: usize = 0;
    while i < delta
        invariant
            i <= delta,
            m.as_nat() >= 1,
            e.as_nat() == pow2(i as nat) % m.as_nat(),
            e.as_nat() < m.as_nat(),
        decreases delta - i,
    {
        let e2 = add_mod_raw(&e, &e, m);
        proof {
            let ghost mm = m.as_nat() as int;
            assert((e.as_nat() + e.as_nat()) as int == 2 * (pow2(i as nat) as int % mm));
            lemma_mul_mod_noop_right(2, pow2(i as nat) as int, mm);
            lemma_pow2_unfold((i + 1) as nat);
            lemma_mod_bound(2 * pow2(i as nat) as int, mm);
        }
        e = e2;
        i = i + 1;
    }
    e
}

/// 2^(8k) == 256^k: eight bits make a byte.
pub proof fn lemma_pow2_bytes(k: nat)
    ensures
        pow2(8 * k) == p256(k),
{
    lemma_pow2(8 * k);
    lemma_pow2(8);
    lemma2_to64();
    lemma_pow_multiplies(2, 8, k);
}

/// x^(2^delta) modulo `n`, by `delta` sequential modular squarings.
pub fn pow_pow2_mod(x: &BigInteger, delta: usize, n: &BigInteger) -> (r: BigInteger)
    requires
        x.as_nat() < n.as_nat(),
    ensures
        r.as_nat() == pow_mod_spec(x.as_nat(), pow2(delta as nat), n.as_nat()),
        r.as_nat() < n.as_nat(),
{
    let ghost b = x.as_nat();
    let ghost nn = n.as_nat();
    let mut y = x.duplicate();
    proof {
        lemma_pow2_unfold(1);
        lemma2_to64();
        lemma_pow1(b as int);
        lemma_small_mod(b, nn);
        assert(y.as_nat() == pow_mod_spec(b, pow2(0), nn));
    }
    let mut i: usize = 0;
    while i < delta
        invariant
            i <= delta,
            nn == n.as_nat(),
            nn >= 1,
            y.as_nat() == pow_mod_spec(b, pow2(i as nat), nn),
            y.as_nat() < nn,
        decreases delta - i,
    {
        let y2 = mul_mod(&y, &y, n);
        proof {
            lemma_pow_mul_mod(b, pow2(i as nat), pow2(i as nat), nn);
            lemma_pow2_unfold((i + 1) as nat);
        }
        y = y2;
        i = i + 1;
    }
    y
}

/// Modular exponentiation by square and multiply, walking the exponent's
/// bytes from the least significant end and skipping the leading zeros.
#[verifier::rlimit(50)]
pub fn pow_mod(base: &BigInteger, exp: &BigInteger, n: &BigInteger) -> (r: BigInteger)
    requires
        base.as_nat() < n.as_nat(),
    ensures
        r.as_nat() == pow_mod_spec(base.as_nat(), exp.as_nat(), n.as_nat()),
        r.as_nat() < n.as_nat(),
{
    proof {
        use_type_invariant(exp);
    }
    let ghost s = exp@;
    let ghost b = base.as_nat();
    let ghost nn = n.as_nat();
    let mut fnz: usize = 0;
    while fnz < 256 && exp.bytes[fnz] == 0
        invariant
            fnz <= 256,
            s.len() == 256,
            s == exp@,
            forall|t: int| 0 <= t < fnz ==> s[t] == 0,
        decreases 256 - fnz,
    {
        fnz = fnz + 1;
    }
    let one = BigInteger::from_u64(1);
    let mut result = rem_raw(&one, n);
    let mut power = base.duplicate();
    proof {
        lemma_pow0(b as int);
        lemma_pow1(b as int);
        lemma_small_mod(b, nn);
        lemma_pow2_unfold(1);
        lemma2_to64();
        lemma_mod_bound(1, nn as int);
        assert(result.as_nat() == pow_mod_spec(b, be_val(s.skip(256)), nn));
        assert(power.as_nat() == pow_mod_spec(b, pow2((8 * (256 - 256)) as nat), nn));
    }
    let mut i: usize = 256;
    while i > fnz
        invariant
            fnz <= i,
            i <= 256,
            s.len() == 256,
            s == exp@,
            forall|t: int| 0 <= t < fnz ==> s[t] == 0,
            nn == n.as_nat(),
            b == base.as_nat(),
            b < nn,
            result.as_nat() == pow_mod_spec(b, be_val(s.skip(i as int)), nn),
            result.as_nat() < nn,
            power.as_nat() == pow_mod_spec(b, pow2((8 * (256 - i)) as nat), nn),
            power.as_nat() < nn,
        decreases i,
    {
        i = i - 1;
        let c: u8 = exp.bytes[i];
        let mut m: u8 = c;
        proof {
            lemma_pow2_unfold(1);
            lemma2_to64();
            assert(pow2(0) == 1);
            assert(c as nat % pow2(0) == 0) by {
                lemma_mod_bound(c as int, 1);
            }
            assert(m as nat == c as nat / pow2(0)) by {
                lemma_div_basics(c as int);
            }
            lemma_mul_basics(p256((255 - i) as nat) as int);
        }
        let mut j: usize = 0;
        while j < 8
            invariant
                j <= 8,
                i < 256,
                s.len() == 256,
                s == exp@,
                nn == n.as_nat(),
                b == base.as_nat(),
                b < nn,
                c == s[i as int],
                m as nat == c as nat / pow2(j as nat),
                result.as_nat() == pow_mod_spec(
                    b,
                    be_val(s.skip(i + 1)) + p256((255 - i) as nat) * (c as nat % pow2(j as nat)),
                    nn,
                ),
                result.as_nat() < nn,
                power.as_nat() == pow_mod_spec(b, pow2((8 * (255 - i) + j) as nat), nn),
                power.as_nat() < nn,
            decreases 8 - j,
        {
            let ghost lowdone = be_val(s.skip(i + 1));
            let ghost shift = p256((255 - i) as nat);
            let ghost done = (lowdone + shift * (c as nat % pow2(j as nat))) as nat;
            let ghost tp = pow2((8 * (255 - i) + j) as nat);
            proof {
                lemma_pow2_pos(j as nat);
                lemma_pow2_unfold((j + 1) as nat);
                lemma_mod_breakdown(c as int, pow2(j as nat) as int, 2);
                assert(c as nat % pow2((j + 1) as nat)
                    == pow2(j as nat) * ((c as nat / pow2(j as nat)) % 2) + c as nat % pow2(
                    j as nat,
                ));
                assert(tp == shift * pow2(j as nat)) by {
                    lemma_pow2_adds((8 * (255 - i)) as nat, j as nat);
                    lemma_pow2_bytes((255 - i) as nat);
                }
            }
            if m % 2 == 1 {
                let r2 = mul_mod(&result, &power, n);
                proof {
                    lemma_pow_mul_mod(b, done, tp, nn);
                    assert(m as nat % 2 == 1);
                    assert((c as nat / pow2(j as nat)) % 2 == 1);
                    assert(pow2(j as nat) * ((c as nat / pow2(j as nat)) % 2) == pow2(j as nat)
                        * 1);
                    assert(pow2(j as nat) * 1 == pow2(j as nat)) by {
                        lemma_mul_basics(pow2(j as nat) as int);
                    }
                    assert(c as nat % pow2((j + 1) as nat)
                        == c as nat % pow2(j as nat) + pow2(j as nat));
                    assert(shift * (c as nat % pow2((j + 1) as nat))
                        == shift * (c as nat % pow2(j as nat)) + shift * pow2(j as nat)) by {
                        lemma_mul_is_distributive_add(
                            shift as int,
                            (c as nat % pow2(j as nat)) as int,
                            pow2(j as nat) as int,
                        );
                    }
                    assert(done + tp == lowdone + shift * (c as nat % pow2((j + 1) as nat)));
                }
                result = r2;
            } else {
                proof {
                    assert(m as nat % 2 == 0);
                    assert((c as nat / pow2(j as nat)) % 2 == 0);
                    assert(pow2(j as nat) * ((c as nat / pow2(j as nat)) % 2) == pow2(j as nat)
                        * 0);
                    assert(pow2(j as nat) * 0 == 0) by {
                        lemma_mul_basics(pow2(j as nat) as int);
                    }
                    assert(c as nat % pow2((j + 1) as nat) == c as nat % pow2(j as nat));
                }
            }
            let p2 = mul_mod(&power, &power, n);
            proof {
                lemma_pow_mul_mod(b, tp, tp, nn);
                lemma_pow2_unfold((8 * (255 - i) + j + 1) as nat);
            }
            power = p2;
            proof {
                lemma_div_denominator(c as int, pow2(j as nat) as int, 2);
            }
            m = m / 2;
            j = j + 1;
        }
        proof {
            lemma2_to64();
            lemma_small_mod(c as nat, 256);
            assert(c as nat % pow2(8) == c as nat);
            lemma_be_val_first(s.skip(i as int));
            assert(s.skip(i as int).skip(1) =~= s.skip(i + 1));
            assert(s.skip(i as int)[0] == s[i as int]);
            assert(be_val(s.skip(i as int)) == c * p256((255 - i) as nat) + be_val(s.skip(i + 1)));
            assert(c as nat % pow2(8) == c as nat);
            assert(c as nat * p256((255 - i) as nat) == p256((255 - i) as nat) * (c as nat)) by {
                lemma_mul_is_commutative(c as int, p256((255 - i) as nat) as int);
            }
            assert(result.as_nat() == pow_mod_spec(
                b,
                be_val(s.skip(i + 1)) + p256((255 - i) as nat) * (c as nat % pow2(8)),
                nn,
            ));
            assert(be_val(s.skip(i + 1)) + p256((255 - i) as nat) * (c as nat % pow2(8))
                == be_val(s.skip(i as int)));
            assert(result.as_nat() == pow_mod_spec(b, be_val(s.skip(i as int)), nn));
            assert(8 * (255 - i) + 8 == 8 * (256 - i));
            assert(power.as_nat() == pow_mod_spec(b, pow2((8 * (256 - i)) as nat), nn));
        }
    }
    proof {
        lemma_be_val_zero_prefix(s, fnz as nat);
        assert(result.as_nat() == pow_mod_spec(b, be_val(s), nn));
    }
    result
}

} // verus!
