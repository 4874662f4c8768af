//! A Wesolowski verifiable delay function over an RSA group of unknown order.
//!
//! The crate provides a fixed-width (2048-bit) big-integer wrapper, a
//! deterministic seed-to-integer derivation, an RSA group generator, and the
//! Wesolowski protocol itself: setup, sequential evaluation, trapdoor
//! evaluation, proof generation and proof verification.

pub mod bigint;
pub mod groups;

use vstd::prelude::*;
use crate::bigint::BigInteger;

verus! {

/// Public parameter of a VDF over some group of unknown order.
pub trait VDFPublicParam {
    /// Serializes the public parameter as an array of bytes.
    fn to_vec(&self) -> Vec<u8>;
}

/// Secret parameter of a VDF over some group of unknown order.
pub trait VDFSecretParam {
    /// Serializes the secret parameter as an array of bytes.
    fn to_vec(&self) -> Vec<u8>;
}

/// Marker for the output-and-proof bundle a VDF hands back.
pub trait VDFOutProof {

}

/// Marker for the secret material a VDF setup consumes.
pub trait VDFSetupSecret {

}

/// The operations a VDF over a group of unknown order offers.
pub trait VDF: Sized {
    /// The secret material setup consumes.
    type SetupSecret;

    /// The output-and-proof bundle the evaluators hand back.
    type OutProof;

    /// What setup reports when it cannot build a group.
    type Error;

    /// Builds an instance over a fresh group of unknown order, remembering
    /// the public modulus, the secret order, and the difficulty.
    fn setup(secret: Self::SetupSecret, delta: usize, prime_bytes: usize) -> Result<
        Self,
        Self::Error,
    >
        requires
            1 <= prime_bytes <= 128,
    ;

    /// Computes the output and its proof quickly, using the secret order.
    fn trapdoor(&self, x: &BigInteger, delta: usize) -> Self::OutProof;

    /// Computes the output and its proof by sequential squarings.
    fn evaluation(&self, x: &BigInteger) -> Self::OutProof;

    /// Checks an output and its proof against the instance's difficulty.
    fn verify(&self, x: &BigInteger, y: &BigInteger, pi: &BigInteger) -> bool;
}

} // verus!
