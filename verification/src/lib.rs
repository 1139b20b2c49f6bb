//! FROST threshold Schnorr signatures over the Ristretto group, with
//! machine-checked contracts.
//!
//! A dealer shares a secret among the participants ([`keys`]). To sign, each
//! signer draws two nonces and publishes the commitments to them
//! ([`round1`]); the coordinator puts the commitments and the message into
//! a package ([`signing_package`]); each signer answers with its share of
//! the signature ([`round2`]); the coordinator adds the shares up and checks
//! the result ([`signature`]).
//!
//! The scalars ([`scalar`]) and the group elements ([`element`]) are those
//! of `curve25519_dalek`, the hash ([`hash`]) is SHA-512 of `sha2`. What is
//! taken on trust of them stands in those three modules, with the erasure
//! of bytes by `zeroize` in [`scalar`], the reading of hexadecimal digits by
//! `hex` in [`keys`] and the random bytes of `rand_core` in [`round1`].
//! Everything else is proved, and [`correctness`] holds what the proofs
//! come to: that a signature of honest signers verifies, that a wrong share
//! is caught, and that a share does not pass under a commitment that was
//! tampered with.

pub mod binding;
pub mod bytes;
pub mod challenge;
pub mod correctness;
pub mod element;
pub mod error;
pub mod field;
pub mod hash;
pub mod identifier;
pub mod interpolation;
pub mod keys;
pub mod lagrange;
pub mod polynomial;
pub mod round1;
pub mod round2;
pub mod scalar;
pub mod serialization;
pub mod signature;
pub mod signing_package;
