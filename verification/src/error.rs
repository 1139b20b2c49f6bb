//! The ways in which an operation of this library can fail.

use vstd::prelude::*;
use crate::identifier::Identifier;

verus! {

/// A failure, described by its kind alone. Only a rejected signature share
/// carries data: the identifier of the signer that produced it.
#[derive(Clone, Copy, Debug, PartialEq, Eq)]
pub enum Error {
    /// The threshold is below two, or is not the number of elements of the
    /// commitment that comes with it.
    InvalidMinSigners,
    /// The number of participants is below two.
    InvalidMaxSigners,
    /// The threshold is larger than the number of participants.
    InvalidMinSignersExceedsMaxSigners,
    /// The polynomial's coefficients are not as many as the threshold asks
    /// for.
    InvalidCoefficients,
    /// A scalar that must not be zero is zero.
    InvalidZeroScalar,
    /// An identifier occurs twice.
    DuplicatedIdentifier,
    /// An identifier that is needed is absent.
    UnknownIdentifier,
    /// The signing package has no commitment for the signer.
    MissingCommitment,
    /// The signing package's commitment for the signer is not the one that
    /// belongs to the signer's nonces.
    IncorrectCommitment,
    /// Fewer commitments than the threshold.
    IncorrectNumberOfCommitments,
    /// A secret share does not match its commitment, or the public keys
    /// that come with it are not those that it and the commitment give.
    InvalidSecretShare,
    /// A signature share does not verify; `culprit` is its signer.
    InvalidSignatureShare { culprit: Identifier },
    /// A signature does not verify.
    InvalidSignature,
    /// The group commitment is the identity.
    InvalidGroupCommitment,
    /// Bytes that are no canonical encoding of a scalar.
    MalformedScalar,
    /// Bytes that are no canonical encoding of a group element, or that
    /// encode the identity where it is not allowed.
    MalformedElement,
    /// Bytes that are not the wire form of a value: too few, too many, or
    /// not in the canonical order.
    DeserializationError,
    /// An identifier could not be derived: the value is zero.
    IdentifierDerivationFailed,
}

} // verus!
