//! The second round of signing: each signer produces its share of the
//! signature.

use vstd::prelude::*;
use crate::binding::{
    aligned_factors, all_have_factors, are_binding_factors, binding_factor,
    compute_binding_factor_list, compute_group_commitment, lemma_lookup_aligned, lookup_factor,
    nonce_sum,
};
use crate::bytes::le_nat;
use crate::challenge::{challenge, challenge_value};
use crate::element::Element;
use crate::error::Error;
use crate::field::{fadd, fmul, group_order};
use crate::identifier::Identifier;
use crate::keys::{KeyPackage, Public, VerifyingKey};
use crate::lagrange::{
    derive_interpolating_value, divisors_have_inverses, lagrange_coefficient, signer_values,
};
use crate::round1::SigningNonces;
use crate::scalar::Scalar;
use crate::signing_package::{lemma_lookup_commitment, lookup_commitment, SigningPackage};

verus! {

/// A signer's share of a signature, which the coordinator adds to the
/// shares of the other signers.
#[derive(Clone, Copy, Debug, Eq, PartialEq)]
pub struct SignatureShare {
    pub(crate) share: Scalar,
}

/// The share of a signature that a signer owes: `d + e * rho + lambda * s * c`
/// for its nonces `d` and `e`, its binding factor `rho`, its Lagrange
/// coefficient `lambda`, its share `s` of the secret and the challenge `c`.
pub open spec fn signature_share_value(d: nat, e: nat, rho: nat, lambda: nat, s: nat, c: nat) -> nat {
    fadd(fadd(d, fmul(e, rho)), fmul(fmul(lambda, s), c))
}

/// What a share of a signature has to equal to be accepted: the logarithm
/// of the signer's share of the group commitment and of its public key,
/// the latter multiplied by the challenge and the Lagrange coefficient.
pub open spec fn expected_share_value(commitment_share: nat, public: nat, lambda: nat, c: nat) -> nat {
    fadd(commitment_share, fmul(fmul(public, c), lambda))
}

impl SignatureShare {
    /// The share, as a residue.
    pub open(crate) spec fn value(self) -> nat {
        self.share.value()
    }

    /// The canonical encoding of the share.
    pub open(crate) spec fn encoding(self) -> Seq<u8> {
        self.share.encoding()
    }

    /// The share that `bytes` encode; `MalformedScalar` where they are no
    /// canonical encoding of a scalar.
    pub fn deserialize(bytes: [u8; 32]) -> (r: Result<SignatureShare, Error>)
        ensures
            match r {
                Ok(s) => le_nat(bytes@) < group_order() && s.encoding() == bytes@ && s.value()
                    == le_nat(bytes@),
                Err(e) => le_nat(bytes@) >= group_order() && e == Error::MalformedScalar,
            },
    {
        match Scalar::deserialize(&bytes) {
            Ok(share) => Ok(SignatureShare { share }),
            Err(e) => Err(e),
        }
    }

    /// The canonical encoding of the share.
    pub fn serialize(&self) -> (r: [u8; 32])
        ensures
            r@ == self.encoding(),
            le_nat(r@) == self.value(),
            le_nat(r@) < group_order(),
    {
        self.share.serialize()
    }

    /// Writing and reading gives the value back: the encoding of a share
    /// is canonical, and only this share has it.
    pub proof fn lemma_encoding_round_trip(self, other: SignatureShare)
        requires
            self.value() < group_order(),
        ensures
            le_nat(self.encoding()) < group_order(),
            other.encoding() == self.encoding() ==> other == self,
    {
        if other.encoding() == self.encoding() {
            Scalar::lemma_encoding_injective(self.share, other.share);
        }
    }

    /// The share that is `scalar`.
    pub fn from_scalar(scalar: Scalar) -> (r: SignatureShare)
        ensures
            r.value() == scalar.value(),
    {
        SignatureShare { share: scalar }
    }

    /// The scalar that the share is.
    pub fn to_scalar(&self) -> (r: Scalar)
        ensures
            r.value() == self.value(),
    {
        self.share
    }

    /// Checks the share of the signer `identifier` against the signer's
    /// share of the group commitment and its public key:
    /// `InvalidSignatureShare`, naming the signer, where the basepoint
    /// multiplied by the share is not what these give.
    pub fn verify(
        &self,
        identifier: Identifier,
        group_commitment_share: &Element,
        verifying_share: &Public,
        lambda_i: Scalar,
        challenge: &Scalar,
    ) -> (r: Result<(), Error>)
        ensures
            match r {
                Ok(_) => self.value() == expected_share_value(
                    group_commitment_share.log(),
                    verifying_share.log(),
                    lambda_i.value(),
                    challenge.value(),
                ),
                Err(e) => self.value() != expected_share_value(
                    group_commitment_share.log(),
                    verifying_share.log(),
                    lambda_i.value(),
                    challenge.value(),
                ) && e == (Error::InvalidSignatureShare { culprit: identifier }),
            },
    {
        let left = Element::base_mul(&self.share);
        let right = group_commitment_share.add(
            &verifying_share.element.mul(challenge).mul(&lambda_i),
        );
        if !left.equals(&right) {
            return Err(Error::InvalidSignatureShare { culprit: identifier });
        }
        Ok(())
    }
}

/// Computes a signer's share of a signature from its nonces, its binding
/// factor, its Lagrange coefficient, its share of the secret and the
/// challenge.
pub fn compute_signature_share(
    signer_nonces: &SigningNonces,
    binding_factor: Scalar,
    lambda_i: Scalar,
    key_package: &KeyPackage,
    challenge: Scalar,
) -> (r: SignatureShare)
    ensures
        r.value() == signature_share_value(
            signer_nonces.hiding_value(),
            signer_nonces.binding_value(),
            binding_factor.value(),
            lambda_i.value(),
            key_package.share().value(),
            challenge.value(),
        ),
{
    let z_share = signer_nonces.hiding.add(&signer_nonces.binding.mul(&binding_factor)).add(
        &lambda_i.mul(&key_package.signing_share.scalar).mul(&challenge),
    );
    SignatureShare { share: z_share }
}

/// The binding factors of the package's signers, each in turn, for the
/// group's key and the package's tweak.
pub open(crate) spec fn package_binding_factors(
    package: SigningPackage,
    verifying_key: VerifyingKey,
) -> Seq<nat> {
    Seq::new(
        package.commitments@.len(),
        |i: int|
            binding_factor(
                package,
                verifying_key,
                package.tweak_bytes(),
                package.commitments@[i].identifier,
            ),
    )
}

/// The logarithm of the group commitment of a package.
pub open(crate) spec fn package_commitment_log(
    package: SigningPackage,
    verifying_key: VerifyingKey,
) -> nat {
    nonce_sum(package.commitments@, package_binding_factors(package, verifying_key))
}

/// The challenge of a package for the group's key.
pub open(crate) spec fn package_challenge(package: SigningPackage, verifying_key: VerifyingKey) -> nat {
    challenge_value(
        package_commitment_log(package, verifying_key),
        verifying_key,
        package.message@,
        package.tweak_bytes(),
    )
}

/// What signing comes to: the share of the signature, as a residue, or
/// the reason for which there is none.
pub open(crate) spec fn sign_outcome(
    package: SigningPackage,
    nonces: SigningNonces,
    key_package: KeyPackage,
) -> Result<nat, Error> {
    if package.commitments@.len() < key_package.min_signers {
        Err(Error::IncorrectNumberOfCommitments)
    } else {
        match lookup_commitment(package.commitments@, key_package.identifier.value()) {
            None => Err(Error::MissingCommitment),
            Some(c) => if c != nonces.commitments {
                Err(Error::IncorrectCommitment)
            } else if package_commitment_log(package, key_package.verifying_key) == 0 {
                Err(Error::InvalidGroupCommitment)
            } else {
                Ok(
                    signature_share_value(
                        nonces.hiding.value(),
                        nonces.binding.value(),
                        binding_factor(
                            package,
                            key_package.verifying_key,
                            package.tweak_bytes(),
                            key_package.identifier,
                        ),
                        lagrange_coefficient(
                            signer_values(package.commitments@),
                            key_package.identifier.value(),
                        ),
                        key_package.signing_share.value(),
                        package_challenge(package, key_package.verifying_key),
                    ),
                )
            },
        }
    }
}

/// The binding factors that a package's own list has for its signers are
/// the package's binding factors.
pub(crate) proof fn lemma_aligned_package_factors(
    entries: Seq<(Identifier, Scalar)>,
    package: SigningPackage,
    verifying_key: VerifyingKey,
)
    requires
        are_binding_factors(entries, package, verifying_key, package.tweak_bytes()),
        ascending_package(package),
    ensures
        all_have_factors(package.commitments@, entries),
        aligned_factors(package.commitments@, entries) == package_binding_factors(
            package,
            verifying_key,
        ),
{
    let commitments = package.commitments@;
    assert forall|i: int| 0 <= i < commitments.len() implies lookup_factor(
        entries,
        (#[trigger] commitments[i]).identifier.value(),
    ) == Some(entries[i].1) by {
        assert forall|j: int| 0 <= j < entries.len() implies (#[trigger] entries[j]).0
            == commitments[j].holder() by {}
        lemma_lookup_aligned(entries, commitments, i);
    }
    assert(aligned_factors(commitments, entries) =~= package_binding_factors(
        package,
        verifying_key,
    ));
}

/// The package's commitments are in the order of their identifiers.
pub open(crate) spec fn ascending_package(package: SigningPackage) -> bool {
    crate::signing_package::ascending(package.commitments@)
}

/// Produces a signer's share of the signature on the package's message.
/// The nonces are taken: they serve for one signature.
///
/// `IncorrectNumberOfCommitments` where the package has fewer commitments
/// than the threshold; `MissingCommitment` where it has none of this
/// signer; `IncorrectCommitment` where that is not the commitment to the
/// signer's nonces; `InvalidGroupCommitment` where the group commitment is
/// the identity. A signer that has its share has found an inverse of every
/// difference that its Lagrange coefficient divides by.
pub fn sign(
    signing_package: &SigningPackage,
    signer_nonces: SigningNonces,
    key_package: &KeyPackage,
) -> (r: Result<SignatureShare, Error>)
    ensures
        match r {
            Ok(share) => sign_outcome(*signing_package, signer_nonces, *key_package) == Ok::<
                nat,
                Error,
            >(share.value()),
            Err(e) => sign_outcome(*signing_package, signer_nonces, *key_package) == Err::<
                nat,
                Error,
            >(e),
        },
        signing_package.signers().len() < key_package.threshold() ==> r == Err::<
            SignatureShare,
            Error,
        >(Error::IncorrectNumberOfCommitments),
        r is Ok ==> divisors_have_inverses(
            signer_values(signing_package.signers()),
            key_package.holder().value(),
        ),
{
    proof {
        use_type_invariant(signing_package);
    }
    if signing_package.commitments.len() < key_package.min_signers as usize {
        return Err(Error::IncorrectNumberOfCommitments);
    }
    // The signer's commitment must be in the package.
    let commitment = match signing_package.signing_commitment(&key_package.identifier) {
        Some(commitment) => commitment,
        None => {
            return Err(Error::MissingCommitment);
        },
    };
    // It must be the commitment to the nonces that the signer holds.
    if !signer_nonces.commitments.equals(&commitment) {
        return Err(Error::IncorrectCommitment);
    }
    let binding_factor_list = compute_binding_factor_list(
        signing_package,
        &key_package.verifying_key,
        signing_package.additional_tweak_as_slice(),
    );
    proof {
        lemma_aligned_package_factors(
            binding_factor_list.factors(),
            *signing_package,
            key_package.verifying_key,
        );
        lemma_lookup_commitment(signing_package.signers(), key_package.identifier.value());
        let k = choose|k: int|
            0 <= k < signing_package.signers().len() && signing_package.signers()[k].holder().value()
                == key_package.identifier.value();
        assert forall|j: int| 0 <= j < binding_factor_list.factors().len() implies (
        #[trigger] binding_factor_list.factors()[j]).0 == signing_package.signers()[j].holder() by {}
        lemma_lookup_aligned(binding_factor_list.factors(), signing_package.signers(), k);
        Identifier::lemma_value_injective(
            signing_package.signers()[k].holder(),
            key_package.identifier,
        );
    }
    let binding_factor = match binding_factor_list.get(&key_package.identifier) {
        Some(factor) => factor,
        None => {
            assert(false);
            return Err(Error::UnknownIdentifier);
        },
    };
    let group_commitment = match compute_group_commitment(signing_package, &binding_factor_list) {
        Ok(group_commitment) => group_commitment,
        Err(e) => {
            return Err(e);
        },
    };
    let lambda_i = match derive_interpolating_value(&key_package.identifier, signing_package) {
        Ok(lambda_i) => lambda_i,
        Err(e) => {
            assert(false);
            return Err(e);
        },
    };
    let challenge = challenge(
        &group_commitment,
        &key_package.verifying_key,
        signing_package.message.as_slice(),
        signing_package.additional_tweak_as_slice(),
    );
    let signature_share = compute_signature_share(
        &signer_nonces,
        binding_factor,
        lambda_i,
        key_package,
        challenge,
    );
    Ok(signature_share)
}

} // verus!
