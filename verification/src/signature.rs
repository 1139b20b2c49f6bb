//! Signatures: how the coordinator puts the shares together, and how a
//! signature and a share of one are checked.

use vstd::prelude::*;
use crate::binding::{
    are_binding_factors, binding_factor, commitment_share_log, compute_binding_factor_list,
    compute_group_commitment, BindingFactorList,
};
use crate::challenge::{challenge, challenge_value};
use crate::element::Element;
use crate::error::Error;
use crate::field::{fadd, fmul};
use crate::identifier::Identifier;
use crate::keys::{lookup_public, Public, PublicKeyPackage, VerifyingKey};
use crate::lagrange::{derive_interpolating_value, lagrange_coefficient, signer_values};
use crate::round1::SigningCommitments;
use crate::round2::{
    ascending_package, expected_share_value, lemma_aligned_package_factors, package_challenge,
    package_commitment_log, SignatureShare,
};
use crate::scalar::Scalar;
use crate::signing_package::{lemma_lookup_commitment, lookup_commitment, SigningPackage};

verus! {

/// A Schnorr signature: the group commitment and the response.
#[derive(Clone, Copy, Debug, PartialEq, Eq)]
pub struct Signature {
    pub(crate) group_commitment: Element,
    pub(crate) z: Scalar,
}

impl Signature {
    /// The group commitment.
    pub open(crate) spec fn commitment(self) -> Element {
        self.group_commitment
    }

    /// The response, as a residue.
    pub open(crate) spec fn response(self) -> nat {
        self.z.value()
    }

    /// The signature of this commitment and this response.
    pub fn new(group_commitment: Element, z: Scalar) -> (r: Signature)
        ensures
            r.commitment() == group_commitment,
            r.response() == z.value(),
    {
        Signature { group_commitment, z }
    }

    /// The group commitment.
    pub fn group_commitment(&self) -> (r: Element)
        ensures
            r == self.commitment(),
    {
        self.group_commitment
    }

    /// The response.
    pub fn z(&self) -> (r: Scalar)
        ensures
            r.value() == self.response(),
    {
        self.z
    }
}

/// The basepoint multiplied by the response is the commitment and the
/// group's key multiplied by the challenge; in logarithms, `z = r + c * y`.
pub open(crate) spec fn signature_valid(
    verifying_key: VerifyingKey,
    message: Seq<u8>,
    tweak: Seq<u8>,
    signature: Signature,
) -> bool {
    signature.z.value() == fadd(
        signature.group_commitment.log(),
        fmul(
            challenge_value(signature.group_commitment.log(), verifying_key, message, tweak),
            verifying_key.element.log(),
        ),
    )
}

/// Checks a signature on a message under a tweak, which may be empty.
pub fn verify_signature(
    verifying_key: &VerifyingKey,
    message: &[u8],
    additional_tweak: &[u8],
    signature: &Signature,
) -> (r: Result<(), Error>)
    ensures
        r is Ok <==> signature_valid(*verifying_key, message@, additional_tweak@, *signature),
        r is Err ==> r->Err_0 == Error::InvalidSignature,
{
    let c = challenge(&signature.group_commitment, verifying_key, message, additional_tweak);
    let left = Element::base_mul(&signature.z);
    let right = signature.group_commitment.add(&verifying_key.element.mul(&c));
    proof {
        crate::field::lemma_fmul_comm(verifying_key.element.log(), c.value());
    }
    if !left.equals(&right) {
        return Err(Error::InvalidSignature);
    }
    Ok(())
}

impl VerifyingKey {
    /// Checks a signature on a message: `InvalidSignature` where the
    /// basepoint multiplied by the response is not the commitment and the
    /// key multiplied by the challenge.
    pub fn verify(&self, message: &[u8], signature: &Signature) -> (r: Result<(), Error>)
        ensures
            r is Ok <==> signature_valid(*self, message@, Seq::empty(), *signature),
            r is Err ==> r->Err_0 == Error::InvalidSignature,
    {
        let empty: [u8; 0] = [];
        assert(empty@ =~= Seq::<u8>::empty());
        verify_signature(self, message, empty.as_slice(), signature)
    }
}

/// The binding factors, the group commitment and the challenge of a
/// package; `InvalidGroupCommitment` where the commitment is the identity.
pub(crate) fn package_values(signing_package: &SigningPackage, verifying_key: &VerifyingKey) -> (r:
    Result<(BindingFactorList, Element, Scalar), Error>)
    ensures
        r is Ok ==> are_binding_factors(
            r->Ok_0.0.factors(),
            *signing_package,
            *verifying_key,
            signing_package.tweak_bytes(),
        ),
        r is Ok ==> r->Ok_0.1.log() == package_commitment_log(*signing_package, *verifying_key),
        r is Ok ==> r->Ok_0.2.value() == package_challenge(*signing_package, *verifying_key),
        r is Ok <==> package_commitment_log(*signing_package, *verifying_key) != 0,
        r is Err ==> r->Err_0 == Error::InvalidGroupCommitment,
{
    proof {
        use_type_invariant(signing_package);
    }
    let list = compute_binding_factor_list(
        signing_package,
        verifying_key,
        signing_package.additional_tweak_as_slice(),
    );
    proof {
        lemma_aligned_package_factors(list.factors(), *signing_package, *verifying_key);
    }
    let group_commitment = match compute_group_commitment(signing_package, &list) {
        Ok(group_commitment) => group_commitment,
        Err(e) => {
            return Err(e);
        },
    };
    let c = challenge(
        &group_commitment,
        verifying_key,
        signing_package.message.as_slice(),
        signing_package.additional_tweak_as_slice(),
    );
    Ok((list, group_commitment, c))
}

/// The share `share_value` is what the signer of the commitments `c`, with
/// the public key of logarithm `public_log`, owes on the package.
pub open(crate) spec fn share_accepted(
    package: SigningPackage,
    verifying_key: VerifyingKey,
    c: SigningCommitments,
    public_log: nat,
    share_value: nat,
) -> bool {
    share_value == expected_share_value(
        commitment_share_log(
            c,
            binding_factor(package, verifying_key, package.tweak_bytes(), c.identifier),
        ),
        public_log,
        lagrange_coefficient(signer_values(package.commitments@), c.identifier.value()),
        package_challenge(package, verifying_key),
    )
}

/// What the check of a signer's share comes to.
pub open(crate) spec fn share_outcome(
    package: SigningPackage,
    verifying_key: VerifyingKey,
    identifier: Identifier,
    public_log: nat,
    share_value: nat,
) -> Result<(), Error> {
    match lookup_commitment(package.commitments@, identifier.value()) {
        None => Err(Error::UnknownIdentifier),
        Some(c) => if package_commitment_log(package, verifying_key) == 0 {
            Err(Error::InvalidGroupCommitment)
        } else if share_accepted(package, verifying_key, c, public_log, share_value) {
            Ok(())
        } else {
            Err(Error::InvalidSignatureShare { culprit: identifier })
        },
    }
}

/// Checks the share of one signer against the package and the signer's
/// public key. `UnknownIdentifier` where the signer has no commitment in
/// the package, `InvalidGroupCommitment` where the group commitment is the
/// identity, `InvalidSignatureShare`, naming the signer, where the share is
/// not what the signer owes.
pub fn verify_signature_share(
    identifier: Identifier,
    verifying_share: &Public,
    signature_share: &SignatureShare,
    signing_package: &SigningPackage,
    verifying_key: &VerifyingKey,
) -> (r: Result<(), Error>)
    ensures
        match r {
            Ok(_) => share_outcome(
                *signing_package,
                *verifying_key,
                identifier,
                verifying_share.log(),
                signature_share.value(),
            ) is Ok,
            Err(e) => share_outcome(
                *signing_package,
                *verifying_key,
                identifier,
                verifying_share.log(),
                signature_share.value(),
            ) == Err::<(), Error>(e),
        },
{
    proof {
        use_type_invariant(signing_package);
    }
    let commitment = match signing_package.signing_commitment(&identifier) {
        Some(commitment) => commitment,
        None => {
            return Err(Error::UnknownIdentifier);
        },
    };
    let (list, _group_commitment, c) = match package_values(signing_package, verifying_key) {
        Ok(values) => values,
        Err(e) => {
            return Err(e);
        },
    };
    proof {
        lemma_lookup_commitment(signing_package.signers(), identifier.value());
        let k = choose|k: int|
            0 <= k < signing_package.signers().len() && signing_package.signers()[k].holder().value()
                == identifier.value();
        assert forall|j: int| 0 <= j < list.factors().len() implies (#[trigger] list.factors()[j]).0
            == signing_package.signers()[j].holder() by {}
        crate::binding::lemma_lookup_aligned(list.factors(), signing_package.signers(), k);
        Identifier::lemma_value_injective(signing_package.signers()[k].holder(), identifier);
        Identifier::lemma_value_injective(commitment.holder(), identifier);
    }
    let rho = match list.get(&identifier) {
        Some(rho) => rho,
        None => {
            assert(false);
            return Err(Error::UnknownIdentifier);
        },
    };
    let lambda_i = match derive_interpolating_value(&identifier, signing_package) {
        Ok(lambda_i) => lambda_i,
        Err(e) => {
            assert(false);
            return Err(e);
        },
    };
    let commitment_share = commitment.to_group_commitment_share(&rho);
    signature_share.verify(identifier, &commitment_share, verifying_share, lambda_i, &c)
}

/// The share that `shares` has of the signer of value `identifier`: the
/// first of that signer.
pub open(crate) spec fn lookup_share(shares: Seq<(Identifier, SignatureShare)>, identifier: nat) -> Option<
    SignatureShare,
>
    decreases shares.len(),
{
    if shares.len() == 0 {
        None
    } else if shares[0].0.value() == identifier {
        Some(shares[0].1)
    } else {
        lookup_share(shares.skip(1), identifier)
    }
}

/// Finds the share of a signer.
fn find_share(shares: &Vec<(Identifier, SignatureShare)>, identifier: &Identifier) -> (r: Option<
    SignatureShare,
>)
    ensures
        r == lookup_share(shares@, identifier.value()),
{
    let mut i: usize = 0;
    assert(shares@.skip(0) =~= shares@);
    while i < shares.len()
        invariant
            i <= shares.len(),
            lookup_share(shares@, identifier.value()) == lookup_share(
                shares@.skip(i as int),
                identifier.value(),
            ),
        decreases shares.len() - i,
    {
        let entry = shares[i];
        proof {
            assert(shares@.skip(i as int)[0] == entry);
            assert(shares@.skip(i as int).skip(1) =~= shares@.skip(i + 1));
        }
        if entry.0.equals(identifier) {
            return Some(entry.1);
        }
        i = i + 1;
    }
    None
}

/// Every signer of the package has a share among `shares` and a public key
/// among `pubkeys`.
pub open(crate) spec fn all_have_material(
    commitments: Seq<SigningCommitments>,
    shares: Seq<(Identifier, SignatureShare)>,
    pubkeys: Seq<(Identifier, Public)>,
) -> bool {
    forall|i: int|
        0 <= i < commitments.len() ==> {
            &&& lookup_share(shares, (#[trigger] commitments[i]).identifier.value()) is Some
            &&& lookup_public(pubkeys, commitments[i].identifier.value()) is Some
        }
}

/// The value of the share of the `i`-th signer of the package.
pub open(crate) spec fn share_value_of(
    commitments: Seq<SigningCommitments>,
    shares: Seq<(Identifier, SignatureShare)>,
    i: int,
) -> nat {
    match lookup_share(shares, commitments[i].identifier.value()) {
        Some(s) => s.value(),
        None => 0,
    }
}

/// The logarithm of the public key of the `i`-th signer of the package.
pub open(crate) spec fn public_log_of(
    commitments: Seq<SigningCommitments>,
    pubkeys: Seq<(Identifier, Public)>,
    i: int,
) -> nat {
    match lookup_public(pubkeys, commitments[i].identifier.value()) {
        Some(p) => p.log(),
        None => 0,
    }
}

/// The sum of the shares of the first `n` signers of the package.
pub open(crate) spec fn share_sum(
    commitments: Seq<SigningCommitments>,
    shares: Seq<(Identifier, SignatureShare)>,
    n: int,
) -> nat
    decreases n,
{
    if n <= 0 {
        0
    } else {
        fadd(share_sum(commitments, shares, n - 1), share_value_of(commitments, shares, n - 1))
    }
}

/// The share of the `i`-th signer of the package is not what that signer
/// owes.
pub open(crate) spec fn rejected(
    package: SigningPackage,
    shares: Seq<(Identifier, SignatureShare)>,
    pubkeys: PublicKeyPackage,
    i: int,
) -> bool {
    !share_accepted(
        package,
        pubkeys.group_public,
        package.commitments@[i],
        public_log_of(package.commitments@, pubkeys.signer_pubkeys@, i),
        share_value_of(package.commitments@, shares, i),
    )
}

/// The signature that the shares add up to: the group commitment of the
/// package, and the sum of the signers' shares.
pub open(crate) spec fn is_aggregate(
    signature: Signature,
    package: SigningPackage,
    shares: Seq<(Identifier, SignatureShare)>,
    pubkeys: PublicKeyPackage,
) -> bool {
    &&& signature.group_commitment.log() == package_commitment_log(package, pubkeys.group_public)
    &&& signature.z.value() == share_sum(package.commitments@, shares, package.commitments@.len() as int)
}

/// Puts the signers' shares together into a signature on the package's
/// message, and checks it against the group's key.
///
/// `UnknownIdentifier` where the shares are not as many as the package's
/// signers, or a signer has no share or no public key;
/// `InvalidGroupCommitment` where the group commitment is the identity;
/// where the signature does not verify, `InvalidSignatureShare`, naming the
/// first signer, in the order of the identifiers, whose share is not what
/// it owes, or `InvalidSignature` where there is none.
#[verifier::loop_isolation(false)]
pub fn aggregate(
    signing_package: &SigningPackage,
    signature_shares: &Vec<(Identifier, SignatureShare)>,
    pubkeys: &PublicKeyPackage,
) -> (r: Result<Signature, Error>)
    ensures
        match r {
            Ok(signature) => {
                &&& signature_shares@.len() == signing_package.signers().len()
                &&& all_have_material(
                    signing_package.signers(),
                    signature_shares@,
                    pubkeys.entries(),
                )
                &&& package_commitment_log(*signing_package, pubkeys.group_key()) != 0
                &&& is_aggregate(signature, *signing_package, signature_shares@, *pubkeys)
                &&& signature_valid(
                    pubkeys.group_key(),
                    signing_package.message_bytes(),
                    signing_package.tweak_bytes(),
                    signature,
                )
            },
            Err(e) => if signature_shares@.len() != signing_package.signers().len()
                || !all_have_material(
                signing_package.signers(),
                signature_shares@,
                pubkeys.entries(),
            ) {
                e == Error::UnknownIdentifier
            } else if package_commitment_log(*signing_package, pubkeys.group_key()) == 0 {
                e == Error::InvalidGroupCommitment
            } else {
                &&& forall|signature: Signature|
                    is_aggregate(signature, *signing_package, signature_shares@, *pubkeys)
                        ==> !signature_valid(
                        pubkeys.group_key(),
                        signing_package.message_bytes(),
                        signing_package.tweak_bytes(),
                        signature,
                    )
                &&& match e {
                    Error::InvalidSignatureShare { culprit } => exists|i: int|
                        {
                            &&& 0 <= i < signing_package.signers().len()
                            &&& culprit == signing_package.signers()[i].holder()
                            &&& rejected(*signing_package, signature_shares@, *pubkeys, i)
                            &&& forall|j: int|
                                0 <= j < i ==> !rejected(
                                    *signing_package,
                                    signature_shares@,
                                    *pubkeys,
                                    j,
                                )
                        },
                    Error::InvalidSignature => forall|i: int|
                        0 <= i < signing_package.signers().len() ==> !rejected(
                            *signing_package,
                            signature_shares@,
                            *pubkeys,
                            i,
                        ),
                    _ => false,
                }
            },
        },
{
    proof {
        use_type_invariant(signing_package);
    }
    let ghost commitments = signing_package.signers();
    let n = signing_package.commitments.len();
    if signature_shares.len() != n {
        return Err(Error::UnknownIdentifier);
    }
    // Every signer needs a share and a public key.
    let mut material: Vec<(SignatureShare, Public)> = Vec::new();
    let mut k: usize = 0;
    while k < n
        invariant
            k <= n,
            n == signing_package.commitments.len(),
            commitments == signing_package.signers(),
            material.len() == k,
            forall|i: int|
                0 <= i < k ==> {
                    &&& lookup_share(
                        signature_shares@,
                        (#[trigger] commitments[i]).identifier.value(),
                    ) == Some(material[i].0)
                    &&& lookup_public(pubkeys.entries(), commitments[i].identifier.value())
                        == Some(material[i].1)
                },
        decreases n - k,
    {
        let identifier = signing_package.commitments[k].identifier;
        let share = match find_share(signature_shares, &identifier) {
            Some(share) => share,
            None => {
                assert(lookup_share(signature_shares@, commitments[k as int].identifier.value())
                    is None);
                return Err(Error::UnknownIdentifier);
            },
        };
        let public = match pubkeys.verifying_share(&identifier) {
            Some(public) => public,
            None => {
                assert(lookup_public(pubkeys.entries(), commitments[k as int].identifier.value())
                    is None);
                return Err(Error::UnknownIdentifier);
            },
        };
        material.push((share, public));
        k = k + 1;
    }
    assert(all_have_material(commitments, signature_shares@, pubkeys.entries()));
    let (list, group_commitment, c) = match package_values(signing_package, &pubkeys.group_public) {
        Ok(values) => values,
        Err(e) => {
            return Err(e);
        },
    };
    // The response is the sum of the shares.
    let mut z = Scalar::zero();
    let mut k: usize = 0;
    while k < n
        invariant
            k <= n,
            n == signing_package.commitments.len(),
            material.len() == n,
            commitments == signing_package.signers(),
            forall|i: int|
                0 <= i < n ==> lookup_share(
                    signature_shares@,
                    (#[trigger] commitments[i]).identifier.value(),
                ) == Some(material[i].0),
            z.value() == share_sum(commitments, signature_shares@, k as int),
        decreases n - k,
    {
        proof {
            assert(lookup_share(signature_shares@, commitments[k as int].identifier.value())
                == Some(material[k as int].0));
        }
        z = z.add(&material[k].0.share);
        k = k + 1;
    }
    let signature = Signature { group_commitment, z };
    assert(is_aggregate(signature, *signing_package, signature_shares@, *pubkeys));
    proof {
        assert forall|other: Signature|
            is_aggregate(other, *signing_package, signature_shares@, *pubkeys) implies (
        signature_valid(
            pubkeys.group_key(),
            signing_package.message_bytes(),
            signing_package.tweak_bytes(),
            other,
        ) == signature_valid(
            pubkeys.group_key(),
            signing_package.message_bytes(),
            signing_package.tweak_bytes(),
            signature,
        )) by {}
    }
    let verified = verify_signature(
        &pubkeys.group_public,
        signing_package.message.as_slice(),
        signing_package.additional_tweak_as_slice(),
        &signature,
    );
    if verified.is_ok() {
        return Ok(signature);
    }
    // The signature is wrong: find the first share that is.
    let mut k: usize = 0;
    while k < n
        invariant
            k <= n,
            n == signing_package.commitments.len(),
            material.len() == n,
            commitments == signing_package.signers(),
            ascending_package(*signing_package),
            are_binding_factors(
                list.factors(),
                *signing_package,
                pubkeys.group_key(),
                signing_package.tweak_bytes(),
            ),
            c.value() == package_challenge(*signing_package, pubkeys.group_key()),
            forall|i: int|
                0 <= i < n ==> {
                    &&& lookup_share(
                        signature_shares@,
                        (#[trigger] commitments[i]).identifier.value(),
                    ) == Some(material[i].0)
                    &&& lookup_public(pubkeys.entries(), commitments[i].identifier.value())
                        == Some(material[i].1)
                },
            forall|j: int|
                0 <= j < k ==> !rejected(*signing_package, signature_shares@, *pubkeys, j),
        decreases n - k,
    {
        let commitment = signing_package.commitments[k];
        let identifier = commitment.identifier;
        proof {
            assert(commitments[k as int] == commitment);
            assert(list.factors()[k as int].0 == commitment.identifier);
            assert(signing_package.signers()[k as int].holder().value() == identifier.value());
            lemma_lookup_commitment(signing_package.signers(), identifier.value());
        }
        let rho = list.entries[k].1;
        let lambda_i = match derive_interpolating_value(&identifier, signing_package) {
            Ok(lambda_i) => lambda_i,
            Err(e) => {
                assert(false);
                return Err(e);
            },
        };
        let commitment_share = commitment.to_group_commitment_share(&rho);
        let checked = material[k].0.verify(
            identifier,
            &commitment_share,
            &material[k].1,
            lambda_i,
            &c,
        );
        if checked.is_err() {
            assert(rejected(*signing_package, signature_shares@, *pubkeys, k as int));
            return Err(Error::InvalidSignatureShare { culprit: identifier });
        }
        assert(!rejected(*signing_package, signature_shares@, *pubkeys, k as int));
        k = k + 1;
    }
    Err(Error::InvalidSignature)
}

} // verus!
