//! The binding factors of a signing package and the group commitment that
//! they give.

use vstd::prelude::*;
use crate::element::Element;
use crate::error::Error;
use crate::field::{fadd, fmul};
use crate::hash::{h1, h1_spec, h4, h4_spec, h5, h5_spec};
use crate::identifier::Identifier;
use crate::keys::{distinct, entries_distinct, entry_values, VerifyingKey};
use crate::round1::SigningCommitments;
use crate::scalar::Scalar;
use crate::signing_package::{ascending, SigningPackage};

verus! {

/// The encoding of one signer's commitments: the identifier, the hiding
/// commitment, the binding commitment.
pub open(crate) spec fn encode_commitment(c: SigningCommitments) -> Seq<u8> {
    c.identifier.encoding() + c.hiding.encoding() + c.binding.encoding()
}

/// The encoding of a list of commitments: those of each signer in turn,
/// with nothing between them.
pub open(crate) spec fn encode_group_commitments(commitments: Seq<SigningCommitments>) -> Seq<u8>
    decreases commitments.len(),
{
    if commitments.len() == 0 {
        Seq::empty()
    } else {
        encode_group_commitments(commitments.drop_last()) + encode_commitment(commitments.last())
    }
}

/// Encodes a list of commitments, in the order in which it is given.
pub fn encode_group_commitment_list(commitments: &Vec<SigningCommitments>) -> (r: Vec<u8>)
    ensures
        r@ == encode_group_commitments(commitments@),
{
    let mut encoded: Vec<u8> = Vec::new();
    let mut k: usize = 0;
    assert(commitments@.take(0) =~= Seq::empty());
    while k < commitments.len()
        invariant
            k <= commitments.len(),
            encoded@ == encode_group_commitments(commitments@.take(k as int)),
        decreases commitments.len() - k,
    {
        let c = commitments[k];
        let identifier = c.identifier.serialize();
        let hiding = c.hiding.serialize();
        let binding = c.binding.serialize();
        let ghost before = encoded@;
        encoded.extend_from_slice(identifier.as_slice());
        encoded.extend_from_slice(hiding.as_slice());
        encoded.extend_from_slice(binding.as_slice());
        proof {
            assert(commitments@.take(k + 1).drop_last() =~= commitments@.take(k as int));
            assert(commitments@.take(k + 1).last() == c);
            assert(encoded@ =~= before + encode_commitment(c));
        }
        k = k + 1;
    }
    assert(commitments@.take(k as int) =~= commitments@);
    encoded
}

/// What opens the hash input of every binding factor of a package: the
/// group's key, the digest of the message, the digest of the encoded
/// commitments, and a further prefix.
pub open(crate) spec fn binding_factor_prefix(
    package: SigningPackage,
    verifying_key: VerifyingKey,
    additional_prefix: Seq<u8>,
) -> Seq<u8> {
    verifying_key.element.encoding() + h4_spec(package.message@) + h5_spec(
        encode_group_commitments(package.commitments@),
    ) + additional_prefix
}

/// The binding factor of a signer: the hash of the prefix and the signer's
/// identifier.
pub open(crate) spec fn binding_factor(
    package: SigningPackage,
    verifying_key: VerifyingKey,
    additional_prefix: Seq<u8>,
    identifier: Identifier,
) -> nat {
    h1_spec(binding_factor_prefix(package, verifying_key, additional_prefix) + identifier.encoding())
}

/// The binding factor that `entries` has for the signer of value
/// `identifier`: that of the first entry for it.
pub open(crate) spec fn lookup_factor(entries: Seq<(Identifier, Scalar)>, identifier: nat) -> Option<
    Scalar,
>
    decreases entries.len(),
{
    if entries.len() == 0 {
        None
    } else if entries[0].0.value() == identifier {
        Some(entries[0].1)
    } else {
        lookup_factor(entries.skip(1), identifier)
    }
}

/// The binding factors of some signers, each signer once.
pub struct BindingFactorList {
    pub(crate) entries: Vec<(Identifier, Scalar)>,
}

impl BindingFactorList {
    #[verifier::type_invariant]
    pub open(crate) spec fn each_once(self) -> bool {
        distinct(entry_values(self.entries@))
    }

    /// The signers with their binding factors.
    pub open(crate) spec fn factors(self) -> Seq<(Identifier, Scalar)> {
        self.entries@
    }

    /// A list of these binding factors; `DuplicatedIdentifier` where a
    /// signer occurs twice.
    pub fn new(entries: Vec<(Identifier, Scalar)>) -> (r: Result<BindingFactorList, Error>)
        ensures
            match r {
                Ok(list) => distinct(entry_values(entries@)) && list.factors() == entries@,
                Err(e) => !distinct(entry_values(entries@)) && e == Error::DuplicatedIdentifier,
            },
    {
        if !entries_distinct(&entries) {
            return Err(Error::DuplicatedIdentifier);
        }
        Ok(BindingFactorList { entries })
    }

    /// The binding factor of a signer, if the list has one for it.
    pub fn get(&self, identifier: &Identifier) -> (r: Option<Scalar>)
        ensures
            r == lookup_factor(self.factors(), identifier.value()),
    {
        let mut i: usize = 0;
        assert(self.factors().skip(0) =~= self.factors());
        while i < self.entries.len()
            invariant
                i <= self.entries.len(),
                lookup_factor(self.factors(), identifier.value()) == lookup_factor(
                    self.factors().skip(i as int),
                    identifier.value(),
                ),
            decreases self.entries.len() - i,
        {
            let entry = self.entries[i];
            proof {
                assert(self.factors().skip(i as int)[0] == entry);
                assert(self.factors().skip(i as int).skip(1) =~= self.factors().skip(i + 1));
            }
            if entry.0.equals(identifier) {
                return Some(entry.1);
            }
            i = i + 1;
        }
        None
    }
}

/// `entries` are the binding factors of the package's signers, one each
/// and in their order.
pub open(crate) spec fn are_binding_factors(
    entries: Seq<(Identifier, Scalar)>,
    package: SigningPackage,
    verifying_key: VerifyingKey,
    additional_prefix: Seq<u8>,
) -> bool {
    &&& entries.len() == package.commitments@.len()
    &&& forall|i: int|
        0 <= i < entries.len() ==> {
            &&& (#[trigger] entries[i]).0 == package.commitments@[i].identifier
            &&& entries[i].1.value() == binding_factor(
                package,
                verifying_key,
                additional_prefix,
                package.commitments@[i].identifier,
            )
        }
}

/// Where the entries follow signers in the order of their identifiers, each
/// signer's factor is found in its own entry.
pub proof fn lemma_lookup_aligned(
    entries: Seq<(Identifier, Scalar)>,
    commitments: Seq<SigningCommitments>,
    i: int,
)
    requires
        entries.len() == commitments.len(),
        forall|j: int| 0 <= j < entries.len() ==> (#[trigger] entries[j]).0 == commitments[j].holder(),
        ascending(commitments),
        0 <= i < entries.len(),
    ensures
        lookup_factor(entries, commitments[i].holder().value()) == Some(entries[i].1),
    decreases i,
{
    if i > 0 {
        assert(entries[0].0 == commitments[0].holder());
        assert(commitments[0].holder().value() < commitments[i].holder().value());
        let rest = entries.skip(1);
        let others = commitments.skip(1);
        assert forall|j: int| 0 <= j < rest.len() implies (#[trigger] rest[j]).0
            == others[j].holder() by {
            assert(entries[j + 1].0 == commitments[j + 1].holder());
        }
        assert forall|a: int, b: int| 0 <= a < b < others.len() implies others[a].holder().value()
            < others[b].holder().value() by {
            assert(commitments[a + 1].holder().value() < commitments[b + 1].holder().value());
        }
        lemma_lookup_aligned(rest, others, i - 1);
    } else {
        assert(entries[0].0 == commitments[0].holder());
    }
}

/// Computes the binding factor of every signer of the package.
pub fn compute_binding_factor_list(
    signing_package: &SigningPackage,
    verifying_key: &VerifyingKey,
    additional_prefix: &[u8],
) -> (r: BindingFactorList)
    ensures
        are_binding_factors(r.factors(), *signing_package, *verifying_key, additional_prefix@),
{
    let key = verifying_key.element.serialize();
    let message_digest = h4(signing_package.message.as_slice());
    let encoded = encode_group_commitment_list(&signing_package.commitments);
    let commitments_digest = h5(encoded.as_slice());
    let mut prefix: Vec<u8> = Vec::new();
    prefix.extend_from_slice(key.as_slice());
    prefix.extend_from_slice(message_digest.as_slice());
    prefix.extend_from_slice(commitments_digest.as_slice());
    prefix.extend_from_slice(additional_prefix);
    assert(prefix@ =~= binding_factor_prefix(
        *signing_package,
        *verifying_key,
        additional_prefix@,
    ));
    let mut entries: Vec<(Identifier, Scalar)> = Vec::new();
    let mut k: usize = 0;
    while k < signing_package.commitments.len()
        invariant
            k <= signing_package.commitments.len(),
            prefix@ == binding_factor_prefix(*signing_package, *verifying_key, additional_prefix@),
            entries.len() == k,
            forall|i: int|
                0 <= i < k ==> {
                    &&& (#[trigger] entries[i]).0 == signing_package.commitments@[i].identifier
                    &&& entries[i].1.value() == binding_factor(
                        *signing_package,
                        *verifying_key,
                        additional_prefix@,
                        signing_package.commitments@[i].identifier,
                    )
                },
        decreases signing_package.commitments.len() - k,
    {
        let identifier = signing_package.commitments[k].identifier;
        let encoded_identifier = identifier.serialize();
        let mut input: Vec<u8> = Vec::new();
        input.extend_from_slice(prefix.as_slice());
        input.extend_from_slice(encoded_identifier.as_slice());
        assert(input@ =~= prefix@ + identifier.encoding());
        let factor = h1(input.as_slice());
        entries.push((identifier, factor));
        k = k + 1;
    }
    proof {
        use_type_invariant(signing_package);
        assert forall|a: int, b: int| 0 <= a < b < entries@.len() implies entry_values(entries@)[a]
            != entry_values(entries@)[b] by {
            assert(entries[a].0 == signing_package.commitments@[a].identifier);
            assert(entries[b].0 == signing_package.commitments@[b].identifier);
            assert(signing_package.commitments@[a].holder().value()
                < signing_package.commitments@[b].holder().value());
        }
    }
    BindingFactorList { entries }
}

/// One signer's share of the group commitment, as a logarithm: the hiding
/// nonce and the binding nonce multiplied by the binding factor.
pub open(crate) spec fn commitment_share_log(c: SigningCommitments, rho: nat) -> nat {
    fadd(c.hiding.log(), fmul(c.binding.log(), rho))
}

/// The sum of the signers' shares of the group commitment, as a
/// logarithm, where `rhos` holds the binding factor of each in turn.
pub open(crate) spec fn nonce_sum(commitments: Seq<SigningCommitments>, rhos: Seq<nat>) -> nat
    decreases commitments.len(),
{
    if commitments.len() == 0 {
        0
    } else {
        fadd(
            nonce_sum(commitments.drop_last(), rhos.drop_last()),
            commitment_share_log(commitments.last(), rhos.last()),
        )
    }
}

/// The residue that `entries` has as the binding factor of the signer of
/// value `identifier`; zero where it has none.
pub open(crate) spec fn factor_value(entries: Seq<(Identifier, Scalar)>, identifier: nat) -> nat {
    match lookup_factor(entries, identifier) {
        Some(s) => s.value(),
        None => 0,
    }
}

/// The binding factors that `entries` has for the signers, each in turn.
pub open(crate) spec fn aligned_factors(
    commitments: Seq<SigningCommitments>,
    entries: Seq<(Identifier, Scalar)>,
) -> Seq<nat> {
    Seq::new(commitments.len(), |i: int| factor_value(entries, commitments[i].identifier.value()))
}

/// `entries` has a binding factor for every signer.
pub open(crate) spec fn all_have_factors(
    commitments: Seq<SigningCommitments>,
    entries: Seq<(Identifier, Scalar)>,
) -> bool {
    forall|i: int|
        0 <= i < commitments.len() ==> lookup_factor(
            entries,
            (#[trigger] commitments[i]).identifier.value(),
        ) is Some
}

impl SigningCommitments {
    /// The signer's share of the group commitment: the hiding commitment
    /// and the binding commitment multiplied by the binding factor.
    pub fn to_group_commitment_share(&self, binding_factor: &Scalar) -> (r: Element)
        ensures
            r.log() == commitment_share_log(*self, binding_factor.value()),
    {
        self.hiding.add(&self.binding.mul(binding_factor))
    }
}

/// Computes the group commitment: the sum of the signers' shares of it.
/// `UnknownIdentifier` where the list has no binding factor for a signer,
/// `InvalidGroupCommitment` where the sum is the identity.
pub fn compute_group_commitment(
    signing_package: &SigningPackage,
    binding_factor_list: &BindingFactorList,
) -> (r: Result<Element, Error>)
    ensures
        match r {
            Ok(e) => {
                &&& all_have_factors(signing_package.signers(), binding_factor_list.factors())
                &&& e.log() == nonce_sum(
                    signing_package.signers(),
                    aligned_factors(signing_package.signers(), binding_factor_list.factors()),
                )
                &&& e.log() != 0
            },
            Err(e) => if !all_have_factors(
                signing_package.signers(),
                binding_factor_list.factors(),
            ) {
                e == Error::UnknownIdentifier
            } else {
                nonce_sum(
                    signing_package.signers(),
                    aligned_factors(signing_package.signers(), binding_factor_list.factors()),
                ) == 0 && e == Error::InvalidGroupCommitment
            },
        },
{
    let ghost commitments = signing_package.signers();
    let ghost rhos = aligned_factors(commitments, binding_factor_list.factors());
    let mut sum = Element::identity();
    let mut k: usize = 0;
    assert(commitments.take(0) =~= Seq::empty());
    while k < signing_package.commitments.len()
        invariant
            k <= signing_package.commitments.len(),
            commitments == signing_package.signers(),
            rhos == aligned_factors(commitments, binding_factor_list.factors()),
            sum.log() == nonce_sum(commitments.take(k as int), rhos.take(k as int)),
            forall|i: int|
                0 <= i < k ==> lookup_factor(
                    binding_factor_list.factors(),
                    (#[trigger] commitments[i]).identifier.value(),
                ) is Some,
        decreases signing_package.commitments.len() - k,
    {
        let c = signing_package.commitments[k];
        let factor = match binding_factor_list.get(&c.identifier) {
            Some(factor) => factor,
            None => {
                assert(lookup_factor(
                    binding_factor_list.factors(),
                    commitments[k as int].identifier.value(),
                ) is None);
                return Err(Error::UnknownIdentifier);
            },
        };
        let share = c.to_group_commitment_share(&factor);
        proof {
            assert(commitments.take(k + 1).drop_last() =~= commitments.take(k as int));
            assert(rhos.take(k + 1).drop_last() =~= rhos.take(k as int));
            assert(commitments.take(k + 1).last() == c);
            assert(rhos.take(k + 1).last() == factor.value());
        }
        sum = sum.add(&share);
        k = k + 1;
    }
    proof {
        assert(commitments.take(k as int) =~= commitments);
        assert(rhos.take(k as int) =~= rhos);
    }
    if sum.is_identity() {
        return Err(Error::InvalidGroupCommitment);
    }
    Ok(sum)
}

} // verus!
