//! Keys, shares of a secret, and their generation by a trusted dealer.

use vstd::prelude::*;
use crate::element::Element;
use crate::error::Error;
use crate::field::{fadd, fmul, group_order, lemma_residues};
use crate::identifier::Identifier;
use crate::polynomial::{
    evaluate_polynomial, lemma_poly_eval_bound, lemma_power_step, poly_eval, scalar_values,
};
use crate::scalar::Scalar;
use rand_core::{CryptoRng, RngCore};

verus! {

/// The value of a hexadecimal digit, or -1 for any other character.
pub open spec fn hex_digit_value(c: char) -> int {
    if '0' <= c && c <= '9' {
        c as int - 48
    } else if 'a' <= c && c <= 'f' {
        c as int - 87
    } else if 'A' <= c && c <= 'F' {
        c as int - 55
    } else {
        -1
    }
}

/// `text` writes `bytes` in hexadecimal digits, two to a byte.
pub open spec fn is_hex_of(text: Seq<char>, bytes: Seq<u8>) -> bool {
    &&& text.len() == 2 * bytes.len()
    &&& forall|i: int|
        0 <= i < bytes.len() ==> {
            &&& hex_digit_value(text[2 * i]) >= 0
            &&& hex_digit_value(text[2 * i + 1]) >= 0
            &&& #[trigger] bytes[i] == 16 * hex_digit_value(text[2 * i]) + hex_digit_value(
                text[2 * i + 1],
            )
        }
}

/// `hex`'s `decode_to_slice` into 32 bytes: the bytes that the text writes
/// in hexadecimal digits of either case, or nothing where it does not write
/// 32 bytes.
#[verifier::external_body]
fn hex_decode_32(text: &str) -> (r: Option<[u8; 32]>)
    ensures
        match r {
            Some(bytes) => is_hex_of(text@, bytes@),
            None => forall|bytes: Seq<u8>| bytes.len() == 32 ==> !is_hex_of(text@, bytes),
        },
{
    let mut bytes = [0u8; 32];
    match hex::decode_to_slice(text, &mut bytes) {
        Ok(()) => Some(bytes),
        Err(_) => None,
    }
}

/// A secret scalar: the group's secret, or a participant's share of it.
#[derive(Clone, Copy, PartialEq, Eq)]
pub struct Secret {
    pub(crate) scalar: Scalar,
}

impl Secret {
    /// The secret as a residue.
    pub open(crate) spec fn value(self) -> nat {
        self.scalar.value()
    }

    /// A secret chosen by `rng`.
    pub fn random<R: RngCore + CryptoRng>(rng: &mut R) -> (r: Secret)
        ensures
            r.value() < group_order(),
    {
        Secret { scalar: Scalar::random(rng) }
    }

    /// The secret that is `scalar`.
    pub fn from_scalar(scalar: Scalar) -> (r: Secret)
        ensures
            r.value() == scalar.value(),
            r.to_scalar() == scalar,
    {
        Secret { scalar }
    }

    /// Erases the secret: its bytes are overwritten with zeros, and the
    /// secret that is left is zero.
    pub fn erase(&mut self)
        ensures
            final(self).value() == 0,
    {
        self.scalar.erase();
    }

    /// The scalar that the secret is.
    pub open(crate) spec fn to_scalar(self) -> Scalar {
        self.scalar
    }

    /// The scalar that the secret is.
    pub fn scalar(&self) -> (r: Scalar)
        ensures
            r == self.to_scalar(),
    {
        self.scalar
    }

    /// The secret that `bytes` encode; `MalformedScalar` where they are no
    /// canonical encoding.
    pub fn try_from(bytes: [u8; 32]) -> (r: Result<Secret, Error>)
        ensures
            match r {
                Ok(s) => s.to_scalar().encoding() == bytes@ && crate::bytes::le_nat(bytes@)
                    < group_order(),
                Err(e) => crate::bytes::le_nat(bytes@) >= group_order() && e
                    == Error::MalformedScalar,
            },
    {
        match Scalar::deserialize(&bytes) {
            Ok(scalar) => Ok(Secret { scalar }),
            Err(e) => Err(e),
        }
    }

    /// The secret that `text` writes in 64 hexadecimal digits;
    /// `MalformedScalar` where it does not write the canonical encoding of a
    /// scalar.
    pub fn from_hex(text: &str) -> (r: Result<Secret, Error>)
        ensures
            match r {
                Ok(s) => is_hex_of(text@, s.to_scalar().encoding()),
                Err(e) => e == Error::MalformedScalar && forall|bytes: Seq<u8>|
                    bytes.len() == 32 && is_hex_of(text@, bytes) ==> crate::bytes::le_nat(bytes)
                        >= group_order(),
            },
    {
        match hex_decode_32(text) {
            Some(bytes) => {
                proof {
                    assert forall|other: Seq<u8>|
                        other.len() == 32 && is_hex_of(text@, other) implies other == bytes@ by {
                        assert forall|i: int| 0 <= i < 32 implies other[i] == bytes@[i] by {
                            assert(other[i] == 16 * hex_digit_value(text@[2 * i])
                                + hex_digit_value(text@[2 * i + 1]));
                            assert(bytes@[i] == 16 * hex_digit_value(text@[2 * i])
                                + hex_digit_value(text@[2 * i + 1]));
                        }
                        assert(other =~= bytes@);
                    }
                }
                Secret::try_from(bytes)
            },
            None => Err(Error::MalformedScalar),
        }
    }
}

/// A public group element: the basepoint multiplied by a secret.
#[derive(Clone, Copy, Debug, PartialEq, Eq)]
pub struct Public {
    pub(crate) element: Element,
}

impl Public {
    /// The residue by which the basepoint is multiplied to give this key.
    pub open(crate) spec fn log(self) -> nat {
        self.element.log()
    }

    /// The element that the key is.
    pub open(crate) spec fn to_element(self) -> Element {
        self.element
    }

    /// The public key that is `element`.
    pub fn from_element(element: Element) -> (r: Public)
        ensures
            r.to_element() == element,
    {
        Public { element }
    }

    /// The public key of `secret`: the basepoint multiplied by it.
    pub fn from_secret(secret: &Secret) -> (r: Public)
        ensures
            r.log() == secret.value(),
    {
        Public { element: Element::base_mul(&secret.scalar) }
    }

    /// The element that the key is.
    pub fn element(&self) -> (r: Element)
        ensures
            r == self.to_element(),
    {
        self.element
    }
}

/// The public key of the group: the basepoint multiplied by the group's
/// secret.
#[derive(Clone, Copy, Debug, PartialEq, Eq)]
pub struct VerifyingKey {
    pub(crate) element: Element,
}

impl VerifyingKey {
    /// The residue by which the basepoint is multiplied to give this key.
    pub open(crate) spec fn log(self) -> nat {
        self.element.log()
    }

    /// The element that the key is.
    pub open(crate) spec fn to_element(self) -> Element {
        self.element
    }

    /// The key that is `element`.
    pub fn from_element(element: Element) -> (r: VerifyingKey)
        ensures
            r.to_element() == element,
    {
        VerifyingKey { element }
    }

    /// The key of `secret`: the basepoint multiplied by it.
    pub fn from_secret(secret: &Secret) -> (r: VerifyingKey)
        ensures
            r.log() == secret.value(),
    {
        VerifyingKey { element: Element::base_mul(&secret.scalar) }
    }

    /// The element that the key is.
    pub fn element(&self) -> (r: Element)
        ensures
            r == self.to_element(),
    {
        self.element
    }
}

/// The residues by which the basepoint is multiplied to give the elements
/// of a sequence.
pub open spec fn element_logs(elements: Seq<Element>) -> Seq<nat> {
    elements.map_values(|e: Element| e.log())
}

/// The dealer's commitment to the polynomial that shares the secret: the
/// basepoint multiplied by each coefficient, from the constant term, which
/// is the secret, upwards.
#[derive(Clone, Debug, PartialEq, Eq)]
pub struct VerifiableSecretSharingCommitment {
    pub(crate) coefficients: Vec<Element>,
}

impl VerifiableSecretSharingCommitment {
    /// The coefficients that the commitment commits to.
    pub open(crate) spec fn logs(self) -> Seq<nat> {
        element_logs(self.coefficients@)
    }

    /// The elements of the commitment.
    pub open(crate) spec fn elements(self) -> Seq<Element> {
        self.coefficients@
    }

    /// The commitment that consists of these elements.
    pub fn from_elements(elements: Vec<Element>) -> (r: VerifiableSecretSharingCommitment)
        ensures
            r.elements() == elements@,
    {
        VerifiableSecretSharingCommitment { coefficients: elements }
    }

    /// The elements of the commitment.
    pub fn coefficients(&self) -> (r: &Vec<Element>)
        ensures
            r@ == self.elements(),
    {
        &self.coefficients
    }

    /// A copy of the commitment.
    pub fn duplicate(&self) -> (r: VerifiableSecretSharingCommitment)
        ensures
            r.elements() == self.elements(),
    {
        let mut coefficients: Vec<Element> = Vec::new();
        let mut k: usize = 0;
        while k < self.coefficients.len()
            invariant
                k <= self.coefficients.len(),
                coefficients@ == self.coefficients@.take(k as int),
            decreases self.coefficients.len() - k,
        {
            coefficients.push(self.coefficients[k]);
            assert(coefficients@ =~= self.coefficients@.take(k + 1));
            k = k + 1;
        }
        assert(coefficients@ =~= self.coefficients@);
        VerifiableSecretSharingCommitment { coefficients }
    }
}

/// One participant's share of the secret, with the dealer's commitment.
#[derive(Clone, PartialEq, Eq)]
pub struct SecretShare {
    pub(crate) identifier: Identifier,
    pub(crate) value: Secret,
    pub(crate) commitment: VerifiableSecretSharingCommitment,
}

impl SecretShare {
    /// The share is the value, at its identifier, of the polynomial that
    /// the commitment commits to: the basepoint multiplied by the share is
    /// the sum of the commitment's elements, each multiplied by the power of
    /// the identifier that belongs to it.
    pub open(crate) spec fn consistent(self) -> bool {
        self.value.value() == poly_eval(self.commitment.logs(), self.identifier.value())
    }

    /// The participant that the share is for.
    pub open(crate) spec fn holder(self) -> Identifier {
        self.identifier
    }

    /// The participant that the share is for.
    pub fn identifier(&self) -> (r: Identifier)
        ensures
            r == self.holder(),
    {
        self.identifier
    }

    /// The share itself.
    pub open(crate) spec fn secret(self) -> Secret {
        self.value
    }

    /// The share itself.
    pub fn value(&self) -> (r: Secret)
        ensures
            r == self.secret(),
    {
        self.value
    }

    /// The dealer's commitment.
    pub open(crate) spec fn committed(self) -> VerifiableSecretSharingCommitment {
        self.commitment
    }

    /// The dealer's commitment.
    pub fn commitment(&self) -> (r: &VerifiableSecretSharingCommitment)
        ensures
            *r == self.committed(),
    {
        &self.commitment
    }

    /// A share made of its parts.
    pub fn new(
        identifier: Identifier,
        value: Secret,
        commitment: VerifiableSecretSharingCommitment,
    ) -> (r: SecretShare)
        ensures
            r.holder() == identifier,
            r.secret() == value,
            r.committed() == commitment,
    {
        SecretShare { identifier, value, commitment }
    }

    /// Checks the share against the commitment: `InvalidSecretShare` where
    /// it is not consistent with it.
    pub fn verify(&self) -> (r: Result<(), Error>)
        ensures
            r is Ok <==> self.consistent(),
            r is Err ==> r == Err::<(), Error>(Error::InvalidSecretShare),
    {
        let f_result = Element::base_mul(&self.value.scalar);
        let x = self.identifier.scalar();
        let ghost logs = self.commitment.logs();
        let mut power = Scalar::one();
        let mut sum = Element::identity();
        let mut k: usize = 0;
        proof {
            use_type_invariant(power);
            use_type_invariant(sum);
            crate::element::lemma_log_of(sum.encoding());
            lemma_poly_eval_bound(logs, x.value());
            assert(logs.skip(0) =~= logs);
            assert(1 * poly_eval(logs, x.value()) == poly_eval(logs, x.value()));
            vstd::arithmetic::div_mod::lemma_small_mod(poly_eval(logs, x.value()), group_order());
        }
        while k < self.commitment.coefficients.len()
            invariant
                k <= self.commitment.coefficients.len(),
                logs == self.commitment.logs(),
                0 < x.value() < group_order(),
                sum.log() < group_order(),
                power.value() < group_order(),
                fadd(sum.log(), fmul(power.value(), poly_eval(logs.skip(k as int), x.value())))
                    == poly_eval(logs, x.value()),
            decreases self.commitment.coefficients.len() - k,
        {
            let c = self.commitment.coefficients[k];
            let ghost t = poly_eval(logs.skip(k + 1), x.value());
            proof {
                use_type_invariant(c);
                crate::element::lemma_log_of(c.encoding());
                lemma_poly_eval_bound(logs.skip(k + 1), x.value());
                lemma_power_step(sum.log(), power.value(), c.log(), x.value(), t);
                assert(logs.skip(k as int)[0] == c.log());
                assert(logs.skip(k as int).skip(1) =~= logs.skip(k + 1));
                lemma_residues(sum.log(), fmul(c.log(), power.value()));
                lemma_residues(power.value(), x.value());
            }
            sum = sum.add(&c.mul(&power));
            power = power.mul(&x);
            k = k + 1;
        }
        proof {
            assert(logs.skip(k as int).len() == 0);
            assert(power.value() * 0 == 0);
            vstd::arithmetic::div_mod::lemma_small_mod(sum.log(), group_order());
        }
        if !f_result.equals(&sum) {
            return Err(Error::InvalidSecretShare);
        }
        Ok(())
    }
}

impl SecretShare {
    /// A copy of the share.
    pub fn duplicate(&self) -> (r: SecretShare)
        ensures
            r.holder() == self.holder(),
            r.secret() == self.secret(),
            r.committed().elements() == self.committed().elements(),
    {
        SecretShare {
            identifier: self.identifier,
            value: self.value,
            commitment: self.commitment.duplicate(),
        }
    }
}

/// What the dealer hands to one participant.
#[derive(Clone, PartialEq, Eq)]
pub struct SharePackage {
    pub(crate) identifier: Identifier,
    pub(crate) secret_share: SecretShare,
    pub(crate) public: Public,
    pub(crate) group_public: VerifyingKey,
    pub(crate) min_signers: u16,
}

impl SharePackage {
    /// The participant that the package is for.
    pub open(crate) spec fn holder(self) -> Identifier {
        self.identifier
    }

    /// The participant's public key.
    pub open(crate) spec fn public_key(self) -> Public {
        self.public
    }

    /// The public key of the group.
    pub open(crate) spec fn group_key(self) -> VerifyingKey {
        self.group_public
    }

    /// The participant that the package is for.
    pub fn identifier(&self) -> (r: Identifier)
        ensures
            r == self.holder(),
    {
        self.identifier
    }

    /// The participant's public key.
    pub fn public(&self) -> (r: Public)
        ensures
            r == self.public_key(),
    {
        self.public
    }

    /// The public key of the group.
    pub fn group_public(&self) -> (r: VerifyingKey)
        ensures
            r == self.group_key(),
    {
        self.group_public
    }

    /// The participant's share of the secret.
    pub open(crate) spec fn share(self) -> SecretShare {
        self.secret_share
    }

    /// The participant's share of the secret.
    pub fn secret_share(&self) -> (r: &SecretShare)
        ensures
            *r == self.share(),
    {
        &self.secret_share
    }

    /// The number of signers that a signature takes.
    pub open(crate) spec fn threshold(self) -> u16 {
        self.min_signers
    }

    /// What is wrong with the package, if anything: the share is not
    /// consistent with the commitment; or the participant's public key is
    /// not the basepoint multiplied by the share, or the group's key is not
    /// the first element of the commitment; or the threshold is not the
    /// number of the commitment's elements, or is below two.
    pub open(crate) spec fn package_error(self) -> Option<Error> {
        let share = self.secret_share;
        if !share.consistent() {
            Some(Error::InvalidSecretShare)
        } else if share.commitment.coefficients@.len() == 0 || self.group_public.log()
            != share.commitment.logs()[0] || self.public.log() != share.value.value() {
            Some(Error::InvalidSecretShare)
        } else if self.min_signers != share.commitment.coefficients@.len() || self.min_signers
            < 2 {
            Some(Error::InvalidMinSigners)
        } else {
            None
        }
    }

    /// The number of signers that a signature takes.
    pub fn min_signers(&self) -> (r: u16)
        ensures
            r == self.threshold(),
    {
        self.min_signers
    }

    /// A package made of its parts.
    pub fn new(
        secret_share: SecretShare,
        public: Public,
        group_public: VerifyingKey,
        min_signers: u16,
    ) -> (r: SharePackage)
        ensures
            r.holder() == secret_share.holder(),
            r.share() == secret_share,
            r.public_key() == public,
            r.group_key() == group_public,
            r.threshold() == min_signers,
    {
        SharePackage {
            identifier: secret_share.identifier,
            secret_share,
            public,
            group_public,
            min_signers,
        }
    }
}

/// What a participant keeps after key generation and signs with.
#[derive(Clone, Copy, PartialEq, Eq)]
pub struct KeyPackage {
    pub(crate) identifier: Identifier,
    pub(crate) signing_share: Secret,
    pub(crate) verifying_share: Public,
    pub(crate) verifying_key: VerifyingKey,
    pub(crate) min_signers: u16,
}

impl KeyPackage {
    #[verifier::type_invariant]
    pub open(crate) spec fn own_public_key(self) -> bool {
        self.verifying_share.log() == self.signing_share.value() && self.min_signers >= 2
    }

    /// What is wrong with the parts of a key package, if anything: the
    /// public key is not the basepoint multiplied by the share, or the
    /// threshold is below two.
    pub open spec fn parts_error(share: nat, public_log: nat, min_signers: u16) -> Option<Error> {
        if public_log != share {
            Some(Error::InvalidSecretShare)
        } else if min_signers < 2 {
            Some(Error::InvalidMinSigners)
        } else {
            None
        }
    }

    /// The participant.
    pub open(crate) spec fn holder(self) -> Identifier {
        self.identifier
    }

    /// The participant's public key.
    pub open(crate) spec fn public_key(self) -> Public {
        self.verifying_share
    }

    /// The public key of the group.
    pub open(crate) spec fn group_key(self) -> VerifyingKey {
        self.verifying_key
    }

    /// The participant's share of the secret.
    pub open(crate) spec fn share(self) -> Secret {
        self.signing_share
    }

    /// The number of signers that a signature takes.
    pub open(crate) spec fn threshold(self) -> u16 {
        self.min_signers
    }

    /// A key package made of its parts; `InvalidSecretShare` where the
    /// public key is not the basepoint multiplied by the share,
    /// `InvalidMinSigners` where the threshold is below two.
    pub fn new(
        identifier: Identifier,
        signing_share: Secret,
        verifying_share: Public,
        verifying_key: VerifyingKey,
        min_signers: u16,
    ) -> (r: Result<KeyPackage, Error>)
        ensures
            match r {
                Ok(k) => {
                    &&& KeyPackage::parts_error(
                        signing_share.value(),
                        verifying_share.log(),
                        min_signers,
                    ) is None
                    &&& k.holder() == identifier
                    &&& k.share() == signing_share
                    &&& k.public_key() == verifying_share
                    &&& k.group_key() == verifying_key
                    &&& k.threshold() == min_signers
                },
                Err(e) => KeyPackage::parts_error(
                    signing_share.value(),
                    verifying_share.log(),
                    min_signers,
                ) == Some(e),
            },
    {
        if !verifying_share.element.equals(&Element::base_mul(&signing_share.scalar)) {
            return Err(Error::InvalidSecretShare);
        }
        if min_signers < 2 {
            return Err(Error::InvalidMinSigners);
        }
        Ok(KeyPackage { identifier, signing_share, verifying_share, verifying_key, min_signers })
    }

    /// The participant.
    pub fn identifier(&self) -> (r: Identifier)
        ensures
            r == self.holder(),
    {
        self.identifier
    }

    /// The participant's share of the secret.
    pub fn signing_share(&self) -> (r: Secret)
        ensures
            r == self.share(),
    {
        self.signing_share
    }

    /// The participant's public key.
    pub fn verifying_share(&self) -> (r: Public)
        ensures
            r == self.public_key(),
            r.log() == self.share().value(),
    {
        proof {
            use_type_invariant(self);
        }
        self.verifying_share
    }

    /// The public key of the group.
    pub fn verifying_key(&self) -> (r: VerifyingKey)
        ensures
            r == self.group_key(),
    {
        self.verifying_key
    }

    /// The number of signers that a signature takes: two at least.
    pub fn min_signers(&self) -> (r: u16)
        ensures
            r == self.threshold(),
            r >= 2,
    {
        proof {
            use_type_invariant(self);
        }
        self.min_signers
    }

    /// The key package of a share package with which nothing is wrong: the
    /// share is checked against the dealer's commitment, the participant's
    /// public key against the share, the group's key and the threshold
    /// against the commitment. `InvalidSecretShare` where the share or one
    /// of the keys fails its check, `InvalidMinSigners` where the threshold
    /// does.
    pub fn try_from(share_package: SharePackage) -> (r: Result<KeyPackage, Error>)
        ensures
            match r {
                Ok(k) => {
                    &&& share_package.package_error() is None
                    &&& share_package.share().consistent()
                    &&& k.holder() == share_package.share().holder()
                    &&& k.share() == share_package.share().secret()
                    &&& k.public_key() == share_package.public_key()
                    &&& k.group_key() == share_package.group_key()
                    &&& k.threshold() == share_package.threshold()
                    &&& k.public_key().log() == k.share().value()
                    &&& share_package.share().committed().elements().len() > 0
                    &&& k.group_key().log() == share_package.share().committed().logs()[0]
                    &&& k.threshold() == share_package.share().committed().elements().len()
                    &&& k.threshold() >= 2
                },
                Err(e) => share_package.package_error() == Some(e),
            },
    {
        let share = &share_package.secret_share;
        match share.verify() {
            Ok(()) => {},
            Err(e) => {
                return Err(e);
            },
        }
        let elements = &share.commitment.coefficients;
        if elements.len() == 0 {
            return Err(Error::InvalidSecretShare);
        }
        assert(share.commitment.logs()[0] == elements@[0].log());
        if !share_package.group_public.element.equals(&elements[0]) {
            return Err(Error::InvalidSecretShare);
        }
        if !share_package.public.element.equals(&Element::base_mul(&share.value.scalar)) {
            return Err(Error::InvalidSecretShare);
        }
        if share_package.min_signers as usize != elements.len() || share_package.min_signers < 2 {
            return Err(Error::InvalidMinSigners);
        }
        Ok(
            KeyPackage {
                identifier: share.identifier,
                signing_share: share.value,
                verifying_share: share_package.public,
                verifying_key: share_package.group_public,
                min_signers: share_package.min_signers,
            },
        )
    }
}

/// The public key that `entries` has for the participant of value
/// `identifier`: that of the first entry for it.
pub open spec fn lookup_public(entries: Seq<(Identifier, Public)>, identifier: nat) -> Option<
    Public,
>
    decreases entries.len(),
{
    if entries.len() == 0 {
        None
    } else if entries[0].0.value() == identifier {
        Some(entries[0].1)
    } else {
        lookup_public(entries.skip(1), identifier)
    }
}

/// The values of the identifiers that open the entries.
pub open spec fn entry_values<T>(entries: Seq<(Identifier, T)>) -> Seq<nat> {
    Seq::new(entries.len(), |i: int| entries[i].0.value())
}

/// Whether no identifier opens two entries.
pub fn entries_distinct<T>(entries: &Vec<(Identifier, T)>) -> (r: bool)
    ensures
        r == distinct(entry_values(entries@)),
{
    let ghost values = entry_values(entries@);
    let mut j: usize = 0;
    while j < entries.len()
        invariant
            j <= entries.len(),
            values == entry_values(entries@),
            forall|a: int, b: int| 0 <= a < b < j ==> values[a] != values[b],
        decreases entries.len() - j,
    {
        let mut i: usize = 0;
        while i < j
            invariant
                i <= j < entries.len(),
                values == entry_values(entries@),
                forall|a: int| 0 <= a < i ==> values[a] != values[j as int],
            decreases j - i,
        {
            if entries[i].0.equals(&entries[j].0) {
                assert(values[i as int] == values[j as int]);
                return false;
            }
            i = i + 1;
        }
        j = j + 1;
    }
    true
}

/// The public keys of all participants, each participant once, and of the
/// group.
#[derive(Debug, PartialEq, Eq)]
pub struct PublicKeyPackage {
    pub(crate) signer_pubkeys: Vec<(Identifier, Public)>,
    pub(crate) group_public: VerifyingKey,
}

impl PublicKeyPackage {
    #[verifier::type_invariant]
    pub open(crate) spec fn each_once(self) -> bool {
        distinct(entry_values(self.signer_pubkeys@))
    }

    /// The participants with their public keys.
    pub open(crate) spec fn entries(self) -> Seq<(Identifier, Public)> {
        self.signer_pubkeys@
    }

    /// The public key of the group.
    pub open(crate) spec fn group_key(self) -> VerifyingKey {
        self.group_public
    }

    /// The public key of the group.
    pub fn group_public(&self) -> (r: VerifyingKey)
        ensures
            r == self.group_key(),
    {
        self.group_public
    }

    /// A package of these public keys; `DuplicatedIdentifier` where a
    /// participant occurs twice.
    pub fn new(signer_pubkeys: Vec<(Identifier, Public)>, group_public: VerifyingKey) -> (r:
        Result<PublicKeyPackage, Error>)
        ensures
            match r {
                Ok(p) => {
                    &&& distinct(entry_values(signer_pubkeys@))
                    &&& p.entries() == signer_pubkeys@
                    &&& p.group_key() == group_public
                },
                Err(e) => !distinct(entry_values(signer_pubkeys@)) && e
                    == Error::DuplicatedIdentifier,
            },
    {
        if !entries_distinct(&signer_pubkeys) {
            return Err(Error::DuplicatedIdentifier);
        }
        Ok(PublicKeyPackage { signer_pubkeys, group_public })
    }

    /// A copy of the package.
    pub fn duplicate(&self) -> (r: PublicKeyPackage)
        ensures
            r.entries() == self.entries(),
            r.group_key() == self.group_key(),
    {
        proof {
            use_type_invariant(self);
        }
        PublicKeyPackage {
            signer_pubkeys: vstd::slice::slice_to_vec(self.signer_pubkeys.as_slice()),
            group_public: self.group_public,
        }
    }

    /// The number of participants.
    pub fn len(&self) -> (r: usize)
        ensures
            r == self.entries().len(),
    {
        self.signer_pubkeys.len()
    }

    /// The `i`-th participant and its public key.
    pub fn entry(&self, i: usize) -> (r: (Identifier, Public))
        requires
            i < self.entries().len(),
        ensures
            r == self.entries()[i as int],
    {
        self.signer_pubkeys[i]
    }

    /// The public key of a participant, if the package has one for it.
    pub fn verifying_share(&self, identifier: &Identifier) -> (r: Option<Public>)
        ensures
            r == lookup_public(self.entries(), identifier.value()),
    {
        let mut i: usize = 0;
        assert(self.entries().skip(0) =~= self.entries());
        while i < self.signer_pubkeys.len()
            invariant
                i <= self.signer_pubkeys.len(),
                lookup_public(self.entries(), identifier.value()) == lookup_public(
                    self.entries().skip(i as int),
                    identifier.value(),
                ),
            decreases self.signer_pubkeys.len() - i,
        {
            let entry = self.signer_pubkeys[i];
            proof {
                assert(self.entries().skip(i as int)[0] == entry);
                assert(self.entries().skip(i as int).skip(1) =~= self.entries().skip(i + 1));
            }
            if entry.0.equals(identifier) {
                return Some(entry.1);
            }
            i = i + 1;
        }
        None
    }
}

/// The values of a sequence of identifiers.
pub open spec fn identifier_values(identifiers: Seq<Identifier>) -> Seq<nat> {
    identifiers.map_values(|i: Identifier| i.value())
}

/// No number occurs twice.
pub open spec fn distinct(values: Seq<nat>) -> bool {
    forall|i: int, j: int| 0 <= i < j < values.len() ==> values[i] != values[j]
}

/// Whether no identifier occurs twice.
pub fn all_distinct(identifiers: &Vec<Identifier>) -> (r: bool)
    ensures
        r == distinct(identifier_values(identifiers@)),
{
    let ghost values = identifier_values(identifiers@);
    let mut j: usize = 0;
    while j < identifiers.len()
        invariant
            j <= identifiers.len(),
            values == identifier_values(identifiers@),
            forall|a: int, b: int| 0 <= a < b < j ==> values[a] != values[b],
        decreases identifiers.len() - j,
    {
        let mut i: usize = 0;
        while i < j
            invariant
                i <= j < identifiers.len(),
                values == identifier_values(identifiers@),
                forall|a: int| 0 <= a < i ==> values[a] != values[j as int],
            decreases j - i,
        {
            if identifiers[i].equals(&identifiers[j]) {
                assert(values[i as int] == values[j as int]);
                return false;
            }
            i = i + 1;
        }
        j = j + 1;
    }
    true
}

/// The share of the participant `identifier` in the secret that the
/// polynomial of these coefficients shares: the polynomial's value at the
/// identifier, with the commitment to the coefficients.
pub open(crate) spec fn is_share_of(
    share: SecretShare,
    polynomial: Seq<nat>,
    identifier: Identifier,
) -> bool {
    &&& share.identifier == identifier
    &&& share.value.value() == poly_eval(polynomial, identifier.value())
    &&& share.commitment.logs() == polynomial
}

/// The shares of these participants, one each and in their order.
pub open spec fn are_shares_of(
    shares: Seq<SecretShare>,
    polynomial: Seq<nat>,
    identifiers: Seq<Identifier>,
) -> bool {
    &&& shares.len() == identifiers.len()
    &&& forall|i: int|
        0 <= i < shares.len() ==> is_share_of(#[trigger] shares[i], polynomial, identifiers[i])
}

/// The error, if any, in the numbers of a sharing: a threshold `min_signers`
/// among `max_signers` participants.
pub open spec fn parameter_error(min_signers: u16, max_signers: nat) -> Option<Error> {
    if min_signers < 2 {
        Some(Error::InvalidMinSigners)
    } else if max_signers < 2 || max_signers > 0xffff {
        Some(Error::InvalidMaxSigners)
    } else if min_signers > max_signers {
        Some(Error::InvalidMinSignersExceedsMaxSigners)
    } else {
        None
    }
}

/// The error, if any, in what a dealer is given: the threshold, the
/// coefficients above the constant term, and the participants.
pub open spec fn dealer_error(min_signers: u16, coefficients: Seq<nat>, identifiers: Seq<nat>) -> Option<
    Error,
> {
    if parameter_error(min_signers, identifiers.len()) is Some {
        parameter_error(min_signers, identifiers.len())
    } else if coefficients.len() != min_signers - 1 {
        Some(Error::InvalidCoefficients)
    } else if exists|k: int| 0 <= k < coefficients.len() && coefficients[k] == 0 {
        Some(Error::InvalidZeroScalar)
    } else if !distinct(identifiers) {
        Some(Error::DuplicatedIdentifier)
    } else {
        None
    }
}

/// The identifiers 1, 2, ... up to `max_signers`.
pub fn default_identifiers(max_signers: u16) -> (r: Vec<Identifier>)
    ensures
        r.len() == max_signers,
        forall|i: int| 0 <= i < r.len() ==> (#[trigger] r[i]).value() == i + 1,
{
    let mut identifiers: Vec<Identifier> = Vec::new();
    let mut n: u16 = 0;
    while n < max_signers
        invariant
            n <= max_signers,
            identifiers.len() == n,
            forall|i: int| 0 <= i < identifiers.len() ==> (#[trigger] identifiers[i]).value() == i + 1,
        decreases max_signers - n,
    {
        n = n + 1;
        match Identifier::from_u16(n) {
            Ok(identifier) => {
                identifiers.push(identifier);
            },
            Err(_) => {
                assert(false);
            },
        }
    }
    identifiers
}

/// The shares of `identifiers` in `secret`, by the polynomial whose
/// constant term is the secret and whose further coefficients are
/// `coefficients`.
fn deal(secret: &Secret, coefficients: &Vec<Scalar>, identifiers: &Vec<Identifier>) -> (shares:
    Vec<SecretShare>)
    ensures
        are_shares_of(
            shares@,
            seq![secret.value()] + scalar_values(coefficients@),
            identifiers@,
        ),
        forall|i: int| 0 <= i < shares.len() ==> (#[trigger] shares[i]).consistent(),
{
    let ghost polynomial = seq![secret.value()] + scalar_values(coefficients@);
    let mut elements: Vec<Element> = Vec::new();
    elements.push(Element::base_mul(&secret.scalar));
    assert(element_logs(elements@) =~= polynomial.take(1));
    let mut k: usize = 0;
    while k < coefficients.len()
        invariant
            k <= coefficients.len(),
            polynomial == seq![secret.value()] + scalar_values(coefficients@),
            polynomial.len() == coefficients.len() + 1,
            elements.len() == k + 1,
            element_logs(elements@) == polynomial.take(k + 1),
        decreases coefficients.len() - k,
    {
        let ghost before = elements@;
        let element = Element::base_mul(&coefficients[k]);
        elements.push(element);
        assert forall|j: int| 0 <= j < k + 2 implies element_logs(elements@)[j] == polynomial[j] by {
            if j < k + 1 {
                assert(elements@[j] == before[j]);
                assert(element_logs(before)[j] == polynomial.take(k + 1)[j]);
            } else {
                assert(elements@[j] == element);
                assert(scalar_values(coefficients@)[k as int] == coefficients@[k as int].value());
                assert(polynomial[j] == scalar_values(coefficients@)[k as int]);
            }
        }
        assert(element_logs(elements@) =~= polynomial.take(k + 2));
        k = k + 1;
    }
    assert(polynomial.take(k + 1) =~= polynomial);
    let commitment = VerifiableSecretSharingCommitment { coefficients: elements };
    let mut shares: Vec<SecretShare> = Vec::new();
    let mut i: usize = 0;
    while i < identifiers.len()
        invariant
            i <= identifiers.len(),
            polynomial == seq![secret.value()] + scalar_values(coefficients@),
            commitment.logs() == polynomial,
            are_shares_of(shares@, polynomial, identifiers@.take(i as int)),
        decreases identifiers.len() - i,
    {
        let identifier = identifiers[i];
        let x = identifier.scalar();
        let value = evaluate_polynomial(&secret.scalar, coefficients, &x);
        let share = SecretShare {
            identifier,
            value: Secret { scalar: value },
            commitment: commitment.duplicate(),
        };
        assert(is_share_of(share, polynomial, identifier));
        shares.push(share);
        assert forall|j: int| 0 <= j < shares.len() implies is_share_of(
            #[trigger] shares[j],
            polynomial,
            identifiers@.take(i + 1)[j],
        ) by {
            if j < i {
                assert(identifiers@.take(i as int)[j] == identifiers@.take(i + 1)[j]);
            }
        }
        i = i + 1;
    }
    assert(identifiers@.take(i as int) =~= identifiers@);
    assert forall|i: int| 0 <= i < shares.len() implies (#[trigger] shares[i]).consistent() by {
        assert(is_share_of(shares[i], polynomial, identifiers@[i]));
    }
    shares
}

/// The shares of `identifiers` in `secret` for a threshold of
/// `min_signers`, by the polynomial whose constant term is the secret and
/// whose further coefficients are `coefficients`, or what is wrong with
/// these.
pub fn secret_shares_from_coefficients(
    secret: &Secret,
    min_signers: u16,
    coefficients: &Vec<Scalar>,
    identifiers: &Vec<Identifier>,
) -> (r: Result<Vec<SecretShare>, Error>)
    ensures
        match r {
            Ok(shares) => {
                &&& dealer_error(
                    min_signers,
                    scalar_values(coefficients@),
                    identifier_values(identifiers@),
                ) is None
                &&& are_shares_of(
                    shares@,
                    seq![secret.value()] + scalar_values(coefficients@),
                    identifiers@,
                )
                &&& forall|i: int| 0 <= i < shares.len() ==> (#[trigger] shares[i]).consistent()
            },
            Err(e) => dealer_error(
                min_signers,
                scalar_values(coefficients@),
                identifier_values(identifiers@),
            ) == Some(e),
        },
{
    if min_signers < 2 {
        return Err(Error::InvalidMinSigners);
    }
    if identifiers.len() < 2 || identifiers.len() > 0xffff {
        return Err(Error::InvalidMaxSigners);
    }
    if min_signers as usize > identifiers.len() {
        return Err(Error::InvalidMinSignersExceedsMaxSigners);
    }
    if coefficients.len() != (min_signers - 1) as usize {
        return Err(Error::InvalidCoefficients);
    }
    let ghost values = scalar_values(coefficients@);
    let mut k: usize = 0;
    while k < coefficients.len()
        invariant
            k <= coefficients.len(),
            values == scalar_values(coefficients@),
            parameter_error(min_signers, identifier_values(identifiers@).len()) is None,
            coefficients.len() == min_signers - 1,
            forall|j: int| 0 <= j < k ==> values[j] != 0,
        decreases coefficients.len() - k,
    {
        if coefficients[k].is_zero() {
            assert(values[k as int] == 0);
            return Err(Error::InvalidZeroScalar);
        }
        k = k + 1;
    }
    if !all_distinct(identifiers) {
        return Err(Error::DuplicatedIdentifier);
    }
    Ok(deal(secret, coefficients, identifiers))
}

/// A scalar other than zero chosen by `rng`, which is asked again where
/// it gives zero, up to 64 times; nothing where it gave zero every time.
pub fn random_nonzero<R: RngCore + CryptoRng>(rng: &mut R) -> (r: Option<Scalar>)
    ensures
        r matches Some(s) ==> 0 < s.value() < group_order(),
{
    let mut attempts: u8 = 0;
    while attempts < 64
        invariant
            attempts <= 64,
        decreases 64 - attempts,
    {
        let drawn = Scalar::random(rng);
        match drawn.nonzero() {
            Some(s) => {
                return Some(s);
            },
            None => {},
        }
        attempts = attempts + 1;
    }
    None
}

/// `count` scalars other than zero chosen by `rng`; nothing where it kept
/// giving zero. Where none is wanted, `rng` is not asked: there are none.
fn random_coefficients<R: RngCore + CryptoRng>(count: u16, rng: &mut R) -> (r: Option<
    Vec<Scalar>,
>)
    ensures
        r matches Some(v) ==> v.len() == count && forall|k: int|
            0 <= k < v.len() ==> 0 < #[trigger] scalar_values(v@)[k] < group_order(),
        count == 0 ==> r is Some,
{
    let mut coefficients: Vec<Scalar> = Vec::new();
    let mut k: u16 = 0;
    while k < count
        invariant
            k <= count,
            coefficients.len() == k,
            forall|j: int|
                0 <= j < coefficients.len() ==> 0 < #[trigger] scalar_values(coefficients@)[j]
                    < group_order(),
        decreases count - k,
    {
        match random_nonzero(rng) {
            Some(s) => {
                let ghost before = coefficients@;
                coefficients.push(s);
                assert forall|j: int| 0 <= j < coefficients.len() implies 0 < #[trigger] scalar_values(
                    coefficients@,
                )[j] < group_order() by {
                    if j < k {
                        assert(scalar_values(before)[j] == scalar_values(coefficients@)[j]);
                    }
                }
            },
            None => {
                return None;
            },
        }
        k = k + 1;
    }
    Some(coefficients)
}

/// `polynomial` is what a dealer may choose for a threshold of
/// `min_signers`: that many residues, none but the first of them zero.
pub open spec fn is_dealer_polynomial(polynomial: Seq<nat>, min_signers: u16) -> bool {
    &&& polynomial.len() == min_signers
    &&& forall|k: int| 0 <= k < polynomial.len() ==> #[trigger] polynomial[k] < group_order()
    &&& forall|k: int| 1 <= k < polynomial.len() ==> #[trigger] polynomial[k] != 0
}

/// Shares of `secret` for the participants 1 to `max_signers` with a
/// threshold of `min_signers`, by a polynomial whose further coefficients
/// `rng` chooses. The numbers are checked before `rng` is asked;
/// `InvalidZeroScalar` where it kept giving zero.
pub fn generate_secret_shares<R: RngCore + CryptoRng>(
    secret: &Secret,
    max_signers: u16,
    min_signers: u16,
    rng: R,
) -> (r: Result<Vec<SecretShare>, Error>)
    ensures
        match r {
            Ok(shares) => {
                &&& parameter_error(min_signers, max_signers as nat) is None
                &&& shares.len() == max_signers
                &&& forall|i: int|
                    0 <= i < shares.len() ==> (#[trigger] shares[i]).holder().value() == i + 1
                &&& forall|i: int| 0 <= i < shares.len() ==> (#[trigger] shares[i]).consistent()
                &&& exists|polynomial: Seq<nat>|
                    {
                        &&& is_dealer_polynomial(polynomial, min_signers)
                        &&& polynomial[0] == secret.value()
                        &&& forall|i: int|
                            0 <= i < shares.len() ==> is_share_of(
                                #[trigger] shares[i],
                                polynomial,
                                shares[i].holder(),
                            )
                    }
            },
            Err(e) => parameter_error(min_signers, max_signers as nat) == Some(e) || (
            parameter_error(min_signers, max_signers as nat) is None && e
                == Error::InvalidZeroScalar),
        },
{
    let mut rng = rng;
    if min_signers < 2 {
        return Err(Error::InvalidMinSigners);
    }
    if max_signers < 2 {
        return Err(Error::InvalidMaxSigners);
    }
    if min_signers > max_signers {
        return Err(Error::InvalidMinSignersExceedsMaxSigners);
    }
    let coefficients = match random_coefficients(min_signers - 1, &mut rng) {
        Some(coefficients) => coefficients,
        None => {
            return Err(Error::InvalidZeroScalar);
        },
    };
    let identifiers = default_identifiers(max_signers);
    let shares = deal(secret, &coefficients, &identifiers);
    proof {
        let polynomial = seq![secret.value()] + scalar_values(coefficients@);
        use_type_invariant(secret.scalar);
        assert forall|k: int| 0 <= k < polynomial.len() implies #[trigger] polynomial[k]
            < group_order() by {
            if k > 0 {
                assert(polynomial[k] == scalar_values(coefficients@)[k - 1]);
            }
        }
        assert forall|k: int| 1 <= k < polynomial.len() implies #[trigger] polynomial[k] != 0 by {
            assert(polynomial[k] == scalar_values(coefficients@)[k - 1]);
        }
        assert(is_dealer_polynomial(polynomial, min_signers));
        assert forall|i: int| 0 <= i < shares.len() implies is_share_of(
            #[trigger] shares[i],
            polynomial,
            shares[i].holder(),
        ) by {
            assert(is_share_of(shares[i], polynomial, identifiers[i]));
        }
        assert forall|i: int| 0 <= i < shares.len() implies (#[trigger] shares[i]).holder().value()
            == i + 1 by {
            assert(is_share_of(shares[i], polynomial, identifiers[i]));
        }
    }
    Ok(shares)
}

/// The error, if any, in the threshold and the participants of a sharing.
pub open spec fn participants_error(min_signers: u16, identifiers: Seq<nat>) -> Option<Error> {
    if parameter_error(min_signers, identifiers.len()) is Some {
        parameter_error(min_signers, identifiers.len())
    } else if !distinct(identifiers) {
        Some(Error::DuplicatedIdentifier)
    } else {
        None
    }
}

/// Shares of `secret` for the participants `identifiers` with a threshold
/// of `min_signers`, by a polynomial whose further coefficients `rng`
/// chooses. The threshold and the participants are checked before `rng` is
/// asked; `InvalidZeroScalar` where it kept giving zero.
pub fn split_secret<R: RngCore + CryptoRng>(
    secret: &Secret,
    min_signers: u16,
    identifiers: &Vec<Identifier>,
    rng: R,
) -> (r: Result<Vec<SecretShare>, Error>)
    ensures
        match r {
            Ok(shares) => {
                &&& participants_error(min_signers, identifier_values(identifiers@)) is None
                &&& forall|i: int| 0 <= i < shares.len() ==> (#[trigger] shares[i]).consistent()
                &&& exists|polynomial: Seq<nat>|
                    {
                        &&& is_dealer_polynomial(polynomial, min_signers)
                        &&& polynomial[0] == secret.value()
                        &&& are_shares_of(shares@, polynomial, identifiers@)
                    }
            },
            Err(e) => participants_error(min_signers, identifier_values(identifiers@)) == Some(e)
                || (participants_error(min_signers, identifier_values(identifiers@)) is None && e
                == Error::InvalidZeroScalar),
        },
{
    let mut rng = rng;
    if min_signers < 2 {
        return Err(Error::InvalidMinSigners);
    }
    if identifiers.len() < 2 || identifiers.len() > 0xffff {
        return Err(Error::InvalidMaxSigners);
    }
    if min_signers as usize > identifiers.len() {
        return Err(Error::InvalidMinSignersExceedsMaxSigners);
    }
    if !all_distinct(identifiers) {
        return Err(Error::DuplicatedIdentifier);
    }
    let coefficients = match random_coefficients(min_signers - 1, &mut rng) {
        Some(coefficients) => coefficients,
        None => {
            return Err(Error::InvalidZeroScalar);
        },
    };
    let shares = deal(secret, &coefficients, identifiers);
    proof {
        let polynomial = seq![secret.value()] + scalar_values(coefficients@);
        use_type_invariant(secret.scalar);
        assert forall|k: int| 0 <= k < polynomial.len() implies #[trigger] polynomial[k]
            < group_order() by {
            if k > 0 {
                assert(polynomial[k] == scalar_values(coefficients@)[k - 1]);
            }
        }
        assert forall|k: int| 1 <= k < polynomial.len() implies #[trigger] polynomial[k] != 0 by {
            assert(polynomial[k] == scalar_values(coefficients@)[k - 1]);
        }
        assert(is_dealer_polynomial(polynomial, min_signers));
    }
    Ok(shares)
}

/// What a dealer has handed out, for the polynomial it chose: every
/// participant from 1 upwards has its share, its public key and the
/// group's, and the package of public keys lists them in that order.
pub open(crate) spec fn dealt_by(
    packages: Seq<SharePackage>,
    pubkeys: PublicKeyPackage,
    polynomial: Seq<nat>,
    min_signers: u16,
) -> bool {
    &&& is_dealer_polynomial(polynomial, min_signers)
    &&& pubkeys.group_public.log() == polynomial[0]
    &&& pubkeys.entries().len() == packages.len()
    &&& forall|i: int|
        0 <= i < packages.len() ==> {
            let p = #[trigger] packages[i];
            &&& p.identifier.value() == i + 1
            &&& is_share_of(p.secret_share, polynomial, p.identifier)
            &&& p.public.log() == p.secret_share.value.value()
            &&& p.group_public == pubkeys.group_public
            &&& p.min_signers == min_signers
            &&& pubkeys.entries()[i] == (p.identifier, p.public)
        }
}

/// Generates the keys of a group of `max_signers` participants, of whom
/// `min_signers` can sign: a secret that `rng` chooses is shared among
/// them. The numbers are checked before `rng` is asked;
/// `InvalidZeroScalar` where it kept giving zero.
pub fn keygen_with_dealer<R: RngCore + CryptoRng>(max_signers: u16, min_signers: u16, rng: R) -> (r:
    Result<(Vec<SharePackage>, PublicKeyPackage), Error>)
    ensures
        r is Ok ==> parameter_error(min_signers, max_signers as nat) is None,
        r is Ok ==> r->Ok_0.0.len() == max_signers,
        r is Ok ==> forall|i: int|
            0 <= i < r->Ok_0.0.len() ==> (#[trigger] r->Ok_0.0[i]).share().consistent(),
        r is Ok ==> exists|polynomial: Seq<nat>|
            dealt_by(r->Ok_0.0@, r->Ok_0.1, polynomial, min_signers),
        r is Err ==> parameter_error(min_signers, max_signers as nat) == Some(r->Err_0) || (
        parameter_error(min_signers, max_signers as nat) is None && r->Err_0
            == Error::InvalidZeroScalar),
{
    let mut rng = rng;
    if min_signers < 2 {
        return Err(Error::InvalidMinSigners);
    }
    if max_signers < 2 {
        return Err(Error::InvalidMaxSigners);
    }
    if min_signers > max_signers {
        return Err(Error::InvalidMinSignersExceedsMaxSigners);
    }
    let secret = Secret::random(&mut rng);
    let group_public = VerifyingKey::from_secret(&secret);
    let secret_shares = match generate_secret_shares(&secret, max_signers, min_signers, rng) {
        Ok(shares) => shares,
        Err(e) => {
            return Err(e);
        },
    };
    let ghost polynomial = choose|polynomial: Seq<nat>|
        {
            &&& is_dealer_polynomial(polynomial, min_signers)
            &&& polynomial[0] == secret.value()
            &&& forall|i: int|
                0 <= i < secret_shares.len() ==> is_share_of(
                    #[trigger] secret_shares[i],
                    polynomial,
                    secret_shares[i].holder(),
                )
        };
    let mut share_packages: Vec<SharePackage> = Vec::new();
    let mut signer_pubkeys: Vec<(Identifier, Public)> = Vec::new();
    let mut i: usize = 0;
    while i < secret_shares.len()
        invariant
            i <= secret_shares.len(),
            share_packages.len() == i,
            signer_pubkeys.len() == i,
            is_dealer_polynomial(polynomial, min_signers),
            group_public.log() == polynomial[0],
            forall|j: int|
                0 <= j < secret_shares.len() ==> is_share_of(
                    #[trigger] secret_shares[j],
                    polynomial,
                    secret_shares[j].holder(),
                ),
            forall|j: int|
                0 <= j < secret_shares.len() ==> (#[trigger] secret_shares[j]).holder().value() == j
                    + 1,
            forall|j: int|
                0 <= j < i ==> {
                    let p = #[trigger] share_packages[j];
                    &&& p.identifier.value() == j + 1
                    &&& is_share_of(p.secret_share, polynomial, p.identifier)
                    &&& p.public.log() == p.secret_share.value.value()
                    &&& p.group_public == group_public
                    &&& p.min_signers == min_signers
                    &&& signer_pubkeys[j] == (p.identifier, p.public)
                },
        decreases secret_shares.len() - i,
    {
        let secret_share = secret_shares[i].duplicate();
        let signer_public = Public::from_secret(&secret_share.value);
        let ghost old_packages = share_packages@;
        let ghost old_pubkeys = signer_pubkeys@;
        proof {
            assert(is_share_of(secret_shares[i as int], polynomial, secret_shares[i as int].holder()));
        }
        let package = SharePackage {
            identifier: secret_share.identifier,
            secret_share,
            public: signer_public,
            group_public,
            min_signers,
        };
        signer_pubkeys.push((package.identifier, signer_public));
        share_packages.push(package);
        proof {
            assert forall|j: int| 0 <= j < i + 1 implies {
                let p = #[trigger] share_packages[j];
                &&& p.identifier.value() == j + 1
                &&& is_share_of(p.secret_share, polynomial, p.identifier)
                &&& p.public.log() == p.secret_share.value.value()
                &&& p.group_public == group_public
                &&& p.min_signers == min_signers
                &&& signer_pubkeys[j] == (p.identifier, p.public)
            } by {
                if j < i {
                    assert(share_packages[j] == old_packages[j]);
                    assert(signer_pubkeys[j] == old_pubkeys[j]);
                }
            }
        }
        i = i + 1;
    }
    assert forall|a: int, b: int| 0 <= a < b < signer_pubkeys@.len() implies entry_values(
        signer_pubkeys@,
    )[a] != entry_values(signer_pubkeys@)[b] by {
        assert(share_packages[a].identifier.value() == a + 1);
        assert(share_packages[b].identifier.value() == b + 1);
    }
    let pubkeys = PublicKeyPackage { signer_pubkeys, group_public };
    assert(dealt_by(share_packages@, pubkeys, polynomial, min_signers));
    assert(exists|p: Seq<nat>| dealt_by(share_packages@, pubkeys, p, min_signers));
    assert forall|i: int| 0 <= i < share_packages.len() implies (
    #[trigger] share_packages[i]).share().consistent() by {
        assert(is_share_of(share_packages[i].secret_share, polynomial, share_packages[i].identifier));
    }
    let r: Result<(Vec<SharePackage>, PublicKeyPackage), Error> = Ok((share_packages, pubkeys));
    assert(dealt_by(r->Ok_0.0@, r->Ok_0.1, polynomial, min_signers));
    r
}

} // verus!
