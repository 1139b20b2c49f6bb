//! The first round of signing: each signer draws two nonces and publishes
//! the commitments to them.

use vstd::prelude::*;
use crate::element::Element;
use crate::error::Error;
use crate::hash::{h3, h3_spec};
use crate::identifier::Identifier;
use crate::keys::Secret;
use crate::scalar::Scalar;
use rand_core::{CryptoRng, RngCore};

verus! {

/// `rand_core`'s `RngCore::fill_bytes` on 32 bytes: whatever the generator
/// gives.
#[verifier::external_body]
fn random_bytes_32<R: RngCore + CryptoRng>(rng: &mut R) -> (r: [u8; 32]) {
    let mut bytes = [0u8; 32];
    rng.fill_bytes(&mut bytes);
    bytes
}

/// What a signer publishes in the first round: the basepoint multiplied by
/// its hiding nonce and by its binding nonce. Neither is the identity.
#[derive(Clone, Copy, Debug, PartialEq, Eq)]
pub struct SigningCommitments {
    pub(crate) identifier: Identifier,
    pub(crate) hiding: Element,
    pub(crate) binding: Element,
}

impl SigningCommitments {
    #[verifier::type_invariant]
    pub open(crate) spec fn no_identity(self) -> bool {
        self.hiding.log() != 0 && self.binding.log() != 0
    }

    /// The signer.
    pub open(crate) spec fn holder(self) -> Identifier {
        self.identifier
    }

    /// The commitment to the hiding nonce.
    pub open(crate) spec fn hiding_element(self) -> Element {
        self.hiding
    }

    /// The commitment to the binding nonce.
    pub open(crate) spec fn binding_element(self) -> Element {
        self.binding
    }

    /// The commitments of a signer; `MalformedElement` where one of them is
    /// the identity.
    pub fn new(identifier: Identifier, hiding: Element, binding: Element) -> (r: Result<
        SigningCommitments,
        Error,
    >)
        ensures
            match r {
                Ok(c) => {
                    &&& hiding.log() != 0
                    &&& binding.log() != 0
                    &&& c.holder() == identifier
                    &&& c.hiding_element() == hiding
                    &&& c.binding_element() == binding
                },
                Err(e) => (hiding.log() == 0 || binding.log() == 0) && e == Error::MalformedElement,
            },
    {
        if hiding.is_identity() || binding.is_identity() {
            Err(Error::MalformedElement)
        } else {
            Ok(SigningCommitments { identifier, hiding, binding })
        }
    }

    /// The signer.
    pub fn identifier(&self) -> (r: Identifier)
        ensures
            r == self.holder(),
    {
        self.identifier
    }

    /// The commitment to the hiding nonce.
    pub fn hiding(&self) -> (r: Element)
        ensures
            r == self.hiding_element(),
            r.log() != 0,
    {
        proof {
            use_type_invariant(self);
        }
        self.hiding
    }

    /// The commitment to the binding nonce.
    pub fn binding(&self) -> (r: Element)
        ensures
            r == self.binding_element(),
            r.log() != 0,
    {
        proof {
            use_type_invariant(self);
        }
        self.binding
    }

    /// Whether two commitments are the same: of one signer, to the same
    /// nonces.
    pub fn equals(&self, other: &SigningCommitments) -> (r: bool)
        ensures
            r == (*self == *other),
    {
        let same_signer = self.identifier.equals(&other.identifier);
        let same_hiding = self.hiding.equals(&other.hiding);
        let same_binding = self.binding.equals(&other.binding);
        same_signer && same_hiding && same_binding
    }
}

/// The two nonces of a signer for one signature, with the commitments to
/// them. Neither nonce is zero. The value is not copied: signing takes it.
pub struct SigningNonces {
    pub(crate) hiding: Scalar,
    pub(crate) binding: Scalar,
    pub(crate) commitments: SigningCommitments,
}

impl SigningNonces {
    #[verifier::type_invariant]
    pub open(crate) spec fn bound(self) -> bool {
        &&& self.hiding.value() != 0
        &&& self.binding.value() != 0
        &&& self.commitments.hiding.log() == self.hiding.value()
        &&& self.commitments.binding.log() == self.binding.value()
    }

    /// The hiding nonce, as a residue.
    pub open(crate) spec fn hiding_value(self) -> nat {
        self.hiding.value()
    }

    /// The binding nonce, as a residue.
    pub open(crate) spec fn binding_value(self) -> nat {
        self.binding.value()
    }

    /// The commitments to the two nonces.
    pub open(crate) spec fn committed(self) -> SigningCommitments {
        self.commitments
    }

    /// The nonces `hiding` and `binding` of the signer `identifier`, with
    /// their commitments: the basepoint multiplied by each.
    /// `InvalidZeroScalar` where one of them is zero.
    pub fn from_nonces(identifier: Identifier, hiding: Scalar, binding: Scalar) -> (r: Result<
        SigningNonces,
        Error,
    >)
        ensures
            match r {
                Ok(n) => {
                    &&& hiding.value() != 0
                    &&& binding.value() != 0
                    &&& n.hiding_value() == hiding.value()
                    &&& n.binding_value() == binding.value()
                    &&& n.committed().holder() == identifier
                    &&& n.committed().hiding_element().log() == hiding.value()
                    &&& n.committed().binding_element().log() == binding.value()
                },
                Err(e) => (hiding.value() == 0 || binding.value() == 0) && e
                    == Error::InvalidZeroScalar,
            },
    {
        if hiding.is_zero() || binding.is_zero() {
            return Err(Error::InvalidZeroScalar);
        }
        let commitments = SigningCommitments {
            identifier,
            hiding: Element::base_mul(&hiding),
            binding: Element::base_mul(&binding),
        };
        Ok(SigningNonces { hiding, binding, commitments })
    }

    /// The commitments to the two nonces.
    pub fn commitments(&self) -> (r: SigningCommitments)
        ensures
            r == self.committed(),
            r.hiding_element().log() == self.hiding_value(),
            r.binding_element().log() == self.binding_value(),
    {
        proof {
            use_type_invariant(self);
        }
        self.commitments
    }
}

/// The nonce that the hash of `random_bytes` and the secret gives.
pub fn nonce_from_randomness(random_bytes: &[u8; 32], secret: &Secret) -> (r: Scalar)
    ensures
        r.value() == h3_spec(random_bytes@ + secret.to_scalar().encoding()),
{
    let mut input: Vec<u8> = Vec::new();
    input.extend_from_slice(random_bytes.as_slice());
    let encoded = secret.scalar.serialize();
    input.extend_from_slice(encoded.as_slice());
    assert(input@ =~= random_bytes@ + secret.to_scalar().encoding());
    h3(input.as_slice())
}

/// A nonce other than zero: the hash of the secret and of 32 bytes that
/// `rng` chooses, which is asked again where the hash is zero, up to 64
/// times; nothing where it was zero every time.
fn nonce_generate<R: RngCore + CryptoRng>(secret: &Secret, rng: &mut R) -> (r: Option<Scalar>)
    ensures
        r matches Some(s) ==> s.value() != 0,
        r matches Some(s) ==> is_nonce_of(s.value(), *secret),
{
    let mut attempts: u8 = 0;
    while attempts < 64
        invariant
            attempts <= 64,
        decreases 64 - attempts,
    {
        let random_bytes = random_bytes_32(rng);
        let hashed = nonce_from_randomness(&random_bytes, secret);
        match hashed.nonzero() {
            Some(nonce) => {
                assert(nonce.value() == nonce_value(random_bytes@, *secret));
                return Some(nonce);
            },
            None => {},
        }
        attempts = attempts + 1;
    }
    None
}

/// Draws the two nonces of the signer `identifier` for one signature, each
/// the hash of the secret and of 32 bytes that `rng` chooses, and gives
/// them with the commitments to publish. `InvalidZeroScalar` where no nonce
/// other than zero came of what `rng` gave.
pub fn commit<R: RngCore + CryptoRng>(identifier: Identifier, secret: &Secret, rng: &mut R) -> (r:
    Result<(SigningNonces, SigningCommitments), Error>)
    ensures
        r is Ok ==> r->Ok_0.1 == r->Ok_0.0.committed(),
        r is Ok ==> r->Ok_0.1.holder() == identifier,
        r is Ok ==> r->Ok_0.1.hiding_element().log() == r->Ok_0.0.hiding_value(),
        r is Ok ==> r->Ok_0.1.binding_element().log() == r->Ok_0.0.binding_value(),
        r is Ok ==> is_nonce_of(r->Ok_0.0.hiding_value(), *secret),
        r is Ok ==> is_nonce_of(r->Ok_0.0.binding_value(), *secret),
        r is Err ==> r->Err_0 == Error::InvalidZeroScalar,
{
    let hiding = match nonce_generate(secret, rng) {
        Some(nonce) => nonce,
        None => {
            return Err(Error::InvalidZeroScalar);
        },
    };
    let binding = match nonce_generate(secret, rng) {
        Some(nonce) => nonce,
        None => {
            return Err(Error::InvalidZeroScalar);
        },
    };
    match SigningNonces::from_nonces(identifier, hiding, binding) {
        Ok(nonces) => {
            let commitments = nonces.commitments();
            Ok((nonces, commitments))
        },
        Err(e) => Err(e),
    }
}

/// The residue that the hash of `random` and the secret gives.
pub open(crate) spec fn nonce_value(random: Seq<u8>, secret: Secret) -> nat {
    h3_spec(random + secret.scalar.encoding())
}

/// `value` is the hash of some 32 bytes and the secret.
pub open(crate) spec fn is_nonce_of(value: nat, secret: Secret) -> bool {
    exists|random: Seq<u8>| random.len() == 32 && value == #[trigger] nonce_value(random, secret)
}

} // verus!
