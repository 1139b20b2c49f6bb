//! Elements of the Ristretto group.
//!
//! The group has prime order and the basepoint generates it, so every
//! element is a multiple of the basepoint by exactly one residue: its
//! logarithm. The contracts of this module describe the group through the
//! logarithms of its elements.

use vstd::prelude::*;
use crate::bytes::{bytes32_eq, le_nat};
use crate::error::Error;
use crate::field::{fadd, fmul, group_order, lemma_residues};
use crate::scalar::Scalar;

verus! {

/// The canonical encoding of the basepoint multiplied by `s`.
pub uninterp spec fn ristretto_base_mul(s: nat) -> Seq<u8>;

/// Whether `curve25519_dalek` decompresses `bytes` to a point.
pub uninterp spec fn ristretto_decodes(bytes: Seq<u8>) -> bool;

/// `e` encodes the basepoint multiplied by the residue `x`.
pub open spec fn is_log(e: Seq<u8>, x: nat) -> bool {
    x < group_order() && ristretto_base_mul(x) == e
}

/// `e` is the canonical encoding of a group element: it decompresses, and
/// it encodes the basepoint multiplied by one residue and no other.
pub open spec fn is_element(e: Seq<u8>) -> bool {
    &&& e.len() == 32
    &&& ristretto_decodes(e)
    &&& exists|x: nat| is_log(e, x)
    &&& forall|x: nat, y: nat| is_log(e, x) && is_log(e, y) ==> x == y
}

/// The residue by which the basepoint is multiplied to give the element
/// that `e` encodes.
pub open spec fn log_of(e: Seq<u8>) -> nat {
    choose|x: nat| is_log(e, x)
}

/// The logarithm of an element's encoding is below the group order, and the
/// basepoint multiplied by it has that encoding.
pub proof fn lemma_log_of(e: Seq<u8>)
    requires
        is_element(e),
    ensures
        log_of(e) < group_order(),
        ristretto_base_mul(log_of(e)) == e,
{
}

/// An encoding of the basepoint multiplied by `x` has the logarithm `x`.
pub proof fn lemma_log_of_base_mul(e: Seq<u8>, x: nat)
    requires
        is_element(e),
        is_log(e, x),
    ensures
        log_of(e) == x,
{
}

/// `curve25519_dalek`'s compressed form of the basepoint multiplied by a
/// scalar. The claim: the result is a group element, which decompresses as
/// every compressed point does, and no other residue multiplies the
/// basepoint to it, as the basepoint has the group's order.
#[verifier::external_body]
fn dalek_base_mul(s: &[u8; 32]) -> (r: [u8; 32])
    requires
        le_nat(s@) < group_order(),
    ensures
        r@ == ristretto_base_mul(le_nat(s@)),
        is_element(r@),
{
    let s = curve25519_dalek::scalar::Scalar::from_bits(*s);
    (curve25519_dalek::constants::RISTRETTO_BASEPOINT_POINT * s).compress().to_bytes()
}

/// `curve25519_dalek`'s compressed form of the identity: the basepoint
/// multiplied by zero.
#[verifier::external_body]
fn dalek_identity() -> (r: [u8; 32])
    ensures
        r@ == ristretto_base_mul(0),
        is_element(r@),
{
    let identity: curve25519_dalek::ristretto::RistrettoPoint =
        curve25519_dalek::traits::Identity::identity();
    identity.compress().to_bytes()
}

/// `curve25519_dalek`'s `CompressedRistretto::decompress`, of which only
/// success or failure is kept. The claim: bytes that decompress are the
/// canonical encoding of a group element, which is a multiple of the
/// basepoint, the group being of prime order.
#[verifier::external_body]
fn dalek_decodes(bytes: &[u8; 32]) -> (r: bool)
    ensures
        r == ristretto_decodes(bytes@),
        r ==> is_element(bytes@),
{
    curve25519_dalek::ristretto::CompressedRistretto(*bytes).decompress().is_some()
}

/// `curve25519_dalek`'s addition of points, on compressed forms. The
/// claim: the sum of two multiples of the basepoint is the basepoint
/// multiplied by the sum of the two residues.
#[verifier::external_body]
fn dalek_point_add(a: &[u8; 32], b: &[u8; 32]) -> (r: [u8; 32])
    requires
        is_element(a@),
        is_element(b@),
    ensures
        r@ == ristretto_base_mul(fadd(log_of(a@), log_of(b@))),
        is_element(r@),
{
    let p = curve25519_dalek::ristretto::CompressedRistretto(*a).decompress().unwrap();
    let q = curve25519_dalek::ristretto::CompressedRistretto(*b).decompress().unwrap();
    (p + q).compress().to_bytes()
}

/// `curve25519_dalek`'s multiplication of a point by a scalar, on
/// compressed forms. The claim: a multiple of the basepoint, multiplied by
/// a scalar, is the basepoint multiplied by the product of the two residues.
#[verifier::external_body]
fn dalek_point_mul(p: &[u8; 32], s: &[u8; 32]) -> (r: [u8; 32])
    requires
        is_element(p@),
        le_nat(s@) < group_order(),
    ensures
        r@ == ristretto_base_mul(fmul(log_of(p@), le_nat(s@))),
        is_element(r@),
{
    let p = curve25519_dalek::ristretto::CompressedRistretto(*p).decompress().unwrap();
    let s = curve25519_dalek::scalar::Scalar::from_bits(*s);
    (p * s).compress().to_bytes()
}

/// A group element, held in its canonical encoding.
#[derive(Clone, Copy, Debug, PartialEq, Eq)]
pub struct Element {
    pub(crate) bytes: [u8; 32],
}

impl Element {
    #[verifier::type_invariant]
    pub open(crate) spec fn valid(self) -> bool {
        is_element(self.bytes@)
    }

    /// The canonical encoding.
    pub open(crate) spec fn encoding(self) -> Seq<u8> {
        self.bytes@
    }

    /// The residue by which the basepoint is multiplied to give this element.
    pub open(crate) spec fn log(self) -> nat {
        log_of(self.bytes@)
    }

    /// The element that `bytes` encode; `MalformedElement` where they are
    /// not the canonical encoding of one.
    pub fn deserialize(bytes: &[u8; 32]) -> (r: Result<Element, Error>)
        ensures
            match r {
                Ok(e) => ristretto_decodes(bytes@) && e.encoding() == bytes@,
                Err(e) => !ristretto_decodes(bytes@) && e == Error::MalformedElement,
            },
    {
        if dalek_decodes(bytes) {
            Ok(Element { bytes: *bytes })
        } else {
            Err(Error::MalformedElement)
        }
    }

    /// The canonical encoding.
    pub fn serialize(&self) -> (r: [u8; 32])
        ensures
            r@ == self.encoding(),
            is_element(r@),
    {
        proof {
            use_type_invariant(self);
        }
        self.bytes
    }

    /// The identity.
    pub fn identity() -> (r: Element)
        ensures
            r.log() == 0,
    {
        let bytes = dalek_identity();
        proof {
            lemma_log_of_base_mul(bytes@, 0);
        }
        Element { bytes }
    }

    /// The basepoint multiplied by `s`.
    pub fn base_mul(s: &Scalar) -> (r: Element)
        ensures
            r.log() == s.value(),
    {
        proof {
            use_type_invariant(s);
        }
        let bytes = dalek_base_mul(&s.bytes);
        proof {
            lemma_log_of_base_mul(bytes@, s.value());
        }
        Element { bytes }
    }

    /// The sum of two elements.
    pub fn add(&self, other: &Element) -> (r: Element)
        ensures
            r.log() == fadd(self.log(), other.log()),
    {
        proof {
            use_type_invariant(self);
            use_type_invariant(other);
        }
        let bytes = dalek_point_add(&self.bytes, &other.bytes);
        proof {
            lemma_residues(self.log(), other.log());
            lemma_log_of_base_mul(bytes@, fadd(self.log(), other.log()));
        }
        Element { bytes }
    }

    /// The element multiplied by `s`.
    pub fn mul(&self, s: &Scalar) -> (r: Element)
        ensures
            r.log() == fmul(self.log(), s.value()),
    {
        proof {
            use_type_invariant(self);
            use_type_invariant(s);
        }
        let bytes = dalek_point_mul(&self.bytes, &s.bytes);
        proof {
            lemma_residues(self.log(), s.value());
            lemma_log_of_base_mul(bytes@, fmul(self.log(), s.value()));
        }
        Element { bytes }
    }

    /// Elements of one encoding are the same element.
    pub proof fn lemma_encoding_injective(a: Element, b: Element)
        requires
            a.encoding() == b.encoding(),
        ensures
            a == b,
    {
        assert(a.bytes =~= b.bytes);
    }

    /// Whether two elements are the same.
    pub fn equals(&self, other: &Element) -> (r: bool)
        ensures
            r == (self.log() == other.log()),
            r == (self.encoding() == other.encoding()),
            r == (*self == *other),
    {
        proof {
            use_type_invariant(self);
            use_type_invariant(other);
            lemma_log_of(self.bytes@);
            lemma_log_of(other.bytes@);
        }
        let r = bytes32_eq(&self.bytes, &other.bytes);
        proof {
            if r {
                assert(self.bytes =~= other.bytes);
            }
        }
        r
    }

    /// Whether the element is the identity.
    pub fn is_identity(&self) -> (r: bool)
        ensures
            r == (self.log() == 0),
    {
        let identity = Element::identity();
        self.equals(&identity)
    }
}

} // verus!
