//! Elements of the scalar field of the Ristretto group.

use vstd::prelude::*;
use crate::bytes::{bytes32_eq, bytes32_lt, le_nat, lemma_le_nat_injective, lemma_le_nat_zeros};
use crate::error::Error;
use crate::field::{fadd, finv, fmul, fsub, group_order, is_inverse, lemma_finv, lemma_residues};
use rand_core::{CryptoRng, RngCore};

verus! {

/// A residue modulo the group order, held in its canonical encoding: 32
/// bytes, least significant first, denoting a number below the order.
#[derive(Clone, Copy, Debug, PartialEq, Eq)]
pub struct Scalar {
    pub(crate) bytes: [u8; 32],
}

/// `curve25519_dalek`'s `Scalar::from_canonical_bytes`: it accepts exactly
/// the encodings of numbers below the group order.
#[verifier::external_body]
fn dalek_is_canonical(bytes: &[u8; 32]) -> (r: bool)
    ensures
        r == (le_nat(bytes@) < group_order()),
{
    curve25519_dalek::scalar::Scalar::from_canonical_bytes(*bytes).is_some()
}

/// `curve25519_dalek`'s `From<u16>` for `Scalar`: the scalar of that value.
#[verifier::external_body]
fn dalek_from_u16(x: u16) -> (r: [u8; 32])
    ensures
        le_nat(r@) == x,
{
    curve25519_dalek::scalar::Scalar::from(x).to_bytes()
}

/// `curve25519_dalek`'s `Scalar::from_bytes_mod_order_wide`: the 64 bytes,
/// read as a number, reduced modulo the group order.
#[verifier::external_body]
fn dalek_from_wide(bytes: &[u8; 64]) -> (r: [u8; 32])
    ensures
        le_nat(r@) == le_nat(bytes@) % group_order(),
{
    curve25519_dalek::scalar::Scalar::from_bytes_mod_order_wide(bytes).to_bytes()
}

/// `curve25519_dalek`'s `Scalar::random`: some canonical scalar, chosen by
/// the generator.
#[verifier::external_body]
fn dalek_random<R: RngCore + CryptoRng>(rng: &mut R) -> (r: [u8; 32])
    ensures
        le_nat(r@) < group_order(),
{
    curve25519_dalek::scalar::Scalar::random(rng).to_bytes()
}

/// `curve25519_dalek`'s addition of scalars: the sum modulo the group order.
#[verifier::external_body]
fn dalek_add(a: &[u8; 32], b: &[u8; 32]) -> (r: [u8; 32])
    requires
        le_nat(a@) < group_order(),
        le_nat(b@) < group_order(),
    ensures
        le_nat(r@) == fadd(le_nat(a@), le_nat(b@)),
{
    let x = curve25519_dalek::scalar::Scalar::from_bits(*a);
    let y = curve25519_dalek::scalar::Scalar::from_bits(*b);
    (x + y).to_bytes()
}

/// `curve25519_dalek`'s subtraction of scalars: the difference modulo the
/// group order.
#[verifier::external_body]
fn dalek_sub(a: &[u8; 32], b: &[u8; 32]) -> (r: [u8; 32])
    requires
        le_nat(a@) < group_order(),
        le_nat(b@) < group_order(),
    ensures
        le_nat(r@) == fsub(le_nat(a@), le_nat(b@)),
{
    let x = curve25519_dalek::scalar::Scalar::from_bits(*a);
    let y = curve25519_dalek::scalar::Scalar::from_bits(*b);
    (x - y).to_bytes()
}

/// `curve25519_dalek`'s multiplication of scalars: the product modulo the
/// group order.
#[verifier::external_body]
fn dalek_mul(a: &[u8; 32], b: &[u8; 32]) -> (r: [u8; 32])
    requires
        le_nat(a@) < group_order(),
        le_nat(b@) < group_order(),
    ensures
        le_nat(r@) == fmul(le_nat(a@), le_nat(b@)),
{
    let x = curve25519_dalek::scalar::Scalar::from_bits(*a);
    let y = curve25519_dalek::scalar::Scalar::from_bits(*b);
    (x * y).to_bytes()
}

/// `curve25519_dalek`'s `Scalar::invert`: for a scalar other than zero, the
/// canonical scalar whose product with it is one.
#[verifier::external_body]
fn dalek_invert(a: &[u8; 32]) -> (r: [u8; 32])
    requires
        0 < le_nat(a@) < group_order(),
    ensures
        is_inverse(le_nat(a@), le_nat(r@)),
{
    curve25519_dalek::scalar::Scalar::from_bits(*a).invert().to_bytes()
}

/// `zeroize`'s `Zeroize::zeroize` on 32 bytes: every byte is set to zero,
/// by writes that the compiler does not take out.
#[verifier::external_body]
fn zeroize_bytes(bytes: &mut [u8; 32])
    ensures
        forall|i: int| 0 <= i < 32 ==> final(bytes)@[i] == 0,
    no_unwind
{
    zeroize::Zeroize::zeroize(bytes);
}

impl Scalar {
    #[verifier::type_invariant]
    pub open(crate) spec fn canonical(self) -> bool {
        le_nat(self.bytes@) < group_order()
    }

    /// The residue, as a number below the group order.
    pub open(crate) spec fn value(self) -> nat {
        le_nat(self.bytes@)
    }

    /// The canonical encoding.
    pub open(crate) spec fn encoding(self) -> Seq<u8> {
        self.bytes@
    }

    /// The scalar that `bytes` encodes; `MalformedScalar` where they denote
    /// a number that is not below the group order.
    pub fn deserialize(bytes: &[u8; 32]) -> (r: Result<Scalar, Error>)
        ensures
            match r {
                Ok(s) => le_nat(bytes@) < group_order() && s.encoding() == bytes@,
                Err(e) => le_nat(bytes@) >= group_order() && e == Error::MalformedScalar,
            },
    {
        if dalek_is_canonical(bytes) {
            Ok(Scalar { bytes: *bytes })
        } else {
            Err(Error::MalformedScalar)
        }
    }

    /// The canonical encoding.
    pub fn serialize(&self) -> (r: [u8; 32])
        ensures
            r@ == self.encoding(),
            le_nat(r@) == self.value(),
            self.value() < group_order(),
    {
        proof {
            use_type_invariant(self);
        }
        self.bytes
    }

    /// The scalar of value `x`.
    pub fn from_u16(x: u16) -> (r: Scalar)
        ensures
            r.value() == x,
    {
        Scalar { bytes: dalek_from_u16(x) }
    }

    /// Zero.
    pub fn zero() -> (r: Scalar)
        ensures
            r.value() == 0,
    {
        Scalar::from_u16(0)
    }

    /// One.
    pub fn one() -> (r: Scalar)
        ensures
            r.value() == 1,
    {
        Scalar::from_u16(1)
    }

    /// The 64 bytes, read as a number, reduced modulo the group order.
    pub fn from_wide_bytes(bytes: &[u8; 64]) -> (r: Scalar)
        ensures
            r.value() == le_nat(bytes@) % group_order(),
    {
        proof {
            vstd::arithmetic::div_mod::lemma_mod_bound(le_nat(bytes@) as int, group_order() as int);
        }
        Scalar { bytes: dalek_from_wide(bytes) }
    }

    /// A scalar chosen by `rng`.
    pub fn random<R: RngCore + CryptoRng>(rng: &mut R) -> (r: Scalar)
        ensures
            r.value() < group_order(),
    {
        Scalar { bytes: dalek_random(rng) }
    }

    /// The sum.
    pub fn add(&self, other: &Scalar) -> (r: Scalar)
        ensures
            r.value() == fadd(self.value(), other.value()),
    {
        proof {
            use_type_invariant(self);
            use_type_invariant(other);
            lemma_residues(self.value(), other.value());
        }
        Scalar { bytes: dalek_add(&self.bytes, &other.bytes) }
    }

    /// The difference.
    pub fn sub(&self, other: &Scalar) -> (r: Scalar)
        ensures
            r.value() == fsub(self.value(), other.value()),
    {
        proof {
            use_type_invariant(self);
            use_type_invariant(other);
            lemma_residues(self.value(), other.value());
        }
        Scalar { bytes: dalek_sub(&self.bytes, &other.bytes) }
    }

    /// The product.
    pub fn mul(&self, other: &Scalar) -> (r: Scalar)
        ensures
            r.value() == fmul(self.value(), other.value()),
    {
        proof {
            use_type_invariant(self);
            use_type_invariant(other);
            lemma_residues(self.value(), other.value());
        }
        Scalar { bytes: dalek_mul(&self.bytes, &other.bytes) }
    }

    /// The inverse of a scalar other than zero.
    pub fn invert(&self) -> (r: Scalar)
        requires
            self.value() != 0,
        ensures
            is_inverse(self.value(), r.value()),
            r.value() == finv(self.value()),
    {
        proof {
            use_type_invariant(self);
        }
        let bytes = dalek_invert(&self.bytes);
        proof {
            lemma_finv(self.value(), le_nat(bytes@));
        }
        Scalar { bytes }
    }

    /// Erases the scalar: its bytes are overwritten with zeros, and the
    /// scalar that is left is zero.
    pub fn erase(&mut self)
        ensures
            final(self).value() == 0,
    {
        proof {
            // whatever has 32 zero bytes is zero
            assert forall|zeros: [u8; 32]|
                (forall|i: int| 0 <= i < 32 ==> zeros@[i] == 0) implies #[trigger] le_nat(zeros@)
                == 0 by {
                lemma_le_nat_zeros(zeros@);
            }
        }
        zeroize_bytes(&mut self.bytes);
    }

    /// Whether the scalar is zero.
    pub fn is_zero(&self) -> (r: bool)
        ensures
            r == (self.value() == 0),
    {
        let zero = Scalar::zero();
        self.equals(&zero)
    }

    /// The scalar itself where it is not zero, nothing where it is: what is
    /// kept of a scalar that was drawn where zero will not do.
    pub fn nonzero(self) -> (r: Option<Scalar>)
        ensures
            match r {
                Some(s) => s == self && 0 < self.value() < group_order(),
                None => self.value() == 0,
            },
    {
        proof {
            use_type_invariant(self);
        }
        if self.is_zero() {
            None
        } else {
            Some(self)
        }
    }

    /// Whether two scalars are the same residue.
    pub fn equals(&self, other: &Scalar) -> (r: bool)
        ensures
            r == (self.value() == other.value()),
            r == (*self == *other),
    {
        let r = bytes32_eq(&self.bytes, &other.bytes);
        proof {
            if self.value() == other.value() {
                lemma_le_nat_injective(self.bytes@, other.bytes@);
            }
            if r {
                assert(self.bytes =~= other.bytes);
            }
        }
        r
    }

    /// Scalars of one encoding are the same scalar.
    pub proof fn lemma_encoding_injective(a: Scalar, b: Scalar)
        requires
            a.encoding() == b.encoding(),
        ensures
            a == b,
    {
        assert(a.bytes =~= b.bytes);
    }

    /// Scalars of one value are the same scalar.
    pub proof fn lemma_value_injective(a: Scalar, b: Scalar)
        requires
            a.value() == b.value(),
        ensures
            a == b,
    {
        lemma_le_nat_injective(a.bytes@, b.bytes@);
        assert(a.bytes =~= b.bytes);
    }

    /// Whether this residue is the smaller number.
    pub fn less_than(&self, other: &Scalar) -> (r: bool)
        ensures
            r == (self.value() < other.value()),
    {
        bytes32_lt(&self.bytes, &other.bytes)
    }
}

} // verus!
