//! The names of the participants.

use vstd::prelude::*;
use crate::error::Error;
use crate::field::group_order;
use crate::scalar::Scalar;

verus! {

/// The name of a participant: a scalar other than zero. Identifiers are
/// ordered as the numbers below the group order that they are.
#[derive(Clone, Copy, Debug, PartialEq, Eq)]
pub struct Identifier {
    pub(crate) scalar: Scalar,
}

impl Identifier {
    #[verifier::type_invariant]
    pub open(crate) spec fn nonzero(self) -> bool {
        0 < self.scalar.value() < group_order()
    }

    /// The identifier as a number: above zero and below the group order.
    pub open(crate) spec fn value(self) -> nat {
        self.scalar.value()
    }

    /// The canonical encoding of the identifier's scalar.
    pub open(crate) spec fn encoding(self) -> Seq<u8> {
        self.scalar.encoding()
    }

    /// The identifier that is `scalar`; `IdentifierDerivationFailed` where
    /// the scalar is zero.
    pub fn new(scalar: Scalar) -> (r: Result<Identifier, Error>)
        ensures
            match r {
                Ok(id) => scalar.value() != 0 && id.value() == scalar.value() && id.to_scalar()
                    == scalar,
                Err(e) => scalar.value() == 0 && e == Error::IdentifierDerivationFailed,
            },
    {
        if scalar.is_zero() {
            Err(Error::IdentifierDerivationFailed)
        } else {
            proof {
                use_type_invariant(scalar);
            }
            Ok(Identifier { scalar })
        }
    }

    /// The identifier of value `n`; `IdentifierDerivationFailed` where `n`
    /// is zero.
    pub fn from_u16(n: u16) -> (r: Result<Identifier, Error>)
        ensures
            match r {
                Ok(id) => n != 0 && id.value() == n,
                Err(e) => n == 0 && e == Error::IdentifierDerivationFailed,
            },
    {
        Identifier::new(Scalar::from_u16(n))
    }

    /// The identifier that `bytes` encode: `MalformedScalar` where they
    /// encode no scalar, `IdentifierDerivationFailed` where they encode zero.
    pub fn deserialize(bytes: &[u8; 32]) -> (r: Result<Identifier, Error>)
        ensures
            match r {
                Ok(id) => 0 < crate::bytes::le_nat(bytes@) < group_order() && id.encoding()
                    == bytes@,
                Err(e) => if crate::bytes::le_nat(bytes@) >= group_order() {
                    e == Error::MalformedScalar
                } else {
                    crate::bytes::le_nat(bytes@) == 0 && e == Error::IdentifierDerivationFailed
                },
            },
    {
        match Scalar::deserialize(bytes) {
            Ok(scalar) => Identifier::new(scalar),
            Err(e) => Err(e),
        }
    }

    /// The canonical encoding of the identifier's scalar.
    pub fn serialize(&self) -> (r: [u8; 32])
        ensures
            r@ == self.encoding(),
            crate::bytes::le_nat(r@) == self.value(),
            0 < self.value() < group_order(),
    {
        proof {
            use_type_invariant(self);
        }
        self.scalar.serialize()
    }

    /// The scalar that the identifier is.
    pub open(crate) spec fn to_scalar(self) -> Scalar {
        self.scalar
    }

    /// The scalar that the identifier is.
    pub fn scalar(&self) -> (r: Scalar)
        ensures
            r == self.to_scalar(),
            r.value() == self.value(),
            0 < self.value() < group_order(),
    {
        proof {
            use_type_invariant(self);
        }
        self.scalar
    }

    /// Whether two identifiers are the same.
    pub fn equals(&self, other: &Identifier) -> (r: bool)
        ensures
            r == (self.value() == other.value()),
            r == (*self == *other),
    {
        self.scalar.equals(&other.scalar)
    }

    /// Identifiers of one value are the same identifier.
    pub proof fn lemma_value_injective(a: Identifier, b: Identifier)
        requires
            a.value() == b.value(),
        ensures
            a == b,
    {
        Scalar::lemma_value_injective(a.scalar, b.scalar);
    }

    /// Whether this identifier comes before the other.
    pub fn less_than(&self, other: &Identifier) -> (r: bool)
        ensures
            r == (self.value() < other.value()),
    {
        self.scalar.less_than(&other.scalar)
    }
}

} // verus!
