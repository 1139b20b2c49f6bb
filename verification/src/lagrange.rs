//! Lagrange interpolation at zero over the scalar field.

use vstd::prelude::*;
use crate::error::Error;
use crate::field::{finv, fmul, fsub, group_order, is_inverse, lemma_fsub_nonzero, lemma_residues};
use crate::identifier::Identifier;
use crate::round1::SigningCommitments;
use crate::scalar::Scalar;
use crate::signing_package::{lemma_lookup_commitment, lookup_commitment, SigningPackage};

verus! {

/// One factor of a Lagrange coefficient: `x / (x - i)`.
pub open spec fn lagrange_factor(x: nat, i: nat) -> nat {
    fmul(x, finv(fsub(x, i)))
}

/// The Lagrange coefficient at zero of the point `i` among the points
/// `xs`: the product of `x / (x - i)` over all points `x` other than `i`.
pub open spec fn lagrange_coefficient(xs: Seq<nat>, i: nat) -> nat
    decreases xs.len(),
{
    if xs.len() == 0 {
        1
    } else if xs.last() == i {
        lagrange_coefficient(xs.drop_last(), i)
    } else {
        fmul(lagrange_coefficient(xs.drop_last(), i), lagrange_factor(xs.last(), i))
    }
}

/// Every difference that the Lagrange coefficient of `i` divides by has
/// an inverse.
pub open spec fn divisors_have_inverses(xs: Seq<nat>, i: nat) -> bool {
    forall|k: int|
        0 <= k < xs.len() && xs[k] != i ==> is_inverse(
            fsub(#[trigger] xs[k], i),
            finv(fsub(xs[k], i)),
        )
}

/// The values of the signers' identifiers, each in turn.
pub open(crate) spec fn signer_values(commitments: Seq<SigningCommitments>) -> Seq<nat> {
    commitments.map_values(|c: SigningCommitments| c.identifier.value())
}

/// A Lagrange coefficient is a residue.
pub proof fn lemma_lagrange_coefficient_bound(xs: Seq<nat>, i: nat)
    ensures
        lagrange_coefficient(xs, i) < group_order(),
    decreases xs.len(),
{
    if xs.len() > 0 {
        lemma_lagrange_coefficient_bound(xs.drop_last(), i);
        lemma_residues(lagrange_coefficient(xs.drop_last(), i), lagrange_factor(xs.last(), i));
    }
}

/// Computes the Lagrange coefficient at zero of a signer among the signers
/// of the package. `UnknownIdentifier` where the signer is not among them.
pub fn derive_interpolating_value(identifier: &Identifier, signing_package: &SigningPackage) -> (r:
    Result<Scalar, Error>)
    ensures
        match r {
            Ok(l) => {
                &&& lookup_commitment(signing_package.signers(), identifier.value()) is Some
                &&& l.value() == lagrange_coefficient(
                    signer_values(signing_package.signers()),
                    identifier.value(),
                )
                &&& divisors_have_inverses(
                    signer_values(signing_package.signers()),
                    identifier.value(),
                )
            },
            Err(e) => lookup_commitment(signing_package.signers(), identifier.value()) is None
                && e == Error::UnknownIdentifier,
        },
{
    let ghost xs = signer_values(signing_package.signers());
    let x_i = identifier.scalar();
    let mut found = false;
    let mut coefficient = Scalar::one();
    let mut k: usize = 0;
    assert(xs.take(0) =~= Seq::empty());
    while k < signing_package.commitments.len()
        invariant
            k <= signing_package.commitments.len(),
            xs == signer_values(signing_package.signers()),
            x_i.value() == identifier.value(),
            0 < x_i.value() < group_order(),
            coefficient.value() == lagrange_coefficient(xs.take(k as int), x_i.value()),
            divisors_have_inverses(xs.take(k as int), x_i.value()),
            found == exists|j: int|
                0 <= j < k && signing_package.signers()[j].holder().value() == identifier.value(),
        decreases signing_package.commitments.len() - k,
    {
        let x_j = signing_package.commitments[k].identifier.scalar();
        proof {
            assert(xs.take(k + 1).drop_last() =~= xs.take(k as int));
            assert(xs.take(k + 1).last() == x_j.value());
            assert(signing_package.signers()[k as int].holder().value() == x_j.value());
        }
        if x_j.equals(&x_i) {
            found = true;
        } else {
            proof {
                lemma_fsub_nonzero(x_j.value(), x_i.value());
            }
            let denominator = x_j.sub(&x_i);
            let factor = x_j.mul(&denominator.invert());
            coefficient = coefficient.mul(&factor);
        }
        proof {
            assert forall|m: int|
                0 <= m < k + 1 && xs.take(k + 1)[m] != x_i.value() implies is_inverse(
                fsub(#[trigger] xs.take(k + 1)[m], x_i.value()),
                finv(fsub(xs.take(k + 1)[m], x_i.value())),
            ) by {
                if m < k {
                    assert(xs.take(k as int)[m] == xs.take(k + 1)[m]);
                }
            }
        }
        k = k + 1;
    }
    proof {
        assert(xs.take(k as int) =~= xs);
        lemma_lookup_commitment(signing_package.signers(), identifier.value());
    }
    if !found {
        return Err(Error::UnknownIdentifier);
    }
    Ok(coefficient)
}

} // verus!
