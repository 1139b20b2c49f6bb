//! The challenge of a Schnorr signature.

use vstd::prelude::*;
use crate::element::{lemma_log_of, ristretto_base_mul, Element};
use crate::hash::{h2, h2_spec};
use crate::keys::VerifyingKey;
use crate::scalar::Scalar;

verus! {

/// The challenge for the group commitment of logarithm `commitment_log`,
/// the group's key, a message and a tweak: the hash of the encodings of the
/// first two, the message and the tweak.
pub open(crate) spec fn challenge_value(
    commitment_log: nat,
    verifying_key: VerifyingKey,
    message: Seq<u8>,
    tweak: Seq<u8>,
) -> nat {
    h2_spec(
        ristretto_base_mul(commitment_log) + verifying_key.element.encoding() + message + tweak,
    )
}

/// Computes the challenge for a group commitment, the group's key, a
/// message and a tweak, which may be empty.
pub fn challenge(
    group_commitment: &Element,
    verifying_key: &VerifyingKey,
    message: &[u8],
    additional_tweak: &[u8],
) -> (r: Scalar)
    ensures
        r.value() == challenge_value(
            group_commitment.log(),
            *verifying_key,
            message@,
            additional_tweak@,
        ),
{
    let commitment = group_commitment.serialize();
    let key = verifying_key.element.serialize();
    let mut input: Vec<u8> = Vec::new();
    input.extend_from_slice(commitment.as_slice());
    input.extend_from_slice(key.as_slice());
    input.extend_from_slice(message);
    input.extend_from_slice(additional_tweak);
    proof {
        lemma_log_of(group_commitment.encoding());
        assert(input@ =~= ristretto_base_mul(group_commitment.log())
            + verifying_key.element.encoding() + message@ + additional_tweak@);
    }
    h2(input.as_slice())
}

} // verus!
