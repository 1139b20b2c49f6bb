use frost_ristretto255::error::Error;
use frost_ristretto255::round2::SignatureShare;
use frost_ristretto255::scalar::Scalar;

#[test]
fn signature_share_round_trip() {
    let mut bytes = [0u8; 32];
    bytes[0] = 7;
    bytes[5] = 0x5a;
    let share = SignatureShare::deserialize(bytes).unwrap();
    assert_eq!(share.serialize(), bytes);
    assert_eq!(SignatureShare::deserialize(share.serialize()), Ok(share));
}

#[test]
fn signature_share_rejects_the_group_order() {
    // Zero minus one is the largest scalar; one more is the group order.
    let largest = Scalar::zero().sub(&Scalar::one()).serialize();
    assert_eq!(largest[31], 0x10);
    assert_eq!(largest[0] % 2, 0);
    let share = SignatureShare::deserialize(largest).unwrap();
    assert_eq!(share.to_scalar().add(&Scalar::one()).serialize(), [0u8; 32]);
    let mut order = largest;
    order[0] += 1;
    assert_eq!(SignatureShare::deserialize(order), Err(Error::MalformedScalar));
    assert_eq!(SignatureShare::deserialize([0xff; 32]), Err(Error::MalformedScalar));
}
