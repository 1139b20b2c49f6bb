use frost_ristretto255::element::Element;
use frost_ristretto255::error::Error;
use frost_ristretto255::scalar::Scalar;

#[test]
fn element_identity_is_encoded_by_zeros() {
    assert_eq!(Element::identity().serialize(), [0u8; 32]);
    assert!(Element::identity().is_identity());
    assert!(Element::base_mul(&Scalar::zero()).is_identity());
    assert!(!Element::base_mul(&Scalar::one()).is_identity());
}

#[test]
fn element_sum_follows_the_scalars() {
    let two = Scalar::from_u16(2);
    let three = Scalar::from_u16(3);
    let five = Scalar::from_u16(5);
    let left = Element::base_mul(&two).add(&Element::base_mul(&three));
    assert_eq!(left, Element::base_mul(&five));
    assert!(left.equals(&Element::base_mul(&five)));
    assert!(!left.equals(&Element::base_mul(&three)));
    let base = Element::base_mul(&Scalar::one());
    assert_eq!(base.add(&Element::identity()), base);
}

#[test]
fn element_product_follows_the_scalars() {
    let six = Scalar::from_u16(6);
    let seven = Scalar::from_u16(7);
    let left = Element::base_mul(&six).mul(&seven);
    assert_eq!(left, Element::base_mul(&Scalar::from_u16(42)));
    // the largest scalar and one more give the identity
    let largest = Scalar::zero().sub(&Scalar::one());
    let base = Element::base_mul(&Scalar::one());
    assert!(base.mul(&largest).add(&base).is_identity());
}

#[test]
fn element_encoding_round_trip() {
    let element = Element::base_mul(&Scalar::from_u16(1234));
    let bytes = element.serialize();
    assert_ne!(bytes, Scalar::from_u16(1234).serialize());
    assert_eq!(Element::deserialize(&bytes), Ok(element));
}

#[test]
fn element_of_no_point_is_refused() {
    assert_eq!(Element::deserialize(&[0xff; 32]), Err(Error::MalformedElement));
    // an odd first byte is a negative number, which encodes no element
    let mut bytes = Element::base_mul(&Scalar::one()).serialize();
    if bytes[0] % 2 == 0 {
        bytes[0] |= 1;
        assert_eq!(Element::deserialize(&bytes), Err(Error::MalformedElement));
    } else {
        panic!("an element was encoded by a negative number");
    }
}
