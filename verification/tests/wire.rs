use frost_ristretto255::element::Element;
use frost_ristretto255::error::Error;
use frost_ristretto255::identifier::Identifier;
use frost_ristretto255::keys::{
    keygen_with_dealer, KeyPackage, PublicKeyPackage, SecretShare,
    VerifiableSecretSharingCommitment,
};
use frost_ristretto255::round1::{SigningCommitments, SigningNonces};
use frost_ristretto255::round2::SignatureShare;
use frost_ristretto255::scalar::Scalar;
use frost_ristretto255::signature::Signature;
use frost_ristretto255::signing_package::SigningPackage;

const HEADER: [u8; 5] = [0x00, 0xd7, 0x6e, 0xcf, 0xf5];

fn commitments(signer: u16, d: u16, e: u16) -> SigningCommitments {
    SigningNonces::from_nonces(
        Identifier::from_u16(signer).unwrap(),
        Scalar::from_u16(d),
        Scalar::from_u16(e),
    )
    .unwrap()
    .commitments()
}

fn not_an_element() -> [u8; 32] {
    let mut bytes = Element::base_mul(&Scalar::one()).serialize();
    bytes[0] |= 1;
    bytes
}

#[test]
fn wire_form_of_commitments() {
    let c = commitments(3, 5, 7);
    let bytes = c.serialize();
    assert_eq!(bytes.len(), 101);
    assert_eq!(&bytes[..5], &HEADER);
    assert_eq!(&bytes[5..37], &Identifier::from_u16(3).unwrap().serialize());
    assert_eq!(&bytes[37..69], &Element::base_mul(&Scalar::from_u16(5)).serialize());
    assert_eq!(&bytes[69..], &Element::base_mul(&Scalar::from_u16(7)).serialize());
    assert_eq!(SigningCommitments::deserialize(&bytes), Ok(c));
}

#[test]
fn wire_form_of_commitments_is_checked() {
    let bytes = commitments(3, 5, 7).serialize();
    let decode = |b: &[u8]| SigningCommitments::deserialize(b).err();
    assert_eq!(decode(&bytes[..100]), Some(Error::DeserializationError));
    assert_eq!(decode(&[]), Some(Error::DeserializationError));
    let mut long = bytes.clone();
    long.push(0);
    assert_eq!(decode(&long), Some(Error::DeserializationError));
    let mut version = bytes.clone();
    version[0] = 1;
    assert_eq!(decode(&version), Some(Error::UnknownIdentifier));
    let mut suite = bytes.clone();
    suite[4] ^= 0x10;
    assert_eq!(decode(&suite), Some(Error::UnknownIdentifier));
    let mut zero = bytes.clone();
    zero[5] = 0;
    assert_eq!(decode(&zero), Some(Error::IdentifierDerivationFailed));
    let mut large = bytes.clone();
    large[36] = 0xff;
    assert_eq!(decode(&large), Some(Error::MalformedScalar));
    let mut identity = bytes.clone();
    identity[37..69].copy_from_slice(&[0u8; 32]);
    assert_eq!(decode(&identity), Some(Error::MalformedElement));
    let mut broken = bytes.clone();
    broken[69..].copy_from_slice(&not_an_element());
    assert_eq!(decode(&broken), Some(Error::MalformedElement));
    // the first thing wrong is reported
    large[37..69].copy_from_slice(&[0u8; 32]);
    assert_eq!(decode(&large), Some(Error::MalformedScalar));
}

#[test]
fn wire_form_of_a_share_of_a_signature() {
    let share = SignatureShare::from_scalar(Scalar::from_u16(0x0102));
    let bytes = share.to_wire();
    assert_eq!(bytes.len(), 37);
    assert_eq!(&bytes[..5], &HEADER);
    assert_eq!(&bytes[5..], &share.serialize());
    assert_eq!(&bytes[5..8], &[2, 1, 0]);
    assert_eq!(SignatureShare::from_wire(&bytes), Ok(share));
    assert_eq!(SignatureShare::from_wire(&bytes[..36]), Err(Error::DeserializationError));
    assert_eq!(SignatureShare::from_wire(&share.serialize()), Err(Error::DeserializationError));
    let mut suite = bytes.clone();
    suite[1] = 0;
    assert_eq!(SignatureShare::from_wire(&suite), Err(Error::UnknownIdentifier));
    let mut large = bytes.clone();
    large[36] = 0x80;
    assert_eq!(SignatureShare::from_wire(&large), Err(Error::MalformedScalar));
}

#[test]
fn wire_form_of_a_signature() {
    let signature = Signature::new(Element::base_mul(&Scalar::from_u16(9)), Scalar::from_u16(300));
    let bytes = signature.serialize();
    assert_eq!(bytes.len(), 64);
    assert_eq!(&bytes[..32], &signature.group_commitment().serialize());
    assert_eq!(&bytes[32..34], &[44, 1]);
    assert_eq!(Signature::deserialize(&bytes), Ok(signature));
    assert_eq!(Signature::deserialize(&bytes[..63]).err(), Some(Error::DeserializationError));
    let mut broken = bytes.clone();
    broken[..32].copy_from_slice(&not_an_element());
    assert_eq!(Signature::deserialize(&broken).err(), Some(Error::MalformedElement));
    let mut large = bytes.clone();
    large[63] = 0x80;
    assert_eq!(Signature::deserialize(&large).err(), Some(Error::MalformedScalar));
    // the identity is a commitment that a signature may hold
    let mut identity = bytes.clone();
    identity[..32].copy_from_slice(&[0u8; 32]);
    assert!(Signature::deserialize(&identity).is_ok());
}

#[test]
fn wire_forms_of_keys() {
    let (packages, pubkeys) = keygen_with_dealer(3, 2, rand::thread_rng()).unwrap();
    let key_package = KeyPackage::try_from(packages[1].clone()).unwrap();
    let bytes = key_package.serialize();
    assert_eq!(bytes.len(), 135);
    assert_eq!(&bytes[..5], &HEADER);
    assert_eq!(bytes[5], 2);
    assert_eq!(&bytes[133..], &[2, 0]);
    assert!(KeyPackage::deserialize(&bytes) == Ok(key_package));
    assert_eq!(KeyPackage::deserialize(&bytes[1..]).err(), Some(Error::DeserializationError));
    let mut large = bytes.clone();
    large[68] = 0x80;
    assert_eq!(KeyPackage::deserialize(&large).err(), Some(Error::MalformedScalar));
    let mut broken = bytes.clone();
    broken[101..133].copy_from_slice(&not_an_element());
    assert_eq!(KeyPackage::deserialize(&broken).err(), Some(Error::MalformedElement));
    // the public key of another participant
    let mut other = bytes.clone();
    other[69..101].copy_from_slice(&packages[0].public().element().serialize());
    assert_eq!(KeyPackage::deserialize(&other).err(), Some(Error::InvalidSecretShare));
    let mut alone = bytes.clone();
    alone[133] = 1;
    assert_eq!(KeyPackage::deserialize(&alone).err(), Some(Error::InvalidMinSigners));
    // another share under the same public key
    let mut share = bytes.clone();
    share[37] ^= 1;
    assert_eq!(KeyPackage::deserialize(&share).err(), Some(Error::InvalidSecretShare));

    let bytes = pubkeys.serialize();
    assert_eq!(bytes.len(), 5 + 32 + 8 + 3 * 64);
    assert_eq!(&bytes[37..45], &[3, 0, 0, 0, 0, 0, 0, 0]);
    assert_eq!(PublicKeyPackage::deserialize(&bytes), Ok(pubkeys.duplicate()));
    assert_eq!(
        PublicKeyPackage::deserialize(&bytes[..bytes.len() - 1]).err(),
        Some(Error::DeserializationError)
    );
    let mut fewer = bytes.clone();
    fewer[37] = 2;
    assert_eq!(PublicKeyPackage::deserialize(&fewer).err(), Some(Error::DeserializationError));
    let mut zero = bytes.clone();
    zero[45] = 0;
    assert_eq!(PublicKeyPackage::deserialize(&zero).err(), Some(Error::IdentifierDerivationFailed));
    let mut broken = bytes.clone();
    let at = 45 + 64 + 32;
    broken[at..at + 32].copy_from_slice(&not_an_element());
    assert_eq!(PublicKeyPackage::deserialize(&broken).err(), Some(Error::MalformedElement));
    // the first entry that is wrong decides
    broken[45 + 31] = 0xff;
    assert_eq!(PublicKeyPackage::deserialize(&broken).err(), Some(Error::MalformedScalar));
    let empty = PublicKeyPackage::new(Vec::new(), pubkeys.group_public()).unwrap();
    // one participant twice
    let mut twice = bytes.clone();
    twice[45 + 64..45 + 96].copy_from_slice(&bytes[45..45 + 32]);
    assert_eq!(PublicKeyPackage::deserialize(&twice).err(), Some(Error::DuplicatedIdentifier));
    assert_eq!(PublicKeyPackage::deserialize(&empty.serialize()), Ok(empty));
}

#[test]
fn wire_forms_of_shares() {
    let (packages, _) = keygen_with_dealer(4, 3, rand::thread_rng()).unwrap();
    let share = packages[2].secret_share();
    let bytes = share.serialize();
    assert_eq!(bytes.len(), 5 + 32 + 32 + 8 + 3 * 32);
    assert_eq!(bytes[5], 3);
    let decoded = SecretShare::deserialize(&bytes).unwrap();
    assert!(&decoded == share);
    assert_eq!(decoded.verify(), Ok(()));
    assert_eq!(SecretShare::deserialize(&bytes[..76]).err(), Some(Error::DeserializationError));
    assert_eq!(
        SecretShare::deserialize(&bytes[..bytes.len() - 32]).err(),
        Some(Error::DeserializationError)
    );
    let mut broken = bytes.clone();
    let at = bytes.len() - 32;
    broken[at..].copy_from_slice(&not_an_element());
    assert_eq!(SecretShare::deserialize(&broken).err(), Some(Error::MalformedElement));

    let commitment = share.commitment();
    let bytes = commitment.serialize();
    assert_eq!(bytes.len(), 5 + 8 + 3 * 32);
    assert_eq!(&bytes[13..45], &commitment.coefficients()[0].serialize());
    let decoded = VerifiableSecretSharingCommitment::deserialize(&bytes).unwrap();
    assert_eq!(&decoded, commitment);
    let mut more = bytes.clone();
    more[5] = 4;
    assert_eq!(
        VerifiableSecretSharingCommitment::deserialize(&more).err(),
        Some(Error::DeserializationError)
    );
    let mut huge = bytes.clone();
    huge[12] = 0xff;
    assert_eq!(
        VerifiableSecretSharingCommitment::deserialize(&huge).err(),
        Some(Error::DeserializationError)
    );
    let mut broken = bytes.clone();
    broken[13..45].copy_from_slice(&[0xff; 32]);
    assert_eq!(
        VerifiableSecretSharingCommitment::deserialize(&broken).err(),
        Some(Error::MalformedElement)
    );
    let none = VerifiableSecretSharingCommitment::from_elements(Vec::new());
    assert_eq!(none.serialize().len(), 13);
    assert_eq!(VerifiableSecretSharingCommitment::deserialize(&none.serialize()), Ok(none));
}

#[test]
fn wire_form_of_a_signing_package() {
    let given = vec![commitments(7, 1, 2), commitments(2, 3, 4), commitments(300, 5, 6)];
    let package = SigningPackage::new(given.clone(), b"hello".to_vec()).unwrap();
    let bytes = package.serialize();
    assert_eq!(bytes.len(), 5 + 8 + 3 * 96 + 8 + 5 + 1);
    assert_eq!(&bytes[..5], &HEADER);
    assert_eq!(bytes[5], 3);
    // in the order of the identifiers: 2, 7, 300
    assert_eq!(bytes[13], 2);
    assert_eq!(bytes[13 + 96], 7);
    assert_eq!(&bytes[13 + 192..13 + 194], &[44, 1]);
    assert_eq!(&bytes[13 + 288..13 + 296], &[5, 0, 0, 0, 0, 0, 0, 0]);
    assert_eq!(&bytes[13 + 296..13 + 301], b"hello");
    assert_eq!(bytes[13 + 301], 0);
    assert_eq!(SigningPackage::deserialize(&bytes), Ok(package.duplicate()));

    let tweaked = package.duplicate().with_additional_tweak(b"tw".to_vec());
    let with_tweak = tweaked.serialize();
    assert_eq!(with_tweak.len(), bytes.len() + 8 + 2);
    assert_eq!(&with_tweak[..bytes.len() - 1], &bytes[..bytes.len() - 1]);
    assert_eq!(&with_tweak[bytes.len() - 1..], &[1, 2, 0, 0, 0, 0, 0, 0, 0, b't', b'w']);
    assert_eq!(SigningPackage::deserialize(&with_tweak), Ok(tweaked.duplicate()));
    assert!(tweaked != package);

    let empty = SigningPackage::new(Vec::new(), Vec::new()).unwrap();
    assert_eq!(empty.serialize().len(), 5 + 8 + 8 + 1);
    assert_eq!(SigningPackage::deserialize(&empty.serialize()), Ok(empty));
}

#[test]
fn wire_form_of_a_signing_package_is_checked() {
    let given = vec![commitments(7, 1, 2), commitments(2, 3, 4)];
    let package = SigningPackage::new(given, b"hello".to_vec()).unwrap();
    let bytes = package.serialize();
    let decode = |b: &[u8]| SigningPackage::deserialize(b).err();
    for cut in [0, 4, 12, 13, 100, 13 + 192, 13 + 199, 13 + 200, bytes.len() - 1] {
        assert_eq!(decode(&bytes[..cut]), Some(Error::DeserializationError));
    }
    let mut long = bytes.clone();
    long.push(0);
    assert_eq!(decode(&long), Some(Error::DeserializationError));
    let mut header = bytes.clone();
    header[2] = 0;
    assert_eq!(decode(&header), Some(Error::UnknownIdentifier));
    // the signers in the other order
    let mut swapped = bytes.clone();
    swapped[13..13 + 96].copy_from_slice(&bytes[13 + 96..13 + 192]);
    swapped[13 + 96..13 + 192].copy_from_slice(&bytes[13..13 + 96]);
    assert_eq!(decode(&swapped), Some(Error::DeserializationError));
    // one signer twice
    let mut twice = bytes.clone();
    twice[13 + 96..13 + 192].copy_from_slice(&bytes[13..13 + 96]);
    assert_eq!(decode(&twice), Some(Error::DeserializationError));
    let mut identity = bytes.clone();
    identity[13 + 96 + 64..13 + 192].copy_from_slice(&[0u8; 32]);
    assert_eq!(decode(&identity), Some(Error::MalformedElement));
    let mut count = bytes.clone();
    count[12] = 1;
    assert_eq!(decode(&count), Some(Error::DeserializationError));
    let mut length = bytes.clone();
    length[13 + 192] = 4;
    assert_eq!(decode(&length), Some(Error::DeserializationError));
    let mut flag = bytes.clone();
    let last = bytes.len() - 1;
    flag[last] = 2;
    assert_eq!(decode(&flag), Some(Error::DeserializationError));
    flag[last] = 1;
    assert_eq!(decode(&flag), Some(Error::DeserializationError));
    flag.extend_from_slice(&[1, 0, 0, 0, 0, 0, 0, 0]);
    assert_eq!(decode(&flag), Some(Error::DeserializationError));
    flag.push(9);
    assert_eq!(SigningPackage::deserialize(&flag).unwrap().additional_tweak_as_slice(), &[9]);
}
