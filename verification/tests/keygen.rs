use frost_ristretto255::element::Element;
use frost_ristretto255::error::Error;
use frost_ristretto255::identifier::Identifier;
use frost_ristretto255::keys::{
    default_identifiers, generate_secret_shares, keygen_with_dealer,
    secret_shares_from_coefficients, split_secret, KeyPackage, Public, Secret, SecretShare,
    SharePackage, VerifiableSecretSharingCommitment, VerifyingKey,
};
use frost_ristretto255::scalar::Scalar;

fn secret() -> Secret {
    Secret::try_from([1u8; 32]).unwrap()
}

fn coefficient() -> Scalar {
    let mut wide = [0u8; 64];
    for i in 0..32 {
        wide[i] = i as u8;
    }
    Scalar::from_wide_bytes(&wide)
}

fn bytes32(text: &str) -> [u8; 32] {
    let mut out = [0u8; 32];
    out.copy_from_slice(&hex::decode(text).unwrap());
    out
}

#[test]
fn keygen_threshold_of_one_is_refused() {
    let r = keygen_with_dealer(3, 1, rand::thread_rng());
    assert_eq!(r.err(), Some(Error::InvalidMinSigners));
    let r = keygen_with_dealer(3, 0, rand::thread_rng());
    assert_eq!(r.err(), Some(Error::InvalidMinSigners));
}

#[test]
fn keygen_threshold_above_the_participants_is_refused() {
    let r = keygen_with_dealer(3, 4, rand::thread_rng());
    assert_eq!(r.err(), Some(Error::InvalidMinSignersExceedsMaxSigners));
}

#[test]
fn keygen_of_one_participant_is_refused() {
    let r = keygen_with_dealer(1, 2, rand::thread_rng());
    assert_eq!(r.err(), Some(Error::InvalidMaxSigners));
    let r = generate_secret_shares(&secret(), 0, 2, rand::thread_rng());
    assert_eq!(r.err(), Some(Error::InvalidMaxSigners));
}

#[test]
fn keygen_duplicate_identifiers_are_refused() {
    let one = Identifier::from_u16(1).unwrap();
    let two = Identifier::from_u16(2).unwrap();
    let r = secret_shares_from_coefficients(&secret(), 2, &vec![coefficient()], &vec![one, two, one]);
    assert_eq!(r.err(), Some(Error::DuplicatedIdentifier));
}

#[test]
fn a_secret_is_split_among_chosen_participants() {
    let identifiers: Vec<Identifier> =
        [40u16, 7, 1000].iter().map(|n| Identifier::from_u16(*n).unwrap()).collect();
    let shares = split_secret(&secret(), 2, &identifiers, rand::thread_rng()).unwrap();
    assert_eq!(shares.len(), 3);
    for (share, identifier) in shares.iter().zip(&identifiers) {
        assert_eq!(share.identifier(), *identifier);
        assert_eq!(share.verify(), Ok(()));
        assert_eq!(share.commitment().coefficients()[0], Element::base_mul(&secret().scalar()));
    }
    let twice = vec![identifiers[0], identifiers[1], identifiers[0]];
    let r = split_secret(&secret(), 2, &twice, rand::thread_rng());
    assert_eq!(r.err(), Some(Error::DuplicatedIdentifier));
    let r = split_secret(&secret(), 4, &identifiers, rand::thread_rng());
    assert_eq!(r.err(), Some(Error::InvalidMinSignersExceedsMaxSigners));
    let r = split_secret(&secret(), 1, &identifiers, rand::thread_rng());
    assert_eq!(r.err(), Some(Error::InvalidMinSigners));
    let r = split_secret(&secret(), 2, &identifiers[..1].to_vec(), rand::thread_rng());
    assert_eq!(r.err(), Some(Error::InvalidMaxSigners));
}

#[test]
fn random_scalars_other_than_zero() {
    let mut rng = rand::thread_rng();
    let first = frost_ristretto255::keys::random_nonzero(&mut rng).unwrap();
    let second = frost_ristretto255::keys::random_nonzero(&mut rng).unwrap();
    assert!(!first.is_zero());
    assert!(!second.is_zero());
    assert!(!first.equals(&second));
    assert_eq!(Scalar::deserialize(&first.serialize()), Ok(first));
}

#[test]
fn keygen_coefficients_must_fit_the_threshold() {
    let identifiers = default_identifiers(3);
    let r = secret_shares_from_coefficients(&secret(), 2, &vec![], &identifiers);
    assert_eq!(r.err(), Some(Error::InvalidCoefficients));
    let r = secret_shares_from_coefficients(
        &secret(),
        2,
        &vec![coefficient(), coefficient()],
        &identifiers,
    );
    assert_eq!(r.err(), Some(Error::InvalidCoefficients));
    let r = secret_shares_from_coefficients(&secret(), 2, &vec![Scalar::zero()], &identifiers);
    assert_eq!(r.err(), Some(Error::InvalidZeroScalar));
    let r = secret_shares_from_coefficients(&secret(), 1, &vec![], &identifiers);
    assert_eq!(r.err(), Some(Error::InvalidMinSigners));
    let r = secret_shares_from_coefficients(&secret(), 2, &vec![coefficient()], &vec![]);
    assert_eq!(r.err(), Some(Error::InvalidMaxSigners));
    let r = secret_shares_from_coefficients(
        &secret(),
        4,
        &vec![coefficient(), coefficient(), coefficient()],
        &identifiers,
    );
    assert_eq!(r.err(), Some(Error::InvalidMinSignersExceedsMaxSigners));
}

#[test]
fn shares_are_the_values_of_the_polynomial() {
    let identifiers = default_identifiers(3);
    let shares =
        secret_shares_from_coefficients(&secret(), 2, &vec![coefficient()], &identifiers).unwrap();
    assert_eq!(shares.len(), 3);
    // s + 1 * a and s + 3 * a
    assert_eq!(
        shares[0].value().scalar().serialize(),
        bytes32("275a174ad03fe2575cd01bc64f1a51e61012131415161718191a1b1c1d1e1f00")
    );
    assert_eq!(
        shares[2].value().scalar().serialize(),
        bytes32("60e039398920b75de90b49f3cb46d0c53034373a3d404346494c4f5255585b0e")
    );
    for (i, share) in shares.iter().enumerate() {
        assert_eq!(share.identifier(), Identifier::from_u16(i as u16 + 1).unwrap());
        assert_eq!(share.verify(), Ok(()));
        let commitment = share.commitment().coefficients();
        assert_eq!(commitment.len(), 2);
        assert_eq!(commitment[0], Element::base_mul(&secret().scalar()));
        assert_eq!(commitment[1], Element::base_mul(&coefficient()));
    }
}

#[test]
fn every_share_of_a_dealer_verifies() {
    for (n, t) in [(2u16, 2u16), (3, 2), (5, 3), (7, 7)] {
        let (packages, pubkeys) = keygen_with_dealer(n, t, rand::thread_rng()).unwrap();
        assert_eq!(packages.len(), n as usize);
        assert_eq!(pubkeys.len(), n as usize);
        for (i, package) in packages.iter().enumerate() {
            assert_eq!(package.identifier(), Identifier::from_u16(i as u16 + 1).unwrap());
            assert_eq!(package.min_signers(), t);
            assert_eq!(package.secret_share().verify(), Ok(()));
            assert_eq!(package.secret_share().commitment().coefficients().len(), t as usize);
            assert_eq!(package.public(), Public::from_secret(&package.secret_share().value()));
            assert_eq!(package.group_public(), pubkeys.group_public());
            assert_eq!(
                package.group_public().element(),
                package.secret_share().commitment().coefficients()[0]
            );
            assert_eq!(pubkeys.entry(i), (package.identifier(), package.public()));
            assert_eq!(pubkeys.verifying_share(&package.identifier()), Some(package.public()));
            let key_package = KeyPackage::try_from(package.clone()).unwrap();
            assert_eq!(key_package.identifier(), package.identifier());
            assert_eq!(key_package.verifying_share(), package.public());
            assert_eq!(key_package.verifying_key(), pubkeys.group_public());
            assert_eq!(key_package.min_signers(), t);
            assert!(key_package.signing_share() == package.secret_share().value());
        }
        assert_eq!(pubkeys.verifying_share(&Identifier::from_u16(n + 1).unwrap()), None);
    }
}

#[test]
fn a_tampered_commitment_is_noticed() {
    let shares = generate_secret_shares(&secret(), 3, 2, rand::thread_rng()).unwrap();
    let share = &shares[1];
    let elements = share.commitment().coefficients().clone();
    let untouched = elements[1].serialize();
    // Flip one bit of the second element; not every result is an element.
    let mut tried = 0;
    for position in 0..32 {
        for bit in 0..8 {
            let mut bytes = untouched;
            bytes[position] ^= 1 << bit;
            if let Ok(other) = Element::deserialize(&bytes) {
                tried += 1;
                let tampered = SecretShare::new(
                    share.identifier(),
                    share.value(),
                    VerifiableSecretSharingCommitment::from_elements(vec![elements[0], other]),
                );
                assert_eq!(tampered.verify(), Err(Error::InvalidSecretShare));
                let package = SharePackage::new(
                    tampered,
                    Public::from_secret(&share.value()),
                    VerifyingKey::from_secret(&secret()),
                    2,
                );
                assert_eq!(KeyPackage::try_from(package).err(), Some(Error::InvalidSecretShare));
            }
        }
    }
    assert!(tried > 0);
    assert_eq!(share.verify(), Ok(()));
}

#[test]
fn a_package_with_keys_of_another_is_refused() {
    let (packages, pubkeys) = keygen_with_dealer(3, 2, rand::thread_rng()).unwrap();
    let package = &packages[0];
    let share = || package.secret_share().duplicate();
    let own = SharePackage::new(share(), package.public(), package.group_public(), 2);
    let key_package = KeyPackage::try_from(own).unwrap();
    assert_eq!(key_package.verifying_share(), Public::from_secret(&key_package.signing_share()));
    assert_eq!(
        key_package.verifying_key().element(),
        package.secret_share().commitment().coefficients()[0]
    );
    assert_eq!(key_package.min_signers(), 2);
    // the public key of another participant
    let other = SharePackage::new(share(), packages[1].public(), package.group_public(), 2);
    assert_eq!(KeyPackage::try_from(other).err(), Some(Error::InvalidSecretShare));
    // another key for the group
    let group = VerifyingKey::from_element(package.public().element());
    let other = SharePackage::new(share(), package.public(), group, 2);
    assert_eq!(KeyPackage::try_from(other).err(), Some(Error::InvalidSecretShare));
    // another threshold than the commitment has elements
    let other = SharePackage::new(share(), package.public(), package.group_public(), 3);
    assert_eq!(KeyPackage::try_from(other).err(), Some(Error::InvalidMinSigners));
    // a threshold of one
    let alone = SecretShare::new(
        package.identifier(),
        secret(),
        VerifiableSecretSharingCommitment::from_elements(vec![Element::base_mul(&secret().scalar())]),
    );
    assert_eq!(alone.verify(), Ok(()));
    let group = VerifyingKey::from_secret(&secret());
    let other = SharePackage::new(alone, Public::from_secret(&secret()), group, 1);
    assert_eq!(KeyPackage::try_from(other).err(), Some(Error::InvalidMinSigners));
    // a commitment of nothing, with which the share zero is consistent
    let nothing = SecretShare::new(
        package.identifier(),
        Secret::from_scalar(Scalar::zero()),
        VerifiableSecretSharingCommitment::from_elements(Vec::new()),
    );
    assert_eq!(nothing.verify(), Ok(()));
    let identity = Public::from_element(Element::identity());
    let other = SharePackage::new(nothing, identity, pubkeys.group_public(), 0);
    assert_eq!(KeyPackage::try_from(other).err(), Some(Error::InvalidSecretShare));
    // a key package made of its parts
    let made = KeyPackage::new(
        package.identifier(),
        package.secret_share().value(),
        package.public(),
        package.group_public(),
        2,
    );
    assert!(made == Ok(key_package));
    let made = KeyPackage::new(
        package.identifier(),
        package.secret_share().value(),
        packages[1].public(),
        package.group_public(),
        2,
    );
    assert_eq!(made.err(), Some(Error::InvalidSecretShare));
    let made = KeyPackage::new(
        package.identifier(),
        package.secret_share().value(),
        package.public(),
        package.group_public(),
        1,
    );
    assert_eq!(made.err(), Some(Error::InvalidMinSigners));
}

#[test]
fn a_share_of_another_participant_is_noticed() {
    let shares = generate_secret_shares(&secret(), 3, 2, rand::thread_rng()).unwrap();
    let swapped = SecretShare::new(
        shares[0].identifier(),
        shares[1].value(),
        shares[0].commitment().duplicate(),
    );
    assert_eq!(swapped.verify(), Err(Error::InvalidSecretShare));
    let copy = shares[2].duplicate();
    assert_eq!(copy.verify(), Ok(()));
    assert_eq!(copy.identifier(), shares[2].identifier());
}
