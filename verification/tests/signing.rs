use frost_ristretto255::binding::{
    compute_binding_factor_list, compute_group_commitment, BindingFactorList,
};
use frost_ristretto255::error::Error;
use frost_ristretto255::identifier::Identifier;
use frost_ristretto255::keys::{
    generate_secret_shares, keygen_with_dealer, KeyPackage, Public, PublicKeyPackage, Secret,
    SharePackage, VerifyingKey,
};
use frost_ristretto255::lagrange::derive_interpolating_value;
use frost_ristretto255::round1::{commit, SigningCommitments, SigningNonces};
use frost_ristretto255::round2::{sign, SignatureShare};
use frost_ristretto255::scalar::Scalar;
use frost_ristretto255::signature::{aggregate, verify_signature_share, Signature};
use frost_ristretto255::signing_package::SigningPackage;

fn deal(n: u16, t: u16) -> (Vec<KeyPackage>, PublicKeyPackage) {
    let secret = Secret::try_from([1u8; 32]).unwrap();
    let group_public = VerifyingKey::from_secret(&secret);
    let shares = generate_secret_shares(&secret, n, t, rand::thread_rng()).unwrap();
    let mut key_packages = Vec::new();
    let mut pubkeys = Vec::new();
    for share in shares {
        let public = Public::from_secret(&share.value());
        pubkeys.push((share.identifier(), public));
        let package = SharePackage::new(share, public, group_public, t);
        key_packages.push(KeyPackage::try_from(package).unwrap());
    }
    (key_packages, PublicKeyPackage::new(pubkeys, group_public).unwrap())
}

fn first_round(signers: &[&KeyPackage]) -> (Vec<SigningNonces>, Vec<SigningCommitments>) {
    let mut rng = rand::thread_rng();
    let mut nonces = Vec::new();
    let mut commitments = Vec::new();
    for key_package in signers {
        let (n, c) =
            commit(key_package.identifier(), &key_package.signing_share(), &mut rng).unwrap();
        nonces.push(n);
        commitments.push(c);
    }
    (nonces, commitments)
}

fn second_round(
    package: &SigningPackage,
    nonces: Vec<SigningNonces>,
    signers: &[&KeyPackage],
) -> Vec<(Identifier, SignatureShare)> {
    let mut shares = Vec::new();
    for (n, key_package) in nonces.into_iter().zip(signers) {
        shares.push((key_package.identifier(), sign(package, n, key_package).unwrap()));
    }
    shares
}

#[test]
fn two_of_three_sign_hello() {
    let (keys, pubkeys) = deal(3, 2);
    let secret = Secret::try_from([1u8; 32]).unwrap();
    assert_eq!(pubkeys.group_public(), VerifyingKey::from_secret(&secret));
    let signers = [&keys[0], &keys[2]];
    let (nonces, commitments) = first_round(&signers);
    let package = SigningPackage::new(commitments, b"hello".to_vec()).unwrap();
    let shares = second_round(&package, nonces, &signers);
    let signature = aggregate(&package, &shares, &pubkeys).unwrap();
    assert_eq!(pubkeys.group_public().verify(b"hello", &signature), Ok(()));
    assert_eq!(
        pubkeys.group_public().verify(b"hullo", &signature),
        Err(Error::InvalidSignature)
    );
    for (identifier, share) in &shares {
        let public = pubkeys.verifying_share(identifier).unwrap();
        assert_eq!(
            verify_signature_share(*identifier, &public, share, &package, &pubkeys.group_public()),
            Ok(())
        );
    }
}

#[test]
fn every_threshold_subset_signs() {
    let mut rng = rand::thread_rng();
    for (n, t) in [(2u16, 2u16), (3, 2), (4, 3), (5, 5)] {
        let (keys, pubkeys) = keygen_with_dealer(n, t, &mut rng).unwrap();
        let keys: Vec<KeyPackage> =
            keys.into_iter().map(|p| KeyPackage::try_from(p).unwrap()).collect();
        // every subset of exactly t signers
        for mask in 0u32..(1 << n) {
            if mask.count_ones() != t as u32 {
                continue;
            }
            let signers: Vec<&KeyPackage> =
                (0..n as usize).filter(|i| mask & (1 << i) != 0).map(|i| &keys[i]).collect();
            let (nonces, commitments) = first_round(&signers);
            let package = SigningPackage::new(commitments, b"every subset".to_vec()).unwrap();
            let shares = second_round(&package, nonces, &signers);
            let signature = aggregate(&package, &shares, &pubkeys).unwrap();
            assert_eq!(pubkeys.group_public().verify(b"every subset", &signature), Ok(()));
        }
    }
}

#[test]
fn more_than_the_threshold_sign() {
    let (keys, pubkeys) = deal(4, 2);
    let signers = [&keys[3], &keys[1], &keys[0]];
    let (nonces, commitments) = first_round(&signers);
    let package = SigningPackage::new(commitments, Vec::new()).unwrap();
    let shares = second_round(&package, nonces, &signers);
    let signature = aggregate(&package, &shares, &pubkeys).unwrap();
    assert_eq!(pubkeys.group_public().verify(b"", &signature), Ok(()));
}

#[test]
fn the_response_is_that_of_a_single_signer() {
    // With the nonces known, the sum of the shares is k + c * s.
    let (keys, pubkeys) = deal(3, 2);
    let d = [Scalar::from_u16(11), Scalar::from_u16(13)];
    let e = [Scalar::from_u16(17), Scalar::from_u16(19)];
    let signers = [&keys[1], &keys[2]];
    let mut nonces = Vec::new();
    let mut commitments = Vec::new();
    for i in 0..2 {
        let n = SigningNonces::from_nonces(signers[i].identifier(), d[i], e[i]).unwrap();
        commitments.push(n.commitments());
        nonces.push(n);
    }
    let package = SigningPackage::new(commitments, b"one signer".to_vec()).unwrap();
    let factors = compute_binding_factor_list(&package, &pubkeys.group_public(), &[]);
    let mut k = Scalar::zero();
    for i in 0..2 {
        let rho = factors.get(&signers[i].identifier()).unwrap();
        k = k.add(&d[i].add(&e[i].mul(&rho)));
    }
    let shares = second_round(&package, nonces, &signers);
    let signature = aggregate(&package, &shares, &pubkeys).unwrap();
    let commitment = compute_group_commitment(&package, &factors).unwrap();
    assert_eq!(signature.group_commitment(), commitment);
    let c = frost_ristretto255::challenge::challenge(
        &commitment,
        &pubkeys.group_public(),
        b"one signer",
        &[],
    );
    let s = Scalar::deserialize(&[1u8; 32]).unwrap();
    assert!(signature.z().equals(&k.add(&c.mul(&s))));
    let sum = shares[0].1.to_scalar().add(&shares[1].1.to_scalar());
    assert!(signature.z().equals(&sum));
}

#[test]
fn one_signer_is_too_few() {
    let (keys, _) = deal(3, 2);
    let signers = [&keys[0]];
    let (mut nonces, commitments) = first_round(&signers);
    let package = SigningPackage::new(commitments, b"hello".to_vec()).unwrap();
    assert_eq!(
        sign(&package, nonces.pop().unwrap(), &keys[0]),
        Err(Error::IncorrectNumberOfCommitments)
    );
}

#[test]
fn commitments_of_other_nonces_are_noticed() {
    let (keys, _) = deal(3, 2);
    let signers = [&keys[0], &keys[1]];
    let (_, commitments) = first_round(&signers);
    let (mut other_nonces, _) = first_round(&signers);
    let package = SigningPackage::new(commitments, b"hello".to_vec()).unwrap();
    assert_eq!(
        sign(&package, other_nonces.pop().unwrap(), &keys[1]),
        Err(Error::IncorrectCommitment)
    );
}

#[test]
fn a_signer_outside_the_package_is_noticed() {
    let (keys, pubkeys) = deal(3, 2);
    let signers = [&keys[0], &keys[1]];
    let (_, commitments) = first_round(&signers);
    let (mut nonces, _) = first_round(&[&keys[2]]);
    let package = SigningPackage::new(commitments, b"hello".to_vec()).unwrap();
    assert_eq!(sign(&package, nonces.pop().unwrap(), &keys[2]), Err(Error::MissingCommitment));
    assert_eq!(
        derive_interpolating_value(&keys[2].identifier(), &package),
        Err(Error::UnknownIdentifier)
    );
    let share = SignatureShare::from_scalar(Scalar::one());
    assert_eq!(
        verify_signature_share(
            keys[2].identifier(),
            &keys[2].verifying_share(),
            &share,
            &package,
            &pubkeys.group_public()
        ),
        Err(Error::UnknownIdentifier)
    );
}

#[test]
fn the_culprit_is_named() {
    let (keys, pubkeys) = deal(3, 2);
    let signers = [&keys[0], &keys[2]];
    let (nonces, commitments) = first_round(&signers);
    let package = SigningPackage::new(commitments, b"hello".to_vec()).unwrap();
    let mut shares = second_round(&package, nonces, &signers);
    let honest = aggregate(&package, &shares, &pubkeys).unwrap();
    let three = keys[2].identifier();
    assert_eq!(three, Identifier::from_u16(3).unwrap());
    let wrong = SignatureShare::from_scalar(shares[1].1.to_scalar().add(&Scalar::one()));
    shares[1].1 = wrong;
    assert_eq!(
        aggregate(&package, &shares, &pubkeys),
        Err(Error::InvalidSignatureShare { culprit: three })
    );
    assert_eq!(
        verify_signature_share(
            three,
            &keys[2].verifying_share(),
            &wrong,
            &package,
            &pubkeys.group_public()
        ),
        Err(Error::InvalidSignatureShare { culprit: three })
    );
    assert_eq!(
        verify_signature_share(
            keys[0].identifier(),
            &keys[0].verifying_share(),
            &shares[0].1,
            &package,
            &pubkeys.group_public()
        ),
        Ok(())
    );
    // the wrong share in the signature itself
    let forged = Signature::new(honest.group_commitment(), honest.z().add(&Scalar::one()));
    assert_eq!(pubkeys.group_public().verify(b"hello", &forged), Err(Error::InvalidSignature));
}

#[test]
fn shares_and_keys_of_all_signers_are_needed() {
    let (keys, pubkeys) = deal(3, 2);
    let signers = [&keys[0], &keys[2]];
    let (nonces, commitments) = first_round(&signers);
    let package = SigningPackage::new(commitments, b"hello".to_vec()).unwrap();
    let shares = second_round(&package, nonces, &signers);
    let one_short = vec![shares[0]];
    assert_eq!(aggregate(&package, &one_short, &pubkeys), Err(Error::UnknownIdentifier));
    let twice = vec![shares[0], shares[0]];
    assert_eq!(aggregate(&package, &twice, &pubkeys), Err(Error::UnknownIdentifier));
    let fewer_keys = PublicKeyPackage::new(
        vec![(keys[0].identifier(), keys[0].verifying_share())],
        pubkeys.group_public(),
    )
    .unwrap();
    assert_eq!(aggregate(&package, &shares, &fewer_keys), Err(Error::UnknownIdentifier));
    let backwards = vec![shares[1], shares[0]];
    assert!(aggregate(&package, &backwards, &pubkeys).is_ok());
}

#[test]
fn the_order_of_the_commitments_is_immaterial() {
    let (keys, pubkeys) = deal(4, 3);
    let signers = [&keys[2], &keys[0], &keys[3]];
    let (_, commitments) = first_round(&signers);
    let forwards = SigningPackage::new(commitments.clone(), b"order".to_vec()).unwrap();
    let mut reversed = commitments.clone();
    reversed.reverse();
    let backwards = SigningPackage::new(reversed, b"order".to_vec()).unwrap();
    assert_eq!(forwards.signing_commitments(), backwards.signing_commitments());
    let sorted: Vec<Identifier> =
        forwards.signing_commitments().iter().map(|c| c.identifier()).collect();
    assert_eq!(
        sorted,
        vec![keys[0].identifier(), keys[2].identifier(), keys[3].identifier()]
    );
    let a = compute_binding_factor_list(&forwards, &pubkeys.group_public(), &[]);
    let b = compute_binding_factor_list(&backwards, &pubkeys.group_public(), &[]);
    for key in signers {
        assert_eq!(a.get(&key.identifier()), b.get(&key.identifier()));
        assert!(a.get(&key.identifier()).is_some());
    }
    assert_eq!(a.get(&keys[1].identifier()), None);
    assert_eq!(compute_group_commitment(&forwards, &a), compute_group_commitment(&backwards, &b));
}

#[test]
fn a_group_commitment_of_nothing_is_refused() {
    // d + rho * e is zero for d = 5, e = 1 and rho = -5
    let one = Identifier::from_u16(1).unwrap();
    let nonces = SigningNonces::from_nonces(one, Scalar::from_u16(5), Scalar::one()).unwrap();
    let package = SigningPackage::new(vec![nonces.commitments()], Vec::new()).unwrap();
    let minus_five = Scalar::zero().sub(&Scalar::from_u16(5));
    let factors = BindingFactorList::new(vec![(one, minus_five)]).unwrap();
    assert_eq!(compute_group_commitment(&package, &factors), Err(Error::InvalidGroupCommitment));
    let other = BindingFactorList::new(vec![(one, Scalar::from_u16(5))]).unwrap();
    assert_eq!(
        compute_group_commitment(&package, &other),
        Ok(frost_ristretto255::element::Element::base_mul(&Scalar::from_u16(10)))
    );
    let two = Identifier::from_u16(2).unwrap();
    let none = BindingFactorList::new(vec![(two, minus_five)]).unwrap();
    let twice = BindingFactorList::new(vec![(two, minus_five), (one, minus_five), (two, minus_five)]);
    assert_eq!(twice.err(), Some(Error::DuplicatedIdentifier));
    assert_eq!(compute_group_commitment(&package, &none), Err(Error::UnknownIdentifier));
}

#[test]
fn a_participant_with_two_public_keys_is_refused() {
    let (keys, pubkeys) = deal(3, 2);
    let twice = PublicKeyPackage::new(
        vec![
            (keys[0].identifier(), keys[0].verifying_share()),
            (keys[1].identifier(), keys[1].verifying_share()),
            (keys[0].identifier(), keys[2].verifying_share()),
        ],
        pubkeys.group_public(),
    );
    assert_eq!(twice.err(), Some(Error::DuplicatedIdentifier));
    let copy = pubkeys.duplicate();
    assert_eq!(copy, pubkeys);
    assert_eq!(copy.verifying_share(&keys[2].identifier()), Some(keys[2].verifying_share()));
}

#[test]
fn a_signer_twice_is_refused() {
    let (keys, _) = deal(3, 2);
    let (_, mut commitments) = first_round(&[&keys[0], &keys[1]]);
    let (_, again) = first_round(&[&keys[0]]);
    commitments.push(again[0]);
    assert_eq!(
        SigningPackage::new(commitments, b"hello".to_vec()).err(),
        Some(Error::DuplicatedIdentifier)
    );
}

#[test]
fn lagrange_coefficients_of_one_and_three() {
    let (keys, _) = deal(3, 2);
    let (_, commitments) = first_round(&[&keys[0], &keys[2]]);
    let package = SigningPackage::new(commitments, Vec::new()).unwrap();
    // 3 / (3 - 1) and 1 / (1 - 3)
    let first = derive_interpolating_value(&keys[0].identifier(), &package).unwrap();
    assert!(first.mul(&Scalar::from_u16(2)).equals(&Scalar::from_u16(3)));
    let second = derive_interpolating_value(&keys[2].identifier(), &package).unwrap();
    assert!(second.mul(&Scalar::from_u16(2)).add(&Scalar::one()).is_zero());
    assert!(first.add(&second).equals(&Scalar::one()));
}

#[test]
fn a_tweak_changes_the_signature() {
    let (keys, pubkeys) = deal(2, 2);
    let signers = [&keys[0], &keys[1]];
    let (nonces, commitments) = first_round(&signers);
    let package = SigningPackage::new(commitments, b"hello".to_vec())
        .unwrap()
        .with_additional_tweak(b"tweak".to_vec());
    assert_eq!(package.additional_tweak_as_slice(), b"tweak");
    assert_eq!(package.message(), &b"hello".to_vec());
    let shares = second_round(&package, nonces, &signers);
    let signature = aggregate(&package, &shares, &pubkeys).unwrap();
    assert_eq!(
        frost_ristretto255::signature::verify_signature(
            &pubkeys.group_public(),
            b"hello",
            b"tweak",
            &signature
        ),
        Ok(())
    );
    assert_eq!(
        pubkeys.group_public().verify(b"hello", &signature),
        Err(Error::InvalidSignature)
    );
}

#[test]
fn nonces_are_drawn_anew_each_time() {
    let (keys, _) = deal(2, 2);
    let mut rng = rand::thread_rng();
    let share = keys[0].signing_share();
    let (first, published) = commit(keys[0].identifier(), &share, &mut rng).unwrap();
    let (second, _) = commit(keys[0].identifier(), &share, &mut rng).unwrap();
    assert_eq!(first.commitments(), published);
    assert_eq!(published.identifier(), keys[0].identifier());
    assert_ne!(first.commitments().hiding(), first.commitments().binding());
    assert_ne!(first.commitments(), second.commitments());
    // the nonce is the hash of the drawn bytes and the secret
    let nonce = frost_ristretto255::round1::nonce_from_randomness(&[7u8; 32], &share);
    let mut input = vec![7u8; 32];
    input.extend_from_slice(&share.scalar().serialize());
    assert_eq!(nonce, frost_ristretto255::hash::h3(&input));
}

#[test]
fn nonces_of_zero_are_refused() {
    let one = Identifier::from_u16(1).unwrap();
    assert_eq!(
        SigningNonces::from_nonces(one, Scalar::zero(), Scalar::one()).err(),
        Some(Error::InvalidZeroScalar)
    );
    assert_eq!(
        SigningNonces::from_nonces(one, Scalar::one(), Scalar::zero()).err(),
        Some(Error::InvalidZeroScalar)
    );
    let identity = frost_ristretto255::element::Element::identity();
    let base = frost_ristretto255::element::Element::base_mul(&Scalar::one());
    assert_eq!(SigningCommitments::new(one, identity, base), Err(Error::MalformedElement));
    assert_eq!(SigningCommitments::new(one, base, identity), Err(Error::MalformedElement));
    let commitments = SigningCommitments::new(one, base, base).unwrap();
    assert_eq!(commitments.hiding(), base);
    assert_eq!(commitments.binding(), base);
    assert_eq!(commitments.identifier(), one);
}
