use frost_ristretto255::binding::{compute_binding_factor_list, compute_group_commitment};
use frost_ristretto255::challenge::challenge;
use frost_ristretto255::element::Element;
use frost_ristretto255::identifier::Identifier;
use frost_ristretto255::keys::{
    default_identifiers, secret_shares_from_coefficients, KeyPackage, Public, PublicKeyPackage,
    Secret, SharePackage, VerifyingKey,
};
use frost_ristretto255::round1::SigningNonces;
use frost_ristretto255::round2::sign;
use frost_ristretto255::scalar::Scalar;
use frost_ristretto255::signature::aggregate;
use frost_ristretto255::signing_package::SigningPackage;

// The secret is the scalar of 32 bytes 01, the polynomial's other
// coefficient the bytes 00, 01, ..., 1f read as a number and reduced. The
// signers 1 and 3 sign "hello" with the nonces (11, 17) and (13, 19). The
// expected values were computed apart from this library.

fn bytes32(text: &str) -> [u8; 32] {
    let mut out = [0u8; 32];
    out.copy_from_slice(&hex::decode(text).unwrap());
    out
}

fn coefficient() -> Scalar {
    let mut wide = [0u8; 64];
    for i in 0..32 {
        wide[i] = i as u8;
    }
    Scalar::from_wide_bytes(&wide)
}

fn keys() -> (Vec<KeyPackage>, PublicKeyPackage) {
    let secret = Secret::try_from([1u8; 32]).unwrap();
    let group_public = VerifyingKey::from_secret(&secret);
    let shares =
        secret_shares_from_coefficients(&secret, 2, &vec![coefficient()], &default_identifiers(3))
            .unwrap();
    let mut key_packages = Vec::new();
    let mut pubkeys = Vec::new();
    for share in shares {
        let public = Public::from_secret(&share.value());
        pubkeys.push((share.identifier(), public));
        let package = SharePackage::new(share, public, group_public, 2);
        key_packages.push(KeyPackage::try_from(package).unwrap());
    }
    (key_packages, PublicKeyPackage::new(pubkeys, group_public).unwrap())
}

fn nonces(signer: u16, d: u16, e: u16) -> SigningNonces {
    SigningNonces::from_nonces(
        Identifier::from_u16(signer).unwrap(),
        Scalar::from_u16(d),
        Scalar::from_u16(e),
    )
    .unwrap()
}

#[test]
fn known_public_values() {
    let (keys, pubkeys) = keys();
    assert_eq!(
        pubkeys.group_public().element().serialize(),
        bytes32("3e440469a098036d89ffb2d77a4542928f2f74c2b5769da7480736ace829dc10")
    );
    assert_eq!(
        Element::base_mul(&coefficient()).serialize(),
        bytes32("68856e93d9d32434e75560799b5f612d93b1a9bc12bc843618527da828bfdf78")
    );
    assert_eq!(
        nonces(1, 11, 17).commitments().hiding().serialize(),
        bytes32("bce83f8ba5dd2fa572864c24ba1810f9522bc6004afe95877ac73241cafdab42")
    );
    assert_eq!(keys[0].verifying_key(), pubkeys.group_public());
}

#[test]
fn known_signature() {
    let (keys, pubkeys) = keys();
    let (first, third) = (nonces(1, 11, 17), nonces(3, 13, 19));
    let package =
        SigningPackage::new(vec![third.commitments(), first.commitments()], b"hello".to_vec())
            .unwrap();

    let factors = compute_binding_factor_list(&package, &pubkeys.group_public(), &[]);
    assert_eq!(
        factors.get(&keys[0].identifier()).unwrap().serialize(),
        bytes32("f0ef633aeb93fff1f2019fed0a03f7865d166e95c1b20a2d7fa1eb9e05ba3806")
    );
    assert_eq!(
        factors.get(&keys[2].identifier()).unwrap().serialize(),
        bytes32("8db66a93e6c1a90c04d145a16bd3b1e72da5d9087416dfae15a432106949500c")
    );
    let commitment = compute_group_commitment(&package, &factors).unwrap();
    assert_eq!(
        commitment.serialize(),
        bytes32("eef9a3210fa65d2e4907d76b59db5054665108446596288689b0a0dfd179d913")
    );
    let c = challenge(&commitment, &pubkeys.group_public(), b"hello", &[]);
    assert_eq!(
        c.serialize(),
        bytes32("07607965eb5941977a5e11a5b6244cb11c0d0a36b7d97e4a734b0abdb97ea504")
    );

    let z1 = sign(&package, first, &keys[0]).unwrap();
    let z3 = sign(&package, third, &keys[2]).unwrap();
    assert_eq!(
        z1.serialize(),
        bytes32("d777339c159adadcad7a06e799993405ccc37efe0aee2e4a6346d018cf09ec0c")
    );
    assert_eq!(
        z3.serialize(),
        bytes32("2ba89fd3b6d2617a3775d44e2aef4f0d886fdcd57bc2e97f7737a6b0c26efa02")
    );
    let shares = vec![(keys[0].identifier(), z1), (keys[2].identifier(), z3)];
    let signature = aggregate(&package, &shares, &pubkeys).unwrap();
    assert_eq!(
        hex::encode(signature.serialize()),
        "eef9a3210fa65d2e4907d76b59db5054665108446596288689b0a0dfd179d9130220d36fcc6c3c57e5efda35c488841254335bd486b018cada7d76c99178e60f"
    );
    assert!(pubkeys.group_public().verify(b"hello", &signature).is_ok());
}
