use frost_ristretto255::error::Error;
use frost_ristretto255::hash::{h1, h2, h3, h4, h5};
use frost_ristretto255::identifier::Identifier;
use frost_ristretto255::keys::Secret;
use frost_ristretto255::polynomial::evaluate_polynomial;
use frost_ristretto255::scalar::Scalar;

fn bytes32(text: &str) -> [u8; 32] {
    let mut out = [0u8; 32];
    out.copy_from_slice(&hex::decode(text).unwrap());
    out
}

fn a() -> Scalar {
    Scalar::deserialize(&[1u8; 32]).unwrap()
}

fn b() -> Scalar {
    // the bytes 0, 1, ..., 31 read as a number and reduced
    let mut wide = [0u8; 64];
    for i in 0..32 {
        wide[i] = i as u8;
    }
    Scalar::from_wide_bytes(&wide)
}

#[test]
fn scalar_reduction_of_256_bits() {
    assert_eq!(
        b().serialize(),
        bytes32("132d0ca6e9a1f3ae316c12682d132ffa0f1112131415161718191a1b1c1d1e0f")
    );
}

#[test]
fn scalar_reduction_of_512_bits() {
    let mut wide = [0u8; 64];
    for i in 0..64 {
        wide[i] = i as u8;
    }
    assert_eq!(
        Scalar::from_wide_bytes(&wide).serialize(),
        bytes32("7a3c6282f02d37a05023b60d5428e6cc5961d4c31221937adae0b574e4d07205")
    );
}

#[test]
fn scalar_sum() {
    assert_eq!(
        a().add(&b()).serialize(),
        bytes32("275a174ad03fe2575cd01bc64f1a51e61012131415161718191a1b1c1d1e1f00")
    );
}

#[test]
fn scalar_difference() {
    assert_eq!(
        a().sub(&b()).serialize(),
        bytes32("dba7eab731c21faaa531e63bb2e7b01bf1efeeedecebeae9e8e7e6e5e4e3e201")
    );
    assert_eq!(
        b().sub(&a()).serialize(),
        bytes32("122c0ba5e8a0f2ad306b11672c122ef90e101112131415161718191a1b1c1d0e")
    );
}

#[test]
fn scalar_product() {
    assert_eq!(
        a().mul(&b()).serialize(),
        bytes32("7db73ac2ade9a1e1f87d2cb6c2dbdf13cbbf8b6bbb844f5747eba823c150180c")
    );
}

#[test]
fn scalar_inverse() {
    let inverse = a().invert();
    assert_eq!(
        inverse.serialize(),
        bytes32("442a1d24f485545ed8390cea70cafdce5a7856fac6515af9fb97b28c0c966704")
    );
    assert!(inverse.mul(&a()).equals(&Scalar::one()));
}

#[test]
fn scalar_of_a_small_number() {
    let mut expected = [0u8; 32];
    expected[0] = 0x34;
    expected[1] = 0x12;
    assert_eq!(Scalar::from_u16(0x1234).serialize(), expected);
    assert!(Scalar::zero().is_zero());
    assert!(!Scalar::one().is_zero());
}

#[test]
fn scalar_of_zero_is_not_kept() {
    assert_eq!(Scalar::zero().nonzero(), None);
    assert_eq!(Scalar::zero().sub(&Scalar::zero()).nonzero(), None);
    assert_eq!(Scalar::one().nonzero(), Some(Scalar::one()));
    assert_eq!(a().nonzero(), Some(a()));
}

#[test]
fn secrets_can_be_erased() {
    let mut scalar = a();
    scalar.erase();
    assert_eq!(scalar.serialize(), [0u8; 32]);
    assert!(scalar.is_zero());
    let mut secret = Secret::try_from([1u8; 32]).unwrap();
    secret.erase();
    assert_eq!(secret.scalar().serialize(), [0u8; 32]);
}

#[test]
fn scalar_order_is_by_value() {
    let small = Scalar::from_u16(0xffff);
    let mut bytes = [0u8; 32];
    bytes[2] = 1;
    let large = Scalar::deserialize(&bytes).unwrap();
    assert!(small.less_than(&large));
    assert!(!large.less_than(&small));
    assert!(!small.less_than(&small));
    assert!(small.equals(&small));
    assert!(!small.equals(&large));
}

#[test]
fn scalar_is_some_residue_when_random() {
    let mut rng = rand::thread_rng();
    let x = Scalar::random(&mut rng);
    let y = Scalar::random(&mut rng);
    assert_eq!(Scalar::deserialize(&x.serialize()), Ok(x));
    // two draws of 252 bits do not collide
    assert!(!x.equals(&y));
}

#[test]
fn identifier_zero_is_refused() {
    assert_eq!(Identifier::from_u16(0), Err(Error::IdentifierDerivationFailed));
    assert_eq!(Identifier::new(Scalar::zero()), Err(Error::IdentifierDerivationFailed));
    assert_eq!(Identifier::deserialize(&[0u8; 32]), Err(Error::IdentifierDerivationFailed));
    assert_eq!(Identifier::deserialize(&[0xff; 32]), Err(Error::MalformedScalar));
    let seven = Identifier::from_u16(7).unwrap();
    assert_eq!(Identifier::deserialize(&seven.serialize()), Ok(seven));
    assert_eq!(seven.serialize()[0], 7);
    assert!(seven.less_than(&Identifier::from_u16(260).unwrap()));
}

#[test]
fn secret_from_hex() {
    let text = "0101010101010101010101010101010101010101010101010101010101010101";
    let secret = Secret::from_hex(text).unwrap();
    assert_eq!(secret.scalar().serialize(), [1u8; 32]);
    let upper = "0A000000000000000000000000000000000000000000000000000000000000aB";
    assert!(Secret::from_hex(upper).is_err());
    let ten = "0A00000000000000000000000000000000000000000000000000000000000000";
    assert!(Secret::from_hex(ten).unwrap().scalar().equals(&Scalar::from_u16(10)));
    assert_eq!(Secret::from_hex("01").err(), Some(Error::MalformedScalar));
    assert_eq!(Secret::from_hex(&"zz".repeat(32)).err(), Some(Error::MalformedScalar));
    assert_eq!(Secret::from_hex(&"ff".repeat(32)).err(), Some(Error::MalformedScalar));
    assert_eq!(Secret::try_from([0xff; 32]).err(), Some(Error::MalformedScalar));
}

#[test]
fn polynomial_value_by_horner() {
    // 5 + 2x + 3x^2 at 4
    let coefficients = vec![Scalar::from_u16(2), Scalar::from_u16(3)];
    let value = evaluate_polynomial(&Scalar::from_u16(5), &coefficients, &Scalar::from_u16(4));
    assert!(value.equals(&Scalar::from_u16(61)));
    // a constant
    let constant = evaluate_polynomial(&Scalar::from_u16(9), &vec![], &Scalar::from_u16(4));
    assert!(constant.equals(&Scalar::from_u16(9)));
}

#[test]
fn hashes_to_scalars() {
    assert_eq!(
        h1(b"hello").serialize(),
        bytes32("260b19e070019abe226cab1aef01a30d2fe46278be5477a02447eaa594e6cc06")
    );
    assert_eq!(
        h2(b"hello").serialize(),
        bytes32("c2b3e175d5affcf17cf27ae5c99891dd46d6cbdb575e40c04844d08052a7330a")
    );
    assert_eq!(
        h3(b"hello").serialize(),
        bytes32("25355f906e5e440015b0099a590320ff15d840be5dc33a50708f610ec8bddf08")
    );
}

#[test]
fn hashes_to_digests() {
    assert_eq!(
        h4(b"hello").to_vec(),
        hex::decode("871fcdaa5ea3e4d25aa4e1e44725d8c04684a6e0552156b867fe9f46e0c9dfbb3398080f6aa6f223ec808477801ce844df93575ca6134136d90fb20f4c7db028").unwrap()
    );
    assert_eq!(
        h5(b"hello").to_vec(),
        hex::decode("b502c283a4049ba1117acb2680d715e18c7769506cfd1a696e59affcdde6edcf7cbf0507889c8b47332b1ba7cb03eb0dc8372716260178db8cd0cebf7c6f6425").unwrap()
    );
}
