//! The wire forms of the values that the participants exchange or keep.
//!
//! Every wire form but those of a signature and of a share of one opens
//! with a header: a version byte and four bytes that name the ciphersuite.
//! Scalars and elements follow in their canonical encodings of 32 bytes,
//! numbers least significant byte first.

use vstd::prelude::*;
use vstd::bytes::{
    lemma_auto_spec_u16_to_from_le_bytes, lemma_auto_spec_u64_to_from_le_bytes,
    spec_u16_from_le_bytes, spec_u16_to_le_bytes, spec_u64_from_le_bytes, spec_u64_to_le_bytes,
    u16_from_le_bytes, u16_to_le_bytes, u64_from_le_bytes, u64_to_le_bytes,
};
use vstd::slice::{slice_subrange, slice_to_vec};
use crate::bytes::le_nat;
use crate::element::{log_of, ristretto_decodes, Element};
use crate::error::Error;
use crate::field::group_order;
use crate::identifier::Identifier;
use crate::keys::{
    distinct, entries_distinct, entry_values, KeyPackage, Public, PublicKeyPackage, Secret,
    SecretShare,
    VerifiableSecretSharingCommitment, VerifyingKey,
};
use crate::round1::SigningCommitments;
use crate::round2::SignatureShare;
use crate::scalar::Scalar;
use crate::signature::Signature;
use crate::signing_package::{ascending, SigningPackage};

verus! {

/// The header: version 0 and the checksum of the ciphersuite's name.
pub open spec fn header() -> Seq<u8> {
    seq![0u8, 0xd7, 0x6e, 0xcf, 0xf5]
}

/// The first of two errors, if there is one.
pub open spec fn first_error(a: Option<Error>, b: Option<Error>) -> Option<Error> {
    if a is Some {
        a
    } else {
        b
    }
}

/// What is wrong with 32 bytes as the encoding of a scalar.
pub open spec fn scalar_field_error(b: Seq<u8>) -> Option<Error> {
    if le_nat(b) < group_order() {
        None
    } else {
        Some(Error::MalformedScalar)
    }
}

/// What is wrong with 32 bytes as the encoding of an identifier.
pub open spec fn identifier_field_error(b: Seq<u8>) -> Option<Error> {
    if le_nat(b) >= group_order() {
        Some(Error::MalformedScalar)
    } else if le_nat(b) == 0 {
        Some(Error::IdentifierDerivationFailed)
    } else {
        None
    }
}

/// What is wrong with 32 bytes as the encoding of an element.
pub open spec fn element_field_error(b: Seq<u8>) -> Option<Error> {
    if ristretto_decodes(b) {
        None
    } else {
        Some(Error::MalformedElement)
    }
}

/// What is wrong with 32 bytes as the encoding of a commitment to a nonce,
/// which is an element other than the identity.
pub open spec fn commitment_field_error(b: Seq<u8>) -> Option<Error> {
    if ristretto_decodes(b) && log_of(b) != 0 {
        None
    } else {
        Some(Error::MalformedElement)
    }
}

/// What is wrong with the first five bytes as a header.
pub open spec fn header_error(bytes: Seq<u8>) -> Option<Error> {
    if bytes.len() < 5 {
        Some(Error::DeserializationError)
    } else if bytes.subrange(0, 5) != header() {
        Some(Error::UnknownIdentifier)
    } else {
        None
    }
}

/// The 32 bytes from `offset` on.
fn read32(bytes: &[u8], offset: usize) -> (r: [u8; 32])
    requires
        offset + 32 <= bytes@.len(),
    ensures
        r@ == bytes@.subrange(offset as int, offset + 32),
{
    let mut out = [0u8; 32];
    let n = bytes.len();
    let mut i: usize = 0;
    while i < 32
        invariant
            i <= 32,
            n == bytes@.len(),
            offset + 32 <= n,
            forall|j: int| 0 <= j < i ==> out@[j] == bytes@[offset + j],
        decreases 32 - i,
    {
        out[i] = bytes[offset + i];
        i = i + 1;
    }
    assert(out@ =~= bytes@.subrange(offset as int, offset + 32));
    out
}

/// Checks the header.
fn check_header(bytes: &[u8]) -> (r: Result<(), Error>)
    ensures
        match r {
            Ok(_) => header_error(bytes@) is None,
            Err(e) => header_error(bytes@) == Some(e),
        },
{
    if bytes.len() < 5 {
        return Err(Error::DeserializationError);
    }
    if bytes[0] != 0 || bytes[1] != 0xd7 || bytes[2] != 0x6e || bytes[3] != 0xcf || bytes[4]
        != 0xf5 {
        assert(bytes@.subrange(0, 5)[0] == bytes@[0]);
        assert(bytes@.subrange(0, 5)[1] == bytes@[1]);
        assert(bytes@.subrange(0, 5)[2] == bytes@[2]);
        assert(bytes@.subrange(0, 5)[3] == bytes@[3]);
        assert(bytes@.subrange(0, 5)[4] == bytes@[4]);
        return Err(Error::UnknownIdentifier);
    }
    assert(bytes@.subrange(0, 5) =~= header());
    Ok(())
}

/// Writes the header.
fn write_header(out: &mut Vec<u8>)
    ensures
        final(out)@ == old(out)@ + header(),
{
    let ghost before = out@;
    out.push(0);
    out.push(0xd7);
    out.push(0x6e);
    out.push(0xcf);
    out.push(0xf5);
    assert(out@ =~= before + header());
}

/// Reads a scalar at `offset`.
fn read_scalar(bytes: &[u8], offset: usize) -> (r: Result<Scalar, Error>)
    requires
        offset + 32 <= bytes@.len(),
    ensures
        match r {
            Ok(s) => scalar_field_error(bytes@.subrange(offset as int, offset + 32)) is None
                && s.encoding() == bytes@.subrange(offset as int, offset + 32),
            Err(e) => scalar_field_error(bytes@.subrange(offset as int, offset + 32)) == Some(e),
        },
{
    let field = read32(bytes, offset);
    Scalar::deserialize(&field)
}

/// Reads an identifier at `offset`.
fn read_identifier(bytes: &[u8], offset: usize) -> (r: Result<Identifier, Error>)
    requires
        offset + 32 <= bytes@.len(),
    ensures
        match r {
            Ok(s) => identifier_field_error(bytes@.subrange(offset as int, offset + 32)) is None
                && s.encoding() == bytes@.subrange(offset as int, offset + 32),
            Err(e) => identifier_field_error(bytes@.subrange(offset as int, offset + 32))
                == Some(e),
        },
{
    let field = read32(bytes, offset);
    Identifier::deserialize(&field)
}

/// Reads an element at `offset`.
fn read_element(bytes: &[u8], offset: usize) -> (r: Result<Element, Error>)
    requires
        offset + 32 <= bytes@.len(),
    ensures
        match r {
            Ok(s) => element_field_error(bytes@.subrange(offset as int, offset + 32)) is None
                && s.encoding() == bytes@.subrange(offset as int, offset + 32),
            Err(e) => element_field_error(bytes@.subrange(offset as int, offset + 32)) == Some(e),
        },
{
    let field = read32(bytes, offset);
    Element::deserialize(&field)
}

/// Reads an element other than the identity at `offset`.
fn read_commitment(bytes: &[u8], offset: usize) -> (r: Result<Element, Error>)
    requires
        offset + 32 <= bytes@.len(),
    ensures
        match r {
            Ok(s) => commitment_field_error(bytes@.subrange(offset as int, offset + 32)) is None
                && s.encoding() == bytes@.subrange(offset as int, offset + 32) && s.log() != 0,
            Err(e) => commitment_field_error(bytes@.subrange(offset as int, offset + 32))
                == Some(e),
        },
{
    let element = match read_element(bytes, offset) {
        Ok(element) => element,
        Err(e) => {
            return Err(e);
        },
    };
    if element.is_identity() {
        return Err(Error::MalformedElement);
    }
    Ok(element)
}

impl SigningCommitments {
    /// The wire form: the header, the identifier, the hiding and the
    /// binding commitment.
    pub open(crate) spec fn wire(self) -> Seq<u8> {
        header() + self.identifier.encoding() + self.hiding.encoding() + self.binding.encoding()
    }

    /// What is wrong with `bytes` as the wire form of commitments.
    pub open spec fn wire_error(bytes: Seq<u8>) -> Option<Error> {
        if bytes.len() != 101 {
            Some(Error::DeserializationError)
        } else {
            first_error(
                header_error(bytes),
                first_error(
                    identifier_field_error(bytes.subrange(5, 37)),
                    first_error(
                        commitment_field_error(bytes.subrange(37, 69)),
                        commitment_field_error(bytes.subrange(69, 101)),
                    ),
                ),
            )
        }
    }

    /// The wire form.
    pub fn serialize(&self) -> (r: Vec<u8>)
        ensures
            r@ == self.wire(),
    {
        let mut out: Vec<u8> = Vec::new();
        write_header(&mut out);
        let identifier = self.identifier.serialize();
        let hiding = self.hiding.serialize();
        let binding = self.binding.serialize();
        out.extend_from_slice(identifier.as_slice());
        out.extend_from_slice(hiding.as_slice());
        out.extend_from_slice(binding.as_slice());
        assert(out@ =~= self.wire());
        out
    }

    /// The commitments of this wire form, or what is wrong with the bytes.
    pub fn deserialize(bytes: &[u8]) -> (r: Result<SigningCommitments, Error>)
        ensures
            match r {
                Ok(c) => SigningCommitments::wire_error(bytes@) is None && c.wire() == bytes@,
                Err(e) => SigningCommitments::wire_error(bytes@) == Some(e),
            },
    {
        if bytes.len() != 101 {
            return Err(Error::DeserializationError);
        }
        match check_header(bytes) {
            Ok(()) => {},
            Err(e) => {
                return Err(e);
            },
        }
        let identifier = match read_identifier(bytes, 5) {
            Ok(identifier) => identifier,
            Err(e) => {
                return Err(e);
            },
        };
        let hiding = match read_commitment(bytes, 37) {
            Ok(hiding) => hiding,
            Err(e) => {
                return Err(e);
            },
        };
        let binding = match read_commitment(bytes, 69) {
            Ok(binding) => binding,
            Err(e) => {
                return Err(e);
            },
        };
        let commitments = SigningCommitments { identifier, hiding, binding };
        assert(commitments.wire() =~= bytes@);
        Ok(commitments)
    }

    /// Writing and reading gives the value back: the wire form of
    /// commitments has nothing wrong with it, and only these commitments
    /// have it.
    pub proof fn lemma_wire_round_trip(self, other: SigningCommitments)
        requires
            self.no_identity(),
            self.hiding_element().valid(),
            self.binding_element().valid(),
            self.holder().nonzero(),
        ensures
            SigningCommitments::wire_error(self.wire()) is None,
            other.wire() == self.wire() ==> other == self,
    {
        let w = self.wire();
        assert(w.subrange(0, 5) =~= header());
        assert(w.subrange(5, 37) =~= self.identifier.encoding());
        assert(w.subrange(37, 69) =~= self.hiding.encoding());
        assert(w.subrange(69, 101) =~= self.binding.encoding());
        if other.wire() == w {
            let v = other.wire();
            assert(v.subrange(5, 37) =~= other.identifier.encoding());
            assert(v.subrange(37, 69) =~= other.hiding.encoding());
            assert(v.subrange(69, 101) =~= other.binding.encoding());
            Scalar::lemma_encoding_injective(self.identifier.scalar, other.identifier.scalar);
            Element::lemma_encoding_injective(self.hiding, other.hiding);
            Element::lemma_encoding_injective(self.binding, other.binding);
        }
    }
}

impl SignatureShare {
    /// The wire form: the header, then the share.
    pub open(crate) spec fn wire(self) -> Seq<u8> {
        header() + self.share.encoding()
    }

    /// What is wrong with `bytes` as the wire form of a share of a
    /// signature.
    pub open spec fn wire_error(bytes: Seq<u8>) -> Option<Error> {
        if bytes.len() != 37 {
            Some(Error::DeserializationError)
        } else {
            first_error(header_error(bytes), scalar_field_error(bytes.subrange(5, 37)))
        }
    }

    /// The wire form.
    pub fn to_wire(&self) -> (r: Vec<u8>)
        ensures
            r@ == self.wire(),
    {
        let mut out: Vec<u8> = Vec::new();
        write_header(&mut out);
        let share = self.share.serialize();
        out.extend_from_slice(share.as_slice());
        out
    }

    /// The share of this wire form, or what is wrong with the bytes.
    pub fn from_wire(bytes: &[u8]) -> (r: Result<SignatureShare, Error>)
        ensures
            match r {
                Ok(s) => SignatureShare::wire_error(bytes@) is None && s.wire() == bytes@,
                Err(e) => SignatureShare::wire_error(bytes@) == Some(e),
            },
    {
        if bytes.len() != 37 {
            return Err(Error::DeserializationError);
        }
        match check_header(bytes) {
            Ok(()) => {},
            Err(e) => {
                return Err(e);
            },
        }
        let share = match read_scalar(bytes, 5) {
            Ok(share) => share,
            Err(e) => {
                return Err(e);
            },
        };
        let share = SignatureShare { share };
        assert(share.wire() =~= bytes@);
        Ok(share)
    }

    /// Writing and reading gives the value back: the wire form of a share
    /// has nothing wrong with it, and only this share has it.
    pub proof fn lemma_wire_round_trip(self, other: SignatureShare)
        requires
            self.value() < group_order(),
        ensures
            SignatureShare::wire_error(self.wire()) is None,
            other.wire() == self.wire() ==> other == self,
    {
        let w = self.wire();
        assert(w.subrange(0, 5) =~= header());
        assert(w.subrange(5, 37) =~= self.share.encoding());
        if other.wire() == w {
            assert(other.wire().subrange(5, 37) =~= other.share.encoding());
            Scalar::lemma_encoding_injective(self.share, other.share);
        }
    }
}

impl Signature {
    /// The wire form: the group commitment, then the response.
    pub open(crate) spec fn wire(self) -> Seq<u8> {
        self.group_commitment.encoding() + self.z.encoding()
    }

    /// What is wrong with `bytes` as the wire form of a signature.
    pub open spec fn wire_error(bytes: Seq<u8>) -> Option<Error> {
        if bytes.len() != 64 {
            Some(Error::DeserializationError)
        } else {
            first_error(
                element_field_error(bytes.subrange(0, 32)),
                scalar_field_error(bytes.subrange(32, 64)),
            )
        }
    }

    /// The wire form.
    pub fn serialize(&self) -> (r: Vec<u8>)
        ensures
            r@ == self.wire(),
    {
        let mut out: Vec<u8> = Vec::new();
        let commitment = self.group_commitment.serialize();
        let z = self.z.serialize();
        out.extend_from_slice(commitment.as_slice());
        out.extend_from_slice(z.as_slice());
        assert(out@ =~= self.wire());
        out
    }

    /// The signature of this wire form, or what is wrong with the bytes.
    pub fn deserialize(bytes: &[u8]) -> (r: Result<Signature, Error>)
        ensures
            match r {
                Ok(s) => Signature::wire_error(bytes@) is None && s.wire() == bytes@,
                Err(e) => Signature::wire_error(bytes@) == Some(e),
            },
    {
        if bytes.len() != 64 {
            return Err(Error::DeserializationError);
        }
        let group_commitment = match read_element(bytes, 0) {
            Ok(element) => element,
            Err(e) => {
                return Err(e);
            },
        };
        let z = match read_scalar(bytes, 32) {
            Ok(z) => z,
            Err(e) => {
                return Err(e);
            },
        };
        let signature = Signature { group_commitment, z };
        assert(signature.wire() =~= bytes@);
        Ok(signature)
    }

    /// Writing and reading gives the value back.
    pub proof fn lemma_wire_round_trip(self, other: Signature)
        requires
            self.commitment().valid(),
            self.response() < group_order(),
        ensures
            Signature::wire_error(self.wire()) is None,
            other.wire() == self.wire() ==> other == self,
    {
        let w = self.wire();
        assert(w.subrange(0, 32) =~= self.group_commitment.encoding());
        assert(w.subrange(32, 64) =~= self.z.encoding());
        if other.wire() == w {
            let v = other.wire();
            assert(v.subrange(0, 32) =~= other.group_commitment.encoding());
            assert(v.subrange(32, 64) =~= other.z.encoding());
            Scalar::lemma_encoding_injective(self.z, other.z);
            Element::lemma_encoding_injective(self.group_commitment, other.group_commitment);
        }
    }
}

impl KeyPackage {
    /// The wire form: the header, the identifier, the share of the secret,
    /// the signer's public key, the group's key, the threshold.
    pub open(crate) spec fn wire(self) -> Seq<u8> {
        header() + self.identifier.encoding() + self.signing_share.scalar.encoding()
            + self.verifying_share.element.encoding() + self.verifying_key.element.encoding()
            + spec_u16_to_le_bytes(self.min_signers)
    }

    /// What is wrong with the fields of the wire form of a key package,
    /// each taken alone.
    pub open spec fn fields_error(bytes: Seq<u8>) -> Option<Error> {
        first_error(
            header_error(bytes),
            first_error(
                identifier_field_error(bytes.subrange(5, 37)),
                first_error(
                    scalar_field_error(bytes.subrange(37, 69)),
                    first_error(
                        element_field_error(bytes.subrange(69, 101)),
                        element_field_error(bytes.subrange(101, 133)),
                    ),
                ),
            ),
        )
    }

    /// What is wrong with `bytes` as the wire form of a key package: their
    /// number, a field, that the public key is not the basepoint multiplied
    /// by the share, or that the threshold is below two.
    pub open spec fn wire_error(bytes: Seq<u8>) -> Option<Error> {
        if bytes.len() != 135 {
            Some(Error::DeserializationError)
        } else if KeyPackage::fields_error(bytes) is Some {
            KeyPackage::fields_error(bytes)
        } else {
            KeyPackage::parts_error(
                le_nat(bytes.subrange(37, 69)),
                log_of(bytes.subrange(69, 101)),
                spec_u16_from_le_bytes(bytes.subrange(133, 135)),
            )
        }
    }

    /// The wire form.
    pub fn serialize(&self) -> (r: Vec<u8>)
        ensures
            r@ == self.wire(),
    {
        let mut out: Vec<u8> = Vec::new();
        write_header(&mut out);
        let identifier = self.identifier.serialize();
        let share = self.signing_share.scalar.serialize();
        let public = self.verifying_share.element.serialize();
        let key = self.verifying_key.element.serialize();
        let threshold = u16_to_le_bytes(self.min_signers);
        out.extend_from_slice(identifier.as_slice());
        out.extend_from_slice(share.as_slice());
        out.extend_from_slice(public.as_slice());
        out.extend_from_slice(key.as_slice());
        out.extend_from_slice(threshold.as_slice());
        assert(out@ =~= self.wire());
        out
    }

    /// The key package of this wire form, or what is wrong with the bytes.
    pub fn deserialize(bytes: &[u8]) -> (r: Result<KeyPackage, Error>)
        ensures
            match r {
                Ok(k) => KeyPackage::wire_error(bytes@) is None && k.wire() == bytes@,
                Err(e) => KeyPackage::wire_error(bytes@) == Some(e),
            },
    {
        if bytes.len() != 135 {
            return Err(Error::DeserializationError);
        }
        match check_header(bytes) {
            Ok(()) => {},
            Err(e) => {
                return Err(e);
            },
        }
        let identifier = match read_identifier(bytes, 5) {
            Ok(identifier) => identifier,
            Err(e) => {
                return Err(e);
            },
        };
        let share = match read_scalar(bytes, 37) {
            Ok(share) => share,
            Err(e) => {
                return Err(e);
            },
        };
        let public = match read_element(bytes, 69) {
            Ok(public) => public,
            Err(e) => {
                return Err(e);
            },
        };
        let key = match read_element(bytes, 101) {
            Ok(key) => key,
            Err(e) => {
                return Err(e);
            },
        };
        if !public.equals(&Element::base_mul(&share)) {
            return Err(Error::InvalidSecretShare);
        }
        let min_signers = u16_from_le_bytes(slice_subrange(bytes, 133, 135));
        if min_signers < 2 {
            return Err(Error::InvalidMinSigners);
        }
        let package = KeyPackage {
            identifier,
            signing_share: Secret { scalar: share },
            verifying_share: Public { element: public },
            verifying_key: VerifyingKey { element: key },
            min_signers,
        };
        proof {
            lemma_auto_spec_u16_to_from_le_bytes();
            assert(spec_u16_to_le_bytes(min_signers) == bytes@.subrange(133, 135));
            assert(package.wire() =~= bytes@);
        }
        Ok(package)
    }

    /// Writing and reading gives the value back.
    pub proof fn lemma_wire_round_trip(self, other: KeyPackage)
        requires
            self.holder().nonzero(),
            self.share().to_scalar().canonical(),
            self.public_key().to_element().valid(),
            self.group_key().to_element().valid(),
            self.public_key().log() == self.share().value(),
            self.threshold() >= 2,
        ensures
            KeyPackage::wire_error(self.wire()) is None,
            other.wire() == self.wire() ==> other == self,
    {
        lemma_auto_spec_u16_to_from_le_bytes();
        let w = self.wire();
        assert(w.subrange(0, 5) =~= header());
        assert(w.subrange(5, 37) =~= self.identifier.encoding());
        assert(w.subrange(37, 69) =~= self.signing_share.scalar.encoding());
        assert(w.subrange(69, 101) =~= self.verifying_share.element.encoding());
        assert(w.subrange(101, 133) =~= self.verifying_key.element.encoding());
        assert(w.subrange(133, 135) =~= spec_u16_to_le_bytes(self.min_signers));
        if other.wire() == w {
            let v = other.wire();
            assert(v.subrange(5, 37) =~= other.identifier.encoding());
            assert(v.subrange(37, 69) =~= other.signing_share.scalar.encoding());
            assert(v.subrange(69, 101) =~= other.verifying_share.element.encoding());
            assert(v.subrange(101, 133) =~= other.verifying_key.element.encoding());
            assert(v.subrange(133, 135) =~= spec_u16_to_le_bytes(other.min_signers));
            assert(spec_u16_from_le_bytes(spec_u16_to_le_bytes(other.min_signers))
                == spec_u16_from_le_bytes(spec_u16_to_le_bytes(self.min_signers)));
            Scalar::lemma_encoding_injective(self.identifier.scalar, other.identifier.scalar);
            Scalar::lemma_encoding_injective(self.signing_share.scalar, other.signing_share.scalar);
            Element::lemma_encoding_injective(
                self.verifying_share.element,
                other.verifying_share.element,
            );
            Element::lemma_encoding_injective(
                self.verifying_key.element,
                other.verifying_key.element,
            );
        }
    }
}

/// `n` records, one after the other.
pub open spec fn records(n: nat, record: spec_fn(int) -> Seq<u8>) -> Seq<u8>
    decreases n,
{
    if n == 0 {
        Seq::empty()
    } else {
        records((n - 1) as nat, record) + record(n - 1)
    }
}

/// Where every record has `size` bytes, the `k`-th record of the
/// concatenation is found at `k * size`.
pub proof fn lemma_records(n: nat, size: nat, record: spec_fn(int) -> Seq<u8>)
    requires
        forall|k: int| 0 <= k < n ==> (#[trigger] record(k)).len() == size,
    ensures
        records(n, record).len() == n * size,
        forall|k: int|
            0 <= k < n ==> records(n, record).subrange(k * size, k * size + size)
                == #[trigger] record(k),
    decreases n,
{
    if n == 0 {
        assert(n * size == 0) by (nonlinear_arith)
            requires
                n == 0,
        ;
    } else {
        let m = (n - 1) as nat;
        lemma_records(m, size, record);
        let a = records(m, record);
        let b = record(n - 1);
        assert(b.len() == size);
        assert(records(n, record) == a + b);
        assert(a.len() + size == n * size) by (nonlinear_arith)
            requires
                a.len() == m * size,
                m == n - 1,
        ;
        assert forall|k: int| 0 <= k < n implies records(n, record).subrange(
            k * size,
            k * size + size,
        ) == #[trigger] record(k) by {
            if k < m {
                assert(0 <= k * size && k * size + size <= m * size) by (nonlinear_arith)
                    requires
                        0 <= k < m,
                ;
                assert((a + b).subrange(k * size, k * size + size) =~= a.subrange(
                    k * size,
                    k * size + size,
                ));
            } else {
                assert((a + b).subrange((m * size) as int, (m * size + size) as int) =~= b);
            }
        }
    }
}

/// Bytes that hold `n` records of `size` bytes, each at its place, are the
/// concatenation of the records.
pub proof fn lemma_records_unique(
    n: nat,
    size: nat,
    record: spec_fn(int) -> Seq<u8>,
    bytes: Seq<u8>,
)
    requires
        bytes.len() == n * size,
        forall|k: int|
            0 <= k < n ==> bytes.subrange(k * size, k * size + size) == #[trigger] record(k),
    ensures
        bytes == records(n, record),
    decreases n,
{
    if n == 0 {
        assert(bytes.len() == 0) by (nonlinear_arith)
            requires
                bytes.len() == n * size,
                n == 0,
        ;
        assert(bytes =~= records(n, record));
    } else {
        let m = (n - 1) as nat;
        assert(m * size + size == n * size && 0 <= m * size) by (nonlinear_arith)
            requires
                m == n - 1,
        ;
        let prefix = bytes.subrange(0, (m * size) as int);
        assert forall|k: int| 0 <= k < m implies prefix.subrange(k * size, k * size + size)
            == #[trigger] record(k) by {
            assert(0 <= k * size && k * size + size <= m * size) by (nonlinear_arith)
                requires
                    0 <= k < m,
            ;
            assert(prefix.subrange(k * size, k * size + size) =~= bytes.subrange(
                k * size,
                k * size + size,
            ));
        }
        lemma_records_unique(m, size, record, prefix);
        assert(bytes.subrange((m * size) as int, (m * size + size) as int) == record(n - 1));
        assert(bytes =~= prefix + bytes.subrange((m * size) as int, (m * size + size) as int));
    }
}

/// The encodings of a sequence of elements, as records.
pub open(crate) spec fn element_record(elements: Seq<Element>) -> spec_fn(int) -> Seq<u8> {
    |k: int| elements[k].encoding()
}

/// The eight bytes of a count or a length.
pub open spec fn count_bytes(n: nat) -> Seq<u8> {
    spec_u64_to_le_bytes(n as u64)
}

/// Reads a count or a length at `offset`.
fn read_u64(bytes: &[u8], offset: usize) -> (r: u64)
    requires
        offset + 8 <= bytes@.len(),
    ensures
        r == spec_u64_from_le_bytes(bytes@.subrange(offset as int, offset + 8)),
        count_bytes(r as nat) == bytes@.subrange(offset as int, offset + 8),
{
    proof {
        lemma_auto_spec_u64_to_from_le_bytes();
    }
    let n = bytes.len();
    u64_from_le_bytes(slice_subrange(bytes, offset, offset + 8))
}

/// Writes a count or a length.
fn write_count(out: &mut Vec<u8>, n: usize)
    ensures
        final(out)@ == old(out)@ + count_bytes(n as nat),
{
    let encoded = u64_to_le_bytes(n as u64);
    out.extend_from_slice(encoded.as_slice());
}

/// How many records of `size` bytes `available` bytes are, where they are
/// exactly `count` records; nothing where they are not.
fn record_count(available: usize, size: usize, count: u64) -> (r: Option<usize>)
    requires
        size > 0,
    ensures
        match r {
            Some(n) => n == count && available == size * n,
            None => available != size * count,
        },
{
    proof {
        vstd::arithmetic::div_mod::lemma_fundamental_div_mod(available as int, size as int);
        if available == size * count {
            vstd::arithmetic::div_mod::lemma_fundamental_div_mod_converse(
                available as int,
                size as int,
                count as int,
                0,
            );
        }
    }
    if available % size != 0 || (available / size) as u64 != count {
        None
    } else {
        Some(available / size)
    }
}

/// A byte string is its parts, one after the other.
proof fn lemma_parts(bytes: Seq<u8>, a: int, b: int)
    requires
        0 <= a <= b <= bytes.len(),
    ensures
        bytes == bytes.subrange(0, a) + bytes.subrange(a, b) + bytes.subrange(b, bytes.len() as int),
{
    assert(bytes =~= bytes.subrange(0, a) + bytes.subrange(a, b) + bytes.subrange(
        b,
        bytes.len() as int,
    ));
}

/// Writes the encodings of elements, one after the other.
fn write_elements(out: &mut Vec<u8>, elements: &Vec<Element>)
    ensures
        final(out)@ == old(out)@ + records(elements@.len(), element_record(elements@)),
{
    let ghost before = out@;
    let ghost record = element_record(elements@);
    let mut k: usize = 0;
    assert(out@ =~= before + records(0, record));
    while k < elements.len()
        invariant
            k <= elements.len(),
            record == element_record(elements@),
            out@ == before + records(k as nat, record),
        decreases elements.len() - k,
    {
        let encoded = elements[k].serialize();
        out.extend_from_slice(encoded.as_slice());
        assert(out@ =~= before + records((k + 1) as nat, record));
        k = k + 1;
    }
}

/// Some record of 32 bytes from `start` on encodes no element.
pub open spec fn some_element_is_malformed(bytes: Seq<u8>, start: int, count: nat) -> bool {
    exists|k: int|
        0 <= k < count && !ristretto_decodes(
            #[trigger] bytes.subrange(start + 32 * k, start + 32 * k + 32),
        )
}

/// Reads `count` elements from `start` on.
fn read_elements(bytes: &[u8], start: usize, count: usize) -> (r: Result<Vec<Element>, Error>)
    requires
        start + 32 * count == bytes@.len(),
    ensures
        match r {
            Ok(elements) => {
                &&& !some_element_is_malformed(bytes@, start as int, count as nat)
                &&& elements@.len() == count
                &&& bytes@.subrange(start as int, bytes@.len() as int) == records(
                    count as nat,
                    element_record(elements@),
                )
            },
            Err(e) => some_element_is_malformed(bytes@, start as int, count as nat) && e
                == Error::MalformedElement,
        },
{
    let n = bytes.len();
    let mut elements: Vec<Element> = Vec::new();
    let mut k: usize = 0;
    while k < count
        invariant
            k <= count,
            n == bytes@.len(),
            start + 32 * count == n,
            elements@.len() == k,
            forall|j: int|
                0 <= j < k ==> (#[trigger] elements@[j]).encoding() == bytes@.subrange(
                    start + 32 * j,
                    start + 32 * j + 32,
                ),
            forall|j: int|
                0 <= j < k ==> ristretto_decodes(
                    #[trigger] bytes@.subrange(start + 32 * j, start + 32 * j + 32),
                ),
        decreases count - k,
    {
        let element = match read_element(bytes, start + 32 * k) {
            Ok(element) => element,
            Err(e) => {
                return Err(e);
            },
        };
        elements.push(element);
        k = k + 1;
    }
    proof {
        let rest = bytes@.subrange(start as int, n as int);
        let record = element_record(elements@);
        assert forall|j: int| 0 <= j < count implies rest.subrange(j * 32, j * 32 + 32)
            == #[trigger] record(j) by {
            assert(rest.subrange(j * 32, j * 32 + 32) =~= bytes@.subrange(
                start + 32 * j,
                start + 32 * j + 32,
            ));
            assert(elements@[j].encoding() == bytes@.subrange(start + 32 * j, start + 32 * j + 32));
        }
        lemma_records_unique(count as nat, 32, record, rest);
    }
    Ok(elements)
}

/// Elements whose encodings, one after the other, are the same bytes are
/// the same elements.
pub proof fn lemma_element_records_injective(a: Seq<Element>, b: Seq<Element>)
    requires
        a.len() == b.len(),
        records(a.len(), element_record(a)) == records(b.len(), element_record(b)),
        forall|k: int| 0 <= k < a.len() ==> (#[trigger] a[k]).encoding().len() == 32,
        forall|k: int| 0 <= k < b.len() ==> (#[trigger] b[k]).encoding().len() == 32,
    ensures
        a == b,
{
    let (ra, rb) = (element_record(a), element_record(b));
    assert forall|k: int| 0 <= k < a.len() implies (#[trigger] ra(k)).len() == 32 by {
        assert(a[k].encoding().len() == 32);
    }
    assert forall|k: int| 0 <= k < b.len() implies (#[trigger] rb(k)).len() == 32 by {
        assert(b[k].encoding().len() == 32);
    }
    lemma_records(a.len(), 32, ra);
    lemma_records(b.len(), 32, rb);
    assert forall|k: int| 0 <= k < a.len() implies a[k] == b[k] by {
        assert(ra(k) == rb(k));
        Element::lemma_encoding_injective(a[k], b[k]);
    }
    assert(a =~= b);
}

impl VerifiableSecretSharingCommitment {
    /// The wire form: the header, the number of elements, the elements.
    pub open(crate) spec fn wire(self) -> Seq<u8> {
        header() + count_bytes(self.coefficients@.len()) + records(
            self.coefficients@.len(),
            element_record(self.coefficients@),
        )
    }

    /// What is wrong with `bytes` as the wire form of a commitment.
    pub open spec fn wire_error(bytes: Seq<u8>) -> Option<Error> {
        if header_error(bytes) is Some {
            header_error(bytes)
        } else if bytes.len() < 13 {
            Some(Error::DeserializationError)
        } else {
            let count = spec_u64_from_le_bytes(bytes.subrange(5, 13));
            if bytes.len() != 13 + 32 * count {
                Some(Error::DeserializationError)
            } else if some_element_is_malformed(bytes, 13, count as nat) {
                Some(Error::MalformedElement)
            } else {
                None
            }
        }
    }

    /// The wire form.
    pub fn serialize(&self) -> (r: Vec<u8>)
        ensures
            r@ == self.wire(),
    {
        let mut out: Vec<u8> = Vec::new();
        write_header(&mut out);
        write_count(&mut out, self.coefficients.len());
        write_elements(&mut out, &self.coefficients);
        out
    }

    /// The commitment of this wire form, or what is wrong with the bytes.
    #[verifier::rlimit(50)]
    pub fn deserialize(bytes: &[u8]) -> (r: Result<VerifiableSecretSharingCommitment, Error>)
        ensures
            match r {
                Ok(c) => VerifiableSecretSharingCommitment::wire_error(bytes@) is None && c.wire()
                    == bytes@,
                Err(e) => VerifiableSecretSharingCommitment::wire_error(bytes@) == Some(e),
            },
    {
        match check_header(bytes) {
            Ok(()) => {},
            Err(e) => {
                return Err(e);
            },
        }
        if bytes.len() < 13 {
            return Err(Error::DeserializationError);
        }
        let count = read_u64(bytes, 5);
        let n = match record_count(bytes.len() - 13, 32, count) {
            Some(n) => n,
            None => {
                return Err(Error::DeserializationError);
            },
        };
        let elements = match read_elements(bytes, 13, n) {
            Ok(elements) => elements,
            Err(e) => {
                return Err(e);
            },
        };
        let commitment = VerifiableSecretSharingCommitment { coefficients: elements };
        proof {
            lemma_parts(bytes@, 5, 13);
        }
        Ok(commitment)
    }

    /// Writing and reading gives the value back: the wire form of a
    /// commitment has nothing wrong with it, and only commitments of the
    /// same elements have it.
    pub proof fn lemma_wire_round_trip(self, other: VerifiableSecretSharingCommitment)
        requires
            self.elements().len() <= u64::MAX,
            other.elements().len() <= u64::MAX,
            forall|k: int| 0 <= k < self.elements().len() ==> (#[trigger] self.elements()[k]).valid(),
            forall|k: int|
                0 <= k < other.elements().len() ==> (#[trigger] other.elements()[k]).valid(),
        ensures
            VerifiableSecretSharingCommitment::wire_error(self.wire()) is None,
            other.wire() == self.wire() ==> other.elements() == self.elements(),
    {
        lemma_auto_spec_u64_to_from_le_bytes();
        let w = self.wire();
        let n = self.coefficients@.len();
        let record = element_record(self.coefficients@);
        assert forall|k: int| 0 <= k < n implies (#[trigger] record(k)).len() == 32 by {
            assert(self.coefficients@[k].valid());
        }
        lemma_records(n, 32, record);
        assert(w.subrange(0, 5) =~= header());
        assert(w.subrange(5, 13) =~= count_bytes(n));
        assert(w.len() == 13 + 32 * n);
        assert forall|k: int| 0 <= k < n implies ristretto_decodes(
            #[trigger] w.subrange(13 + 32 * k, 13 + 32 * k + 32),
        ) by {
            assert(w.subrange(13 + 32 * k, 13 + 32 * k + 32) =~= records(n, record).subrange(
                k * 32,
                k * 32 + 32,
            ));
            assert(record(k) == self.coefficients@[k].encoding());
            assert(self.coefficients@[k].valid());
        }
        if other.wire() == w {
            let v = other.wire();
            let m = other.coefficients@.len();
            assert(v.subrange(5, 13) =~= count_bytes(m));
            assert(spec_u64_from_le_bytes(count_bytes(m)) == spec_u64_from_le_bytes(
                count_bytes(n),
            ));
            assert(m == n);
            assert(w.subrange(13, w.len() as int) =~= records(n, record));
            assert(v.subrange(13, v.len() as int) =~= records(
                m,
                element_record(other.coefficients@),
            ));
            assert forall|k: int| 0 <= k < n implies (
            #[trigger] self.coefficients@[k]).encoding().len() == 32 by {
                assert(self.coefficients@[k].valid());
            }
            assert forall|k: int| 0 <= k < m implies (
            #[trigger] other.coefficients@[k]).encoding().len() == 32 by {
                assert(other.coefficients@[k].valid());
            }
            lemma_element_records_injective(self.coefficients@, other.coefficients@);
        }
    }
}

impl SecretShare {
    /// The wire form: the header, the identifier, the share, the number of
    /// elements of the commitment, the elements.
    pub open(crate) spec fn wire(self) -> Seq<u8> {
        header() + self.identifier.encoding() + self.value.scalar.encoding() + count_bytes(
            self.commitment.coefficients@.len(),
        ) + records(
            self.commitment.coefficients@.len(),
            element_record(self.commitment.coefficients@),
        )
    }

    /// What is wrong with `bytes` as the wire form of a share.
    pub open spec fn wire_error(bytes: Seq<u8>) -> Option<Error> {
        if header_error(bytes) is Some {
            header_error(bytes)
        } else if bytes.len() < 77 {
            Some(Error::DeserializationError)
        } else if identifier_field_error(bytes.subrange(5, 37)) is Some {
            identifier_field_error(bytes.subrange(5, 37))
        } else if scalar_field_error(bytes.subrange(37, 69)) is Some {
            scalar_field_error(bytes.subrange(37, 69))
        } else {
            let count = spec_u64_from_le_bytes(bytes.subrange(69, 77));
            if bytes.len() != 77 + 32 * count {
                Some(Error::DeserializationError)
            } else if some_element_is_malformed(bytes, 77, count as nat) {
                Some(Error::MalformedElement)
            } else {
                None
            }
        }
    }

    /// The wire form.
    pub fn serialize(&self) -> (r: Vec<u8>)
        ensures
            r@ == self.wire(),
    {
        let mut out: Vec<u8> = Vec::new();
        write_header(&mut out);
        let identifier = self.identifier.serialize();
        let value = self.value.scalar.serialize();
        out.extend_from_slice(identifier.as_slice());
        out.extend_from_slice(value.as_slice());
        write_count(&mut out, self.commitment.coefficients.len());
        write_elements(&mut out, &self.commitment.coefficients);
        out
    }

    /// The share of this wire form, or what is wrong with the bytes.
    #[verifier::rlimit(50)]
    pub fn deserialize(bytes: &[u8]) -> (r: Result<SecretShare, Error>)
        ensures
            match r {
                Ok(s) => SecretShare::wire_error(bytes@) is None && s.wire() == bytes@,
                Err(e) => SecretShare::wire_error(bytes@) == Some(e),
            },
    {
        match check_header(bytes) {
            Ok(()) => {},
            Err(e) => {
                return Err(e);
            },
        }
        if bytes.len() < 77 {
            return Err(Error::DeserializationError);
        }
        let identifier = match read_identifier(bytes, 5) {
            Ok(identifier) => identifier,
            Err(e) => {
                return Err(e);
            },
        };
        let value = match read_scalar(bytes, 37) {
            Ok(value) => value,
            Err(e) => {
                return Err(e);
            },
        };
        let count = read_u64(bytes, 69);
        let n = match record_count(bytes.len() - 77, 32, count) {
            Some(n) => n,
            None => {
                return Err(Error::DeserializationError);
            },
        };
        let elements = match read_elements(bytes, 77, n) {
            Ok(elements) => elements,
            Err(e) => {
                return Err(e);
            },
        };
        let share = SecretShare {
            identifier,
            value: Secret { scalar: value },
            commitment: VerifiableSecretSharingCommitment { coefficients: elements },
        };
        proof {
            lemma_parts(bytes@, 5, 37);
            lemma_parts(bytes@.subrange(37, bytes@.len() as int), 32, 40);
            let rest = bytes@.subrange(37, bytes@.len() as int);
            assert(rest.subrange(0, 32) =~= bytes@.subrange(37, 69));
            assert(rest.subrange(32, 40) =~= bytes@.subrange(69, 77));
            assert(rest.subrange(40, rest.len() as int) =~= bytes@.subrange(
                77,
                bytes@.len() as int,
            ));
            assert(share.wire() =~= bytes@);
        }
        Ok(share)
    }

    /// Writing and reading gives the value back.
    pub proof fn lemma_wire_round_trip(self, other: SecretShare)
        requires
            self.holder().nonzero(),
            self.secret().to_scalar().canonical(),
            self.committed().elements().len() <= u64::MAX,
            other.committed().elements().len() <= u64::MAX,
            forall|k: int|
                0 <= k < self.committed().elements().len() ==> (
                #[trigger] self.committed().elements()[k]).valid(),
            forall|k: int|
                0 <= k < other.committed().elements().len() ==> (
                #[trigger] other.committed().elements()[k]).valid(),
        ensures
            SecretShare::wire_error(self.wire()) is None,
            other.wire() == self.wire() ==> {
                &&& other.holder() == self.holder()
                &&& other.secret() == self.secret()
                &&& other.committed().elements() == self.committed().elements()
            },
    {
        lemma_auto_spec_u64_to_from_le_bytes();
        let w = self.wire();
        let elements = self.commitment.coefficients@;
        let n = elements.len();
        let record = element_record(elements);
        assert forall|k: int| 0 <= k < n implies (#[trigger] record(k)).len() == 32 by {
            assert(elements[k].valid());
        }
        lemma_records(n, 32, record);
        assert(w.subrange(0, 5) =~= header());
        assert(w.subrange(5, 37) =~= self.identifier.encoding());
        assert(w.subrange(37, 69) =~= self.value.scalar.encoding());
        assert(w.subrange(69, 77) =~= count_bytes(n));
        assert(w.len() == 77 + 32 * n);
        assert forall|k: int| 0 <= k < n implies ristretto_decodes(
            #[trigger] w.subrange(77 + 32 * k, 77 + 32 * k + 32),
        ) by {
            assert(w.subrange(77 + 32 * k, 77 + 32 * k + 32) =~= records(n, record).subrange(
                k * 32,
                k * 32 + 32,
            ));
            assert(record(k) == elements[k].encoding());
            assert(elements[k].valid());
        }
        if other.wire() == w {
            let v = other.wire();
            let others = other.commitment.coefficients@;
            let m = others.len();
            assert(v.subrange(5, 37) =~= other.identifier.encoding());
            assert(v.subrange(37, 69) =~= other.value.scalar.encoding());
            assert(v.subrange(69, 77) =~= count_bytes(m));
            assert(spec_u64_from_le_bytes(count_bytes(m)) == spec_u64_from_le_bytes(
                count_bytes(n),
            ));
            assert(m == n);
            assert(w.subrange(77, w.len() as int) =~= records(n, record));
            assert(v.subrange(77, v.len() as int) =~= records(m, element_record(others)));
            assert forall|k: int| 0 <= k < n implies (#[trigger] elements[k]).encoding().len()
                == 32 by {
                assert(elements[k].valid());
            }
            assert forall|k: int| 0 <= k < m implies (#[trigger] others[k]).encoding().len()
                == 32 by {
                assert(others[k].valid());
            }
            lemma_element_records_injective(elements, others);
            Scalar::lemma_encoding_injective(self.identifier.scalar, other.identifier.scalar);
            Scalar::lemma_encoding_injective(self.value.scalar, other.value.scalar);
        }
    }
}

/// What is wrong with the first `n` records of `size` bytes from `start`
/// on, where `check` says what is wrong with one record: what is wrong
/// with the first record that has something wrong with it.
pub open spec fn records_error(
    bytes: Seq<u8>,
    start: int,
    size: int,
    n: nat,
    check: spec_fn(Seq<u8>) -> Option<Error>,
) -> Option<Error>
    decreases n,
{
    if n == 0 {
        None
    } else {
        first_error(
            records_error(bytes, start, size, (n - 1) as nat, check),
            check(bytes.subrange(start + size * (n - 1), start + size * (n - 1) + size)),
        )
    }
}

/// What is wrong with some records is wrong with more of them.
pub proof fn lemma_records_error_persists(
    bytes: Seq<u8>,
    start: int,
    size: int,
    k: nat,
    n: nat,
    check: spec_fn(Seq<u8>) -> Option<Error>,
)
    requires
        k <= n,
        records_error(bytes, start, size, k, check) is Some,
    ensures
        records_error(bytes, start, size, n, check) == records_error(bytes, start, size, k, check),
    decreases n,
{
    if k < n {
        lemma_records_error_persists(bytes, start, size, k, (n - 1) as nat, check);
    }
}

/// What is wrong with 64 bytes as a participant and its public key.
pub open spec fn public_key_entry_error(entry: Seq<u8>) -> Option<Error> {
    first_error(
        identifier_field_error(entry.subrange(0, 32)),
        element_field_error(entry.subrange(32, 64)),
    )
}

/// The check of one participant with its public key.
pub open spec fn public_key_check() -> spec_fn(Seq<u8>) -> Option<Error> {
    |entry: Seq<u8>| public_key_entry_error(entry)
}

/// The participants with their public keys, as records.
pub open(crate) spec fn public_key_record(entries: Seq<(Identifier, Public)>) -> spec_fn(int) -> Seq<
    u8,
> {
    |k: int| entries[k].0.encoding() + entries[k].1.element.encoding()
}

/// The participants and their public keys are valid values.
pub open(crate) spec fn valid_public_keys(entries: Seq<(Identifier, Public)>) -> bool {
    forall|k: int|
        0 <= k < entries.len() ==> (#[trigger] entries[k]).0.nonzero() && entries[k].1.element.valid()
}

/// Participants and public keys whose encodings, one after the other, are
/// the same bytes are the same.
proof fn lemma_public_key_records_injective(
    a: Seq<(Identifier, Public)>,
    b: Seq<(Identifier, Public)>,
)
    requires
        a.len() == b.len(),
        records(a.len(), public_key_record(a)) == records(b.len(), public_key_record(b)),
        valid_public_keys(a),
        valid_public_keys(b),
    ensures
        a == b,
{
    let (ra, rb) = (public_key_record(a), public_key_record(b));
    assert forall|k: int| 0 <= k < a.len() implies (#[trigger] ra(k)).len() == 64 by {
        assert(a[k].0.nonzero() && a[k].1.element.valid());
    }
    assert forall|k: int| 0 <= k < b.len() implies (#[trigger] rb(k)).len() == 64 by {
        assert(b[k].0.nonzero() && b[k].1.element.valid());
    }
    lemma_records(a.len(), 64, ra);
    lemma_records(b.len(), 64, rb);
    assert forall|k: int| 0 <= k < a.len() implies a[k] == b[k] by {
        assert(ra(k) == rb(k));
        assert(a[k].0.nonzero() && a[k].1.element.valid());
        assert(b[k].0.nonzero() && b[k].1.element.valid());
        assert(ra(k).subrange(0, 32) =~= a[k].0.encoding());
        assert(rb(k).subrange(0, 32) =~= b[k].0.encoding());
        assert(ra(k).subrange(32, 64) =~= a[k].1.element.encoding());
        assert(rb(k).subrange(32, 64) =~= b[k].1.element.encoding());
        Scalar::lemma_encoding_injective(a[k].0.scalar, b[k].0.scalar);
        Element::lemma_encoding_injective(a[k].1.element, b[k].1.element);
    }
    assert(a =~= b);
}

impl PublicKeyPackage {
    /// The wire form: the header, the group's key, the number of
    /// participants, and each participant with its public key.
    pub open(crate) spec fn wire(self) -> Seq<u8> {
        header() + self.group_public.element.encoding() + count_bytes(self.signer_pubkeys@.len())
            + records(self.signer_pubkeys@.len(), public_key_record(self.signer_pubkeys@))
    }

    /// What is wrong with `bytes` as the wire form of a package of public
    /// keys.
    pub open spec fn wire_error(bytes: Seq<u8>) -> Option<Error> {
        if header_error(bytes) is Some {
            header_error(bytes)
        } else if bytes.len() < 45 {
            Some(Error::DeserializationError)
        } else if element_field_error(bytes.subrange(5, 37)) is Some {
            element_field_error(bytes.subrange(5, 37))
        } else {
            let count = spec_u64_from_le_bytes(bytes.subrange(37, 45));
            if bytes.len() != 45 + 64 * count {
                Some(Error::DeserializationError)
            } else if records_error(bytes, 45, 64, count as nat, public_key_check()) is Some {
                records_error(bytes, 45, 64, count as nat, public_key_check())
            } else if !distinct_records(bytes, 45, count as nat) {
                Some(Error::DuplicatedIdentifier)
            } else {
                None
            }
        }
    }

    /// The wire form.
    pub fn serialize(&self) -> (r: Vec<u8>)
        ensures
            r@ == self.wire(),
    {
        let mut out: Vec<u8> = Vec::new();
        write_header(&mut out);
        let key = self.group_public.element.serialize();
        out.extend_from_slice(key.as_slice());
        write_count(&mut out, self.signer_pubkeys.len());
        let ghost before = out@;
        let ghost record = public_key_record(self.signer_pubkeys@);
        let mut k: usize = 0;
        assert(out@ =~= before + records(0, record));
        while k < self.signer_pubkeys.len()
            invariant
                k <= self.signer_pubkeys.len(),
                record == public_key_record(self.signer_pubkeys@),
                out@ == before + records(k as nat, record),
            decreases self.signer_pubkeys.len() - k,
        {
            let entry = self.signer_pubkeys[k];
            let identifier = entry.0.serialize();
            let public = entry.1.element.serialize();
            out.extend_from_slice(identifier.as_slice());
            out.extend_from_slice(public.as_slice());
            assert(out@ =~= before + records((k + 1) as nat, record));
            k = k + 1;
        }
        out
    }

    /// The package of this wire form, or what is wrong with the bytes.
    #[verifier::rlimit(50)]
    #[verifier::loop_isolation(false)]
    pub fn deserialize(bytes: &[u8]) -> (r: Result<PublicKeyPackage, Error>)
        ensures
            match r {
                Ok(p) => PublicKeyPackage::wire_error(bytes@) is None && p.wire() == bytes@,
                Err(e) => PublicKeyPackage::wire_error(bytes@) == Some(e),
            },
    {
        match check_header(bytes) {
            Ok(()) => {},
            Err(e) => {
                return Err(e);
            },
        }
        let n = bytes.len();
        if n < 45 {
            return Err(Error::DeserializationError);
        }
        let key = match read_element(bytes, 5) {
            Ok(key) => key,
            Err(e) => {
                return Err(e);
            },
        };
        let count = read_u64(bytes, 37);
        let count = match record_count(n - 45, 64, count) {
            Some(count) => count,
            None => {
                return Err(Error::DeserializationError);
            },
        };
        let ghost check = public_key_check();
        let mut entries: Vec<(Identifier, Public)> = Vec::new();
        let mut k: usize = 0;
        while k < count
            invariant
                k <= count,
                n == bytes@.len(),
                n == 45 + 64 * count,
                check == public_key_check(),
                entries@.len() == k,
                records_error(bytes@, 45, 64, k as nat, check) is None,
                valid_public_keys(entries@),
                forall|j: int|
                    0 <= j < k ==> (#[trigger] public_key_record(entries@)(j)) == bytes@.subrange(
                        45 + 64 * j,
                        45 + 64 * j + 64,
                    ),
            decreases count - k,
        {
            let offset = 45 + 64 * k;
            let ghost entry = bytes@.subrange(offset as int, offset + 64);
            proof {
                assert(entry.subrange(0, 32) =~= bytes@.subrange(offset as int, offset + 32));
                assert(entry.subrange(32, 64) =~= bytes@.subrange(offset + 32, offset + 64));
            }
            let identifier = match read_identifier(bytes, offset) {
                Ok(identifier) => identifier,
                Err(e) => {
                    proof {
                        assert(records_error(bytes@, 45, 64, (k + 1) as nat, check) == Some(e));
                        lemma_records_error_persists(
                            bytes@,
                            45,
                            64,
                            (k + 1) as nat,
                            count as nat,
                            check,
                        );
                    }
                    return Err(e);
                },
            };
            let public = match read_element(bytes, offset + 32) {
                Ok(public) => public,
                Err(e) => {
                    proof {
                        assert(records_error(bytes@, 45, 64, (k + 1) as nat, check) == Some(e));
                        lemma_records_error_persists(
                            bytes@,
                            45,
                            64,
                            (k + 1) as nat,
                            count as nat,
                            check,
                        );
                    }
                    return Err(e);
                },
            };
            let ghost before = entries@;
            entries.push((identifier, Public { element: public }));
            proof {
                use_type_invariant(identifier);
                use_type_invariant(public);
                assert(records_error(bytes@, 45, 64, (k + 1) as nat, check) is None);
                assert forall|j: int| 0 <= j < k + 1 implies (#[trigger] public_key_record(
                    entries@,
                )(j)) == bytes@.subrange(45 + 64 * j, 45 + 64 * j + 64) by {
                    if j < k {
                        assert(public_key_record(before)(j) == bytes@.subrange(
                            45 + 64 * j,
                            45 + 64 * j + 64,
                        ));
                        assert(entries@[j] == before[j]);
                    } else {
                        assert(public_key_record(entries@)(j) =~= entry);
                    }
                }
                assert forall|j: int| 0 <= j < entries@.len() implies (
                #[trigger] entries@[j]).0.nonzero() && entries@[j].1.element.valid() by {
                    if j < k {
                        assert(entries@[j] == before[j]);
                    }
                }
            }
            k = k + 1;
        }
        proof {
            lemma_public_key_identifiers(bytes@, entries@);
        }
        if !entries_distinct(&entries) {
            return Err(Error::DuplicatedIdentifier);
        }
        let package = PublicKeyPackage {
            signer_pubkeys: entries,
            group_public: VerifyingKey { element: key },
        };
        proof {
            let rest = bytes@.subrange(45, n as int);
            let record = public_key_record(package.signer_pubkeys@);
            assert forall|j: int| 0 <= j < count implies rest.subrange(j * 64, j * 64 + 64)
                == #[trigger] record(j) by {
                assert(rest.subrange(j * 64, j * 64 + 64) =~= bytes@.subrange(
                    45 + 64 * j,
                    45 + 64 * j + 64,
                ));
            }
            lemma_records_unique(count as nat, 64, record, rest);
            assert(bytes@.subrange(0, 5) == header());
            assert(package.wire() =~= bytes@.subrange(0, 5) + bytes@.subrange(5, 37)
                + bytes@.subrange(37, 45) + rest);
            assert(package.wire() =~= bytes@);
        }
        Ok(package)
    }

    /// Writing and reading gives the value back.
    pub proof fn lemma_wire_round_trip(self, other: PublicKeyPackage)
        requires
            self.group_key().to_element().valid(),
            valid_public_keys(self.entries()),
            valid_public_keys(other.entries()),
            distinct(entry_values(self.entries())),
            self.entries().len() <= u64::MAX,
            other.entries().len() <= u64::MAX,
        ensures
            PublicKeyPackage::wire_error(self.wire()) is None,
            other.wire() == self.wire() ==> other.entries() == self.entries() && other.group_key()
                == self.group_key(),
    {
        lemma_auto_spec_u64_to_from_le_bytes();
        let w = self.wire();
        let entries = self.signer_pubkeys@;
        let n = entries.len();
        let record = public_key_record(entries);
        assert forall|k: int| 0 <= k < n implies (#[trigger] record(k)).len() == 64 by {
            assert(entries[k].0.nonzero() && entries[k].1.element.valid());
        }
        lemma_records(n, 64, record);
        assert(w.subrange(0, 5) =~= header());
        assert(w.subrange(5, 37) =~= self.group_public.element.encoding());
        assert(w.subrange(37, 45) =~= count_bytes(n));
        assert(w.len() == 45 + 64 * n);
        let check = public_key_check();
        assert(w.subrange(45, w.len() as int) =~= records(n, record));
        assert forall|k: nat| k <= n implies records_error(w, 45, 64, k, check) is None by {
            lemma_no_public_key_error(w, entries, k);
        }
        assert forall|j: int| 0 <= j < n implies (#[trigger] record(j)) == w.subrange(
            45 + 64 * j,
            45 + 64 * j + 64,
        ) by {
            assert(w.subrange(45 + 64 * j, 45 + 64 * j + 64) =~= records(n, record).subrange(
                j * 64,
                j * 64 + 64,
            ));
        }
        lemma_public_key_identifiers(w, entries);
        if other.wire() == w {
            let v = other.wire();
            let others = other.signer_pubkeys@;
            let m = others.len();
            assert(v.subrange(5, 37) =~= other.group_public.element.encoding());
            assert(v.subrange(37, 45) =~= count_bytes(m));
            assert(spec_u64_from_le_bytes(count_bytes(m)) == spec_u64_from_le_bytes(
                count_bytes(n),
            ));
            assert(m == n);
            assert(w.subrange(45, w.len() as int) =~= records(n, record));
            assert(v.subrange(45, v.len() as int) =~= records(m, public_key_record(others)));
            lemma_public_key_records_injective(entries, others);
            Element::lemma_encoding_injective(
                self.group_public.element,
                other.group_public.element,
            );
        }
    }
}

/// No identifier opens two of the `n` records of 64 bytes from `start` on.
pub open spec fn distinct_records(bytes: Seq<u8>, start: int, n: nat) -> bool {
    forall|i: int, j: int|
        0 <= i < j < n ==> le_nat(#[trigger] bytes.subrange(start + 64 * i, start + 64 * i + 32))
            != le_nat(#[trigger] bytes.subrange(start + 64 * j, start + 64 * j + 32))
}

/// The identifier of each valid entry opens its record, so the entries
/// name each participant once exactly if the records do.
proof fn lemma_public_key_identifiers(w: Seq<u8>, entries: Seq<(Identifier, Public)>)
    requires
        valid_public_keys(entries),
        45 + 64 * entries.len() <= w.len(),
        forall|j: int|
            0 <= j < entries.len() ==> (#[trigger] public_key_record(entries)(j)) == w.subrange(
                45 + 64 * j,
                45 + 64 * j + 64,
            ),
    ensures
        distinct(entry_values(entries)) == distinct_records(w, 45, entries.len()),
{
    let values = entry_values(entries);
    assert forall|j: int| 0 <= j < entries.len() implies le_nat(
        #[trigger] w.subrange(45 + 64 * j, 45 + 64 * j + 32),
    ) == values[j] by {
        let entry = public_key_record(entries)(j);
        assert(entries[j].0.nonzero() && entries[j].1.element.valid());
        assert(entry.subrange(0, 32) =~= entries[j].0.encoding());
        assert(w.subrange(45 + 64 * j, 45 + 64 * j + 64).subrange(0, 32) =~= w.subrange(
            45 + 64 * j,
            45 + 64 * j + 32,
        ));
    }
    if distinct(values) {
        assert forall|i: int, j: int| 0 <= i < j < entries.len() implies le_nat(
            #[trigger] w.subrange(45 + 64 * i, 45 + 64 * i + 32),
        ) != le_nat(#[trigger] w.subrange(45 + 64 * j, 45 + 64 * j + 32)) by {
            assert(values[i] != values[j]);
        }
    }
    if distinct_records(w, 45, entries.len()) {
        assert forall|i: int, j: int| 0 <= i < j < values.len() implies values[i] != values[j] by {
            assert(le_nat(w.subrange(45 + 64 * i, 45 + 64 * i + 32)) != le_nat(
                w.subrange(45 + 64 * j, 45 + 64 * j + 32),
            ));
        }
    }
}

/// Nothing is wrong with the records of valid participants and public
/// keys.
proof fn lemma_no_public_key_error(w: Seq<u8>, entries: Seq<(Identifier, Public)>, k: nat)
    requires
        valid_public_keys(entries),
        k <= entries.len(),
        w.len() == 45 + 64 * entries.len(),
        w.subrange(45, w.len() as int) == records(entries.len(), public_key_record(entries)),
    ensures
        records_error(w, 45, 64, k, public_key_check()) is None,
    decreases k,
{
    if k > 0 {
        lemma_no_public_key_error(w, entries, (k - 1) as nat);
        let record = public_key_record(entries);
        assert forall|j: int| 0 <= j < entries.len() implies (#[trigger] record(j)).len() == 64 by {
            assert(entries[j].0.nonzero() && entries[j].1.element.valid());
        }
        lemma_records(entries.len(), 64, record);
        let j = k - 1;
        let entry = w.subrange(45 + 64 * j, 45 + 64 * j + 64);
        assert(entry =~= w.subrange(45, w.len() as int).subrange(j * 64, j * 64 + 64));
        assert(entry == record(j));
        assert(entries[j].0.nonzero() && entries[j].1.element.valid());
        assert(entry.subrange(0, 32) =~= entries[j].0.encoding());
        assert(entry.subrange(32, 64) =~= entries[j].1.element.encoding());
    }
}

/// What is wrong with 96 bytes as the commitments of a signer.
pub open spec fn commitment_entry_error(entry: Seq<u8>) -> Option<Error> {
    first_error(
        identifier_field_error(entry.subrange(0, 32)),
        first_error(
            commitment_field_error(entry.subrange(32, 64)),
            commitment_field_error(entry.subrange(64, 96)),
        ),
    )
}

/// The check of the commitments of one signer.
pub open spec fn commitment_check() -> spec_fn(Seq<u8>) -> Option<Error> {
    |entry: Seq<u8>| commitment_entry_error(entry)
}

/// The commitments of the signers, as records.
pub open(crate) spec fn commitment_record(commitments: Seq<SigningCommitments>) -> spec_fn(
    int,
) -> Seq<u8> {
    |k: int|
        commitments[k].identifier.encoding() + commitments[k].hiding.encoding()
            + commitments[k].binding.encoding()
}

/// The commitments are valid values.
pub open(crate) spec fn valid_commitments(commitments: Seq<SigningCommitments>) -> bool {
    forall|k: int|
        0 <= k < commitments.len() ==> {
            let c = #[trigger] commitments[k];
            &&& c.identifier.nonzero()
            &&& c.hiding.valid()
            &&& c.binding.valid()
            &&& c.no_identity()
        }
}

/// The identifiers that open the records of 96 bytes from `start` on rise
/// from each record to the next.
pub open spec fn ascending_records(bytes: Seq<u8>, start: int, n: nat) -> bool {
    forall|i: int, j: int|
        0 <= i < j < n ==> le_nat(#[trigger] bytes.subrange(start + 96 * i, start + 96 * i + 32))
            < le_nat(#[trigger] bytes.subrange(start + 96 * j, start + 96 * j + 32))
}

/// The wire form of an optional tweak: a zero byte for none, else a one,
/// the length and the bytes.
pub open spec fn tweak_wire(tweak: Option<Seq<u8>>) -> Seq<u8> {
    match tweak {
        None => seq![0u8],
        Some(t) => seq![1u8] + count_bytes(t.len()) + t,
    }
}

/// What is wrong with `t`, which is not empty, as the wire form of an
/// optional tweak.
pub open spec fn tweak_error(t: Seq<u8>) -> Option<Error> {
    if t[0] == 0 {
        if t.len() == 1 {
            None
        } else {
            Some(Error::DeserializationError)
        }
    } else if t[0] == 1 {
        if t.len() < 9 {
            Some(Error::DeserializationError)
        } else if t.len() == 9 + spec_u64_from_le_bytes(t.subrange(1, 9)) {
            None
        } else {
            Some(Error::DeserializationError)
        }
    } else {
        Some(Error::DeserializationError)
    }
}

/// What is wrong with `tail` as the length of a message, the message and
/// an optional tweak.
pub open spec fn tail_error(tail: Seq<u8>) -> Option<Error> {
    if tail.len() < 8 {
        Some(Error::DeserializationError)
    } else {
        let length = spec_u64_from_le_bytes(tail.subrange(0, 8));
        if tail.len() < 8 + length + 1 {
            Some(Error::DeserializationError)
        } else {
            tweak_error(tail.subrange(8 + length, tail.len() as int))
        }
    }
}

/// Reads `count` signers' commitments from byte 13 on.
#[verifier::rlimit(50)]
#[verifier::loop_isolation(false)]
fn read_commitments(bytes: &[u8], count: usize) -> (r: Result<Vec<SigningCommitments>, Error>)
    requires
        13 + 96 * count <= bytes@.len(),
    ensures
        match r {
            Ok(commitments) => {
                &&& records_error(bytes@, 13, 96, count as nat, commitment_check()) is None
                &&& commitments@.len() == count
                &&& valid_commitments(commitments@)
                &&& forall|j: int|
                    0 <= j < count ==> (#[trigger] commitment_record(commitments@)(j))
                        == bytes@.subrange(13 + 96 * j, 13 + 96 * j + 96)
            },
            Err(e) => records_error(bytes@, 13, 96, count as nat, commitment_check()) == Some(e),
        },
{
    let n = bytes.len();
    let ghost check = commitment_check();
    let mut commitments: Vec<SigningCommitments> = Vec::new();
    let mut k: usize = 0;
    while k < count
        invariant
            k <= count,
            commitments@.len() == k,
            records_error(bytes@, 13, 96, k as nat, check) is None,
            valid_commitments(commitments@),
            forall|j: int|
                0 <= j < k ==> (#[trigger] commitment_record(commitments@)(j)) == bytes@.subrange(
                    13 + 96 * j,
                    13 + 96 * j + 96,
                ),
        decreases count - k,
    {
        let offset = 13 + 96 * k;
        let ghost entry = bytes@.subrange(offset as int, offset + 96);
        proof {
            assert(entry.subrange(0, 32) =~= bytes@.subrange(offset as int, offset + 32));
            assert(entry.subrange(32, 64) =~= bytes@.subrange(offset + 32, offset + 64));
            assert(entry.subrange(64, 96) =~= bytes@.subrange(offset + 64, offset + 96));
        }
        let identifier = match read_identifier(bytes, offset) {
            Ok(identifier) => identifier,
            Err(e) => {
                proof {
                    assert(records_error(bytes@, 13, 96, (k + 1) as nat, check) == Some(e));
                    lemma_records_error_persists(bytes@, 13, 96, (k + 1) as nat, count as nat, check);
                }
                return Err(e);
            },
        };
        let hiding = match read_commitment(bytes, offset + 32) {
            Ok(hiding) => hiding,
            Err(e) => {
                proof {
                    assert(records_error(bytes@, 13, 96, (k + 1) as nat, check) == Some(e));
                    lemma_records_error_persists(bytes@, 13, 96, (k + 1) as nat, count as nat, check);
                }
                return Err(e);
            },
        };
        let binding = match read_commitment(bytes, offset + 64) {
            Ok(binding) => binding,
            Err(e) => {
                proof {
                    assert(records_error(bytes@, 13, 96, (k + 1) as nat, check) == Some(e));
                    lemma_records_error_persists(bytes@, 13, 96, (k + 1) as nat, count as nat, check);
                }
                return Err(e);
            },
        };
        let ghost before = commitments@;
        let c = SigningCommitments { identifier, hiding, binding };
        commitments.push(c);
        proof {
            use_type_invariant(identifier);
            use_type_invariant(hiding);
            use_type_invariant(binding);
            assert(records_error(bytes@, 13, 96, (k + 1) as nat, check) is None);
            assert forall|j: int| 0 <= j < k + 1 implies (#[trigger] commitment_record(
                commitments@,
            )(j)) == bytes@.subrange(13 + 96 * j, 13 + 96 * j + 96) by {
                if j < k {
                    assert(commitment_record(before)(j) == bytes@.subrange(
                        13 + 96 * j,
                        13 + 96 * j + 96,
                    ));
                    assert(commitments@[j] == before[j]);
                } else {
                    assert(commitment_record(commitments@)(j) =~= entry);
                }
            }
            assert forall|j: int| 0 <= j < commitments@.len() implies {
                let c = #[trigger] commitments@[j];
                &&& c.identifier.nonzero()
                &&& c.hiding.valid()
                &&& c.binding.valid()
                &&& c.no_identity()
            } by {
                if j < k {
                    assert(commitments@[j] == before[j]);
                }
            }
        }
        k = k + 1;
    }
    Ok(commitments)
}

/// Whether the identifiers rise from each commitment to the next.
fn is_ascending(commitments: &Vec<SigningCommitments>) -> (r: bool)
    ensures
        r == ascending(commitments@),
{
    if commitments.len() < 2 {
        return true;
    }
    let mut k: usize = 1;
    while k < commitments.len()
        invariant
            1 <= k <= commitments.len(),
            forall|i: int, j: int|
                0 <= i < j < k ==> commitments@[i].holder().value() < commitments@[j].holder().value(),
        decreases commitments.len() - k,
    {
        if !commitments[k - 1].identifier.less_than(&commitments[k].identifier) {
            assert(!(commitments@[k - 1].holder().value() < commitments@[k as int].holder().value()));
            return false;
        }
        proof {
            assert forall|i: int, j: int| 0 <= i < j < k + 1 implies commitments@[i].holder().value()
                < commitments@[j].holder().value() by {
                if j == k && i < k - 1 {
                    assert(commitments@[i].holder().value() < commitments@[k - 1].holder().value());
                }
            }
        }
        k = k + 1;
    }
    true
}

/// Reads the length of the message, the message and the optional tweak,
/// which are all that follows from `start` on.
#[verifier::rlimit(50)]
fn read_tail(bytes: &[u8], start: usize) -> (r: Result<(Vec<u8>, Option<Vec<u8>>), Error>)
    requires
        start <= bytes@.len(),
    ensures
        match r {
            Ok(parts) => {
                &&& tail_error(bytes@.subrange(start as int, bytes@.len() as int)) is None
                &&& bytes@.subrange(start as int, bytes@.len() as int) == count_bytes(
                    parts.0@.len(),
                ) + parts.0@ + tweak_wire(
                    match parts.1 {
                        Some(t) => Some(t@),
                        None => None,
                    },
                )
            },
            Err(e) => tail_error(bytes@.subrange(start as int, bytes@.len() as int)) == Some(e),
        },
{
    let n = bytes.len();
    let ghost tail = bytes@.subrange(start as int, n as int);
    if n - start < 8 {
        return Err(Error::DeserializationError);
    }
    let length = read_u64(bytes, start);
    assert(tail.subrange(0, 8) =~= bytes@.subrange(start as int, start + 8));
    let available = n - start - 8;
    if length >= available as u64 {
        return Err(Error::DeserializationError);
    }
    let length = length as usize;
    let end = start + 8 + length;
    let message = slice_to_vec(slice_subrange(bytes, start + 8, end));
    let ghost t = tail.subrange(8 + length, tail.len() as int);
    proof {
        assert(t =~= bytes@.subrange(end as int, n as int));
        assert(t[0] == bytes@[end as int]);
    }
    let flag = bytes[end];
    if flag == 0 {
        if n != end + 1 {
            return Err(Error::DeserializationError);
        }
        proof {
            assert(t =~= seq![0u8]);
            assert(tail =~= count_bytes(message@.len()) + message@ + seq![0u8]);
        }
        Ok((message, None))
    } else if flag == 1 {
        if n - end < 9 {
            return Err(Error::DeserializationError);
        }
        let tweak_length = read_u64(bytes, end + 1);
        assert(t.subrange(1, 9) =~= bytes@.subrange(end + 1, end + 9));
        if tweak_length != (n - end - 9) as u64 {
            return Err(Error::DeserializationError);
        }
        let tweak = slice_to_vec(slice_subrange(bytes, end + 9, n));
        proof {
            assert(t =~= seq![1u8] + count_bytes(tweak@.len()) + tweak@);
            assert(tail =~= count_bytes(message@.len()) + message@ + t);
        }
        Ok((message, Some(tweak)))
    } else {
        Err(Error::DeserializationError)
    }
}

/// Nothing is wrong with the records of valid commitments.
proof fn lemma_no_commitment_error(w: Seq<u8>, commitments: Seq<SigningCommitments>, k: nat)
    requires
        valid_commitments(commitments),
        k <= commitments.len(),
        13 + 96 * commitments.len() <= w.len(),
        w.subrange(13, 13 + 96 * (commitments.len() as int)) == records(
            commitments.len(),
            commitment_record(commitments),
        ),
    ensures
        records_error(w, 13, 96, k, commitment_check()) is None,
    decreases k,
{
    if k > 0 {
        lemma_no_commitment_error(w, commitments, (k - 1) as nat);
        let record = commitment_record(commitments);
        assert forall|j: int| 0 <= j < commitments.len() implies (#[trigger] record(j)).len()
            == 96 by {
            assert(commitments[j].identifier.nonzero());
        }
        lemma_records(commitments.len(), 96, record);
        let j = k - 1;
        let entry = w.subrange(13 + 96 * j, 13 + 96 * j + 96);
        let middle = w.subrange(13, 13 + 96 * (commitments.len() as int));
        assert(entry =~= middle.subrange(j * 96, j * 96 + 96));
        assert(entry == record(j));
        assert(commitments[j].identifier.nonzero());
        assert(entry.subrange(0, 32) =~= commitments[j].identifier.encoding());
        assert(entry.subrange(32, 64) =~= commitments[j].hiding.encoding());
        assert(entry.subrange(64, 96) =~= commitments[j].binding.encoding());
    }
}

/// The identifier of each valid commitment opens its record.
proof fn lemma_record_identifiers(w: Seq<u8>, commitments: Seq<SigningCommitments>)
    requires
        valid_commitments(commitments),
        13 + 96 * commitments.len() <= w.len(),
        forall|j: int|
            0 <= j < commitments.len() ==> (#[trigger] commitment_record(commitments)(j))
                == w.subrange(13 + 96 * j, 13 + 96 * j + 96),
    ensures
        forall|j: int|
            0 <= j < commitments.len() ==> le_nat(
                #[trigger] w.subrange(13 + 96 * j, 13 + 96 * j + 32),
            ) == commitments[j].holder().value(),
        ascending(commitments) == ascending_records(w, 13, commitments.len()),
{
    assert forall|j: int| 0 <= j < commitments.len() implies le_nat(
        #[trigger] w.subrange(13 + 96 * j, 13 + 96 * j + 32),
    ) == commitments[j].holder().value() by {
        let entry = commitment_record(commitments)(j);
        assert(commitments[j].identifier.nonzero());
        assert(entry.subrange(0, 32) =~= commitments[j].identifier.encoding());
        assert(w.subrange(13 + 96 * j, 13 + 96 * j + 96).subrange(0, 32) =~= w.subrange(
            13 + 96 * j,
            13 + 96 * j + 32,
        ));
    }
    if ascending(commitments) {
        assert(ascending_records(w, 13, commitments.len()));
    }
    if ascending_records(w, 13, commitments.len()) {
        assert forall|i: int, j: int| 0 <= i < j < commitments.len() implies commitments[i].holder().value()
            < commitments[j].holder().value() by {
            assert(le_nat(w.subrange(13 + 96 * i, 13 + 96 * i + 32)) < le_nat(
                w.subrange(13 + 96 * j, 13 + 96 * j + 32),
            ));
        }
    }
}

/// Commitments whose encodings, one after the other, are the same bytes
/// are the same.
proof fn lemma_commitment_records_injective(
    a: Seq<SigningCommitments>,
    b: Seq<SigningCommitments>,
)
    requires
        a.len() == b.len(),
        records(a.len(), commitment_record(a)) == records(b.len(), commitment_record(b)),
        valid_commitments(a),
        valid_commitments(b),
    ensures
        a == b,
{
    let (ra, rb) = (commitment_record(a), commitment_record(b));
    assert forall|k: int| 0 <= k < a.len() implies (#[trigger] ra(k)).len() == 96 by {
        assert(a[k].identifier.nonzero());
    }
    assert forall|k: int| 0 <= k < b.len() implies (#[trigger] rb(k)).len() == 96 by {
        assert(b[k].identifier.nonzero());
    }
    lemma_records(a.len(), 96, ra);
    lemma_records(b.len(), 96, rb);
    assert forall|k: int| 0 <= k < a.len() implies a[k] == b[k] by {
        assert(ra(k) == rb(k));
        assert(a[k].identifier.nonzero());
        assert(b[k].identifier.nonzero());
        assert(ra(k).subrange(0, 32) =~= a[k].identifier.encoding());
        assert(rb(k).subrange(0, 32) =~= b[k].identifier.encoding());
        assert(ra(k).subrange(32, 64) =~= a[k].hiding.encoding());
        assert(rb(k).subrange(32, 64) =~= b[k].hiding.encoding());
        assert(ra(k).subrange(64, 96) =~= a[k].binding.encoding());
        assert(rb(k).subrange(64, 96) =~= b[k].binding.encoding());
        Scalar::lemma_encoding_injective(a[k].identifier.scalar, b[k].identifier.scalar);
        Element::lemma_encoding_injective(a[k].hiding, b[k].hiding);
        Element::lemma_encoding_injective(a[k].binding, b[k].binding);
    }
    assert(a =~= b);
}

impl SigningPackage {
    /// The wire form: the header, the number of signers, each signer's
    /// identifier and commitments in the order of the identifiers, the
    /// length of the message, the message, and the optional tweak.
    pub open(crate) spec fn wire(self) -> Seq<u8> {
        header() + count_bytes(self.commitments@.len()) + records(
            self.commitments@.len(),
            commitment_record(self.commitments@),
        ) + (count_bytes(self.message@.len()) + self.message@ + tweak_wire(self.tweak()))
    }

    /// What is wrong with `bytes` as the wire form of a signing package.
    pub open spec fn wire_error(bytes: Seq<u8>) -> Option<Error> {
        if header_error(bytes) is Some {
            header_error(bytes)
        } else if bytes.len() < 13 {
            Some(Error::DeserializationError)
        } else {
            let count = spec_u64_from_le_bytes(bytes.subrange(5, 13));
            if bytes.len() < 13 + 96 * count {
                Some(Error::DeserializationError)
            } else if records_error(bytes, 13, 96, count as nat, commitment_check()) is Some {
                records_error(bytes, 13, 96, count as nat, commitment_check())
            } else if !ascending_records(bytes, 13, count as nat) {
                Some(Error::DeserializationError)
            } else {
                tail_error(bytes.subrange(13 + 96 * count, bytes.len() as int))
            }
        }
    }

    /// The wire form.
    pub fn serialize(&self) -> (r: Vec<u8>)
        ensures
            r@ == self.wire(),
    {
        let mut out: Vec<u8> = Vec::new();
        write_header(&mut out);
        write_count(&mut out, self.commitments.len());
        let ghost before = out@;
        let ghost record = commitment_record(self.commitments@);
        let mut k: usize = 0;
        assert(out@ =~= before + records(0, record));
        while k < self.commitments.len()
            invariant
                k <= self.commitments.len(),
                record == commitment_record(self.commitments@),
                out@ == before + records(k as nat, record),
            decreases self.commitments.len() - k,
        {
            let c = self.commitments[k];
            let identifier = c.identifier.serialize();
            let hiding = c.hiding.serialize();
            let binding = c.binding.serialize();
            out.extend_from_slice(identifier.as_slice());
            out.extend_from_slice(hiding.as_slice());
            out.extend_from_slice(binding.as_slice());
            assert(out@ =~= before + records((k + 1) as nat, record));
            k = k + 1;
        }
        write_count(&mut out, self.message.len());
        out.extend_from_slice(self.message.as_slice());
        match &self.additional_tweak {
            None => {
                out.push(0);
                assert(out@ =~= self.wire());
            },
            Some(t) => {
                out.push(1);
                write_count(&mut out, t.len());
                out.extend_from_slice(t.as_slice());
                assert(out@ =~= self.wire());
            },
        }
        out
    }

    /// The package of this wire form, or what is wrong with the bytes.
    #[verifier::rlimit(50)]
    pub fn deserialize(bytes: &[u8]) -> (r: Result<SigningPackage, Error>)
        ensures
            match r {
                Ok(p) => SigningPackage::wire_error(bytes@) is None && p.wire() == bytes@,
                Err(e) => SigningPackage::wire_error(bytes@) == Some(e),
            },
    {
        match check_header(bytes) {
            Ok(()) => {},
            Err(e) => {
                return Err(e);
            },
        }
        let n = bytes.len();
        if n < 13 {
            return Err(Error::DeserializationError);
        }
        let count = read_u64(bytes, 5);
        if count > ((n - 13) / 96) as u64 {
            return Err(Error::DeserializationError);
        }
        let count = count as usize;
        let end = 13 + 96 * count;
        let commitments = match read_commitments(bytes, count) {
            Ok(commitments) => commitments,
            Err(e) => {
                return Err(e);
            },
        };
        proof {
            lemma_record_identifiers(bytes@, commitments@);
        }
        if !is_ascending(&commitments) {
            return Err(Error::DeserializationError);
        }
        let (message, additional_tweak) = match read_tail(bytes, end) {
            Ok(parts) => parts,
            Err(e) => {
                return Err(e);
            },
        };
        let package = SigningPackage { commitments, message, additional_tweak };
        proof {
            let middle = bytes@.subrange(13, end as int);
            let record = commitment_record(package.commitments@);
            assert forall|j: int| 0 <= j < count implies middle.subrange(j * 96, j * 96 + 96)
                == #[trigger] record(j) by {
                assert(middle.subrange(j * 96, j * 96 + 96) =~= bytes@.subrange(
                    13 + 96 * j,
                    13 + 96 * j + 96,
                ));
            }
            lemma_records_unique(count as nat, 96, record, middle);
            lemma_parts(bytes@, 5, 13);
            lemma_parts(bytes@.subrange(13, n as int), 0, 96 * count);
            assert(bytes@.subrange(13, n as int).subrange(0, 96 * count) =~= middle);
            assert(bytes@.subrange(13, n as int).subrange(96 * count, n - 13) =~= bytes@.subrange(
                end as int,
                n as int,
            ));
            assert(package.wire() =~= bytes@);
        }
        Ok(package)
    }

    /// Writing and reading gives the value back.
    pub proof fn lemma_wire_round_trip(self, other: SigningPackage)
        requires
            ascending(self.signers()),
            valid_commitments(self.signers()),
            valid_commitments(other.signers()),
            self.signers().len() <= u64::MAX,
            other.signers().len() <= u64::MAX,
            self.message_bytes().len() <= u64::MAX,
            other.message_bytes().len() <= u64::MAX,
            self.tweak_bytes().len() <= u64::MAX,
            other.tweak_bytes().len() <= u64::MAX,
        ensures
            SigningPackage::wire_error(self.wire()) is None,
            other.wire() == self.wire() ==> {
                &&& other.signers() == self.signers()
                &&& other.message_bytes() == self.message_bytes()
                &&& other.tweak() == self.tweak()
            },
    {
        lemma_auto_spec_u64_to_from_le_bytes();
        let w = self.wire();
        let cs = self.commitments@;
        let n = cs.len();
        let record = commitment_record(cs);
        assert forall|k: int| 0 <= k < n implies (#[trigger] record(k)).len() == 96 by {
            assert(cs[k].identifier.nonzero());
        }
        lemma_records(n, 96, record);
        let tail = count_bytes(self.message@.len()) + self.message@ + tweak_wire(self.tweak());
        let end = 13 + 96 * n;
        assert(w.subrange(0, 5) =~= header());
        assert(w.subrange(5, 13) =~= count_bytes(n));
        assert(w.subrange(13, end as int) =~= records(n, record));
        assert(w.subrange(end as int, w.len() as int) =~= tail);
        lemma_no_commitment_error(w, cs, n);
        assert forall|j: int| 0 <= j < n implies (#[trigger] record(j)) == w.subrange(
            13 + 96 * j,
            13 + 96 * j + 96,
        ) by {
            assert(w.subrange(13 + 96 * j, 13 + 96 * j + 96) =~= records(n, record).subrange(
                j * 96,
                j * 96 + 96,
            ));
        }
        lemma_record_identifiers(w, cs);
        lemma_tail(self.message@, self.tweak());
        if other.wire() == w {
            let v = other.wire();
            let os = other.commitments@;
            let m = os.len();
            let other_tail = count_bytes(other.message@.len()) + other.message@ + tweak_wire(
                other.tweak(),
            );
            assert(v.subrange(5, 13) =~= count_bytes(m));
            assert(spec_u64_from_le_bytes(count_bytes(m)) == spec_u64_from_le_bytes(
                count_bytes(n),
            ));
            assert(m == n);
            let other_record = commitment_record(os);
            assert forall|k: int| 0 <= k < m implies (#[trigger] other_record(k)).len() == 96 by {
                assert(os[k].identifier.nonzero());
            }
            lemma_records(m, 96, other_record);
            assert(v.subrange(13, end as int) =~= records(m, other_record));
            assert(v.subrange(end as int, v.len() as int) =~= other_tail);
            lemma_commitment_records_injective(cs, os);
            lemma_tail(other.message@, other.tweak());
            lemma_tail_injective(self.message@, self.tweak(), other.message@, other.tweak());
        }
    }
}

/// Nothing is wrong with the wire form of a message and an optional tweak.
proof fn lemma_tail(message: Seq<u8>, tweak: Option<Seq<u8>>)
    requires
        message.len() <= u64::MAX,
        tweak matches Some(t) ==> t.len() <= u64::MAX,
    ensures
        tail_error(count_bytes(message.len()) + message + tweak_wire(tweak)) is None,
{
    lemma_auto_spec_u64_to_from_le_bytes();
    let tail = count_bytes(message.len()) + message + tweak_wire(tweak);
    let w = tweak_wire(tweak);
    assert(tail.subrange(0, 8) =~= count_bytes(message.len()));
    assert(tail.subrange(8 + (message.len() as int), tail.len() as int) =~= w);
    match tweak {
        None => {},
        Some(t) => {
            assert(w.subrange(1, 9) =~= count_bytes(t.len()));
        },
    }
}

/// A message and an optional tweak with the wire form of another are the
/// same as the other.
proof fn lemma_tail_injective(
    message: Seq<u8>,
    tweak: Option<Seq<u8>>,
    other_message: Seq<u8>,
    other_tweak: Option<Seq<u8>>,
)
    requires
        message.len() <= u64::MAX,
        other_message.len() <= u64::MAX,
        tweak matches Some(t) ==> t.len() <= u64::MAX,
        other_tweak matches Some(t) ==> t.len() <= u64::MAX,
        count_bytes(message.len()) + message + tweak_wire(tweak) == count_bytes(
            other_message.len(),
        ) + other_message + tweak_wire(other_tweak),
    ensures
        message == other_message,
        tweak == other_tweak,
{
    lemma_auto_spec_u64_to_from_le_bytes();
    let a = count_bytes(message.len()) + message + tweak_wire(tweak);
    let b = count_bytes(other_message.len()) + other_message + tweak_wire(other_tweak);
    assert(a.subrange(0, 8) =~= count_bytes(message.len()));
    assert(b.subrange(0, 8) =~= count_bytes(other_message.len()));
    assert(spec_u64_from_le_bytes(count_bytes(message.len())) == spec_u64_from_le_bytes(
        count_bytes(other_message.len()),
    ));
    assert(message.len() == other_message.len());
    assert(a.subrange(8, 8 + (message.len() as int)) =~= message);
    assert(b.subrange(8, 8 + (message.len() as int)) =~= other_message);
    let (ta, tb) = (tweak_wire(tweak), tweak_wire(other_tweak));
    assert(a.subrange(8 + (message.len() as int), a.len() as int) =~= ta);
    assert(b.subrange(8 + (message.len() as int), b.len() as int) =~= tb);
    assert(ta[0] == tb[0]);
    match (tweak, other_tweak) {
        (Some(t), Some(u)) => {
            assert(ta.subrange(1, 9) =~= count_bytes(t.len()));
            assert(tb.subrange(1, 9) =~= count_bytes(u.len()));
            assert(spec_u64_from_le_bytes(count_bytes(t.len())) == spec_u64_from_le_bytes(
                count_bytes(u.len()),
            ));
            assert(ta.subrange(9, ta.len() as int) =~= t);
            assert(tb.subrange(9, tb.len() as int) =~= u);
        },
        _ => {},
    }
}

} // verus!
