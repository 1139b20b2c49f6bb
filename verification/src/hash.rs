//! The hash functions of the ciphersuite, each SHA-512 under a tag of its
//! own.

use vstd::prelude::*;
use crate::bytes::le_nat;
use crate::field::group_order;
use crate::scalar::Scalar;
use sha2::Digest;

verus! {

/// The SHA-512 digest of `data`.
pub uninterp spec fn sha512(data: Seq<u8>) -> Seq<u8>;

/// `sha2`'s `Sha512::digest`: the digest of the data, 64 bytes.
#[verifier::external_body]
fn sha512_digest(data: &[u8]) -> (r: [u8; 64])
    ensures
        r@ == sha512(data@),
{
    let digest = sha2::Sha512::digest(data);
    let mut out = [0u8; 64];
    out.copy_from_slice(&digest);
    out
}

/// `FROST-RISTRETTO255-SHA512-v1`, the string that opens every hash input.
pub open spec fn context_string() -> Seq<u8> {
    seq![
        70u8, 82, 79, 83, 84, 45, 82, 73, 83, 84, 82, 69, 84, 84, 79, 50, 53, 53, 45, 83, 72, 65,
        53, 49, 50, 45, 118, 49,
    ]
}

/// `rho`
pub open spec fn tag_rho() -> Seq<u8> {
    seq![114u8, 104, 111]
}

/// `chal`
pub open spec fn tag_chal() -> Seq<u8> {
    seq![99u8, 104, 97, 108]
}

/// `nonce`
pub open spec fn tag_nonce() -> Seq<u8> {
    seq![110u8, 111, 110, 99, 101]
}

/// `msg`
pub open spec fn tag_msg() -> Seq<u8> {
    seq![109u8, 115, 103]
}

/// `com`
pub open spec fn tag_com() -> Seq<u8> {
    seq![99u8, 111, 109]
}

/// The digest of the context string, a tag and a message, in this order.
pub open spec fn tagged_digest(tag: Seq<u8>, m: Seq<u8>) -> Seq<u8> {
    sha512(context_string() + tag + m)
}

/// The tagged digest read as a number and reduced modulo the group order.
pub open spec fn tagged_scalar(tag: Seq<u8>, m: Seq<u8>) -> nat {
    le_nat(tagged_digest(tag, m)) % group_order()
}

/// What a hash to a scalar gives is a residue.
pub proof fn lemma_tagged_scalar_bound(tag: Seq<u8>, m: Seq<u8>)
    ensures
        tagged_scalar(tag, m) < group_order(),
{
    vstd::arithmetic::div_mod::lemma_mod_bound(
        le_nat(tagged_digest(tag, m)) as int,
        group_order() as int,
    );
}

/// The residue that binds a signer's nonce to a signing package.
pub open spec fn h1_spec(m: Seq<u8>) -> nat {
    tagged_scalar(tag_rho(), m)
}

/// The residue that is the challenge of a signature.
pub open spec fn h2_spec(m: Seq<u8>) -> nat {
    tagged_scalar(tag_chal(), m)
}

/// The residue that is a nonce.
pub open spec fn h3_spec(m: Seq<u8>) -> nat {
    tagged_scalar(tag_nonce(), m)
}

/// The digest of a message.
pub open spec fn h4_spec(m: Seq<u8>) -> Seq<u8> {
    tagged_digest(tag_msg(), m)
}

/// The digest of an encoded list of commitments.
pub open spec fn h5_spec(m: Seq<u8>) -> Seq<u8> {
    tagged_digest(tag_com(), m)
}

fn context_bytes() -> (r: [u8; 28])
    ensures
        r@ == context_string(),
{
    let r: [u8; 28] = [
        70u8, 82, 79, 83, 84, 45, 82, 73, 83, 84, 82, 69, 84, 84, 79, 50, 53, 53, 45, 83, 72, 65,
        53, 49, 50, 45, 118, 49,
    ];
    assert(r@ =~= context_string());
    r
}

fn digest_tagged(tag: &[u8], m: &[u8]) -> (r: [u8; 64])
    ensures
        r@ == tagged_digest(tag@, m@),
{
    let context = context_bytes();
    let mut input: Vec<u8> = Vec::new();
    input.extend_from_slice(context.as_slice());
    input.extend_from_slice(tag);
    input.extend_from_slice(m);
    assert(input@ =~= context_string() + tag@ + m@);
    sha512_digest(input.as_slice())
}

/// H1: hashes the input of a binding factor to a scalar.
pub fn h1(m: &[u8]) -> (r: Scalar)
    ensures
        r.value() == h1_spec(m@),
{
    let tag: [u8; 3] = [114u8, 104, 111];
    assert(tag@ =~= tag_rho());
    let digest = digest_tagged(tag.as_slice(), m);
    Scalar::from_wide_bytes(&digest)
}

/// H2: hashes the input of a challenge to a scalar.
pub fn h2(m: &[u8]) -> (r: Scalar)
    ensures
        r.value() == h2_spec(m@),
{
    let tag: [u8; 4] = [99u8, 104, 97, 108];
    assert(tag@ =~= tag_chal());
    let digest = digest_tagged(tag.as_slice(), m);
    Scalar::from_wide_bytes(&digest)
}

/// H3: hashes randomness and a secret to a nonce.
pub fn h3(m: &[u8]) -> (r: Scalar)
    ensures
        r.value() == h3_spec(m@),
{
    let tag: [u8; 5] = [110u8, 111, 110, 99, 101];
    assert(tag@ =~= tag_nonce());
    let digest = digest_tagged(tag.as_slice(), m);
    Scalar::from_wide_bytes(&digest)
}

/// H4: the digest of a message.
pub fn h4(m: &[u8]) -> (r: [u8; 64])
    ensures
        r@ == h4_spec(m@),
{
    let tag: [u8; 3] = [109u8, 115, 103];
    assert(tag@ =~= tag_msg());
    digest_tagged(tag.as_slice(), m)
}

/// H5: the digest of an encoded list of commitments.
pub fn h5(m: &[u8]) -> (r: [u8; 64])
    ensures
        r@ == h5_spec(m@),
{
    let tag: [u8; 3] = [99u8, 111, 109];
    assert(tag@ =~= tag_com());
    digest_tagged(tag.as_slice(), m)
}

} // verus!
