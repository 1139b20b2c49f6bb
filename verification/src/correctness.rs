//! What holds of the scheme as a whole.

use vstd::prelude::*;
use crate::binding::{binding_factor, commitment_share_log, nonce_sum};
use crate::element::{lemma_log_of, Element};
use crate::field::{fadd, fmul, group_order, lemma_lift_mul, lemma_lift_self, lemma_residues};
use crate::hash::{lemma_tagged_scalar_bound, tag_chal, tag_rho};
use crate::identifier::Identifier;
use crate::interpolation::{
    all_residues, interpolable, interpolation_terms, invertible, lemma_interpolation,
    lemma_terms_are_residues, lemma_tsum_add, lemma_tsum_bound, lemma_tsum_perturb,
    lemma_tsum_scale, tsum, values_at,
};
use crate::keys::{KeyPackage, PublicKeyPackage, SecretShare, VerifyingKey};
use crate::lagrange::{
    divisors_have_inverses, lagrange_coefficient, lemma_lagrange_coefficient_bound,
    signer_values,
};
use crate::polynomial::{lemma_poly_eval_bound, poly_eval};
use crate::round1::{SigningCommitments, SigningNonces};
use crate::round2::{
    expected_share_value, package_binding_factors, package_challenge, package_commitment_log,
    sign_outcome, signature_share_value, SignatureShare,
};
use crate::signature::{
    is_aggregate, public_log_of, rejected, share_sum, share_value_of, signature_valid,
    Signature,
};
use crate::signing_package::{
    ascending, lemma_lookup_commitment, lemma_order_is_unique, lookup_commitment, same_members,
    SigningPackage,
};

verus! {

/// The order in which the coordinator was given the commitments leaves no
/// trace: two packages of the same commitments, message and tweak hold the
/// commitments in the same order, and the binding factors, the group
/// commitment and the challenge are the same for both.
pub proof fn lemma_insertion_order_is_immaterial(
    a: SigningPackage,
    b: SigningPackage,
    verifying_key: VerifyingKey,
)
    requires
        ascending(a.signers()),
        ascending(b.signers()),
        same_members(a.signers(), b.signers()),
        a.message_bytes() == b.message_bytes(),
        a.tweak() == b.tweak(),
    ensures
        a.signers() == b.signers(),
        package_binding_factors(a, verifying_key) == package_binding_factors(b, verifying_key),
        package_commitment_log(a, verifying_key) == package_commitment_log(b, verifying_key),
        package_challenge(a, verifying_key) == package_challenge(b, verifying_key),
{
    lemma_order_is_unique(a.signers(), b.signers());
    assert(a.tweak_bytes() == b.tweak_bytes());
    assert(package_binding_factors(a, verifying_key) =~= package_binding_factors(
        b,
        verifying_key,
    ));
}

/// The share that a signer computes is the share that the coordinator
/// expects of it, where the signer's public key is the basepoint
/// multiplied by its share of the secret.
pub proof fn lemma_honest_share_is_accepted(d: nat, e: nat, rho: nat, lambda: nat, s: nat, c: nat)
    requires
        d < group_order(),
        e < group_order(),
        rho < group_order(),
        lambda < group_order(),
        s < group_order(),
        c < group_order(),
    ensures
        signature_share_value(d, e, rho, lambda, s, c) == expected_share_value(
            fadd(d, fmul(e, rho)),
            s,
            lambda,
            c,
        ),
{
    let (li, si, ci) = (lambda as int, s as int, c as int);
    lemma_lift_self(lambda);
    lemma_lift_self(s);
    lemma_lift_self(c);
    lemma_lift_mul(lambda, s, li, si);
    lemma_lift_mul(fmul(lambda, s), c, li * si, ci);
    lemma_lift_mul(s, c, si, ci);
    lemma_lift_mul(fmul(s, c), lambda, si * ci, li);
    assert(li * si * ci == si * ci * li) by (nonlinear_arith);
}

/// A share that differs from what the signer owes is rejected: whatever
/// is added to the owed share, unless it is zero, gives a share that the
/// coordinator does not expect.
pub proof fn lemma_corrupted_share_is_rejected(owed: nat, delta: nat)
    requires
        owed < group_order(),
        0 < delta < group_order(),
    ensures
        fadd(owed, delta) != owed,
{
    let l = group_order() as int;
    if owed + delta < l {
        vstd::arithmetic::div_mod::lemma_small_mod(owed + delta, group_order());
    } else {
        vstd::arithmetic::div_mod::lemma_mod_sub_multiples_vanish((owed + delta) as int, l);
        vstd::arithmetic::div_mod::lemma_small_mod((owed + delta - l) as nat, group_order());
    }
}

/// The shares that the signers at the points `xs` owe, each in turn, where
/// `polynomial` shares the secret, `ds` and `es` are the signers' nonces,
/// `rhos` their binding factors and `c` the challenge.
pub open spec fn share_terms(
    xs: Seq<nat>,
    polynomial: Seq<nat>,
    ds: Seq<nat>,
    es: Seq<nat>,
    rhos: Seq<nat>,
    c: nat,
) -> Seq<nat> {
    Seq::new(
        xs.len(),
        |i: int|
            signature_share_value(
                ds[i],
                es[i],
                rhos[i],
                lagrange_coefficient(xs, xs[i]),
                poly_eval(polynomial, xs[i]),
                c,
            ),
    )
}

/// What each signer adds to the nonce of the signature: its hiding nonce
/// and its binding nonce multiplied by its binding factor.
pub open spec fn nonce_terms(ds: Seq<nat>, es: Seq<nat>, rhos: Seq<nat>) -> Seq<nat> {
    Seq::new(ds.len(), |i: int| fadd(ds[i], fmul(es[i], rhos[i])))
}

/// The shares add up to the response of a single signer who holds the
/// secret: to `k + c * s`, where `k` is the sum of what the signers add to
/// the nonce and `s`, the secret, is the constant term of the polynomial.
/// It holds where the signers are at least as many as the polynomial has
/// coefficients, and the differences of their identifiers have inverses.
pub proof fn lemma_shares_add_up(
    xs: Seq<nat>,
    polynomial: Seq<nat>,
    ds: Seq<nat>,
    es: Seq<nat>,
    rhos: Seq<nat>,
    c: nat,
)
    requires
        interpolable(xs),
        1 <= polynomial.len() <= xs.len(),
        all_residues(polynomial),
        ds.len() == xs.len(),
        es.len() == xs.len(),
        rhos.len() == xs.len(),
        all_residues(ds),
        all_residues(es),
        all_residues(rhos),
        c < group_order(),
    ensures
        tsum(share_terms(xs, polynomial, ds, es, rhos, c)) == fadd(
            tsum(nonce_terms(ds, es, rhos)),
            fmul(c, polynomial[0]),
        ),
{
    let n = xs.len() as int;
    let z = share_terms(xs, polynomial, ds, es, rhos, c);
    let a = nonce_terms(ds, es, rhos);
    let ys = values_at(polynomial, xs);
    let t = interpolation_terms(xs, ys);
    let ct = Seq::new(xs.len(), |i: int| fmul(c, t[i]));
    lemma_terms_are_residues(xs, ys);
    assert forall|i: int| 0 <= i < n implies #[trigger] a[i] < group_order() by {
        lemma_residues(ds[i], fmul(es[i], rhos[i]));
    }
    assert forall|i: int| 0 <= i < n implies #[trigger] ct[i] < group_order() by {
        lemma_residues(c, t[i]);
    }
    assert forall|i: int| 0 <= i < n implies #[trigger] z[i] == fadd(a[i], ct[i]) by {
        let lambda = lagrange_coefficient(xs, xs[i]);
        let s = poly_eval(polynomial, xs[i]);
        lemma_lagrange_coefficient_bound(xs, xs[i]);
        lemma_poly_eval_bound(polynomial, xs[i]);
        let (li, si, ci) = (lambda as int, s as int, c as int);
        lemma_lift_self(lambda);
        lemma_lift_self(s);
        lemma_lift_self(c);
        lemma_lift_mul(lambda, s, li, si);
        lemma_lift_mul(fmul(lambda, s), c, li * si, ci);
        lemma_lift_mul(c, fmul(lambda, s), ci, li * si);
        assert(li * si * ci == ci * (li * si)) by (nonlinear_arith);
    }
    lemma_tsum_add(a, ct, z);
    lemma_tsum_scale(t, c, ct);
    lemma_interpolation(xs, polynomial);
    // the value at zero is the constant term
    assert(polynomial[0] < group_order());
    assert(0 * poly_eval(polynomial.skip(1), 0) == 0);
    vstd::arithmetic::div_mod::lemma_small_mod(0, group_order());
    vstd::arithmetic::div_mod::lemma_small_mod(polynomial[0], group_order());
}

/// The commitments of the package's signers are group elements, in the
/// order of their identifiers, which are not zero.
pub open(crate) spec fn valid_package(package: SigningPackage) -> bool {
    &&& ascending(package.commitments@)
    &&& forall|i: int|
        0 <= i < package.commitments@.len() ==> {
            let c = #[trigger] package.commitments@[i];
            &&& c.hiding.valid()
            &&& c.binding.valid()
            &&& c.identifier.nonzero()
        }
}

/// Every signer of the package has found an inverse of every difference
/// that its Lagrange coefficient divides by, as a signer does who signs.
pub open(crate) spec fn signers_can_interpolate(package: SigningPackage) -> bool {
    forall|i: int|
        0 <= i < package.commitments@.len() ==> divisors_have_inverses(
            signer_values(package.commitments@),
            (#[trigger] package.commitments@[i]).identifier.value(),
        )
}

/// The identifiers of such signers can be interpolated through.
proof fn lemma_signers_are_interpolable(package: SigningPackage)
    requires
        valid_package(package),
        signers_can_interpolate(package),
    ensures
        interpolable(signer_values(package.commitments@)),
{
    let cs = package.commitments@;
    let xs = signer_values(cs);
    assert forall|k: int| 0 <= k < xs.len() implies #[trigger] xs[k] < group_order() by {
        assert(cs[k].identifier.nonzero());
    }
    assert forall|j: int, k: int|
        #![trigger xs[j], xs[k]]
        0 <= j < xs.len() && 0 <= k < xs.len() && j != k implies xs[j] != xs[k] && invertible(
        crate::field::fsub(xs[j], xs[k]),
    ) by {
        if j < k {
            assert(cs[j].identifier.value() < cs[k].identifier.value());
        } else {
            assert(cs[k].identifier.value() < cs[j].identifier.value());
        }
        assert(divisors_have_inverses(xs, cs[k].identifier.value()));
        assert(crate::field::is_inverse(
            crate::field::fsub(xs[j], xs[k]),
            crate::field::finv(crate::field::fsub(xs[j], xs[k])),
        ));
    }
}

/// The share that the `i`-th signer of the package owes, where
/// `polynomial` shares the secret and the signer's nonces are those that
/// the package has the commitments to.
pub open(crate) spec fn honest_share(
    package: SigningPackage,
    verifying_key: VerifyingKey,
    polynomial: Seq<nat>,
    i: int,
) -> nat {
    let c = package.commitments@[i];
    signature_share_value(
        c.hiding.log(),
        c.binding.log(),
        binding_factor(package, verifying_key, package.tweak_bytes(), c.identifier),
        lagrange_coefficient(signer_values(package.commitments@), c.identifier.value()),
        poly_eval(polynomial, c.identifier.value()),
        package_challenge(package, verifying_key),
    )
}

/// What signing gives is the share that the signer owes: where the
/// `i`-th signer of the package signs with its nonces and with the value of
/// the dealer's polynomial at its identifier, and has a share for it, that
/// share is what it owes.
pub proof fn lemma_signing_gives_the_owed_share(
    package: SigningPackage,
    nonces: SigningNonces,
    key_package: KeyPackage,
    polynomial: Seq<nat>,
    i: int,
)
    requires
        valid_package(package),
        nonces.bound(),
        0 <= i < package.signers().len(),
        package.signers()[i].holder().value() == key_package.holder().value(),
        key_package.holder().nonzero(),
        key_package.share().value() == poly_eval(polynomial, key_package.holder().value()),
        sign_outcome(package, nonces, key_package) is Ok,
    ensures
        sign_outcome(package, nonces, key_package) == Ok::<nat, crate::error::Error>(
            honest_share(package, key_package.group_key(), polynomial, i),
        ),
{
    let cs = package.commitments@;
    let id = key_package.identifier.value();
    lemma_lookup_commitment(cs, id);
    let c = lookup_commitment(cs, id)->Some_0;
    let k = choose|k: int| 0 <= k < cs.len() && cs[k] == c;
    if k < i {
        assert(cs[k].identifier.value() < cs[i].identifier.value());
    }
    if i < k {
        assert(cs[i].identifier.value() < cs[k].identifier.value());
    }
    assert(cs[i] == nonces.commitments);
    Identifier::lemma_value_injective(cs[i].identifier, key_package.identifier);
}

/// The sum of the signers' shares of the group commitment, written as a
/// sum of terms.
proof fn lemma_nonce_sum(commitments: Seq<SigningCommitments>, rhos: Seq<nat>)
    requires
        rhos.len() == commitments.len(),
    ensures
        nonce_sum(commitments, rhos) == tsum(
            Seq::new(commitments.len(), |i: int| commitment_share_log(commitments[i], rhos[i])),
        ),
    decreases commitments.len(),
{
    if commitments.len() > 0 {
        let (c0, r0) = (commitments.drop_last(), rhos.drop_last());
        lemma_nonce_sum(c0, r0);
        let t = Seq::new(commitments.len(), |i: int| commitment_share_log(commitments[i], rhos[i]));
        let t0 = Seq::new(c0.len(), |i: int| commitment_share_log(c0[i], r0[i]));
        assert(t.drop_last() =~= t0);
    }
}

/// The sum of the shares of the first `n` signers, written as a sum of
/// terms.
proof fn lemma_share_sum(
    commitments: Seq<SigningCommitments>,
    shares: Seq<(Identifier, SignatureShare)>,
    n: int,
)
    requires
        0 <= n,
    ensures
        share_sum(commitments, shares, n) == tsum(
            Seq::new(n as nat, |i: int| share_value_of(commitments, shares, i)),
        ),
    decreases n,
{
    if n > 0 {
        lemma_share_sum(commitments, shares, n - 1);
        let t = Seq::new(n as nat, |i: int| share_value_of(commitments, shares, i));
        let t0 = Seq::new((n - 1) as nat, |i: int| share_value_of(commitments, shares, i));
        assert(t.drop_last() =~= t0);
    }
}

/// What the package gives for the proof that the shares add up: the
/// points, the nonces, the binding factors and the challenge are residues,
/// and the group commitment is the sum of what the signers add to it.
proof fn lemma_package_terms(package: SigningPackage, verifying_key: VerifyingKey)
    requires
        valid_package(package),
    ensures
        all_residues(signer_values(package.commitments@)),
        all_residues(package_binding_factors(package, verifying_key)),
        all_residues(
            Seq::new(package.commitments@.len(), |i: int| package.commitments@[i].hiding.log()),
        ),
        all_residues(
            Seq::new(package.commitments@.len(), |i: int| package.commitments@[i].binding.log()),
        ),
        package_challenge(package, verifying_key) < group_order(),
        package_commitment_log(package, verifying_key) == tsum(
            nonce_terms(
                Seq::new(package.commitments@.len(), |i: int| package.commitments@[i].hiding.log()),
                Seq::new(package.commitments@.len(), |i: int| package.commitments@[i].binding.log()),
                package_binding_factors(package, verifying_key),
            ),
        ),
{
    let cs = package.commitments@;
    let xs = signer_values(cs);
    let rhos = package_binding_factors(package, verifying_key);
    let ds = Seq::new(cs.len(), |i: int| cs[i].hiding.log());
    let es = Seq::new(cs.len(), |i: int| cs[i].binding.log());
    assert forall|i: int| 0 <= i < xs.len() implies #[trigger] xs[i] < group_order() by {
        assert(cs[i].identifier.nonzero());
    }
    assert forall|i: int| 0 <= i < rhos.len() implies #[trigger] rhos[i] < group_order() by {
        lemma_tagged_scalar_bound(
            tag_rho(),
            crate::binding::binding_factor_prefix(package, verifying_key, package.tweak_bytes())
                + cs[i].identifier.encoding(),
        );
    }
    assert forall|i: int| 0 <= i < ds.len() implies #[trigger] ds[i] < group_order() by {
        assert(cs[i].hiding.valid());
        lemma_log_of(cs[i].hiding.encoding());
    }
    assert forall|i: int| 0 <= i < es.len() implies #[trigger] es[i] < group_order() by {
        assert(cs[i].binding.valid());
        lemma_log_of(cs[i].binding.encoding());
    }
    lemma_tagged_scalar_bound(
        tag_chal(),
        crate::element::ristretto_base_mul(package_commitment_log(package, verifying_key))
            + verifying_key.element.encoding() + package.message@ + package.tweak_bytes(),
    );
    lemma_nonce_sum(cs, rhos);
    assert(Seq::new(cs.len(), |i: int| commitment_share_log(cs[i], rhos[i])) =~= nonce_terms(
        ds,
        es,
        rhos,
    ));
}

/// A signature made by signers who follow the protocol verifies.
///
/// The package holds the signers' commitments; `polynomial` is the
/// dealer's, of which the group's key commits to the constant term and
/// which has no more coefficients than the package has signers: the
/// threshold is met. Every signer's share is what it owes for the nonces
/// that the package has the commitments to and for its share of the secret,
/// and every signer has found the inverses that its Lagrange coefficient
/// takes, as signing does. Then the signature that the shares add up to
/// verifies under the group's key.
pub proof fn lemma_honest_signature_verifies(
    package: SigningPackage,
    pubkeys: PublicKeyPackage,
    shares: Seq<(Identifier, SignatureShare)>,
    polynomial: Seq<nat>,
    signature: Signature,
)
    requires
        valid_package(package),
        signers_can_interpolate(package),
        1 <= polynomial.len() <= package.signers().len(),
        all_residues(polynomial),
        pubkeys.group_key().log() == polynomial[0],
        forall|i: int|
            0 <= i < package.signers().len() ==> #[trigger] share_value_of(
                package.signers(),
                shares,
                i,
            ) == honest_share(package, pubkeys.group_key(), polynomial, i),
        is_aggregate(signature, package, shares, pubkeys),
    ensures
        signature_valid(
            pubkeys.group_key(),
            package.message_bytes(),
            package.tweak_bytes(),
            signature,
        ),
{
    let vk = pubkeys.group_public;
    let cs = package.commitments@;
    let xs = signer_values(cs);
    let rhos = package_binding_factors(package, vk);
    let ds = Seq::new(cs.len(), |i: int| cs[i].hiding.log());
    let es = Seq::new(cs.len(), |i: int| cs[i].binding.log());
    let c = package_challenge(package, vk);
    lemma_signers_are_interpolable(package);
    lemma_package_terms(package, vk);
    lemma_share_sum(cs, shares, cs.len() as int);
    let z = Seq::new(cs.len(), |i: int| share_value_of(cs, shares, i));
    assert(z =~= share_terms(xs, polynomial, ds, es, rhos, c)) by {
        assert forall|i: int| 0 <= i < cs.len() implies z[i] == share_terms(
            xs,
            polynomial,
            ds,
            es,
            rhos,
            c,
        )[i] by {
            assert(share_value_of(cs, shares, i) == honest_share(package, vk, polynomial, i));
        }
    }
    lemma_shares_add_up(xs, polynomial, ds, es, rhos, c);
}

/// A share that is not what its signer owes is caught.
///
/// As for a signature of signers who follow the protocol, but the share of
/// the `j`-th signer is what it owes with `delta`, which is not zero, added
/// to it, and the signer's public key is the basepoint multiplied by its
/// share of the secret. Then the signature that the shares add up to does
/// not verify, and the share of that signer is rejected.
pub proof fn lemma_corrupted_share_is_caught(
    package: SigningPackage,
    pubkeys: PublicKeyPackage,
    shares: Seq<(Identifier, SignatureShare)>,
    polynomial: Seq<nat>,
    signature: Signature,
    j: int,
    delta: nat,
)
    requires
        valid_package(package),
        signers_can_interpolate(package),
        1 <= polynomial.len() <= package.signers().len(),
        all_residues(polynomial),
        pubkeys.group_key().log() == polynomial[0],
        0 <= j < package.signers().len(),
        0 < delta < group_order(),
        forall|i: int|
            0 <= i < package.signers().len() && i != j ==> #[trigger] share_value_of(
                package.signers(),
                shares,
                i,
            ) == honest_share(package, pubkeys.group_key(), polynomial, i),
        share_value_of(package.signers(), shares, j) == fadd(
            honest_share(package, pubkeys.group_key(), polynomial, j),
            delta,
        ),
        public_log_of(package.signers(), pubkeys.entries(), j) == poly_eval(
            polynomial,
            package.signers()[j].holder().value(),
        ),
        is_aggregate(signature, package, shares, pubkeys),
    ensures
        !signature_valid(
            pubkeys.group_key(),
            package.message_bytes(),
            package.tweak_bytes(),
            signature,
        ),
        rejected(package, shares, pubkeys, j),
{
    let vk = pubkeys.group_public;
    let cs = package.commitments@;
    let xs = signer_values(cs);
    let rhos = package_binding_factors(package, vk);
    let ds = Seq::new(cs.len(), |i: int| cs[i].hiding.log());
    let es = Seq::new(cs.len(), |i: int| cs[i].binding.log());
    let c = package_challenge(package, vk);
    lemma_signers_are_interpolable(package);
    lemma_package_terms(package, vk);
    lemma_share_sum(cs, shares, cs.len() as int);
    let z = Seq::new(cs.len(), |i: int| share_value_of(cs, shares, i));
    let owed = share_terms(xs, polynomial, ds, es, rhos, c);
    assert forall|i: int| 0 <= i < cs.len() implies #[trigger] owed[i] < group_order() by {
        lemma_residues(
            fadd(ds[i], fmul(es[i], rhos[i])),
            fmul(fmul(lagrange_coefficient(xs, xs[i]), poly_eval(polynomial, xs[i])), c),
        );
    }
    assert forall|i: int| 0 <= i < cs.len() && i != j implies #[trigger] z[i] == owed[i] by {
        assert(share_value_of(cs, shares, i) == honest_share(package, vk, polynomial, i));
    }
    assert(z[j] == fadd(owed[j], delta));
    lemma_tsum_perturb(owed, z, j, delta);
    lemma_shares_add_up(xs, polynomial, ds, es, rhos, c);
    lemma_tsum_bound(owed);
    lemma_corrupted_share_is_rejected(tsum(owed), delta);
    // the share itself
    assert(xs[j] < group_order());
    assert(rhos[j] < group_order());
    assert(ds[j] < group_order());
    assert(es[j] < group_order());
    lemma_lagrange_coefficient_bound(xs, xs[j]);
    lemma_poly_eval_bound(polynomial, xs[j]);
    lemma_honest_share_is_accepted(
        ds[j],
        es[j],
        rhos[j],
        lagrange_coefficient(xs, xs[j]),
        poly_eval(polynomial, xs[j]),
        c,
    );
    lemma_corrupted_share_is_rejected(owed[j], delta);
}

/// Adding the same to two different residues gives different sums.
proof fn lemma_fadd_injective(a: nat, b: nat, m: nat)
    requires
        a < group_order(),
        b < group_order(),
        m < group_order(),
        a != b,
    ensures
        fadd(a, m) != fadd(b, m),
{
    // (a + m) - m is a, and (b + m) - m is b
    let (ai, bi, mi) = (a as int, b as int, m as int);
    lemma_lift_self(a);
    lemma_lift_self(b);
    lemma_lift_self(m);
    crate::field::lemma_lift_add(a, m, ai, mi);
    crate::field::lemma_lift_add(b, m, bi, mi);
    crate::field::lemma_lift_sub(fadd(a, m), m, ai + mi, mi);
    crate::field::lemma_lift_sub(fadd(b, m), m, bi + mi, mi);
}

/// Multiplying two different residues by what has an inverse gives
/// different products.
proof fn lemma_fmul_injective(x: nat, s: nat, t: nat)
    requires
        invertible(x),
        s < group_order(),
        t < group_order(),
        s != t,
    ensures
        fmul(x, s) != fmul(x, t),
{
    // inv * (x * s) is s, and inv * (x * t) is t
    let inv = crate::field::finv(x);
    crate::field::lemma_fmul_assoc(inv, x, s);
    crate::field::lemma_fmul_assoc(inv, x, t);
    crate::field::lemma_fmul_comm(inv, x);
    assert(1 * s == s && 1 * t == t);
    vstd::arithmetic::div_mod::lemma_small_mod(s, group_order());
    vstd::arithmetic::div_mod::lemma_small_mod(t, group_order());
}

/// Two polynomials that differ in one coefficient differ in their value
/// at every point that has an inverse.
pub proof fn lemma_one_coefficient_changed(c: Seq<nat>, other: Seq<nat>, x: nat, k: int)
    requires
        all_residues(c),
        all_residues(other),
        c.len() == other.len(),
        0 <= k < c.len(),
        forall|j: int| 0 <= j < c.len() && j != k ==> c[j] == other[j],
        c[k] != other[k],
        invertible(x),
    ensures
        poly_eval(c, x) != poly_eval(other, x),
    decreases k,
{
    let (t, u) = (poly_eval(c.skip(1), x), poly_eval(other.skip(1), x));
    lemma_poly_eval_bound(c.skip(1), x);
    lemma_poly_eval_bound(other.skip(1), x);
    lemma_residues(x, t);
    lemma_residues(x, u);
    assert(c[0] < group_order() && other[0] < group_order());
    if k == 0 {
        assert(c.skip(1) =~= other.skip(1));
        lemma_fadd_injective(c[0], other[0], fmul(x, t));
    } else {
        let (cs, os) = (c.skip(1), other.skip(1));
        assert forall|j: int| 0 <= j < cs.len() implies #[trigger] cs[j] < group_order() by {
            assert(c[j + 1] < group_order());
        }
        assert forall|j: int| 0 <= j < os.len() implies #[trigger] os[j] < group_order() by {
            assert(other[j + 1] < group_order());
        }
        assert forall|j: int| 0 <= j < cs.len() && j != k - 1 implies cs[j] == os[j] by {
            assert(c[j + 1] == other[j + 1]);
        }
        lemma_one_coefficient_changed(cs, os, x, k - 1);
        lemma_fmul_injective(x, t, u);
        lemma_fadd_injective(fmul(x, t), fmul(x, u), c[0]);
        assert(fadd(c[0], fmul(x, t)) == fadd(fmul(x, t), c[0]));
        assert(fadd(other[0], fmul(x, u)) == fadd(fmul(x, u), other[0]));
    }
}

/// A share does not pass with a commitment in which one element was
/// changed: where a share is consistent with its commitment, the same
/// share with a commitment that has another element in one place is not.
/// It holds where the participant's identifier has an inverse.
pub proof fn lemma_tampered_commitment_is_noticed(share: SecretShare, tampered: SecretShare, k: int)
    requires
        share.consistent(),
        tampered.holder() == share.holder(),
        tampered.secret() == share.secret(),
        tampered.committed().elements().len() == share.committed().elements().len(),
        0 <= k < share.committed().elements().len(),
        forall|j: int|
            0 <= j < share.committed().elements().len() ==> {
                &&& (#[trigger] share.committed().elements()[j]).valid()
                &&& tampered.committed().elements()[j].valid()
                &&& j != k ==> tampered.committed().elements()[j] == share.committed().elements()[j]
            },
        tampered.committed().elements()[k] != share.committed().elements()[k],
        invertible(share.holder().value()),
    ensures
        !tampered.consistent(),
{
    let (es, ts) = (share.commitment.coefficients@, tampered.commitment.coefficients@);
    let (c, other) = (share.commitment.logs(), tampered.commitment.logs());
    assert forall|j: int| 0 <= j < c.len() implies #[trigger] c[j] < group_order() by {
        assert(es[j].valid());
        lemma_log_of(es[j].encoding());
    }
    assert forall|j: int| 0 <= j < other.len() implies #[trigger] other[j] < group_order() by {
        assert(es[j].valid() && ts[j].valid());
        lemma_log_of(ts[j].encoding());
    }
    assert forall|j: int| 0 <= j < c.len() && j != k implies c[j] == other[j] by {
        assert(es[j].valid());
    }
    assert(es[k].valid() && ts[k].valid());
    if c[k] == other[k] {
        lemma_log_of(es[k].encoding());
        lemma_log_of(ts[k].encoding());
        Element::lemma_encoding_injective(es[k], ts[k]);
    }
    lemma_one_coefficient_changed(c, other, share.identifier.value(), k);
}

} // verus!
