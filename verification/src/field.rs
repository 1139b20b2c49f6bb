//! Arithmetic modulo the order of the Ristretto group, as specification.

use vstd::prelude::*;
use vstd::arithmetic::div_mod::*;
use vstd::arithmetic::mul::*;

verus! {

/// The order of the Ristretto group: 2^252 + 27742317777372353535851937790883648493.
pub open spec fn group_order() -> nat {
    7237005577332262213973186563042994240857116359379907606001950938285454250989nat
}

/// The sum of two residues.
pub open spec fn fadd(a: nat, b: nat) -> nat {
    (a + b) % group_order()
}

/// The difference of two residues.
pub open spec fn fsub(a: nat, b: nat) -> nat {
    ((a as int - b as int) % (group_order() as int)) as nat
}

/// The product of two residues.
pub open spec fn fmul(a: nat, b: nat) -> nat {
    (a * b) % group_order()
}

/// `b` is the residue that multiplies `a` to one.
pub open spec fn is_inverse(a: nat, b: nat) -> bool {
    b < group_order() && fmul(a, b) == 1
}

/// The inverse of `a`, where it has one.
pub open spec fn finv(a: nat) -> nat {
    choose|b: nat| is_inverse(a, b)
}

/// Multiplication of residues is associative.
pub proof fn lemma_fmul_assoc(a: nat, b: nat, c: nat)
    ensures
        fmul(fmul(a, b), c) == fmul(a, fmul(b, c)),
{
    let l = group_order() as int;
    lemma_mul_mod_noop_left(a as int * b as int, c as int, l);
    lemma_mul_mod_noop_right(a as int, b as int * c as int, l);
    lemma_mul_is_associative(a as int, b as int, c as int);
}

/// Multiplication of residues is commutative.
pub proof fn lemma_fmul_comm(a: nat, b: nat)
    ensures
        fmul(a, b) == fmul(b, a),
{
    lemma_mul_is_commutative(a as int, b as int);
}

/// A residue has at most one inverse.
pub proof fn lemma_inverse_unique(a: nat, b: nat, c: nat)
    requires
        is_inverse(a, b),
        is_inverse(a, c),
    ensures
        b == c,
{
    // b = b * (a * c) = (b * a) * c = c
    lemma_fmul_assoc(b, a, c);
    lemma_fmul_comm(b, a);
    assert(b * 1 == b && 1 * c == c);
    lemma_small_mod(b, group_order());
    lemma_small_mod(c, group_order());
    assert(fmul(b, fmul(a, c)) == b);
    assert(fmul(fmul(b, a), c) == c);
}

/// Whatever inverse is found is the inverse.
pub proof fn lemma_finv(a: nat, b: nat)
    requires
        is_inverse(a, b),
    ensures
        finv(a) == b,
{
    lemma_inverse_unique(a, finv(a), b);
}

/// `x` is the residue of the integer `i`.
pub open spec fn lifts(x: nat, i: int) -> bool {
    x == i % (group_order() as int)
}

/// A residue is its own residue.
pub proof fn lemma_lift_self(x: nat)
    requires
        x < group_order(),
    ensures
        lifts(x, x as int),
{
    lemma_small_mod(x, group_order());
}

/// The sum of two residues is the residue of the sum.
pub proof fn lemma_lift_add(x: nat, y: nat, i: int, j: int)
    requires
        lifts(x, i),
        lifts(y, j),
    ensures
        lifts(fadd(x, y), i + j),
{
    lemma_add_mod_noop(i, j, group_order() as int);
}

/// The difference of two residues is the residue of the difference.
pub proof fn lemma_lift_sub(x: nat, y: nat, i: int, j: int)
    requires
        lifts(x, i),
        lifts(y, j),
    ensures
        lifts(fsub(x, y), i - j),
{
    lemma_sub_mod_noop(i, j, group_order() as int);
    lemma_mod_bound(i - j, group_order() as int);
}

/// The product of two residues is the residue of the product.
pub proof fn lemma_lift_mul(x: nat, y: nat, i: int, j: int)
    requires
        lifts(x, i),
        lifts(y, j),
    ensures
        lifts(fmul(x, y), i * j),
{
    lemma_mul_mod_noop(i, j, group_order() as int);
}

/// Sums, differences and products of residues are residues.
pub proof fn lemma_residues(a: nat, b: nat)
    ensures
        fadd(a, b) < group_order(),
        fsub(a, b) < group_order(),
        fmul(a, b) < group_order(),
{
    lemma_mod_bound((a + b) as int, group_order() as int);
    lemma_mod_bound(a as int - b as int, group_order() as int);
    lemma_mod_bound((a * b) as int, group_order() as int);
}

/// The difference of two distinct residues is not zero.
pub proof fn lemma_fsub_nonzero(a: nat, b: nat)
    requires
        a < group_order(),
        b < group_order(),
        a != b,
    ensures
        0 < fsub(a, b) < group_order(),
{
    let l = group_order() as int;
    let d = a as int - b as int;
    if d > 0 {
        lemma_small_mod(d as nat, group_order());
    } else {
        lemma_mod_add_multiples_vanish(d, l);
        lemma_small_mod((d + l) as nat, group_order());
    }
}

} // verus!
