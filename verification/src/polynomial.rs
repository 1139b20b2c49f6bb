//! Polynomials over the scalar field, by their coefficients from the
//! constant term upwards.

use vstd::prelude::*;
use crate::field::{
    fadd, fmul, group_order, lemma_lift_add, lemma_lift_mul, lemma_lift_self, lemma_residues,
};
use crate::scalar::Scalar;

verus! {

/// The value at `x` of the polynomial with these coefficients:
/// `c[0] + x * (c[1] + x * (c[2] + ...))`.
pub open spec fn poly_eval(coefficients: Seq<nat>, x: nat) -> nat
    decreases coefficients.len(),
{
    if coefficients.len() == 0 {
        0
    } else {
        fadd(coefficients[0], fmul(x, poly_eval(coefficients.skip(1), x)))
    }
}

/// The residues that a sequence of scalars holds.
pub open spec fn scalar_values(scalars: Seq<Scalar>) -> Seq<nat> {
    scalars.map_values(|s: Scalar| s.value())
}

/// The value of a polynomial is a residue.
pub proof fn lemma_poly_eval_bound(coefficients: Seq<nat>, x: nat)
    ensures
        poly_eval(coefficients, x) < group_order(),
{
    if coefficients.len() > 0 {
        lemma_residues(coefficients[0], fmul(x, poly_eval(coefficients.skip(1), x)));
    }
}

/// One step of Horner's rule, from the highest coefficient downwards.
pub proof fn lemma_horner_step(a: nat, x: nat, t: nat)
    requires
        a < group_order(),
        x < group_order(),
        t < group_order(),
    ensures
        fmul(fadd(fmul(x, t), a), x) == fmul(x, fadd(a, fmul(x, t))),
{
    let (ai, xi, ti) = (a as int, x as int, t as int);
    lemma_lift_self(a);
    lemma_lift_self(x);
    lemma_lift_self(t);
    lemma_lift_mul(x, t, xi, ti);
    lemma_lift_add(fmul(x, t), a, xi * ti, ai);
    lemma_lift_mul(fadd(fmul(x, t), a), x, xi * ti + ai, xi);
    lemma_lift_add(a, fmul(x, t), ai, xi * ti);
    lemma_lift_mul(x, fadd(a, fmul(x, t)), xi, ai + xi * ti);
    assert((xi * ti + ai) * xi == xi * (ai + xi * ti)) by (nonlinear_arith);
}

/// One step of the evaluation by running powers: a term moves from the
/// part still to come into the sum so far.
pub proof fn lemma_power_step(sum: nat, power: nat, c: nat, x: nat, t: nat)
    requires
        sum < group_order(),
        power < group_order(),
        c < group_order(),
        x < group_order(),
        t < group_order(),
    ensures
        fadd(fadd(sum, fmul(c, power)), fmul(fmul(power, x), t)) == fadd(
            sum,
            fmul(power, fadd(c, fmul(x, t))),
        ),
{
    let (si, pi, ci, xi, ti) = (sum as int, power as int, c as int, x as int, t as int);
    lemma_lift_self(sum);
    lemma_lift_self(power);
    lemma_lift_self(c);
    lemma_lift_self(x);
    lemma_lift_self(t);
    lemma_lift_mul(c, power, ci, pi);
    lemma_lift_add(sum, fmul(c, power), si, ci * pi);
    lemma_lift_mul(power, x, pi, xi);
    lemma_lift_mul(fmul(power, x), t, pi * xi, ti);
    lemma_lift_add(fadd(sum, fmul(c, power)), fmul(fmul(power, x), t), si + ci * pi, pi * xi * ti);
    lemma_lift_mul(x, t, xi, ti);
    lemma_lift_add(c, fmul(x, t), ci, xi * ti);
    lemma_lift_mul(power, fadd(c, fmul(x, t)), pi, ci + xi * ti);
    lemma_lift_add(sum, fmul(power, fadd(c, fmul(x, t))), si, pi * (ci + xi * ti));
    assert(si + ci * pi + pi * xi * ti == si + pi * (ci + xi * ti)) by (nonlinear_arith);
}

/// The value at `x` of the polynomial whose constant term is `constant` and
/// whose further coefficients are `coefficients`, by Horner's rule.
pub fn evaluate_polynomial(constant: &Scalar, coefficients: &Vec<Scalar>, x: &Scalar) -> (r:
    Scalar)
    ensures
        r.value() == poly_eval(seq![constant.value()] + scalar_values(coefficients@), x.value()),
{
    let ghost values = scalar_values(coefficients@);
    let mut value = Scalar::zero();
    let mut i: usize = coefficients.len();
    proof {
        use_type_invariant(x);
        use_type_invariant(constant);
        assert(values.skip(i as int).len() == 0);
        assert(x.value() * 0 == 0);
    }
    while i > 0
        invariant
            i <= coefficients.len(),
            values == scalar_values(coefficients@),
            x.value() < group_order(),
            value.value() == fmul(x.value(), poly_eval(values.skip(i as int), x.value())),
        decreases i,
    {
        i = i - 1;
        let a = coefficients[i];
        let ghost t = poly_eval(values.skip(i + 1), x.value());
        proof {
            use_type_invariant(a);
            lemma_poly_eval_bound(values.skip(i + 1), x.value());
            lemma_horner_step(a.value(), x.value(), t);
            assert(values.skip(i as int)[0] == a.value());
            assert(values.skip(i as int).skip(1) =~= values.skip(i + 1));
        }
        value = value.add(&a);
        value = value.mul(x);
    }
    let r = value.add(constant);
    proof {
        let all = seq![constant.value()] + values;
        assert(all.skip(1) =~= values);
        assert(values.skip(0) =~= values);
        assert(all[0] == constant.value());
        assert(fadd(value.value(), constant.value()) == fadd(constant.value(), value.value()));
    }
    r
}

} // verus!
