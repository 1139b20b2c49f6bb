//! Why Lagrange interpolation at zero gives back the constant term: the
//! theorem by which the shares of a signature add up.
//!
//! The scalar field is handled as a commutative ring in which the
//! differences of the interpolation points have inverses.

use vstd::prelude::*;
use vstd::arithmetic::div_mod::{lemma_mul_mod_noop_right, lemma_small_mod};
use crate::field::{
    fadd, finv, fmul, fsub, group_order, is_inverse, lemma_fmul_assoc, lemma_fmul_comm,
    lemma_lift_add, lemma_lift_mul, lemma_lift_self, lemma_lift_sub, lemma_residues,
};
use crate::lagrange::{lagrange_coefficient, lagrange_factor, lemma_lagrange_coefficient_bound};
use crate::polynomial::{lemma_poly_eval_bound, poly_eval};

verus! {

/// Every member is a residue.
pub open spec fn all_residues(t: Seq<nat>) -> bool {
    forall|k: int| 0 <= k < t.len() ==> #[trigger] t[k] < group_order()
}

/// `a` has an inverse.
pub open spec fn invertible(a: nat) -> bool {
    exists|b: nat| is_inverse(a, b)
}

/// The points are residues, and the difference of any two of them has an
/// inverse; so no two are the same.
pub open spec fn interpolable(xs: Seq<nat>) -> bool {
    &&& all_residues(xs)
    &&& forall|j: int, k: int|
        #![trigger xs[j], xs[k]]
        0 <= j < xs.len() && 0 <= k < xs.len() && j != k ==> xs[j] != xs[k] && invertible(
            fsub(xs[j], xs[k]),
        )
}

/// The sum of the members.
pub open spec fn tsum(t: Seq<nat>) -> nat
    decreases t.len(),
{
    if t.len() == 0 {
        0
    } else {
        fadd(tsum(t.drop_last()), t.last())
    }
}

/// The terms of the interpolation at zero through the points `xs` with the
/// values `ys`: each value multiplied by the Lagrange coefficient of its
/// point.
pub open spec fn interpolation_terms(xs: Seq<nat>, ys: Seq<nat>) -> Seq<nat> {
    Seq::new(xs.len(), |k: int| fmul(lagrange_coefficient(xs, xs[k]), ys[k]))
}

/// The value at zero of the polynomial of lowest degree that takes the
/// values `ys` at the points `xs`.
pub open spec fn interpolate_at_zero(xs: Seq<nat>, ys: Seq<nat>) -> nat {
    tsum(interpolation_terms(xs, ys))
}

/// The values of a polynomial at the points `xs`.
pub open spec fn values_at(coefficients: Seq<nat>, xs: Seq<nat>) -> Seq<nat> {
    Seq::new(xs.len(), |k: int| poly_eval(coefficients, xs[k]))
}

/// The sequence with its last two members in the other order.
pub open spec fn swap_last_two(s: Seq<nat>) -> Seq<nat> {
    s.drop_last().drop_last().push(s.last()).push(s[s.len() - 2])
}

/// A sum is a residue.
pub proof fn lemma_tsum_bound(t: Seq<nat>)
    ensures
        tsum(t) < group_order(),
{
    if t.len() > 0 {
        lemma_residues(tsum(t.drop_last()), t.last());
    }
}

/// A factor common to all terms can be taken out of their sum.
pub proof fn lemma_tsum_scale(t: Seq<nat>, c: nat, u: Seq<nat>)
    requires
        all_residues(t),
        c < group_order(),
        u.len() == t.len(),
        forall|k: int| 0 <= k < t.len() ==> #[trigger] u[k] == fmul(c, t[k]),
    ensures
        tsum(u) == fmul(c, tsum(t)),
    decreases t.len(),
{
    if t.len() == 0 {
        assert(c * 0 == 0);
    } else {
        let (t0, u0) = (t.drop_last(), u.drop_last());
        assert forall|k: int| 0 <= k < t0.len() implies #[trigger] u0[k] == fmul(c, t0[k]) by {
            assert(u[k] == fmul(c, t[k]));
        }
        assert forall|k: int| 0 <= k < t0.len() implies #[trigger] t0[k] < group_order() by {
            assert(t[k] < group_order());
        }
        lemma_tsum_scale(t0, c, u0);
        lemma_tsum_bound(t0);
        let (s, x) = (tsum(t0), t.last());
        assert(t[t.len() - 1] < group_order());
        assert(u.last() == fmul(c, x));
        // c * s + c * x == c * (s + x)
        let (ci, si, xi) = (c as int, s as int, x as int);
        lemma_lift_self(c);
        lemma_lift_self(s);
        lemma_lift_self(x);
        lemma_lift_mul(c, s, ci, si);
        lemma_lift_mul(c, x, ci, xi);
        lemma_lift_add(fmul(c, s), fmul(c, x), ci * si, ci * xi);
        lemma_lift_add(s, x, si, xi);
        lemma_lift_mul(c, fadd(s, x), ci, si + xi);
        assert(ci * si + ci * xi == ci * (si + xi)) by (nonlinear_arith);
    }
}

/// The sum of termwise sums is the sum of the sums.
pub proof fn lemma_tsum_add(s: Seq<nat>, t: Seq<nat>, u: Seq<nat>)
    requires
        all_residues(s),
        all_residues(t),
        s.len() == t.len(),
        u.len() == t.len(),
        forall|k: int| 0 <= k < t.len() ==> #[trigger] u[k] == fadd(s[k], t[k]),
    ensures
        tsum(u) == fadd(tsum(s), tsum(t)),
    decreases t.len(),
{
    if t.len() > 0 {
        let (s0, t0, u0) = (s.drop_last(), t.drop_last(), u.drop_last());
        assert forall|k: int| 0 <= k < t0.len() implies #[trigger] u0[k] == fadd(s0[k], t0[k]) by {
            assert(u[k] == fadd(s[k], t[k]));
        }
        assert forall|k: int| 0 <= k < t0.len() implies #[trigger] t0[k] < group_order() by {
            assert(t[k] < group_order());
        }
        assert forall|k: int| 0 <= k < s0.len() implies #[trigger] s0[k] < group_order() by {
            assert(s[k] < group_order());
        }
        lemma_tsum_add(s0, t0, u0);
        lemma_tsum_bound(s0);
        lemma_tsum_bound(t0);
        let (a, b, x, y) = (tsum(s0), tsum(t0), s.last(), t.last());
        assert(s[s.len() - 1] < group_order());
        assert(t[t.len() - 1] < group_order());
        assert(u.last() == fadd(x, y));
        let (ai, bi, xi, yi) = (a as int, b as int, x as int, y as int);
        lemma_lift_self(a);
        lemma_lift_self(b);
        lemma_lift_self(x);
        lemma_lift_self(y);
        lemma_lift_add(a, b, ai, bi);
        lemma_lift_add(x, y, xi, yi);
        lemma_lift_add(fadd(a, b), fadd(x, y), ai + bi, xi + yi);
        lemma_lift_add(a, x, ai, xi);
        lemma_lift_add(b, y, bi, yi);
        lemma_lift_add(fadd(a, x), fadd(b, y), ai + xi, bi + yi);
    }
}

/// The sum of termwise differences is the difference of the sums.
pub proof fn lemma_tsum_sub(s: Seq<nat>, t: Seq<nat>, u: Seq<nat>)
    requires
        all_residues(s),
        all_residues(t),
        s.len() == t.len(),
        u.len() == t.len(),
        forall|k: int| 0 <= k < t.len() ==> #[trigger] u[k] == fsub(s[k], t[k]),
    ensures
        tsum(u) == fsub(tsum(s), tsum(t)),
    decreases t.len(),
{
    if t.len() == 0 {
        lemma_small_mod(0, group_order());
    } else {
        let (s0, t0, u0) = (s.drop_last(), t.drop_last(), u.drop_last());
        assert forall|k: int| 0 <= k < t0.len() implies #[trigger] u0[k] == fsub(s0[k], t0[k]) by {
            assert(u[k] == fsub(s[k], t[k]));
        }
        assert forall|k: int| 0 <= k < t0.len() implies #[trigger] t0[k] < group_order() by {
            assert(t[k] < group_order());
        }
        assert forall|k: int| 0 <= k < s0.len() implies #[trigger] s0[k] < group_order() by {
            assert(s[k] < group_order());
        }
        lemma_tsum_sub(s0, t0, u0);
        lemma_tsum_bound(s0);
        lemma_tsum_bound(t0);
        let (a, b, x, y) = (tsum(s0), tsum(t0), s.last(), t.last());
        assert(s[s.len() - 1] < group_order());
        assert(t[t.len() - 1] < group_order());
        assert(u.last() == fsub(x, y));
        let (ai, bi, xi, yi) = (a as int, b as int, x as int, y as int);
        lemma_lift_self(a);
        lemma_lift_self(b);
        lemma_lift_self(x);
        lemma_lift_self(y);
        lemma_lift_sub(a, b, ai, bi);
        lemma_lift_sub(x, y, xi, yi);
        lemma_lift_add(fsub(a, b), fsub(x, y), ai - bi, xi - yi);
        lemma_lift_add(a, x, ai, xi);
        lemma_lift_add(b, y, bi, yi);
        lemma_lift_sub(fadd(a, x), fadd(b, y), ai + xi, bi + yi);
    }
}

/// A sum of zeros is zero.
pub proof fn lemma_tsum_zero(t: Seq<nat>)
    requires
        forall|k: int| 0 <= k < t.len() ==> #[trigger] t[k] == 0,
    ensures
        tsum(t) == 0,
    decreases t.len(),
{
    if t.len() > 0 {
        let t0 = t.drop_last();
        assert forall|k: int| 0 <= k < t0.len() implies #[trigger] t0[k] == 0 by {
            assert(t[k] == 0);
        }
        lemma_tsum_zero(t0);
        assert(t[t.len() - 1] == 0);
        lemma_small_mod(0, group_order());
    }
}

/// The order of the last two terms does not change the sum.
pub proof fn lemma_tsum_swap(t: Seq<nat>)
    requires
        t.len() >= 2,
        all_residues(t),
    ensures
        tsum(swap_last_two(t)) == tsum(t),
{
    reveal_with_fuel(tsum, 3);
    let u = swap_last_two(t);
    let p = t.drop_last().drop_last();
    let (a, b) = (t[t.len() - 2], t[t.len() - 1]);
    assert(t.drop_last().drop_last() =~= p);
    assert(u.drop_last() =~= p.push(b));
    assert(t.drop_last() =~= p.push(a));
    assert(u.drop_last().drop_last() =~= p);
    assert(u.drop_last().last() == b);
    assert(u.last() == a);
    assert(t.drop_last().last() == a);
    lemma_tsum_bound(p);
    let s = tsum(p);
    let (si, ai, bi) = (s as int, a as int, b as int);
    lemma_lift_self(s);
    lemma_lift_self(a);
    lemma_lift_self(b);
    lemma_lift_add(s, a, si, ai);
    lemma_lift_add(fadd(s, a), b, si + ai, bi);
    lemma_lift_add(s, b, si, bi);
    lemma_lift_add(fadd(s, b), a, si + bi, ai);
}

/// The inverse of what has one.
pub proof fn lemma_finv_of_invertible(a: nat)
    requires
        invertible(a),
    ensures
        is_inverse(a, finv(a)),
{
}

/// Where `d * inv` is one: `(p * (b * inv)) * (d * y) == b * (p * y)`.
proof fn lemma_cancel(p: nat, b: nat, inv: nat, d: nat, y: nat)
    requires
        p < group_order(),
        b < group_order(),
        inv < group_order(),
        d < group_order(),
        y < group_order(),
        fmul(d, inv) == 1,
    ensures
        fmul(fmul(p, fmul(b, inv)), fmul(d, y)) == fmul(b, fmul(p, y)),
{
    let l = group_order() as int;
    let (pi, bi, ii, di, yi) = (p as int, b as int, inv as int, d as int, y as int);
    lemma_lift_self(p);
    lemma_lift_self(b);
    lemma_lift_self(inv);
    lemma_lift_self(d);
    lemma_lift_self(y);
    lemma_lift_mul(b, inv, bi, ii);
    lemma_lift_mul(p, fmul(b, inv), pi, bi * ii);
    lemma_lift_mul(d, y, di, yi);
    lemma_lift_mul(fmul(p, fmul(b, inv)), fmul(d, y), pi * (bi * ii), di * yi);
    lemma_lift_mul(p, y, pi, yi);
    lemma_lift_mul(b, fmul(p, y), bi, pi * yi);
    assert((pi * (bi * ii)) * (di * yi) == (bi * (pi * yi)) * (di * ii)) by (nonlinear_arith);
    lemma_mul_mod_noop_right(bi * (pi * yi), di * ii, l);
    assert((bi * (pi * yi)) * 1 == bi * (pi * yi));
}

/// Where `d` has an inverse and `d * c == d`, `c` is one.
proof fn lemma_cancel_unit(d: nat, inv: nat, c: nat)
    requires
        c < group_order(),
        d < group_order(),
        inv < group_order(),
        fmul(d, inv) == 1,
        fmul(d, c) == d,
    ensures
        c == 1,
{
    // c = (inv * d) * c = inv * (d * c) = inv * d = 1
    lemma_fmul_assoc(inv, d, c);
    lemma_fmul_comm(inv, d);
    assert(1 * c == c);
    lemma_small_mod(c, group_order());
}

/// Where `x - j == x` for residues, `j` is zero.
proof fn lemma_sub_nothing(x: nat, j: nat)
    requires
        x < group_order(),
        j < group_order(),
        fsub(x, j) == x,
    ensures
        j == 0,
{
    let l = group_order() as int;
    if j > 0 {
        if x >= j {
            lemma_small_mod((x - j) as nat, group_order());
        } else {
            vstd::arithmetic::div_mod::lemma_mod_add_multiples_vanish(x as int - j as int, l);
            lemma_small_mod((x as int - j as int + l) as nat, group_order());
        }
    }
}

/// A part of interpolable points is interpolable.
proof fn lemma_interpolable_drop_last(xs: Seq<nat>)
    requires
        interpolable(xs),
        xs.len() >= 1,
    ensures
        interpolable(xs.drop_last()),
{
    let dl = xs.drop_last();
    assert forall|k: int| 0 <= k < dl.len() implies #[trigger] dl[k] < group_order() by {
        assert(xs[k] < group_order());
    }
    assert forall|j: int, k: int| 0 <= j < dl.len() && 0 <= k < dl.len() && j != k implies dl[j]
        != dl[k] && invertible(fsub(dl[j], dl[k])) by {
        assert(xs[j] != xs[k] && invertible(fsub(xs[j], xs[k])));
    }
}

/// Interpolable points in another order are interpolable.
proof fn lemma_interpolable_swap(xs: Seq<nat>)
    requires
        interpolable(xs),
        xs.len() >= 2,
    ensures
        interpolable(swap_last_two(xs)),
{
    let n = xs.len() as int;
    let sw = swap_last_two(xs);
    let at = |k: int| if k == n - 1 { n - 2 } else if k == n - 2 { n - 1 } else { k };
    assert forall|k: int| 0 <= k < sw.len() implies #[trigger] sw[k] < group_order() by {
        assert(sw[k] == xs[at(k)]);
        assert(xs[at(k)] < group_order());
    }
    assert forall|j: int, k: int| 0 <= j < sw.len() && 0 <= k < sw.len() && j != k implies sw[j]
        != sw[k] && invertible(fsub(sw[j], sw[k])) by {
        assert(sw[j] == xs[at(j)] && sw[k] == xs[at(k)]);
        assert(xs[at(j)] != xs[at(k)] && invertible(fsub(xs[at(j)], xs[at(k)])));
    }
}

/// The terms of an interpolation are residues.
pub proof fn lemma_terms_are_residues(xs: Seq<nat>, ys: Seq<nat>)
    requires
        ys.len() == xs.len(),
    ensures
        all_residues(interpolation_terms(xs, ys)),
        interpolation_terms(xs, ys).len() == xs.len(),
{
    let t = interpolation_terms(xs, ys);
    assert forall|k: int| 0 <= k < t.len() implies #[trigger] t[k] < group_order() by {
        lemma_residues(lagrange_coefficient(xs, xs[k]), ys[k]);
    }
}

/// Taking the last point away: where each value is multiplied by the
/// difference of the last point and its own point, the interpolation is
/// that through the other points, multiplied by the last point.
proof fn lemma_remove_last(xs: Seq<nat>, ys: Seq<nat>, zs: Seq<nat>)
    requires
        interpolable(xs),
        xs.len() >= 1,
        ys.len() == xs.len(),
        zs.len() == xs.len(),
        all_residues(ys),
        forall|k: int| 0 <= k < xs.len() ==> #[trigger] zs[k] == fmul(fsub(xs.last(), xs[k]), ys[k]),
    ensures
        interpolate_at_zero(xs, zs) == fmul(
            xs.last(),
            interpolate_at_zero(xs.drop_last(), ys.drop_last()),
        ),
{
    let n = xs.len() as int;
    let b = xs.last();
    let dl = xs.drop_last();
    let t = interpolation_terms(xs, zs);
    let u = interpolation_terms(dl, ys.drop_last());
    assert(xs[n - 1] < group_order());
    // the last term is nothing
    assert(t.last() == 0) by {
        assert(zs[n - 1] == fmul(fsub(b, xs[n - 1]), ys[n - 1]));
        lemma_small_mod(0, group_order());
        assert(fsub(b, b) == 0);
        assert(0 * ys[n - 1] == 0);
        assert(lagrange_coefficient(xs, xs[n - 1]) * 0 == 0);
    }
    // every other term is that of the shorter interpolation, multiplied by b
    let t0 = t.drop_last();
    assert forall|k: int| 0 <= k < u.len() implies #[trigger] t0[k] == fmul(b, u[k]) by {
        assert(xs[k] != xs[n - 1] && invertible(fsub(xs[n - 1], xs[k])));
        assert(xs[k] < group_order());
        assert(ys[k] < group_order());
        let d = fsub(b, xs[k]);
        lemma_finv_of_invertible(d);
        let p = lagrange_coefficient(dl, xs[k]);
        lemma_lagrange_coefficient_bound(dl, xs[k]);
        lemma_residues(b, xs[k]);
        assert(lagrange_coefficient(xs, xs[k]) == fmul(p, lagrange_factor(b, xs[k])));
        assert(zs[k] == fmul(d, ys[k]));
        lemma_cancel(p, b, finv(d), d, ys[k]);
        assert(dl[k] == xs[k]);
        assert(ys.drop_last()[k] == ys[k]);
    }
    lemma_terms_are_residues(dl, ys.drop_last());
    lemma_tsum_scale(u, b, t0);
    lemma_tsum_bound(t0);
    lemma_small_mod(tsum(t0), group_order());
}

/// The interpolation does not depend on the order of the last two points.
proof fn lemma_swap(xs: Seq<nat>, ys: Seq<nat>)
    requires
        interpolable(xs),
        xs.len() >= 2,
        ys.len() == xs.len(),
    ensures
        interpolate_at_zero(swap_last_two(xs), swap_last_two(ys)) == interpolate_at_zero(xs, ys),
{
    let n = xs.len() as int;
    let (xs2, ys2) = (swap_last_two(xs), swap_last_two(ys));
    let p = xs.drop_last().drop_last();
    let (a, b) = (xs[n - 2], xs[n - 1]);
    let t = interpolation_terms(xs, ys);
    let t2 = interpolation_terms(xs2, ys2);
    assert(xs.drop_last().drop_last() =~= p);
    assert(xs2.drop_last().drop_last() =~= p);
    assert(xs.drop_last() =~= p.push(a));
    assert(xs2.drop_last() =~= p.push(b));
    assert(p.push(a).drop_last() =~= p);
    assert(p.push(b).drop_last() =~= p);
    assert(xs[n - 2] != xs[n - 1]);
    // the coefficient of every point is the same in both orders
    assert forall|i: nat| i < group_order() implies lagrange_coefficient(xs, i)
        == lagrange_coefficient(xs2, i) by {
        reveal_with_fuel(lagrange_coefficient, 3);
        assert(xs.last() == b && xs2.last() == a);
        assert(xs.drop_last().last() == a && xs2.drop_last().last() == b);
        assert(xs.drop_last().drop_last() =~= p && xs2.drop_last().drop_last() =~= p);
        let q = lagrange_coefficient(p, i);
        lemma_lagrange_coefficient_bound(p, i);
        let (fa, fb) = (lagrange_factor(a, i), lagrange_factor(b, i));
        lemma_residues(a, finv(fsub(a, i)));
        lemma_residues(b, finv(fsub(b, i)));
        if i != a && i != b {
            let (qi, ai, bi) = (q as int, fa as int, fb as int);
            lemma_lift_self(q);
            lemma_lift_self(fa);
            lemma_lift_self(fb);
            lemma_lift_mul(q, fa, qi, ai);
            lemma_lift_mul(fmul(q, fa), fb, qi * ai, bi);
            lemma_lift_mul(q, fb, qi, bi);
            lemma_lift_mul(fmul(q, fb), fa, qi * bi, ai);
            assert(qi * ai * bi == qi * bi * ai) by (nonlinear_arith);
        }
    }
    lemma_terms_are_residues(xs, ys);
    assert(t2 =~= swap_last_two(t)) by {
        assert forall|k: int| 0 <= k < n implies t2[k] == swap_last_two(t)[k] by {
            assert(xs[k] < group_order());
            if k == n - 1 {
                assert(xs2[k] == a && ys2[k] == ys[n - 2]);
            } else if k == n - 2 {
                assert(xs2[k] == b && ys2[k] == ys[n - 1]);
            } else {
                assert(xs2[k] == xs[k] && ys2[k] == ys[k]);
            }
        }
    }
    lemma_tsum_swap(t);
}

/// The Lagrange coefficients of interpolable points add up to one.
pub proof fn lemma_coefficients_sum_to_one(xs: Seq<nat>)
    requires
        interpolable(xs),
        xs.len() >= 1,
    ensures
        interpolate_at_zero(xs, Seq::new(xs.len(), |k: int| 1nat)) == 1,
    decreases xs.len(),
{
    let n = xs.len() as int;
    let ones = Seq::new(xs.len(), |k: int| 1nat);
    let t1 = interpolation_terms(xs, ones);
    if n == 1 {
        assert(t1.drop_last().len() == 0);
        assert(lagrange_coefficient(xs, xs[0]) == 1) by {
            reveal_with_fuel(lagrange_coefficient, 2);
            assert(xs.last() == xs[0]);
            assert(xs.drop_last().len() == 0);
        }
        assert(t1.last() == fmul(1, 1));
        assert(tsum(t1.drop_last()) == 0);
        lemma_small_mod(1, group_order());
    } else {
        let (a, b) = (xs[n - 2], xs[n - 1]);
        let xs2 = swap_last_two(xs);
        let shorter = Seq::new((n - 1) as nat, |k: int| 1nat);
        assert(ones.drop_last() =~= shorter);
        assert(xs[n - 2] < group_order() && xs[n - 1] < group_order());
        assert(xs[n - 1] != xs[n - 2] && invertible(fsub(xs[n - 1], xs[n - 2])));
        // through all points but the last, and through all but the one before
        lemma_interpolable_drop_last(xs);
        lemma_interpolable_swap(xs);
        lemma_interpolable_drop_last(xs2);
        lemma_coefficients_sum_to_one(xs.drop_last());
        lemma_coefficients_sum_to_one(xs2.drop_last());
        let zb = Seq::new(xs.len(), |k: int| fmul(fsub(b, xs[k]), 1));
        let za = Seq::new(xs.len(), |k: int| fmul(fsub(a, xs[k]), 1));
        let za2 = Seq::new(xs.len(), |k: int| fmul(fsub(a, xs2[k]), 1));
        lemma_remove_last(xs, ones, zb);
        assert(xs2.last() == a);
        lemma_remove_last(xs2, ones, za2);
        assert(za2 =~= swap_last_two(za));
        lemma_swap(xs, za);
        lemma_small_mod(a, group_order());
        lemma_small_mod(b, group_order());
        assert(b * 1 == b && a * 1 == a);
        assert(interpolate_at_zero(xs, zb) == b);
        assert(interpolate_at_zero(xs, za) == a);
        // the difference of the two, term by term
        let tb = interpolation_terms(xs, zb);
        let ta = interpolation_terms(xs, za);
        let d = fsub(b, a);
        let diff = Seq::new(xs.len(), |k: int| fsub(tb[k], ta[k]));
        lemma_terms_are_residues(xs, zb);
        lemma_terms_are_residues(xs, za);
        lemma_terms_are_residues(xs, ones);
        lemma_tsum_sub(tb, ta, diff);
        lemma_residues(b, a);
        assert forall|k: int| 0 <= k < n implies #[trigger] diff[k] == fmul(d, t1[k]) by {
            let w = lagrange_coefficient(xs, xs[k]);
            lemma_lagrange_coefficient_bound(xs, xs[k]);
            let x = xs[k];
            assert(xs[k] < group_order());
            let (wi, xi, ai, bi) = (w as int, x as int, a as int, b as int);
            lemma_lift_self(w);
            lemma_lift_self(x);
            lemma_lift_self(a);
            lemma_lift_self(b);
            lemma_lift_self(1);
            lemma_lift_sub(b, x, bi, xi);
            lemma_lift_mul(fsub(b, x), 1, bi - xi, 1);
            lemma_lift_mul(w, fmul(fsub(b, x), 1), wi, (bi - xi) * 1);
            lemma_lift_sub(a, x, ai, xi);
            lemma_lift_mul(fsub(a, x), 1, ai - xi, 1);
            lemma_lift_mul(w, fmul(fsub(a, x), 1), wi, (ai - xi) * 1);
            lemma_lift_sub(tb[k], ta[k], wi * ((bi - xi) * 1), wi * ((ai - xi) * 1));
            lemma_lift_sub(b, a, bi, ai);
            lemma_lift_mul(w, 1, wi, 1);
            lemma_lift_mul(d, t1[k], bi - ai, wi * 1);
            assert(wi * ((bi - xi) * 1) - wi * ((ai - xi) * 1) == (bi - ai) * (wi * 1))
                by (nonlinear_arith);
        }
        lemma_tsum_scale(t1, d, diff);
        // d * sum == d, and d has an inverse
        lemma_tsum_bound(t1);
        lemma_finv_of_invertible(d);
        lemma_cancel_unit(d, finv(d), tsum(t1));
    }
}

/// One term more: the sum grows by what the term grows by.
pub proof fn lemma_tsum_perturb(t: Seq<nat>, u: Seq<nat>, j: int, delta: nat)
    requires
        all_residues(t),
        delta < group_order(),
        u.len() == t.len(),
        0 <= j < t.len(),
        forall|k: int| 0 <= k < t.len() && k != j ==> #[trigger] u[k] == t[k],
        u[j] == fadd(t[j], delta),
    ensures
        tsum(u) == fadd(tsum(t), delta),
    decreases t.len(),
{
    let (t0, u0) = (t.drop_last(), u.drop_last());
    assert forall|k: int| 0 <= k < t0.len() implies #[trigger] t0[k] < group_order() by {
        assert(t[k] < group_order());
    }
    lemma_tsum_bound(t0);
    let s = tsum(t0);
    let x = t.last();
    assert(t[t.len() - 1] < group_order());
    let (si, xi, di) = (s as int, x as int, delta as int);
    lemma_lift_self(s);
    lemma_lift_self(x);
    lemma_lift_self(delta);
    if j == t.len() - 1 {
        assert(u0 =~= t0);
        lemma_lift_add(x, delta, xi, di);
        lemma_lift_add(s, fadd(x, delta), si, xi + di);
        lemma_lift_add(s, x, si, xi);
        lemma_lift_add(fadd(s, x), delta, si + xi, di);
    } else {
        assert forall|k: int| 0 <= k < t0.len() && k != j implies #[trigger] u0[k] == t0[k] by {
            assert(u[k] == t[k]);
        }
        lemma_tsum_perturb(t0, u0, j, delta);
        assert(u.last() == x);
        lemma_lift_add(s, delta, si, di);
        lemma_lift_add(fadd(s, delta), x, si + di, xi);
        lemma_lift_add(s, x, si, xi);
        lemma_lift_add(fadd(s, x), delta, si + xi, di);
    }
}

/// Interpolation at zero through interpolable points, with the values of a
/// polynomial that has no more coefficients than there are points, gives
/// the polynomial's value at zero.
pub proof fn lemma_interpolation(xs: Seq<nat>, coefficients: Seq<nat>)
    requires
        interpolable(xs),
        xs.len() >= 1,
        coefficients.len() <= xs.len(),
        all_residues(coefficients),
    ensures
        interpolate_at_zero(xs, values_at(coefficients, xs)) == poly_eval(coefficients, 0),
    decreases xs.len(), coefficients.len(),
{
    let n = xs.len() as int;
    let ys = values_at(coefficients, xs);
    let t = interpolation_terms(xs, ys);
    if coefficients.len() == 0 {
        assert forall|k: int| 0 <= k < t.len() implies #[trigger] t[k] == 0 by {
            assert(lagrange_coefficient(xs, xs[k]) * 0 == 0);
            lemma_small_mod(0, group_order());
        }
        lemma_tsum_zero(t);
    } else {
        let a0 = coefficients[0];
        let g = coefficients.skip(1);
        let b = xs.last();
        let dl = xs.drop_last();
        let gs = values_at(g, xs);
        let g0 = poly_eval(g, 0);
        assert(coefficients[0] < group_order());
        assert(xs[n - 1] < group_order());
        assert forall|k: int| 0 <= k < g.len() implies #[trigger] g[k] < group_order() by {
            assert(coefficients[k + 1] < group_order());
        }
        assert forall|k: int| 0 <= k < gs.len() implies #[trigger] gs[k] < group_order() by {
            lemma_poly_eval_bound(g, xs[k]);
        }
        lemma_poly_eval_bound(g, 0);
        // the same points, one coefficient fewer
        lemma_interpolation(xs, g);
        // one point fewer
        lemma_interpolable_drop_last(xs);
        assert(gs.drop_last() =~= values_at(g, dl));
        if dl.len() >= 1 {
            lemma_interpolation(dl, g);
        } else {
            assert(interpolation_terms(dl, gs.drop_last()).len() == 0);
            assert(g.len() == 0);
        }
        assert(interpolate_at_zero(dl, gs.drop_last()) == g0);
        let zs = Seq::new(xs.len(), |k: int| fmul(fsub(b, xs[k]), gs[k]));
        lemma_remove_last(xs, gs, zs);
        // the terms
        let ones = Seq::new(xs.len(), |k: int| 1nat);
        let t1 = interpolation_terms(xs, ones);
        let v = interpolation_terms(xs, gs);
        let z = interpolation_terms(xs, zs);
        let w = Seq::new(xs.len(), |k: int| fmul(lagrange_coefficient(xs, xs[k]), fmul(xs[k], gs[k])));
        let bv = Seq::new(xs.len(), |k: int| fmul(b, v[k]));
        let a1 = Seq::new(xs.len(), |k: int| fmul(a0, t1[k]));
        lemma_terms_are_residues(xs, ones);
        lemma_terms_are_residues(xs, gs);
        lemma_terms_are_residues(xs, zs);
        assert forall|k: int| 0 <= k < n implies #[trigger] w[k] < group_order() by {
            lemma_residues(lagrange_coefficient(xs, xs[k]), fmul(xs[k], gs[k]));
        }
        assert forall|k: int| 0 <= k < n implies #[trigger] bv[k] < group_order() by {
            lemma_residues(b, v[k]);
        }
        assert forall|k: int| 0 <= k < n implies #[trigger] a1[k] < group_order() by {
            lemma_residues(a0, t1[k]);
        }
        // z == b * v - w, term by term
        assert forall|k: int| 0 <= k < n implies #[trigger] z[k] == fsub(bv[k], w[k]) by {
            let l = lagrange_coefficient(xs, xs[k]);
            lemma_lagrange_coefficient_bound(xs, xs[k]);
            let (x, y) = (xs[k], gs[k]);
            assert(xs[k] < group_order());
            assert(gs[k] < group_order());
            let (li, xi, yi, bi) = (l as int, x as int, y as int, b as int);
            lemma_lift_self(l);
            lemma_lift_self(x);
            lemma_lift_self(y);
            lemma_lift_self(b);
            lemma_lift_sub(b, x, bi, xi);
            lemma_lift_mul(fsub(b, x), y, bi - xi, yi);
            lemma_lift_mul(l, fmul(fsub(b, x), y), li, (bi - xi) * yi);
            lemma_lift_mul(l, y, li, yi);
            lemma_lift_mul(b, fmul(l, y), bi, li * yi);
            lemma_lift_mul(x, y, xi, yi);
            lemma_lift_mul(l, fmul(x, y), li, xi * yi);
            lemma_lift_sub(bv[k], w[k], bi * (li * yi), li * (xi * yi));
            assert(li * ((bi - xi) * yi) == bi * (li * yi) - li * (xi * yi)) by (nonlinear_arith);
        }
        lemma_tsum_sub(bv, w, z);
        lemma_tsum_scale(v, b, bv);
        // so the sum of w is nothing
        lemma_tsum_bound(w);
        lemma_residues(b, g0);
        lemma_sub_nothing(fmul(b, g0), tsum(w));
        // t == a0 * 1 + w, term by term
        assert forall|k: int| 0 <= k < n implies #[trigger] t[k] == fadd(a1[k], w[k]) by {
            let l = lagrange_coefficient(xs, xs[k]);
            lemma_lagrange_coefficient_bound(xs, xs[k]);
            let (x, y) = (xs[k], gs[k]);
            assert(xs[k] < group_order());
            assert(gs[k] < group_order());
            assert(ys[k] == fadd(a0, fmul(x, y)));
            let (li, xi, yi, ai) = (l as int, x as int, y as int, a0 as int);
            lemma_lift_self(l);
            lemma_lift_self(x);
            lemma_lift_self(y);
            lemma_lift_self(a0);
            lemma_lift_self(1);
            lemma_lift_mul(x, y, xi, yi);
            lemma_lift_add(a0, fmul(x, y), ai, xi * yi);
            lemma_lift_mul(l, fadd(a0, fmul(x, y)), li, ai + xi * yi);
            lemma_lift_mul(l, 1, li, 1);
            lemma_lift_mul(a0, fmul(l, 1), ai, li * 1);
            lemma_lift_mul(l, fmul(x, y), li, xi * yi);
            lemma_lift_add(a1[k], w[k], ai * (li * 1), li * (xi * yi));
            assert(li * (ai + xi * yi) == ai * (li * 1) + li * (xi * yi)) by (nonlinear_arith);
        }
        lemma_tsum_add(a1, w, t);
        lemma_tsum_scale(t1, a0, a1);
        lemma_coefficients_sum_to_one(xs);
        assert(a0 * 1 == a0);
        lemma_small_mod(a0, group_order());
        // the value at zero is the constant term
        assert(0 * g0 == 0);
        lemma_small_mod(0, group_order());
    }
}

} // verus!
