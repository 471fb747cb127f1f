//! Group laws of the chord-and-tangent sum: the point at infinity is the identity,
//! `p + (-p)` is the point at infinity, the sum of two points on the curve does not
//! depend on their order, and over the integers modulo `m` the sum of two points on
//! the curve is on the curve.
//!
//! Closure rests on an identity between integer polynomials: the defect
//! `y3^2 - (x3^3 + a x3 + b)` of the sum is a combination of the defects of the two
//! points and of the relations that define the slope, so it is a multiple of `m`
//! whenever they are.

use crate::elliptic::{
    chord_tangent, curve_multiple, curve_rhs, ladder, lemma_pair_refl, negate, on_curve, pair_eqv,
    pair_member, third_point, through, Curve,
};
use crate::laws::{
    additive_laws, commutative_laws, complete_field, equivalence, field_laws, group_laws,
    has_inverse, integer_image, inverse_s, lemma_add_closed, lemma_add_comm, lemma_add_congruent,
    lemma_field_parts, lemma_image_member, lemma_mul_assoc, lemma_mul_closed, lemma_mul_comm,
    lemma_mul_congruent, lemma_mul_one, lemma_refl, lemma_ring_parts, lemma_sub_add,
    lemma_sub_closed, lemma_sub_congruent, lemma_sub_mul, lemma_sub_self, lemma_sub_unique,
    lemma_sym, lemma_telescope, lemma_trans, ring_laws, semigroup_laws,
};
use crate::fourier::{lemma_add_negated, lemma_mul_negated};
use crate::polynomial_laws::lemma_no_zero_divisors;
use crate::integers::Integers;
use crate::quotient::QuotientRing;
use crate::structures::{AdditiveGroup, CommutativeMonoid, Domain, Field, Monoid, Ring, Semigroup};
use std::rc::Rc;
use vstd::prelude::*;

verus! {

/// `p` is the point at infinity or satisfies the curve equation.
pub open spec fn on_curve_point<F: Field>(f: &F, a: F::M, b: F::M, p: Option<(F::M, F::M)>) -> bool {
    p matches Some((x, y)) ==> on_curve(f, a, b, x, y)
}

/// `0 - (0 - x) ~ x`.
pub proof fn lemma_neg_neg<R: Ring>(r: &R, x: R::M)
    requires
        ring_laws(r),
        r.member(x),
    ensures
        r.eqv(r.sub_s(r.zero_s(), r.sub_s(r.zero_s(), x)), x),
{
    lemma_ring_parts(r);
    let z = r.zero_s();
    let n = r.sub_s(z, x);
    lemma_sub_closed(r, z, x);
    lemma_add_comm(r, x, n);
    lemma_sub_add(r, z, x);
    lemma_add_closed(r, x, n);
    lemma_add_closed(r, n, x);
    lemma_trans(r, r.add_s(x, n), r.add_s(n, x), z);
    lemma_sub_unique(r, x, z, n);
    lemma_sub_closed(r, z, n);
    lemma_sym(r, x, r.sub_s(z, n));
}

/// `a - b ~ 0 - (b - a)`.
proof fn lemma_sub_swap<R: Ring>(r: &R, a: R::M, b: R::M)
    requires
        ring_laws(r),
        r.member(a),
        r.member(b),
    ensures
        r.eqv(r.sub_s(a, b), r.sub_s(r.zero_s(), r.sub_s(b, a))),
{
    lemma_ring_parts(r);
    lemma_telescope(r, a, b, a);
    lemma_sub_self(r, a);
    lemma_sub_closed(r, a, b);
    lemma_sub_closed(r, b, a);
    lemma_sub_closed(r, a, a);
    lemma_add_closed(r, r.sub_s(a, b), r.sub_s(b, a));
    lemma_trans(r, r.add_s(r.sub_s(a, b), r.sub_s(b, a)), r.sub_s(a, a), r.zero_s());
    lemma_sub_unique(r, r.sub_s(a, b), r.zero_s(), r.sub_s(b, a));
}

/// `(0 - x) · (0 - y) ~ x · y` when multiplication commutes.
proof fn lemma_neg_mul_neg<R: Ring>(r: &R, x: R::M, y: R::M)
    requires
        ring_laws(r),
        commutative_laws(r),
        r.member(x),
        r.member(y),
    ensures
        r.eqv(r.mul_s(r.sub_s(r.zero_s(), x), r.sub_s(r.zero_s(), y)), r.mul_s(x, y)),
{
    lemma_ring_parts(r);
    let z = r.zero_s();
    let nx = r.sub_s(z, x);
    lemma_sub_closed(r, z, x);
    lemma_sub_closed(r, z, y);
    // (0 - x)(0 - y) ~ 0 - (0 - x)·y
    lemma_mul_negated(r, nx, y);
    // (0 - x)·y ~ y·(0 - x) ~ 0 - y·x ~ 0 - x·y
    lemma_mul_comm(r, nx, y);
    lemma_mul_negated(r, y, x);
    lemma_mul_comm(r, y, x);
    lemma_mul_closed(r, nx, y);
    lemma_mul_closed(r, y, nx);
    lemma_mul_closed(r, y, x);
    lemma_mul_closed(r, x, y);
    lemma_refl(r, z);
    lemma_sub_congruent(r, z, z, r.mul_s(y, x), r.mul_s(x, y));
    lemma_sub_closed(r, z, r.mul_s(y, x));
    lemma_sub_closed(r, z, r.mul_s(x, y));
    lemma_trans(r, r.mul_s(nx, y), r.mul_s(y, nx), r.sub_s(z, r.mul_s(y, x)));
    lemma_trans(r, r.mul_s(nx, y), r.sub_s(z, r.mul_s(y, x)), r.sub_s(z, r.mul_s(x, y)));
    lemma_sub_congruent(r, z, z, r.mul_s(nx, y), r.sub_s(z, r.mul_s(x, y)));
    lemma_neg_neg(r, r.mul_s(x, y));
    lemma_mul_closed(r, nx, r.sub_s(z, y));
    lemma_sub_closed(r, z, r.mul_s(nx, y));
    lemma_sub_closed(r, z, r.sub_s(z, r.mul_s(x, y)));
    lemma_trans(r, r.mul_s(nx, r.sub_s(z, y)), r.sub_s(z, r.mul_s(nx, y)), r.sub_s(z, r.sub_s(z, r.mul_s(x, y))));
    lemma_trans(r, r.mul_s(nx, r.sub_s(z, y)), r.sub_s(z, r.sub_s(z, r.mul_s(x, y))), r.mul_s(x, y));
}

/// `(a - b) - c ~ (a - c) - b`.
proof fn lemma_sub_reorder<R: Ring>(r: &R, a: R::M, b: R::M, c: R::M)
    requires
        ring_laws(r),
        r.member(a),
        r.member(b),
        r.member(c),
    ensures
        r.eqv(r.sub_s(r.sub_s(a, b), c), r.sub_s(r.sub_s(a, c), b)),
{
    lemma_ring_parts(r);
    reveal(group_laws);
    reveal(additive_laws);
    reveal(equivalence);
    let x = r.sub_s(r.sub_s(a, b), c);
    assert(r.member(r.sub_s(a, b)));
    assert(r.member(x));
    // (x + b) + c ~ (x + c) + b ~ (a - b) + b ~ a
    crate::laws::lemma_add_swap_right(r, x, b, c);
    assert(r.eqv(r.add_s(x, c), r.sub_s(a, b)));
    assert(r.eqv(r.add_s(r.add_s(x, c), b), r.add_s(r.sub_s(a, b), b)));
    assert(r.eqv(r.add_s(r.sub_s(a, b), b), a));
    assert(r.eqv(r.add_s(r.add_s(x, b), c), a));
    lemma_sub_unique(r, r.add_s(x, b), a, c);
    lemma_sub_unique(r, x, r.sub_s(a, c), b);
}

/// `a - b ~ c - d` whenever `a - c ~ b - d`.
proof fn lemma_diff_shift<R: Ring>(r: &R, a: R::M, b: R::M, c: R::M, d: R::M)
    requires
        ring_laws(r),
        r.member(a),
        r.member(b),
        r.member(c),
        r.member(d),
        r.eqv(r.sub_s(a, c), r.sub_s(b, d)),
    ensures
        r.eqv(r.sub_s(a, b), r.sub_s(c, d)),
{
    lemma_ring_parts(r);
    reveal(group_laws);
    reveal(additive_laws);
    reveal(equivalence);
    // a - b ~ (a - c) + (c - b) ~ (b - d) + (c - b) ~ (c - b) + (b - d) ~ c - d
    lemma_telescope(r, a, c, b);
    lemma_telescope(r, c, b, d);
    assert(r.member(r.sub_s(a, c)));
    assert(r.member(r.sub_s(c, b)));
    assert(r.member(r.sub_s(b, d)));
    assert(r.eqv(r.add_s(r.sub_s(a, c), r.sub_s(c, b)), r.add_s(r.sub_s(b, d), r.sub_s(c, b))));
    assert(r.eqv(r.add_s(r.sub_s(b, d), r.sub_s(c, b)), r.add_s(r.sub_s(c, b), r.sub_s(b, d))));
}

/// `(a - c) - (b - c) ~ a - b`.
proof fn lemma_diff_common<R: Ring>(r: &R, a: R::M, b: R::M, c: R::M)
    requires
        ring_laws(r),
        r.member(a),
        r.member(b),
        r.member(c),
    ensures
        r.eqv(r.sub_s(r.sub_s(a, c), r.sub_s(b, c)), r.sub_s(a, b)),
{
    lemma_ring_parts(r);
    reveal(group_laws);
    reveal(additive_laws);
    reveal(equivalence);
    let ac = r.sub_s(a, c);
    let bc = r.sub_s(b, c);
    assert(r.member(ac));
    assert(r.member(bc));
    // ac - bc ~ ac + (0 - bc) ~ ac + (c - b) ~ a - b
    lemma_add_negated(r, ac, bc);
    lemma_sub_swap(r, c, b);
    assert(r.member(r.sub_s(c, b)));
    assert(r.member(r.sub_s(r.zero_s(), bc)));
    assert(r.eqv(r.add_s(ac, r.sub_s(r.zero_s(), bc)), r.add_s(ac, r.sub_s(c, b))));
    lemma_telescope(r, a, c, b);
}

/// `(x - y)·(x + y) ~ x·x - y·y` when multiplication commutes.
proof fn lemma_square_difference<R: Ring>(r: &R, x: R::M, y: R::M)
    requires
        ring_laws(r),
        commutative_laws(r),
        r.member(x),
        r.member(y),
    ensures
        r.eqv(r.mul_s(r.sub_s(x, y), r.add_s(x, y)), r.sub_s(r.mul_s(x, x), r.mul_s(y, y))),
{
    lemma_ring_parts(r);
    reveal(group_laws);
    reveal(additive_laws);
    reveal(semigroup_laws);
    reveal(equivalence);
    let d = r.sub_s(x, y);
    assert(r.member(d));
    crate::laws::lemma_distrib(r, d, x, y);
    lemma_sub_mul(r, x, y, x);
    lemma_sub_mul(r, x, y, y);
    lemma_mul_comm(r, y, x);
    assert(r.eqv(r.sub_s(r.mul_s(x, x), r.mul_s(y, x)), r.sub_s(r.mul_s(x, x), r.mul_s(x, y))));
    lemma_telescope(r, r.mul_s(x, x), r.mul_s(x, y), r.mul_s(y, y));
    assert(r.eqv(
        r.add_s(r.mul_s(d, x), r.mul_s(d, y)),
        r.add_s(r.sub_s(r.mul_s(x, x), r.mul_s(x, y)), r.sub_s(r.mul_s(x, y), r.mul_s(y, y))),
    ));
}

/// In a field, `x·x ~ y·y` and `x + y ≁ 0` give `x ~ y`.
proof fn lemma_same_square<F: Field>(f: &F, x: F::M, y: F::M)
    requires
        field_laws(f),
        complete_field(f),
        f.member(x),
        f.member(y),
        f.eqv(f.mul_s(x, x), f.mul_s(y, y)),
        !f.eqv(f.add_s(x, y), f.zero_s()),
    ensures
        f.eqv(x, y),
{
    lemma_field_parts(f);
    lemma_ring_parts(f);
    let z = f.zero_s();
    let d = f.sub_s(x, y);
    lemma_sub_closed(f, x, y);
    lemma_add_closed(f, x, y);
    lemma_square_difference(f, x, y);
    lemma_mul_closed(f, x, x);
    lemma_mul_closed(f, y, y);
    lemma_refl(f, f.mul_s(x, x));
    lemma_sym(f, f.mul_s(x, x), f.mul_s(y, y));
    lemma_sub_congruent(f, f.mul_s(x, x), f.mul_s(x, x), f.mul_s(y, y), f.mul_s(x, x));
    lemma_sub_self(f, f.mul_s(x, x));
    lemma_sub_closed(f, f.mul_s(x, x), f.mul_s(y, y));
    lemma_sub_closed(f, f.mul_s(x, x), f.mul_s(x, x));
    lemma_mul_closed(f, d, f.add_s(x, y));
    lemma_trans(f, f.mul_s(d, f.add_s(x, y)), f.sub_s(f.mul_s(x, x), f.mul_s(y, y)), f.sub_s(f.mul_s(x, x), f.mul_s(x, x)));
    lemma_trans(f, f.mul_s(d, f.add_s(x, y)), f.sub_s(f.mul_s(x, x), f.mul_s(x, x)), z);
    if !f.eqv(d, z) {
        lemma_no_zero_divisors(f, d, f.add_s(x, y));
    }
    // x ~ (x - y) + y ~ 0 + y ~ y
    lemma_sub_add(f, x, y);
    lemma_refl(f, y);
    lemma_add_congruent(f, d, z, y, y);
    crate::laws::lemma_add_zero(f, y);
    lemma_add_closed(f, d, y);
    lemma_add_closed(f, z, y);
    lemma_sym(f, f.add_s(d, y), x);
    lemma_trans(f, x, f.add_s(d, y), f.add_s(z, y));
    lemma_trans(f, x, f.add_s(z, y), y);
}

/// The right-hand side of the curve equation respects equality of `x`.
proof fn lemma_rhs_congruent<F: Field>(f: &F, a: F::M, b: F::M, x1: F::M, x2: F::M)
    requires
        ring_laws(f),
        f.member(a),
        f.member(b),
        f.member(x1),
        f.member(x2),
        f.eqv(x1, x2),
    ensures
        f.eqv(curve_rhs(f, a, b, x1), curve_rhs(f, a, b, x2)),
{
    lemma_ring_parts(f);
    reveal(ring_laws);
    reveal(semigroup_laws);
    reveal(group_laws);
    reveal(additive_laws);
    reveal(equivalence);
    assert(f.eqv(a, a));
    assert(f.eqv(b, b));
    assert(f.eqv(f.mul_s(x1, x1), f.mul_s(x2, x2)));
    assert(f.eqv(f.mul_s(f.mul_s(x1, x1), x1), f.mul_s(f.mul_s(x2, x2), x2)));
    assert(f.eqv(f.mul_s(a, x1), f.mul_s(a, x2)));
}

/// An element equal to an invertible one is invertible, with an equal inverse.
proof fn lemma_inverse_congruent<F: Field>(f: &F, d1: F::M, d2: F::M)
    requires
        field_laws(f),
        f.member(d1),
        f.member(d2),
        f.eqv(d1, d2),
        has_inverse(f, d1),
    ensures
        has_inverse(f, d2),
        f.member(inverse_s(f, d1)),
        f.member(inverse_s(f, d2)),
        f.eqv(inverse_s(f, d1), inverse_s(f, d2)),
{
    lemma_field_parts(f);
    lemma_ring_parts(f);
    let y = inverse_s(f, d1);
    assert(f.member(y) && f.eqv(f.mul_s(d1, y), f.one_s()));
    lemma_refl(f, y);
    lemma_sym(f, d1, d2);
    lemma_mul_congruent(f, d2, d1, y, y);
    lemma_mul_closed(f, d2, y);
    lemma_mul_closed(f, d1, y);
    lemma_trans(f, f.mul_s(d2, y), f.mul_s(d1, y), f.one_s());
    assert(has_inverse(f, d2));
    let y2 = inverse_s(f, d2);
    assert(f.member(y2) && f.eqv(f.mul_s(d2, y2), f.one_s()));
    crate::polynomials::lemma_inverse_unique(f, d2, y, y2);
}

/// `third_point` respects equality of all its arguments.
proof fn lemma_third_congruent<F: Field>(
    f: &F,
    px: F::M,
    py: F::M,
    qx: F::M,
    s: F::M,
    px2: F::M,
    py2: F::M,
    qx2: F::M,
    s2: F::M,
)
    requires
        ring_laws(f),
        f.member(px),
        f.member(py),
        f.member(qx),
        f.member(s),
        f.member(px2),
        f.member(py2),
        f.member(qx2),
        f.member(s2),
        f.eqv(px, px2),
        f.eqv(py, py2),
        f.eqv(qx, qx2),
        f.eqv(s, s2),
    ensures
        f.member(third_point(f, px, py, qx, s).0),
        f.member(third_point(f, px, py, qx, s).1),
        f.eqv(third_point(f, px, py, qx, s).0, third_point(f, px2, py2, qx2, s2).0),
        f.eqv(third_point(f, px, py, qx, s).1, third_point(f, px2, py2, qx2, s2).1),
{
    lemma_ring_parts(f);
    reveal(ring_laws);
    reveal(semigroup_laws);
    reveal(group_laws);
    reveal(additive_laws);
    reveal(equivalence);
    assert(f.eqv(f.mul_s(s, s), f.mul_s(s2, s2)));
    assert(f.eqv(f.sub_s(f.mul_s(s, s), px), f.sub_s(f.mul_s(s2, s2), px2)));
    let rx = third_point(f, px, py, qx, s).0;
    let rx2 = third_point(f, px2, py2, qx2, s2).0;
    assert(f.eqv(rx, rx2));
    assert(f.eqv(f.sub_s(px, rx), f.sub_s(px2, rx2)));
    assert(f.eqv(f.mul_s(s, f.sub_s(px, rx)), f.mul_s(s2, f.sub_s(px2, rx2))));
}

/// `through` respects equality of all its arguments.
proof fn lemma_through_congruent<F: Field>(
    f: &F,
    px: F::M,
    py: F::M,
    qx: F::M,
    num: F::M,
    den: F::M,
    px2: F::M,
    py2: F::M,
    qx2: F::M,
    num2: F::M,
    den2: F::M,
)
    requires
        field_laws(f),
        f.member(px),
        f.member(py),
        f.member(qx),
        f.member(num),
        f.member(den),
        f.member(px2),
        f.member(py2),
        f.member(qx2),
        f.member(num2),
        f.member(den2),
        f.eqv(px, px2),
        f.eqv(py, py2),
        f.eqv(qx, qx2),
        f.eqv(num, num2),
        f.eqv(den, den2),
    ensures
        pair_eqv(f, through(f, px, py, qx, num, den), through(f, px2, py2, qx2, num2, den2)),
{
    lemma_field_parts(f);
    lemma_ring_parts(f);
    if has_inverse(f, den) {
        lemma_inverse_congruent(f, den, den2);
        let i1 = inverse_s(f, den);
        let i2 = inverse_s(f, den2);
        lemma_mul_congruent(f, num, num2, i1, i2);
        lemma_mul_closed(f, num, i1);
        lemma_mul_closed(f, num2, i2);
        lemma_third_congruent(f, px, py, qx, f.mul_s(num, i1), px2, py2, qx2, f.mul_s(num2, i2));
    } else if has_inverse(f, den2) {
        lemma_sym(f, den, den2);
        lemma_inverse_congruent(f, den2, den);
    }
}

/// The chord through two points with different `x` does not depend on their order.
proof fn lemma_chord_commutes<F: Field>(f: &F, px: F::M, py: F::M, qx: F::M, qy: F::M)
    requires
        field_laws(f),
        f.member(px),
        f.member(py),
        f.member(qx),
        f.member(qy),
    ensures
        pair_eqv(
            f,
            through(f, px, py, qx, f.sub_s(qy, py), f.sub_s(qx, px)),
            through(f, qx, qy, px, f.sub_s(py, qy), f.sub_s(px, qx)),
        ),
{
    lemma_field_parts(f);
    lemma_ring_parts(f);
    let z = f.zero_s();
    let one = f.one_s();
    let d = f.sub_s(qx, px);
    let d2 = f.sub_s(px, qx);
    let n = f.sub_s(qy, py);
    let n2 = f.sub_s(py, qy);
    lemma_sub_closed(f, qx, px);
    lemma_sub_closed(f, px, qx);
    lemma_sub_closed(f, qy, py);
    lemma_sub_closed(f, py, qy);
    lemma_sub_closed(f, z, d);
    lemma_sub_closed(f, z, n);
    // d2 ~ 0 - d and n2 ~ 0 - n
    lemma_sub_swap(f, px, qx);
    lemma_sub_swap(f, py, qy);
    if has_inverse(f, d) || has_inverse(f, d2) {
        // Both have inverses, and inverse(d2) ~ 0 - inverse(d).
        let (u, u2) = if has_inverse(f, d) { (d, d2) } else { (d2, d) };
        let y = inverse_s(f, u);
        assert(f.member(y) && f.eqv(f.mul_s(u, y), one));
        lemma_sub_closed(f, z, y);
        lemma_sub_swap(f, if has_inverse(f, d) { px } else { qx }, if has_inverse(f, d) { qx } else { px });
        assert(f.eqv(u2, f.sub_s(z, u)));
        lemma_sub_closed(f, z, u);
        lemma_refl(f, f.sub_s(z, y));
        lemma_mul_congruent(f, u2, f.sub_s(z, u), f.sub_s(z, y), f.sub_s(z, y));
        lemma_neg_mul_neg(f, u, y);
        lemma_mul_closed(f, u2, f.sub_s(z, y));
        lemma_mul_closed(f, f.sub_s(z, u), f.sub_s(z, y));
        lemma_mul_closed(f, u, y);
        lemma_trans(f, f.mul_s(u2, f.sub_s(z, y)), f.mul_s(f.sub_s(z, u), f.sub_s(z, y)), f.mul_s(u, y));
        lemma_trans(f, f.mul_s(u2, f.sub_s(z, y)), f.mul_s(u, y), one);
        assert(has_inverse(f, u2));
        assert(has_inverse(f, d) && has_inverse(f, d2));
        let i = inverse_s(f, d);
        let i2 = inverse_s(f, d2);
        assert(f.member(i) && f.eqv(f.mul_s(d, i), one));
        assert(f.member(i2) && f.eqv(f.mul_s(d2, i2), one));
        lemma_sub_closed(f, z, i);
        // d2 · (0 - i) ~ (0 - d)(0 - i) ~ d · i ~ 1, so i2 ~ 0 - i
        lemma_refl(f, f.sub_s(z, i));
        lemma_mul_congruent(f, d2, f.sub_s(z, d), f.sub_s(z, i), f.sub_s(z, i));
        lemma_neg_mul_neg(f, d, i);
        lemma_mul_closed(f, d2, f.sub_s(z, i));
        lemma_mul_closed(f, f.sub_s(z, d), f.sub_s(z, i));
        lemma_mul_closed(f, d, i);
        lemma_trans(f, f.mul_s(d2, f.sub_s(z, i)), f.mul_s(f.sub_s(z, d), f.sub_s(z, i)), f.mul_s(d, i));
        lemma_trans(f, f.mul_s(d2, f.sub_s(z, i)), f.mul_s(d, i), one);
        crate::polynomials::lemma_inverse_unique(f, d2, i2, f.sub_s(z, i));
        // the slopes agree: n2 · i2 ~ (0 - n)(0 - i) ~ n · i
        let s = f.mul_s(n, i);
        let s2 = f.mul_s(n2, i2);
        lemma_mul_congruent(f, n2, f.sub_s(z, n), i2, f.sub_s(z, i));
        lemma_neg_mul_neg(f, n, i);
        lemma_mul_closed(f, n2, i2);
        lemma_mul_closed(f, f.sub_s(z, n), f.sub_s(z, i));
        lemma_mul_closed(f, n, i);
        lemma_trans(f, s2, f.mul_s(f.sub_s(z, n), f.sub_s(z, i)), s);
        // x: (s·s - px) - qx ~ (s2·s2 - qx) - px
        let ss = f.mul_s(s, s);
        let ss2 = f.mul_s(s2, s2);
        lemma_mul_closed(f, s, s);
        lemma_mul_closed(f, s2, s2);
        lemma_sym(f, s2, s);
        lemma_mul_congruent(f, s, s2, s, s2);
        lemma_sub_reorder(f, ss, px, qx);
        lemma_sub_closed(f, ss, px);
        lemma_sub_closed(f, ss, qx);
        lemma_sub_closed(f, ss2, qx);
        lemma_refl(f, qx);
        lemma_refl(f, px);
        lemma_sub_congruent(f, ss, ss2, qx, qx);
        lemma_sub_congruent(f, f.sub_s(ss, qx), f.sub_s(ss2, qx), px, px);
        let rx = f.sub_s(f.sub_s(ss, px), qx);
        let rx2 = f.sub_s(f.sub_s(ss2, qx), px);
        lemma_sub_closed(f, f.sub_s(ss, px), qx);
        lemma_sub_closed(f, f.sub_s(ss, qx), px);
        lemma_sub_closed(f, f.sub_s(ss2, qx), px);
        lemma_trans(f, rx, f.sub_s(f.sub_s(ss, qx), px), rx2);
        assert(third_point(f, px, py, qx, s).0 == rx);
        assert(third_point(f, qx, qy, px, s2).0 == rx2);
        // y: s·(px - rx) - py ~ s·(qx - rx) - qy, since s·(qx - px) ~ qy - py
        let u1 = f.sub_s(px, rx);
        let v1 = f.sub_s(qx, rx);
        lemma_sub_closed(f, px, rx);
        lemma_sub_closed(f, qx, rx);
        lemma_mul_closed(f, s, u1);
        lemma_mul_closed(f, s, v1);
        lemma_mul_closed(f, s, d);
        lemma_mul_closed(f, s, d2);
        // s·d ~ n·(i·d) ~ n·(d·i) ~ n
        lemma_mul_assoc(f, n, i, d);
        lemma_mul_comm(f, i, d);
        lemma_mul_closed(f, i, d);
        lemma_refl(f, n);
        lemma_mul_congruent(f, n, n, f.mul_s(i, d), f.mul_s(d, i));
        lemma_mul_congruent(f, n, n, f.mul_s(d, i), one);
        lemma_mul_one(f, n);
        lemma_mul_closed(f, n, f.mul_s(i, d));
        lemma_mul_closed(f, n, f.mul_s(d, i));
        lemma_mul_closed(f, n, one);
        lemma_trans(f, f.mul_s(s, d), f.mul_s(n, f.mul_s(i, d)), f.mul_s(n, f.mul_s(d, i)));
        lemma_trans(f, f.mul_s(s, d), f.mul_s(n, f.mul_s(d, i)), f.mul_s(n, one));
        lemma_trans(f, f.mul_s(s, d), f.mul_s(n, one), n);
        // s·u1 - s·v1 ~ s·(u1 - v1) ~ s·(px - qx) ~ s·(0 - d) ~ 0 - s·d ~ 0 - n ~ n2
        crate::laws::lemma_mul_sub(f, s, u1, v1);
        lemma_diff_common(f, px, qx, rx);
        lemma_sub_closed(f, u1, v1);
        lemma_refl(f, s);
        lemma_mul_congruent(f, s, s, f.sub_s(u1, v1), d2);
        lemma_mul_congruent(f, s, s, d2, f.sub_s(z, d));
        lemma_mul_negated(f, s, d);
        lemma_refl(f, z);
        lemma_sub_congruent(f, z, z, f.mul_s(s, d), n);
        lemma_mul_closed(f, s, f.sub_s(u1, v1));
        lemma_mul_closed(f, s, f.sub_s(z, d));
        lemma_sub_closed(f, z, f.mul_s(s, d));
        lemma_sub_closed(f, f.mul_s(s, u1), f.mul_s(s, v1));
        let e1 = f.sub_s(f.mul_s(s, u1), f.mul_s(s, v1));
        lemma_sym(f, f.mul_s(s, f.sub_s(u1, v1)), e1);
        lemma_trans(f, e1, f.mul_s(s, f.sub_s(u1, v1)), f.mul_s(s, d2));
        lemma_trans(f, e1, f.mul_s(s, d2), f.mul_s(s, f.sub_s(z, d)));
        lemma_trans(f, e1, f.mul_s(s, f.sub_s(z, d)), f.sub_s(z, f.mul_s(s, d)));
        lemma_trans(f, e1, f.sub_s(z, f.mul_s(s, d)), f.sub_s(z, n));
        lemma_sym(f, n2, f.sub_s(z, n));
        lemma_trans(f, e1, f.sub_s(z, n), n2);
        lemma_diff_shift(f, f.mul_s(s, u1), py, f.mul_s(s, v1), qy);
        // and s2·(qx - rx2) - qy ~ s·(qx - rx) - qy
        lemma_sym(f, rx, rx2);
        lemma_sub_congruent(f, qx, qx, rx2, rx);
        lemma_sub_closed(f, qx, rx2);
        lemma_sym(f, s2, s);
        lemma_mul_congruent(f, s2, s, f.sub_s(qx, rx2), v1);
        lemma_mul_closed(f, s2, f.sub_s(qx, rx2));
        lemma_refl(f, qy);
        lemma_sub_congruent(f, f.mul_s(s2, f.sub_s(qx, rx2)), f.mul_s(s, v1), qy, qy);
        lemma_sub_closed(f, f.mul_s(s2, f.sub_s(qx, rx2)), qy);
        lemma_sub_closed(f, f.mul_s(s, v1), qy);
        lemma_sub_closed(f, f.mul_s(s, u1), py);
        lemma_sym(f, f.sub_s(f.mul_s(s2, f.sub_s(qx, rx2)), qy), f.sub_s(f.mul_s(s, v1), qy));
        lemma_trans(f, f.sub_s(f.mul_s(s, u1), py), f.sub_s(f.mul_s(s, v1), qy), f.sub_s(f.mul_s(s2, f.sub_s(qx, rx2)), qy));
        assert(third_point(f, px, py, qx, s).1 == f.sub_s(f.mul_s(s, u1), py));
        assert(third_point(f, qx, qy, px, s2).1 == f.sub_s(f.mul_s(s2, f.sub_s(qx, rx2)), qy));
    }
}

/// The point at infinity is the identity: `O + p == p == p + O`.
pub proof fn lemma_curve_identity<F: Field>(h: &Rc<Curve<F>>, p: Option<(F::M, F::M)>)
    ensures
        h.add_s(h.zero_s(), p) == p,
        h.add_s(p, h.zero_s()) == p,
{
}

/// A point plus its negation is the point at infinity: `p + (-p) == O`, and so
/// `p - p == O`.
pub proof fn lemma_curve_inverse<F: Field>(h: &Rc<Curve<F>>, p: Option<(F::M, F::M)>)
    requires
        h.sound(),
        h.member(p),
    ensures
        h.add_s(p, negate(&(**h).field_s(), p)) == h.zero_s(),
        h.sub_s(p, p) == h.zero_s(),
{
    let f = (**h).field_s();
    lemma_field_parts(&f);
    lemma_ring_parts(&f);
    if let Some((x, y)) = p {
        let z = f.zero_s();
        lemma_refl(&f, x);
        lemma_add_negated(&f, y, y);
        lemma_sub_self(&f, y);
        lemma_sub_closed(&f, z, y);
        lemma_add_closed(&f, y, f.sub_s(z, y));
        lemma_sub_closed(&f, y, y);
        lemma_trans(&f, f.add_s(y, f.sub_s(z, y)), f.sub_s(y, y), z);
    }
}

/// Addition of points on the curve commutes, over a field.
pub proof fn lemma_curve_commutes<F: Field>(h: &Rc<Curve<F>>, p: Option<(F::M, F::M)>, q: Option<(F::M, F::M)>)
    requires
        h.wf(),
        h.sound(),
        complete_field(&(**h).field_s()),
        h.member(p),
        h.member(q),
        on_curve_point(&(**h).field_s(), (**h).a_model(), (**h).b_model(), p),
        on_curve_point(&(**h).field_s(), (**h).a_model(), (**h).b_model(), q),
    ensures
        h.eqv(h.add_s(p, q), h.add_s(q, p)),
{
    let f = (**h).field_s();
    let a = (**h).a_model();
    let b = (**h).b_model();
    lemma_field_parts(&f);
    lemma_ring_parts(&f);
    f.lemma_valid_member((**h).a_s());
    f.lemma_valid_member((**h).b_s());
    let z = f.zero_s();
    match p {
        None => {
            crate::elliptic::lemma_pair_refl(&f, q);
        },
        Some((px, py)) => match q {
            None => {
                crate::elliptic::lemma_pair_refl(&f, p);
            },
            Some((qx, qy)) => {
                if f.eqv(px, qx) {
                    lemma_sym(&f, px, qx);
                    lemma_add_comm(&f, py, qy);
                    lemma_add_closed(&f, py, qy);
                    lemma_add_closed(&f, qy, py);
                    if f.eqv(f.add_s(py, qy), z) {
                        lemma_sym(&f, f.add_s(py, qy), f.add_s(qy, py));
                        lemma_trans(&f, f.add_s(qy, py), f.add_s(py, qy), z);
                    } else {
                        if f.eqv(f.add_s(qy, py), z) {
                            lemma_trans(&f, f.add_s(py, qy), f.add_s(qy, py), z);
                        }
                        // Both tangents are at the same point: py ~ qy.
                        lemma_rhs_congruent(&f, a, b, px, qx);
                        lemma_mul_closed(&f, py, py);
                        lemma_mul_closed(&f, qy, qy);
                        crate::elliptic::lemma_rhs_member(&f, a, b, px);
                        crate::elliptic::lemma_rhs_member(&f, a, b, qx);
                        lemma_trans(&f, f.mul_s(py, py), curve_rhs(&f, a, b, px), curve_rhs(&f, a, b, qx));
                        lemma_sym(&f, f.mul_s(qy, qy), curve_rhs(&f, a, b, qx));
                        lemma_trans(&f, f.mul_s(py, py), curve_rhs(&f, a, b, qx), f.mul_s(qy, qy));
                        lemma_same_square(&f, py, qy);
                        let three = integer_image(&f, 3);
                        let two = integer_image(&f, 2);
                        lemma_image_member(&f, 3);
                        lemma_image_member(&f, 2);
                        lemma_refl(&f, three);
                        lemma_refl(&f, two);
                        lemma_refl(&f, a);
                        lemma_mul_closed(&f, three, px);
                        lemma_mul_closed(&f, three, qx);
                        lemma_mul_congruent(&f, three, three, px, qx);
                        lemma_mul_closed(&f, f.mul_s(three, px), px);
                        lemma_mul_closed(&f, f.mul_s(three, qx), qx);
                        lemma_mul_congruent(&f, f.mul_s(three, px), f.mul_s(three, qx), px, qx);
                        lemma_add_congruent(&f, f.mul_s(f.mul_s(three, px), px), f.mul_s(f.mul_s(three, qx), qx), a, a);
                        lemma_add_closed(&f, f.mul_s(f.mul_s(three, px), px), a);
                        lemma_add_closed(&f, f.mul_s(f.mul_s(three, qx), qx), a);
                        lemma_mul_congruent(&f, two, two, py, qy);
                        lemma_mul_closed(&f, two, py);
                        lemma_mul_closed(&f, two, qy);
                        lemma_through_congruent(
                            &f,
                            px,
                            py,
                            qx,
                            f.add_s(f.mul_s(f.mul_s(three, px), px), a),
                            f.mul_s(two, py),
                            qx,
                            qy,
                            px,
                            f.add_s(f.mul_s(f.mul_s(three, qx), qx), a),
                            f.mul_s(two, qy),
                        );
                    }
                } else {
                    if f.eqv(qx, px) {
                        lemma_sym(&f, qx, px);
                    }
                    lemma_chord_commutes(&f, px, py, qx, qy);
                }
            },
        },
    }
}

/// `(u + v)^2 = u^2 + 2uv + v^2`, with `u = s · t`.
proof fn lemma_square_sum(s: int, t: int, y: int)
    by (nonlinear_arith)
    ensures
        (s * t + y) * (s * t + y) == (s * s) * (t * t) + 2 * (s * y) * t + y * y,
{
}

/// `x^3 - z^3 + a(x - z) = (x - z)(x^2 + xz + z^2 + a)`.
proof fn lemma_cubic_difference(a: int, b: int, x: int, z: int)
    by (nonlinear_arith)
    ensures
        ((x * x) * x + a * x + b) - ((z * z) * z + a * z + b) == (x - z) * (x * x + x * z + z * z + a),
{
}

/// `s(z - x) = -(s(x - z))`.
proof fn lemma_mul_flip(s: int, x: int, z: int)
    by (nonlinear_arith)
    ensures
        s * (z - x) == 0 - s * (x - z),
{
}

/// The line of slope `s` through `(x1, y1)` meets the cubic again at `(x3, -y3)`
/// when `s^2 = x1 + x2 + x3`: the defect of `(x3, y3)` is the defect of `(x1, y1)`
/// plus `(x3 - x1)` times `s^2 (x3 - x1) + 2 s y1 - (x3^2 + x3 x1 + x1^2 + a)`.
proof fn lemma_third_defect(a: int, b: int, x1: int, y1: int, s: int, x3: int, y3: int) -> (bracket: int)
    requires
        y3 == s * (x1 - x3) - y1,
    ensures
        bracket == (s * s) * (x3 - x1) + 2 * (s * y1) - (x3 * x3 + x3 * x1 + x1 * x1 + a),
        y3 * y3 - ((x3 * x3) * x3 + a * x3 + b) == (y1 * y1 - ((x1 * x1) * x1 + a * x1 + b)) + (x3 - x1) * bracket,
{
    let t = x3 - x1;
    lemma_mul_flip(s, x1, x3);
    assert(y3 == 0 - (s * t + y1));
    lemma_square_sum(s, t, y1);
    assert(y3 * y3 == (s * t + y1) * (s * t + y1)) by (nonlinear_arith)
        requires
            y3 == 0 - (s * t + y1),
    ;
    lemma_cubic_difference(a, b, x3, x1);
    let bracket = (s * s) * t + 2 * (s * y1) - (x3 * x3 + x3 * x1 + x1 * x1 + a);
    assert(t * bracket == (s * s) * (t * t) + 2 * (s * y1) * t - t * (x3 * x3 + x3 * x1 + x1 * x1 + a)) by (nonlinear_arith)
        requires
            bracket == (s * s) * t + 2 * (s * y1) - (x3 * x3 + x3 * x1 + x1 * x1 + a),
    ;
    bracket
}

/// The tangent case: `s · 2y1 = 3x1^2 + a + rt`, `s^2 = x1 + x2 + x3` and `x2 = x1 + xd`
/// make the bracket of the third point `rt + xd · (x3 - x1)`.
proof fn lemma_tangent_bracket(a: int, x1: int, y1: int, x2: int, s: int, x3: int, rt: int, xd: int)
    by (nonlinear_arith)
    requires
        x3 == s * s - x1 - x2,
        rt == s * (2 * y1) - ((3 * x1) * x1 + a),
        xd == x2 - x1,
    ensures
        (s * s) * (x3 - x1) + 2 * (s * y1) - (x3 * x3 + x3 * x1 + x1 * x1 + a) == rt + xd * (x3 - x1),
{
}

/// The chord case: with `r = s (x2 - x1) - (y2 - y1)`, `s^2 = x1 + x2 + x3` and
/// `kp = s (y1 + y2) - (x1^2 + x1 x2 + x2^2) - a`, the bracket of the third point is
/// `kp + s r`.
#[verifier::rlimit(60)]
proof fn lemma_chord_bracket(a: int, x1: int, y1: int, x2: int, y2: int, s: int, x3: int, r: int, kp: int)
    by (nonlinear_arith)
    requires
        x3 == s * s - x1 - x2,
        r == s * (x2 - x1) - (y2 - y1),
        kp == s * (y1 + y2) - (x1 * x1 + x1 * x2 + x2 * x2) - a,
    ensures
        (s * s) * (x3 - x1) + 2 * (s * y1) - (x3 * x3 + x3 * x1 + x1 * x1 + a) == kp + s * r,
{
}

/// Over the integers modulo `m`: the chord through two points of the curve, of slope
/// `s = (y2 - y1) · w` with `w` an inverse of `x2 - x1`, meets it again at a point
/// whose reflection `(x3, y3)` is on the curve.
#[verifier::rlimit(60)]
proof fn lemma_chord_closed(
    a: int,
    b: int,
    x1: int,
    y1: int,
    x2: int,
    y2: int,
    w: int,
    m: int,
    k1: int,
    k2: int,
    k3: int,
    s: int,
    x3: int,
    y3: int,
) -> (k: int)
    requires
        y1 * y1 - ((x1 * x1) * x1 + a * x1 + b) == k1 * m,
        y2 * y2 - ((x2 * x2) * x2 + a * x2 + b) == k2 * m,
        (x2 - x1) * w - 1 == k3 * m,
        s == (y2 - y1) * w,
        x3 == s * s - x1 - x2,
        y3 == s * (x1 - x3) - y1,
    ensures
        y3 * y3 - ((x3 * x3) * x3 + a * x3 + b) == k * m,
{
    let u = x2 - x1;
    let t = x3 - x1;
    let r = s * u - (y2 - y1);
    let rk = (y2 - y1) * k3;
    assert(r == rk * m) by (nonlinear_arith)
        requires
            s == (y2 - y1) * w,
            r == s * u - (y2 - y1),
            u * w - 1 == k3 * m,
            rk == (y2 - y1) * k3,
    ;
    let kp = s * (y1 + y2) - (x1 * x1 + x1 * x2 + x2 * x2) - a;
    lemma_cubic_difference(a, b, x2, x1);
    let e1 = y1 * y1 - ((x1 * x1) * x1 + a * x1 + b);
    let e2 = y2 * y2 - ((x2 * x2) * x2 + a * x2 + b);
    let c2 = x2 * x2 + x2 * x1 + x1 * x1 + a;
    let su = s * u;
    assert(u * kp == su * (y1 + y2) - u * c2) by (nonlinear_arith)
        requires
            kp == s * (y1 + y2) - (x1 * x1 + x1 * x2 + x2 * x2) - a,
            c2 == x2 * x2 + x2 * x1 + x1 * x1 + a,
            su == s * u,
    ;
    assert(su * (y1 + y2) == r * (y1 + y2) + (y2 * y2 - y1 * y1)) by (nonlinear_arith)
        requires
            su == r + (y2 - y1),
    ;
    assert(u * kp == e2 - e1 + r * (y1 + y2)) by {
        assert(((x2 * x2) * x2 + a * x2 + b) - ((x1 * x1) * x1 + a * x1 + b) == u * c2);
    }
    // kp = w · (u · kp) - kp · (u · w - 1), and both terms are multiples of m
    let z = k2 - k1 + rk * (y1 + y2);
    assert(u * kp == z * m) by (nonlinear_arith)
        requires
            u * kp == e2 - e1 + r * (y1 + y2),
            e1 == k1 * m,
            e2 == k2 * m,
            r == rk * m,
            z == k2 - k1 + rk * (y1 + y2),
    ;
    assert(kp == w * (u * kp) - kp * (u * w - 1)) by (nonlinear_arith);
    assert(w * (u * kp) == (w * z) * m) by (nonlinear_arith)
        requires
            u * kp == z * m,
    ;
    assert(kp * (u * w - 1) == (kp * k3) * m) by (nonlinear_arith)
        requires
            u * w - 1 == k3 * m,
    ;
    let kk = w * z - kp * k3;
    assert(kp == kk * m) by (nonlinear_arith)
        requires
            kp == w * (u * kp) - kp * (u * w - 1),
            w * (u * kp) == (w * z) * m,
            kp * (u * w - 1) == (kp * k3) * m,
            kk == w * z - kp * k3,
    ;
    let bracket = lemma_third_defect(a, b, x1, y1, s, x3, y3);
    lemma_chord_bracket(a, x1, y1, x2, y2, s, x3, r, kp);
    let k = k1 + t * (kk + s * rk);
    assert(y3 * y3 - ((x3 * x3) * x3 + a * x3 + b) == k * m) by (nonlinear_arith)
        requires
            y3 * y3 - ((x3 * x3) * x3 + a * x3 + b) == e1 + t * bracket,
            e1 == k1 * m,
            bracket == kp + s * r,
            kp == kk * m,
            r == rk * m,
            k == k1 + t * (kk + s * rk),
    ;
    k
}

/// Over the integers modulo `m`: the tangent at a point of the curve, of slope
/// `s = (3 x1^2 + a) · w` with `w` an inverse of `2 y1`, meets it again at a point
/// whose reflection `(x3, y3)` is on the curve; `x2` is congruent to `x1`.
proof fn lemma_tangent_closed(
    a: int,
    b: int,
    x1: int,
    y1: int,
    x2: int,
    w: int,
    m: int,
    k1: int,
    k4: int,
    j: int,
    s: int,
    x3: int,
    y3: int,
) -> (k: int)
    requires
        y1 * y1 - ((x1 * x1) * x1 + a * x1 + b) == k1 * m,
        (2 * y1) * w - 1 == k4 * m,
        x1 - x2 == j * m,
        s == ((3 * x1) * x1 + a) * w,
        x3 == s * s - x1 - x2,
        y3 == s * (x1 - x3) - y1,
    ensures
        y3 * y3 - ((x3 * x3) * x3 + a * x3 + b) == k * m,
{
    let num = (3 * x1) * x1 + a;
    let t = x3 - x1;
    let rt = s * (2 * y1) - num;
    lemma_slope_relation(num, 2 * y1, w, k4, m);
    assert(rt == (num * k4) * m);
    let xd = x2 - x1;
    assert(xd == (0 - j) * m) by (nonlinear_arith)
        requires
            x1 - x2 == j * m,
            xd == x2 - x1,
    ;
    let bracket = lemma_third_defect(a, b, x1, y1, s, x3, y3);
    lemma_tangent_bracket(a, x1, y1, x2, s, x3, rt, xd);
    let e1 = y1 * y1 - ((x1 * x1) * x1 + a * x1 + b);
    let k = k1 + t * (num * k4 + (0 - j) * t);
    assert(y3 * y3 - ((x3 * x3) * x3 + a * x3 + b) == k * m) by (nonlinear_arith)
        requires
            y3 * y3 - ((x3 * x3) * x3 + a * x3 + b) == e1 + t * bracket,
            e1 == k1 * m,
            bracket == rt + xd * t,
            rt == (num * k4) * m,
            xd == (0 - j) * m,
            k == k1 + t * (num * k4 + (0 - j) * t),
    ;
    k
}

/// `num · w · den - num` is a multiple of `m` when `den · w - 1` is.
proof fn lemma_slope_relation(num: int, den: int, w: int, k: int, m: int)
    by (nonlinear_arith)
    requires
        den * w - 1 == k * m,
    ensures
        (num * w) * den - num == (num * k) * m,
{
}

/// Over the integers modulo `m`, the chord-and-tangent sum of two points of the curve
/// is the point at infinity or again a point of the curve.
///
/// No condition on `m` is needed: where a slope's denominator has no inverse, the sum
/// is the point at infinity.
pub proof fn lemma_curve_closed_mod(
    h: &Rc<Curve<Rc<QuotientRing<Integers>>>>,
    p: Option<(int, int)>,
    q: Option<(int, int)>,
)
    requires
        (*(**h).field_s()).base() == (Integers {}),
        on_curve_point(&(**h).field_s(), (**h).a_model(), (**h).b_model(), p),
        on_curve_point(&(**h).field_s(), (**h).a_model(), (**h).b_model(), q),
    ensures
        on_curve_point(&(**h).field_s(), (**h).a_model(), (**h).b_model(), h.add_s(p, q)),
{
    let f = (**h).field_s();
    let qr = *f;
    let z = qr.base();
    let m = qr.modulus_model();
    let a = (**h).a_model();
    let b = (**h).b_model();
    if let Some((x1, y1)) = p {
        if let Some((x2, y2)) = q {
            let rhs1 = curve_rhs(&f, a, b, x1);
            let rhs2 = curve_rhs(&f, a, b, x2);
            assert(qr.congruent(y1 * y1, rhs1));
            assert(qr.congruent(y2 * y2, rhs2));
            let k1 = choose|k: int| z.member(k) && z.eqv(z.sub_s(y1 * y1, rhs1), z.mul_s(k, m));
            let k2 = choose|k: int| z.member(k) && z.eqv(z.sub_s(y2 * y2, rhs2), z.mul_s(k, m));
            assert(y1 * y1 - ((x1 * x1) * x1 + a * x1 + b) == k1 * m);
            assert(y2 * y2 - ((x2 * x2) * x2 + a * x2 + b) == k2 * m);
            if f.eqv(x1, x2) {
                if !f.eqv(f.add_s(y1, y2), f.zero_s()) {
                    reveal_with_fuel(crate::laws::multiple, 4);
                    assert(integer_image(&f, 3) == 3);
                    assert(integer_image(&f, 2) == 2);
                    let num = (3 * x1) * x1 + a;
                    let den = 2 * y1;
                    if has_inverse(&f, den) {
                        let w = inverse_s(&f, den);
                        assert(qr.congruent(den * w, 1));
                        let k4 = choose|k: int| z.member(k) && z.eqv(z.sub_s(den * w, 1), z.mul_s(k, m));
                        let j = choose|k: int| z.member(k) && z.eqv(z.sub_s(x1, x2), z.mul_s(k, m));
                        let sl = num * w;
                        let (x3, y3) = third_point(&f, x1, y1, x2, sl);
                        let k = lemma_tangent_closed(a, b, x1, y1, x2, w, m, k1, k4, j, sl, x3, y3);
                        assert(z.member(k) && z.eqv(z.sub_s(y3 * y3, curve_rhs(&f, a, b, x3)), z.mul_s(k, m)));
                    }
                }
            } else {
                let den = x2 - x1;
                if has_inverse(&f, den) {
                    let w = inverse_s(&f, den);
                    assert(qr.congruent(den * w, 1));
                    let k3 = choose|k: int| z.member(k) && z.eqv(z.sub_s(den * w, 1), z.mul_s(k, m));
                    let sl = (y2 - y1) * w;
                    let (x3, y3) = third_point(&f, x1, y1, x2, sl);
                    let k = lemma_chord_closed(a, b, x1, y1, x2, y2, w, m, k1, k2, k3, sl, x3, y3);
                    assert(z.member(k) && z.eqv(z.sub_s(y3 * y3, curve_rhs(&f, a, b, x3)), z.mul_s(k, m)));
                }
            }
        }
    }
}

/// `pair_eqv` is symmetric and transitive on members.
pub proof fn lemma_pair_sym_trans<F: Field>(f: &F, p: Option<(F::M, F::M)>, q: Option<(F::M, F::M)>, r: Option<(F::M, F::M)>)
    requires
        field_laws(f),
        pair_member(f, p),
        pair_member(f, q),
        pair_member(f, r),
    ensures
        pair_eqv(f, p, q) ==> pair_eqv(f, q, p),
        pair_eqv(f, p, q) && pair_eqv(f, q, r) ==> pair_eqv(f, p, r),
{
    lemma_field_parts(f);
    lemma_ring_parts(f);
    reveal(equivalence);
}

/// What `through` gives is a pair of members, or the point at infinity.
proof fn lemma_through_member<F: Field>(f: &F, px: F::M, py: F::M, qx: F::M, num: F::M, den: F::M)
    requires
        field_laws(f),
        f.member(px),
        f.member(py),
        f.member(qx),
        f.member(num),
        f.member(den),
    ensures
        pair_member(f, through(f, px, py, qx, num, den)),
{
    lemma_field_parts(f);
    lemma_ring_parts(f);
    if has_inverse(f, den) {
        let i = inverse_s(f, den);
        assert(f.member(i));
        lemma_mul_closed(f, num, i);
        let s = f.mul_s(num, i);
        lemma_refl(f, px);
        lemma_refl(f, py);
        lemma_refl(f, qx);
        lemma_refl(f, s);
        lemma_third_congruent(f, px, py, qx, s, px, py, qx, s);
    }
}

/// The chord-and-tangent sum respects equality of the two points, and its result
/// is a pair of members or the point at infinity.
pub proof fn lemma_chord_tangent_congruent<F: Field>(
    f: &F,
    a: F::M,
    p: Option<(F::M, F::M)>,
    q: Option<(F::M, F::M)>,
    p2: Option<(F::M, F::M)>,
    q2: Option<(F::M, F::M)>,
)
    requires
        field_laws(f),
        f.member(a),
        pair_member(f, p),
        pair_member(f, q),
        pair_member(f, p2),
        pair_member(f, q2),
        pair_eqv(f, p, p2),
        pair_eqv(f, q, q2),
    ensures
        pair_member(f, chord_tangent(f, a, p, q)),
        pair_eqv(f, chord_tangent(f, a, p, q), chord_tangent(f, a, p2, q2)),
{
    lemma_field_parts(f);
    lemma_ring_parts(f);
    reveal(equivalence);
    if let Some((px, py)) = p {
        if let Some((qx, qy)) = q {
            let (px2, py2) = p2->0;
            let (qx2, qy2) = q2->0;
            let z = f.zero_s();
            assert(f.eqv(px, qx) == f.eqv(px2, qx2));
            if f.eqv(px, qx) {
                lemma_add_closed(f, py, qy);
                lemma_add_closed(f, py2, qy2);
                lemma_add_congruent(f, py, py2, qy, qy2);
                assert(f.eqv(f.add_s(py, qy), z) == f.eqv(f.add_s(py2, qy2), z));
                if !f.eqv(f.add_s(py, qy), z) {
                    let three = integer_image(f, 3);
                    let two = integer_image(f, 2);
                    lemma_image_member(f, 3);
                    lemma_image_member(f, 2);
                    lemma_refl(f, three);
                    lemma_refl(f, two);
                    lemma_refl(f, a);
                    lemma_mul_closed(f, three, px);
                    lemma_mul_closed(f, three, px2);
                    lemma_mul_congruent(f, three, three, px, px2);
                    lemma_mul_closed(f, f.mul_s(three, px), px);
                    lemma_mul_closed(f, f.mul_s(three, px2), px2);
                    lemma_mul_congruent(f, f.mul_s(three, px), f.mul_s(three, px2), px, px2);
                    let num = f.add_s(f.mul_s(f.mul_s(three, px), px), a);
                    let num2 = f.add_s(f.mul_s(f.mul_s(three, px2), px2), a);
                    lemma_add_closed(f, f.mul_s(f.mul_s(three, px), px), a);
                    lemma_add_closed(f, f.mul_s(f.mul_s(three, px2), px2), a);
                    lemma_add_congruent(f, f.mul_s(f.mul_s(three, px), px), f.mul_s(f.mul_s(three, px2), px2), a, a);
                    lemma_mul_closed(f, two, py);
                    lemma_mul_closed(f, two, py2);
                    lemma_mul_congruent(f, two, two, py, py2);
                    lemma_through_congruent(f, px, py, qx, num, f.mul_s(two, py), px2, py2, qx2, num2, f.mul_s(two, py2));
                    lemma_through_member(f, px, py, qx, num, f.mul_s(two, py));
                }
            } else {
                lemma_sub_closed(f, qy, py);
                lemma_sub_closed(f, qy2, py2);
                lemma_sub_closed(f, qx, px);
                lemma_sub_closed(f, qx2, px2);
                lemma_sub_congruent(f, qy, qy2, py, py2);
                lemma_sub_congruent(f, qx, qx2, px, px2);
                lemma_through_congruent(
                    f,
                    px,
                    py,
                    qx,
                    f.sub_s(qy, py),
                    f.sub_s(qx, px),
                    px2,
                    py2,
                    qx2,
                    f.sub_s(qy2, py2),
                    f.sub_s(qx2, px2),
                );
                lemma_through_member(f, px, py, qx, f.sub_s(qy, py), f.sub_s(qx, px));
            }
        }
    }
}

/// Double-and-add respects equality of the running sum and of the addend.
pub proof fn lemma_ladder_congruent<F: Field>(
    f: &F,
    a: F::M,
    acc: Option<(F::M, F::M)>,
    addend: Option<(F::M, F::M)>,
    acc2: Option<(F::M, F::M)>,
    addend2: Option<(F::M, F::M)>,
    m: nat,
)
    requires
        field_laws(f),
        f.member(a),
        pair_member(f, acc),
        pair_member(f, addend),
        pair_member(f, acc2),
        pair_member(f, addend2),
        pair_eqv(f, acc, acc2),
        pair_eqv(f, addend, addend2),
    ensures
        pair_member(f, ladder(f, a, acc, addend, m)),
        pair_eqv(f, ladder(f, a, acc, addend, m), ladder(f, a, acc2, addend2, m)),
    decreases m,
{
    if m > 0 {
        lemma_chord_tangent_congruent(f, a, acc, addend, acc2, addend2);
        lemma_chord_tangent_congruent(f, a, addend, addend, addend2, addend2);
        lemma_pair_refl(f, acc2);
        lemma_pair_refl(f, addend2);
        lemma_chord_tangent_congruent(f, a, acc2, addend2, acc2, addend2);
        lemma_chord_tangent_congruent(f, a, addend2, addend2, addend2, addend2);
        let n1 = if m % 2 == 1 { chord_tangent(f, a, acc, addend) } else { acc };
        let n2 = if m % 2 == 1 { chord_tangent(f, a, acc2, addend2) } else { acc2 };
        if m / 2 > 0 {
            lemma_ladder_congruent(
                f,
                a,
                n1,
                chord_tangent(f, a, addend, addend),
                n2,
                chord_tangent(f, a, addend2, addend2),
                m / 2,
            );
        }
    }
}

/// The multiples that `Curve::multiply` computes: `0 · p` is the point at infinity,
/// `1 · p` is `p`, `2 · p` is `p + p`, `(-n) · p` is `-(n · p)` for every `n` (the
/// same pair for `n > 0`, an equal one for `n < 0`, whose `y` is negated twice), and
/// `n · p` plus `(-n) · p` is the point at infinity.
pub proof fn lemma_curve_multiple_facts<F: Field>(h: &Rc<Curve<F>>, p: Option<(F::M, F::M)>, n: int)
    requires
        h.wf(),
        h.sound(),
        h.member(p),
    ensures
        curve_multiple(&(**h).field_s(), (**h).a_model(), 0, p) == h.zero_s(),
        curve_multiple(&(**h).field_s(), (**h).a_model(), 1, p) == p,
        curve_multiple(&(**h).field_s(), (**h).a_model(), 2, p) == h.add_s(p, p),
        n > 0 ==> curve_multiple(&(**h).field_s(), (**h).a_model(), -n, p) == negate(
            &(**h).field_s(),
            curve_multiple(&(**h).field_s(), (**h).a_model(), n, p),
        ),
        h.eqv(
            curve_multiple(&(**h).field_s(), (**h).a_model(), -n, p),
            negate(&(**h).field_s(), curve_multiple(&(**h).field_s(), (**h).a_model(), n, p)),
        ),
        h.add_s(
            curve_multiple(&(**h).field_s(), (**h).a_model(), n, p),
            curve_multiple(&(**h).field_s(), (**h).a_model(), -n, p),
        ) == h.zero_s(),
{
    let f = (**h).field_s();
    let a = (**h).a_model();
    lemma_field_parts(&f);
    f.lemma_valid_member((**h).a_s());
    assert(ladder(&f, a, None, p, 1) == chord_tangent(&f, a, None, p));
    assert(ladder(&f, a, None, chord_tangent(&f, a, p, p), 1) == chord_tangent(&f, a, None, chord_tangent(&f, a, p, p)));
    lemma_pair_refl(&f, p);
    let m = if n < 0 { -n } else { n };
    lemma_ladder_congruent(&f, a, None, p, None, p, m as nat);
    let x = curve_multiple(&f, a, m, p);
    if n <= 0 {
        // (-n) · p is x, and n · p is -x, so -(n · p) is x with y negated twice
        lemma_pair_refl(&f, x);
        if let Some((x0, y0)) = x {
            lemma_ring_parts(&f);
            lemma_neg_neg(&f, y0);
            lemma_refl(&f, x0);
            crate::laws::lemma_sub_closed(&f, f.zero_s(), y0);
            crate::laws::lemma_sub_closed(&f, f.zero_s(), f.sub_s(f.zero_s(), y0));
            lemma_sym(&f, f.sub_s(f.zero_s(), f.sub_s(f.zero_s(), y0)), y0);
        }
    } else {
        crate::elliptic::lemma_negate_member(&f, x);
        lemma_pair_refl(&f, negate(&f, x));
    }
    if n != 0 {
        lemma_curve_inverse(h, x);
        if n < 0 {
            // (-x) + x: the y coordinates (0 - y) + y add up to zero
            if let Some((x0, y0)) = x {
                lemma_ring_parts(&f);
                lemma_refl(&f, x0);
                lemma_sub_add(&f, f.zero_s(), y0);
            }
        }
    }
}

} // verus!
