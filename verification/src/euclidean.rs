//! The extended Euclidean algorithm, over any `EuclideanDomain`, and the existence of
//! Bezout coefficients for a greatest common divisor wherever division can always be
//! carried out.

use crate::laws::{
    additive_laws, commutative_laws, equivalence, euclidean_laws, group_laws, lemma_division,
    lemma_euclidean_parts, lemma_ring_parts, lemma_sub_add_sub, lemma_sub_mul, ring_laws,
    semigroup_laws,
};
use crate::structures::{
    AdditiveGroup, CommutativeMonoid, DecidableEq, Domain, EuclideanDomain, Monoid, Semigroup,
};
use vstd::prelude::*;

verus! {

/// Whether `s · a + t · b ~ g`.
pub open spec fn bezout<D: EuclideanDomain>(d: &D, a: D::M, b: D::M, s: D::M, t: D::M, g: D::M) -> bool {
    d.eqv(d.add_s(d.mul_s(s, a), d.mul_s(t, b)), g)
}

/// One step of the algorithm keeps the Bezout relation: from `old_s·a + old_t·b ~ old_r`,
/// `s·a + t·b ~ r` and `old_r ~ q·r + new_r`, the new coefficients
/// `old_s - q·s` and `old_t - q·t` give `new_r`.
proof fn lemma_bezout_step<D: EuclideanDomain>(
    d: &D,
    a: D::M,
    b: D::M,
    old_s: D::M,
    s: D::M,
    old_t: D::M,
    t: D::M,
    q: D::M,
    old_r: D::M,
    r: D::M,
    new_r: D::M,
)
    requires
        euclidean_laws(d),
        d.member(a),
        d.member(b),
        d.member(old_s),
        d.member(s),
        d.member(old_t),
        d.member(t),
        d.member(q),
        d.member(old_r),
        d.member(r),
        d.member(new_r),
        bezout(d, a, b, old_s, old_t, old_r),
        bezout(d, a, b, s, t, r),
        d.eqv(old_r, d.add_s(d.mul_s(q, r), new_r)),
    ensures
        bezout(d, a, b, d.sub_s(old_s, d.mul_s(q, s)), d.sub_s(old_t, d.mul_s(q, t)), new_r),
{
    lemma_euclidean_parts(d);
    lemma_ring_parts(d);
    reveal(ring_laws);
    reveal(group_laws);
    reveal(additive_laws);
    reveal(semigroup_laws);
    reveal(equivalence);
    let qs = d.mul_s(q, s);
    let qt = d.mul_s(q, t);
    let sa = d.mul_s(s, a);
    let tb = d.mul_s(t, b);
    let osa = d.mul_s(old_s, a);
    let otb = d.mul_s(old_t, b);
    lemma_sub_mul(d, old_s, qs, a);
    lemma_sub_mul(d, old_t, qt, b);
    let x = d.sub_s(osa, d.mul_s(qs, a));
    let y = d.sub_s(otb, d.mul_s(qt, b));
    // lhs ~ x + y
    assert(d.eqv(
        d.add_s(d.mul_s(d.sub_s(old_s, qs), a), d.mul_s(d.sub_s(old_t, qt), b)),
        d.add_s(x, y),
    ));
    // x + y ~ (osa + otb) - (qs·a + qt·b)
    lemma_sub_add_sub(d, osa, d.mul_s(qs, a), otb, d.mul_s(qt, b));
    // qs·a ~ q·(s·a), qt·b ~ q·(t·b)
    assert(d.eqv(d.mul_s(qs, a), d.mul_s(q, sa)));
    assert(d.eqv(d.mul_s(qt, b), d.mul_s(q, tb)));
    assert(d.eqv(
        d.add_s(d.mul_s(qs, a), d.mul_s(qt, b)),
        d.add_s(d.mul_s(q, sa), d.mul_s(q, tb)),
    ));
    // q·(sa + tb) ~ q·sa + q·tb ~ q·r
    assert(d.eqv(d.mul_s(q, d.add_s(sa, tb)), d.add_s(d.mul_s(q, sa), d.mul_s(q, tb))));
    assert(d.eqv(d.mul_s(q, d.add_s(sa, tb)), d.mul_s(q, r)));
    assert(d.eqv(d.add_s(d.mul_s(qs, a), d.mul_s(qt, b)), d.mul_s(q, r)));
    // (osa + otb) - (...) ~ old_r - q·r
    assert(d.eqv(
        d.sub_s(d.add_s(osa, otb), d.add_s(d.mul_s(qs, a), d.mul_s(qt, b))),
        d.sub_s(old_r, d.mul_s(q, r)),
    ));
    // new_r ~ old_r - q·r
    assert(d.eqv(d.add_s(new_r, d.mul_s(q, r)), d.add_s(d.mul_s(q, r), new_r)));
    assert(d.eqv(d.add_s(new_r, d.mul_s(q, r)), old_r));
    crate::laws::lemma_sub_unique(d, new_r, old_r, d.mul_s(q, r));
    assert(d.eqv(d.add_s(x, y), d.sub_s(old_r, d.mul_s(q, r))));
}

/// `c` divides `a`: `a ~ k · c` for some `k`.
pub open spec fn divides<D: EuclideanDomain>(d: &D, c: D::M, a: D::M) -> bool {
    exists|k: D::M| d.member(k) && d.eqv(a, d.mul_s(k, c))
}

/// `u` has a multiplicative inverse.
pub open spec fn is_unit<D: EuclideanDomain>(d: &D, u: D::M) -> bool {
    exists|c: D::M| d.member(c) && d.eqv(d.mul_s(u, c), d.one_s())
}

/// Every common divisor of `x` and `y` divides `a` and `b`.
pub open spec fn common_divisors_divide<D: EuclideanDomain>(
    d: &D,
    x: D::M,
    y: D::M,
    a: D::M,
    b: D::M,
) -> bool {
    forall|c: D::M|
        #![trigger divides(d, c, x), divides(d, c, y)]
        d.member(c) && divides(d, c, x) && divides(d, c, y) ==> divides(d, c, a) && divides(
            d,
            c,
            b,
        )
}

/// A common divisor of `r` and `nr` divides `or ~ q·r + nr`.
proof fn lemma_divides_combination<D: EuclideanDomain>(
    d: &D,
    c: D::M,
    q: D::M,
    r: D::M,
    nr: D::M,
    or: D::M,
)
    requires
        euclidean_laws(d),
        d.member(c),
        d.member(q),
        d.member(r),
        d.member(nr),
        d.member(or),
        divides(d, c, r),
        divides(d, c, nr),
        d.eqv(or, d.add_s(d.mul_s(q, r), nr)),
    ensures
        divides(d, c, or),
{
    lemma_euclidean_parts(d);
    lemma_ring_parts(d);
    let k1 = choose|k: D::M| d.member(k) && d.eqv(r, d.mul_s(k, c));
    let k2 = choose|k: D::M| d.member(k) && d.eqv(nr, d.mul_s(k, c));
    reveal(ring_laws);
    reveal(group_laws);
    reveal(additive_laws);
    reveal(semigroup_laws);
    reveal(equivalence);
    let qk = d.mul_s(q, k1);
    assert(d.member(d.mul_s(k1, c)));
    assert(d.member(d.mul_s(k2, c)));
    assert(d.member(qk));
    assert(d.member(d.mul_s(qk, c)));
    assert(d.member(d.mul_s(q, r)));
    assert(d.member(d.mul_s(q, d.mul_s(k1, c))));
    assert(d.eqv(d.mul_s(q, r), d.mul_s(q, d.mul_s(k1, c))));
    assert(d.eqv(d.mul_s(qk, c), d.mul_s(q, d.mul_s(k1, c))));
    assert(d.eqv(d.mul_s(q, r), d.mul_s(qk, c)));
    assert(d.eqv(d.add_s(d.mul_s(q, r), nr), d.add_s(d.mul_s(qk, c), d.mul_s(k2, c))));
    assert(d.eqv(d.mul_s(d.add_s(qk, k2), c), d.add_s(d.mul_s(qk, c), d.mul_s(k2, c))));
    assert(d.member(d.add_s(qk, k2)));
    assert(d.eqv(or, d.mul_s(d.add_s(qk, k2), c)));
}

/// A common divisor of `a` and `b` divides every combination `s · a + t · b`.
proof fn lemma_divides_bezout<D: EuclideanDomain>(d: &D, a: D::M, b: D::M, s: D::M, t: D::M, g: D::M, c: D::M)
    requires
        euclidean_laws(d),
        d.member(a),
        d.member(b),
        d.member(s),
        d.member(t),
        d.member(g),
        d.member(c),
        bezout(d, a, b, s, t, g),
        divides(d, c, a),
        divides(d, c, b),
    ensures
        divides(d, c, g),
{
    lemma_euclidean_parts(d);
    lemma_ring_parts(d);
    let k1 = choose|k: D::M| d.member(k) && d.eqv(a, d.mul_s(k, c));
    let k2 = choose|k: D::M| d.member(k) && d.eqv(b, d.mul_s(k, c));
    reveal(ring_laws);
    reveal(group_laws);
    reveal(additive_laws);
    reveal(semigroup_laws);
    reveal(equivalence);
    let sk = d.mul_s(s, k1);
    let tk = d.mul_s(t, k2);
    assert(d.member(d.mul_s(k1, c)));
    assert(d.member(d.mul_s(k2, c)));
    assert(d.member(sk));
    assert(d.member(tk));
    assert(d.member(d.mul_s(sk, c)));
    assert(d.member(d.mul_s(tk, c)));
    assert(d.member(d.mul_s(s, a)));
    assert(d.member(d.mul_s(t, b)));
    assert(d.member(d.mul_s(s, d.mul_s(k1, c))));
    assert(d.member(d.mul_s(t, d.mul_s(k2, c))));
    assert(d.eqv(d.mul_s(s, a), d.mul_s(s, d.mul_s(k1, c))));
    assert(d.eqv(d.mul_s(sk, c), d.mul_s(s, d.mul_s(k1, c))));
    assert(d.eqv(d.mul_s(s, a), d.mul_s(sk, c)));
    assert(d.eqv(d.mul_s(t, b), d.mul_s(t, d.mul_s(k2, c))));
    assert(d.eqv(d.mul_s(tk, c), d.mul_s(t, d.mul_s(k2, c))));
    assert(d.eqv(d.mul_s(t, b), d.mul_s(tk, c)));
    assert(d.eqv(d.add_s(d.mul_s(s, a), d.mul_s(t, b)), d.add_s(d.mul_s(sk, c), d.mul_s(tk, c))));
    assert(d.eqv(d.mul_s(d.add_s(sk, tk), c), d.add_s(d.mul_s(sk, c), d.mul_s(tk, c))));
    assert(d.member(d.add_s(sk, tk)));
    assert(d.member(d.mul_s(d.add_s(sk, tk), c)));
    assert(d.eqv(g, d.mul_s(d.add_s(sk, tk), c)));
}

/// One division step keeps the common divisors: from `or ~ q·r + nr`, every common
/// divisor of `r` and `nr` is one of `or` and `r`.
proof fn lemma_common_step<D: EuclideanDomain>(
    d: &D,
    a: D::M,
    b: D::M,
    or: D::M,
    r: D::M,
    q: D::M,
    nr: D::M,
)
    requires
        euclidean_laws(d),
        d.member(q),
        d.member(r),
        d.member(nr),
        d.member(or),
        d.eqv(or, d.add_s(d.mul_s(q, r), nr)),
        common_divisors_divide(d, or, r, a, b),
    ensures
        common_divisors_divide(d, r, nr, a, b),
{
    assert forall|c: D::M|
        d.member(c) && divides(d, c, r) && divides(d, c, nr) implies divides(d, c, a) && divides(
        d,
        c,
        b,
    ) by {
        lemma_divides_combination(d, c, q, r, nr, or);
    }
}

/// When the remainder reaches zero, `or` divides `a` and `b`.
proof fn lemma_common_end<D: EuclideanDomain>(d: &D, a: D::M, b: D::M, or: D::M, r: D::M)
    requires
        euclidean_laws(d),
        d.member(or),
        d.member(r),
        d.eqv(r, d.zero_s()),
        common_divisors_divide(d, or, r, a, b),
    ensures
        divides(d, or, a),
        divides(d, or, b),
{
    lemma_euclidean_parts(d);
    lemma_ring_parts(d);
    crate::laws::lemma_zero_mul(d, or);
    crate::laws::lemma_mul_one(d, or);
    crate::laws::lemma_mul_closed(d, d.one_s(), or);
    crate::laws::lemma_mul_closed(d, d.zero_s(), or);
    crate::laws::lemma_sym(d, d.mul_s(d.one_s(), or), or);
    crate::laws::lemma_sym(d, d.mul_s(d.zero_s(), or), d.zero_s());
    crate::laws::lemma_trans(d, r, d.zero_s(), d.mul_s(d.zero_s(), or));
    assert(divides(d, or, or));
    assert(divides(d, or, r));
}

/// From `g · u ~ or`, whatever `or` divides, `g` divides.
proof fn lemma_divides_through<D: EuclideanDomain>(d: &D, or: D::M, g: D::M, u: D::M, x: D::M)
    requires
        euclidean_laws(d),
        d.member(or),
        d.member(g),
        d.member(u),
        d.member(x),
        d.eqv(d.mul_s(g, u), or),
        divides(d, or, x),
    ensures
        divides(d, g, x),
{
    use_laws(d);
    let k = choose|k: D::M| d.member(k) && d.eqv(x, d.mul_s(k, or));
    crate::laws::lemma_mul_closed(d, g, u);
    crate::laws::lemma_mul_closed(d, u, g);
    crate::laws::lemma_mul_closed(d, k, u);
    crate::laws::lemma_mul_closed(d, k, or);
    crate::laws::lemma_mul_closed(d, k, d.mul_s(g, u));
    crate::laws::lemma_mul_closed(d, k, d.mul_s(u, g));
    crate::laws::lemma_mul_closed(d, d.mul_s(k, u), g);
    crate::laws::lemma_refl(d, k);
    crate::laws::lemma_sym(d, d.mul_s(g, u), or);
    crate::laws::lemma_mul_congruent(d, k, k, or, d.mul_s(g, u));
    crate::laws::lemma_mul_comm(d, g, u);
    crate::laws::lemma_mul_congruent(d, k, k, d.mul_s(g, u), d.mul_s(u, g));
    crate::laws::lemma_mul_assoc(d, k, u, g);
    crate::laws::lemma_sym(d, d.mul_s(d.mul_s(k, u), g), d.mul_s(k, d.mul_s(u, g)));
    crate::laws::lemma_trans(d, x, d.mul_s(k, or), d.mul_s(k, d.mul_s(g, u)));
    crate::laws::lemma_trans(d, x, d.mul_s(k, d.mul_s(g, u)), d.mul_s(k, d.mul_s(u, g)));
    crate::laws::lemma_trans(d, x, d.mul_s(k, d.mul_s(u, g)), d.mul_s(d.mul_s(k, u), g));
}

/// The laws that the lemmas of this module rely on.
proof fn use_laws<D: EuclideanDomain>(d: &D)
    requires
        euclidean_laws(d),
    ensures
        ring_laws(d),
        commutative_laws(d),
        semigroup_laws(d),
        group_laws(d),
        additive_laws(d),
        crate::laws::monoid_laws(d),
        equivalence(d),
        d.member(d.one_s()),
        d.member(d.zero_s()),
{
    lemma_euclidean_parts(d);
    lemma_ring_parts(d);
}

/// The normalised gcd `g ~ or · ui` still divides `a` and `b`, and is one when it is a
/// unit.
proof fn lemma_gcd_normalised<D: EuclideanDomain>(
    d: &D,
    a: D::M,
    b: D::M,
    or: D::M,
    u: D::M,
    ui: D::M,
    g: D::M,
)
    requires
        euclidean_laws(d),
        d.member(a),
        d.member(b),
        d.member(or),
        d.member(u),
        d.member(ui),
        d.member(g),
        divides(d, or, a),
        divides(d, or, b),
        d.eqv(u, d.unit_part_s(or)),
        d.eqv(ui, d.unit_inverse_s(u)),
        d.eqv(g, d.mul_s(or, ui)),
    ensures
        divides(d, g, a),
        divides(d, g, b),
        is_unit(d, g) ==> d.eqv(g, d.one_s()),
{
    use_laws(d);
    crate::laws::lemma_unit_part_inverse(d, or, u);
    let iu = d.unit_inverse_s(u);
    let one = d.one_s();
    let oui = d.mul_s(or, ui);
    crate::laws::lemma_mul_closed(d, ui, u);
    crate::laws::lemma_mul_closed(d, iu, u);
    crate::laws::lemma_mul_closed(d, or, ui);
    crate::laws::lemma_mul_closed(d, g, u);
    crate::laws::lemma_mul_closed(d, oui, u);
    crate::laws::lemma_mul_closed(d, or, d.mul_s(ui, u));
    crate::laws::lemma_mul_closed(d, or, one);
    crate::laws::lemma_mul_closed(d, or, iu);
    crate::laws::lemma_refl(d, u);
    crate::laws::lemma_refl(d, or);
    // ui · u ~ 1
    crate::laws::lemma_mul_congruent(d, ui, iu, u, u);
    crate::laws::lemma_trans(d, d.mul_s(ui, u), d.mul_s(iu, u), one);
    // g · u ~ (or · ui) · u ~ or · (ui · u) ~ or · 1 ~ or
    crate::laws::lemma_mul_congruent(d, g, oui, u, u);
    crate::laws::lemma_mul_assoc(d, or, ui, u);
    crate::laws::lemma_mul_congruent(d, or, or, d.mul_s(ui, u), one);
    crate::laws::lemma_mul_one(d, or);
    crate::laws::lemma_trans(d, d.mul_s(g, u), d.mul_s(oui, u), d.mul_s(or, d.mul_s(ui, u)));
    crate::laws::lemma_trans(d, d.mul_s(g, u), d.mul_s(or, d.mul_s(ui, u)), d.mul_s(or, one));
    crate::laws::lemma_trans(d, d.mul_s(g, u), d.mul_s(or, one), or);
    lemma_divides_through(d, or, g, u, a);
    lemma_divides_through(d, or, g, u, b);
    if is_unit(d, g) {
        let c = choose|c: D::M| d.member(c) && d.eqv(d.mul_s(g, c), one);
        crate::laws::lemma_mul_closed(d, ui, c);
        crate::laws::lemma_mul_closed(d, oui, c);
        crate::laws::lemma_mul_closed(d, g, c);
        crate::laws::lemma_mul_closed(d, or, d.mul_s(ui, c));
        crate::laws::lemma_refl(d, c);
        // or · (ui · c) ~ (or · ui) · c ~ g · c ~ 1
        crate::laws::lemma_mul_assoc(d, or, ui, c);
        crate::laws::lemma_sym(d, d.mul_s(oui, c), d.mul_s(or, d.mul_s(ui, c)));
        crate::laws::lemma_sym(d, g, oui);
        crate::laws::lemma_mul_congruent(d, oui, g, c, c);
        crate::laws::lemma_trans(d, d.mul_s(or, d.mul_s(ui, c)), d.mul_s(oui, c), d.mul_s(g, c));
        crate::laws::lemma_trans(d, d.mul_s(or, d.mul_s(ui, c)), d.mul_s(g, c), one);
        crate::laws::lemma_unit_normal(d, or, d.mul_s(ui, c), u);
        // g ~ or · ui ~ or · iu ~ 1
        crate::laws::lemma_mul_congruent(d, or, or, ui, iu);
        crate::laws::lemma_trans(d, g, oui, d.mul_s(or, iu));
        crate::laws::lemma_trans(d, g, d.mul_s(or, iu), one);
    }
}

/// Scaling a Bezout relation by `u` on the right keeps it, in a commutative ring.
pub proof fn lemma_bezout_scale<D: EuclideanDomain>(
    d: &D,
    a: D::M,
    b: D::M,
    s: D::M,
    t: D::M,
    g: D::M,
    u: D::M,
)
    requires
        euclidean_laws(d),
        d.member(a),
        d.member(b),
        d.member(s),
        d.member(t),
        d.member(g),
        d.member(u),
        bezout(d, a, b, s, t, g),
    ensures
        bezout(d, a, b, d.mul_s(s, u), d.mul_s(t, u), d.mul_s(g, u)),
{
    lemma_euclidean_parts(d);
    lemma_ring_parts(d);
    reveal(ring_laws);
    reveal(group_laws);
    reveal(additive_laws);
    reveal(semigroup_laws);
    reveal(commutative_laws);
    reveal(equivalence);
    let su = d.mul_s(s, u);
    let tu = d.mul_s(t, u);
    // (s·u)·a ~ s·(u·a) ~ s·(a·u) ~ (s·a)·u
    assert(d.eqv(d.mul_s(su, a), d.mul_s(s, d.mul_s(u, a))));
    assert(d.eqv(d.mul_s(u, a), d.mul_s(a, u)));
    assert(d.eqv(d.mul_s(s, d.mul_s(u, a)), d.mul_s(s, d.mul_s(a, u))));
    assert(d.eqv(d.mul_s(d.mul_s(s, a), u), d.mul_s(s, d.mul_s(a, u))));
    assert(d.eqv(d.mul_s(su, a), d.mul_s(d.mul_s(s, a), u)));
    assert(d.eqv(d.mul_s(tu, b), d.mul_s(t, d.mul_s(u, b))));
    assert(d.eqv(d.mul_s(u, b), d.mul_s(b, u)));
    assert(d.eqv(d.mul_s(t, d.mul_s(u, b)), d.mul_s(t, d.mul_s(b, u))));
    assert(d.eqv(d.mul_s(d.mul_s(t, b), u), d.mul_s(t, d.mul_s(b, u))));
    assert(d.eqv(d.mul_s(tu, b), d.mul_s(d.mul_s(t, b), u)));
    let sa = d.mul_s(s, a);
    let tb = d.mul_s(t, b);
    assert(d.eqv(d.add_s(d.mul_s(su, a), d.mul_s(tu, b)), d.add_s(d.mul_s(sa, u), d.mul_s(tb, u))));
    assert(d.eqv(d.mul_s(d.add_s(sa, tb), u), d.add_s(d.mul_s(sa, u), d.mul_s(tb, u))));
    assert(d.eqv(d.mul_s(d.add_s(sa, tb), u), d.mul_s(g, u)));
}

/// A Bezout relation carries over to equivalent coefficients and result.
pub proof fn lemma_bezout_congruent<D: EuclideanDomain>(
    d: &D,
    a: D::M,
    b: D::M,
    s: D::M,
    t: D::M,
    g: D::M,
    s2: D::M,
    t2: D::M,
    g2: D::M,
)
    requires
        euclidean_laws(d),
        d.member(a),
        d.member(b),
        d.member(s),
        d.member(t),
        d.member(g),
        d.member(s2),
        d.member(t2),
        d.member(g2),
        d.eqv(s, s2),
        d.eqv(t, t2),
        d.eqv(g, g2),
        bezout(d, a, b, s, t, g),
    ensures
        bezout(d, a, b, s2, t2, g2),
{
    lemma_euclidean_parts(d);
    lemma_ring_parts(d);
    reveal(ring_laws);
    reveal(group_laws);
    reveal(additive_laws);
    reveal(semigroup_laws);
    reveal(equivalence);
    assert(d.eqv(d.mul_s(s, a), d.mul_s(s2, a)));
    assert(d.eqv(d.mul_s(t, b), d.mul_s(t2, b)));
    assert(d.eqv(d.add_s(d.mul_s(s, a), d.mul_s(t, b)), d.add_s(d.mul_s(s2, a), d.mul_s(t2, b))));
}

/// The starting coefficients: `1·a + 0·b ~ a` and `0·a + 1·b ~ b`.
proof fn lemma_bezout_start<D: EuclideanDomain>(d: &D, a: D::M, b: D::M, o: D::M, z: D::M)
    requires
        euclidean_laws(d),
        d.member(a),
        d.member(b),
        d.member(o),
        d.member(z),
        d.eqv(o, d.one_s()),
        d.eqv(z, d.zero_s()),
    ensures
        bezout(d, a, b, o, z, a),
        bezout(d, a, b, z, o, b),
{
    lemma_euclidean_parts(d);
    lemma_ring_parts(d);
    crate::laws::lemma_zero_mul(d, a);
    crate::laws::lemma_zero_mul(d, b);
    reveal(ring_laws);
    reveal(group_laws);
    reveal(additive_laws);
    reveal(crate::laws::monoid_laws);
    reveal(semigroup_laws);
    reveal(equivalence);
    let zs = d.zero_s();
    let os = d.one_s();
    assert(d.eqv(d.mul_s(o, a), d.mul_s(os, a)));
    assert(d.eqv(d.mul_s(o, a), a));
    assert(d.eqv(d.mul_s(z, b), d.mul_s(zs, b)));
    assert(d.eqv(d.mul_s(z, b), zs));
    assert(d.eqv(d.add_s(d.mul_s(o, a), d.mul_s(z, b)), d.add_s(a, zs)));
    assert(d.eqv(d.add_s(a, zs), d.add_s(zs, a)));
    assert(d.eqv(d.mul_s(o, b), d.mul_s(os, b)));
    assert(d.eqv(d.mul_s(o, b), b));
    assert(d.eqv(d.mul_s(z, a), d.mul_s(zs, a)));
    assert(d.eqv(d.mul_s(z, a), zs));
    assert(d.eqv(d.add_s(d.mul_s(z, a), d.mul_s(o, b)), d.add_s(zs, b)));
}

/// Returns `(gcd, x, y)` with `x * a + y * b == gcd`.
///
/// The gcd is a greatest common divisor (every common divisor divides it) and is
/// canonicalised through `EuclideanDomain::unit_part`: its own unit part is one, so
/// it is non-negative over `Z` and monic over `F[x]`, and coprime inputs give
/// `gcd == identity`. The algorithm divides
/// by every nonzero remainder it meets, so `requires` asks that every nonzero element
/// be a divisor (`division_total`), and that the domain be sound, which is what
/// makes its zero test and divisions mean what they say.
pub fn extended_gcd<D: EuclideanDomain>(domain: &D, a: D::E, b: D::E) -> (r: (D::E, D::E, D::E))
    requires
        domain.wf(),
        domain.sound(),
        domain.valid(a),
        domain.valid(b),
        domain.division_total(),
    ensures
        domain.valid(r.0),
        domain.valid(r.1),
        domain.valid(r.2),
        euclidean_laws(domain) ==> bezout(
            domain,
            domain.model(a),
            domain.model(b),
            domain.model(r.1),
            domain.model(r.2),
            domain.model(r.0),
        ),
        euclidean_laws(domain) ==> divides(domain, domain.model(r.0), domain.model(a)),
        euclidean_laws(domain) ==> divides(domain, domain.model(r.0), domain.model(b)),
        euclidean_laws(domain) ==> (is_unit(domain, domain.model(r.0)) ==> domain.eqv(
            domain.model(r.0),
            domain.one_s(),
        )),
        euclidean_laws(domain) ==> forall|c: D::M|
            domain.member(c) && divides(domain, c, domain.model(a)) && #[trigger] divides(domain, c, domain.model(b))
                ==> divides(domain, c, domain.model(r.0)),
        euclidean_laws(domain) ==> domain.eqv(domain.unit_part_s(domain.model(r.0)), domain.one_s()),
{
    let ghost ma = domain.model(a);
    let ghost mb = domain.model(b);
    let ghost laws = euclidean_laws(domain);
    let mut old_r = a;
    let mut r = b;
    let mut old_s = domain.identity();
    let mut s = domain.zero();
    let mut old_t = domain.zero();
    let mut t = domain.identity();
    let zero = domain.zero();
    proof {
        if laws {
            lemma_euclidean_parts(domain);
            lemma_ring_parts(domain);
            domain.lemma_valid_member(a);
            domain.lemma_valid_member(b);
            domain.lemma_valid_member(old_s);
            domain.lemma_valid_member(s);
            domain.lemma_valid_member(old_t);
            domain.lemma_valid_member(t);
            lemma_bezout_start(domain, ma, mb, domain.model(old_s), domain.model(old_t));
            lemma_bezout_start(domain, ma, mb, domain.model(t), domain.model(s));
            assert(common_divisors_divide(domain, ma, mb, ma, mb));
        }
    }
    while !domain.equal(&r, &zero)
        invariant
            domain.wf(),
            domain.sound(),
            domain.division_total(),
            domain.valid(old_r),
            domain.valid(r),
            domain.valid(old_s),
            domain.valid(s),
            domain.valid(old_t),
            domain.valid(t),
            domain.valid(zero),
            domain.eqv(domain.model(zero), domain.zero_s()),
            ma == domain.model(a),
            mb == domain.model(b),
            domain.valid(a),
            domain.valid(b),
            laws == euclidean_laws(domain),
            laws ==> bezout(domain, ma, mb, domain.model(old_s), domain.model(old_t), domain.model(old_r)),
            laws ==> bezout(domain, ma, mb, domain.model(s), domain.model(t), domain.model(r)),
            laws ==> common_divisors_divide(domain, domain.model(old_r), domain.model(r), ma, mb),
        decreases domain.norm(domain.model(r)),
    {
        proof {
            domain.lemma_divisor(r, zero);
        }
        let (q, new_r) = domain.divide(&old_r, &r);
        let qs = domain.mul(&q, &s);
        let new_s = domain.sub(&old_s, &qs);
        let qt = domain.mul(&q, &t);
        let new_t = domain.sub(&old_t, &qt);
        proof {
            if laws {
                lemma_euclidean_parts(domain);
                lemma_ring_parts(domain);
                domain.lemma_valid_member(old_r);
                domain.lemma_valid_member(r);
                domain.lemma_valid_member(old_s);
                domain.lemma_valid_member(s);
                domain.lemma_valid_member(old_t);
                domain.lemma_valid_member(t);
                domain.lemma_valid_member(q);
                domain.lemma_valid_member(new_r);
                domain.lemma_valid_member(qs);
                domain.lemma_valid_member(qt);
                domain.lemma_valid_member(new_s);
                domain.lemma_valid_member(new_t);
                domain.lemma_valid_member(a);
                domain.lemma_valid_member(b);
                let mq = domain.model(q);
                lemma_division(domain, domain.model(old_r), domain.model(r), mq, domain.model(new_r));
                lemma_bezout_step(
                    domain,
                    ma,
                    mb,
                    domain.model(old_s),
                    domain.model(s),
                    domain.model(old_t),
                    domain.model(t),
                    mq,
                    domain.model(old_r),
                    domain.model(r),
                    domain.model(new_r),
                );
                let ms = domain.mul_s(mq, domain.model(s));
                let mt = domain.mul_s(mq, domain.model(t));
                crate::laws::lemma_mul_closed(domain, mq, domain.model(s));
                crate::laws::lemma_mul_closed(domain, mq, domain.model(t));
                let es = domain.sub_s(domain.model(old_s), ms);
                let et = domain.sub_s(domain.model(old_t), mt);
                crate::laws::lemma_sub_closed(domain, domain.model(old_s), ms);
                crate::laws::lemma_sub_closed(domain, domain.model(old_t), mt);
                crate::laws::lemma_sub_closed(domain, domain.model(old_s), domain.model(qs));
                crate::laws::lemma_sub_closed(domain, domain.model(old_t), domain.model(qt));
                crate::laws::lemma_refl(domain, domain.model(old_s));
                crate::laws::lemma_refl(domain, domain.model(old_t));
                crate::laws::lemma_sub_congruent(domain, domain.model(old_s), domain.model(old_s), domain.model(qs), ms);
                crate::laws::lemma_sub_congruent(domain, domain.model(old_t), domain.model(old_t), domain.model(qt), mt);
                crate::laws::lemma_trans(domain, domain.model(new_s), domain.sub_s(domain.model(old_s), domain.model(qs)), es);
                crate::laws::lemma_trans(domain, domain.model(new_t), domain.sub_s(domain.model(old_t), domain.model(qt)), et);
                crate::laws::lemma_sym(domain, domain.model(new_s), es);
                crate::laws::lemma_sym(domain, domain.model(new_t), et);
                crate::laws::lemma_refl(domain, domain.model(new_r));
                lemma_bezout_congruent(domain, ma, mb, es, et, domain.model(new_r), domain.model(new_s), domain.model(new_t), domain.model(new_r));
                lemma_common_step(domain, ma, mb, domain.model(old_r), domain.model(r), mq, domain.model(new_r));
            }
        }
        old_r = r;
        r = new_r;
        old_s = s;
        s = new_s;
        old_t = t;
        t = new_t;
    }
    let unit = domain.unit_part(&old_r);
    let u_inv = domain.unit_inverse(&unit);
    let g = domain.mul(&old_r, &u_inv);
    let x = domain.mul(&old_s, &u_inv);
    let y = domain.mul(&old_t, &u_inv);
    proof {
        if laws {
            lemma_euclidean_parts(domain);
            lemma_ring_parts(domain);
            domain.lemma_valid_member(old_r);
            domain.lemma_valid_member(old_s);
            domain.lemma_valid_member(old_t);
            domain.lemma_valid_member(u_inv);
            domain.lemma_valid_member(g);
            domain.lemma_valid_member(x);
            domain.lemma_valid_member(y);
            domain.lemma_valid_member(a);
            domain.lemma_valid_member(b);
            let mu = domain.model(u_inv);
            domain.lemma_valid_member(unit);
            domain.lemma_valid_member(r);
            domain.lemma_valid_member(zero);
            crate::laws::lemma_trans(domain, domain.model(r), domain.model(zero), domain.zero_s());
            lemma_common_end(domain, ma, mb, domain.model(old_r), domain.model(r));
            crate::laws::lemma_mul_closed(domain, domain.model(old_r), mu);
            lemma_gcd_normalised(domain, ma, mb, domain.model(old_r), domain.model(unit), mu, domain.model(g));
            crate::laws::lemma_normal_form(domain, domain.model(old_r), domain.model(unit), mu, domain.model(g));
            lemma_bezout_scale(domain, ma, mb, domain.model(old_s), domain.model(old_t), domain.model(old_r), mu);
            crate::laws::lemma_mul_closed(domain, domain.model(old_s), mu);
            crate::laws::lemma_mul_closed(domain, domain.model(old_t), mu);
            crate::laws::lemma_mul_closed(domain, domain.model(old_r), mu);
            crate::laws::lemma_sym(domain, domain.model(x), domain.mul_s(domain.model(old_s), mu));
            crate::laws::lemma_sym(domain, domain.model(y), domain.mul_s(domain.model(old_t), mu));
            crate::laws::lemma_sym(domain, domain.model(g), domain.mul_s(domain.model(old_r), mu));
            lemma_bezout_congruent(
                domain,
                ma,
                mb,
                domain.mul_s(domain.model(old_s), mu),
                domain.mul_s(domain.model(old_t), mu),
                domain.mul_s(domain.model(old_r), mu),
                domain.model(x),
                domain.model(y),
                domain.model(g),
            );
        }
    }
    proof {
        if laws {
            assert forall|c: D::M|
                domain.member(c) && divides(domain, c, ma) && #[trigger] divides(domain, c, mb) implies divides(
                domain,
                c,
                domain.model(g),
            ) by {
                domain.lemma_valid_member(x);
                domain.lemma_valid_member(y);
                domain.lemma_valid_member(g);
                domain.lemma_valid_member(a);
                domain.lemma_valid_member(b);
                lemma_divides_bezout(domain, ma, mb, domain.model(x), domain.model(y), domain.model(g), c);
            }
        }
    }
    (g, x, y)
}

/// `a` can be divided by `e`: some `q` and `r` have `a ~ q · e + r`, with `r`
/// smaller than `e`.
pub open spec fn has_division<D: EuclideanDomain>(d: &D, a: D::M, e: D::M) -> bool {
    exists|q: D::M, r: D::M|
        d.member(q) && d.member(r) && #[trigger] d.quotient_remainder(a, e, q, r) && d.norm(r) < d.norm(e)
}

/// Every member can be divided by every member that is not zero.
pub open spec fn division_exists<D: EuclideanDomain>(d: &D) -> bool {
    forall|a: D::M, e: D::M|
        d.member(a) && d.member(e) && !d.eqv(e, d.zero_s()) ==> #[trigger] has_division(d, a, e)
}

/// Some common divisor `g` of `a` and `b` is `s · a + t · b` for some `s`, `t`.
pub open spec fn has_bezout_gcd<D: EuclideanDomain>(d: &D, a: D::M, b: D::M) -> bool {
    exists|g: D::M, s: D::M, t: D::M|
        d.member(g) && d.member(s) && d.member(t) && #[trigger] bezout(d, a, b, s, t, g) && divides(d, g, a)
            && divides(d, g, b)
}

/// The Euclidean algorithm run on models, from the pair `(or, r)`: it reaches a
/// common divisor of `a` and `b` that is a combination of them.
proof fn lemma_gcd_from<D: EuclideanDomain>(
    d: &D,
    a: D::M,
    b: D::M,
    or: D::M,
    r: D::M,
    os: D::M,
    s: D::M,
    ot: D::M,
    t: D::M,
)
    requires
        euclidean_laws(d),
        division_exists(d),
        d.member(a),
        d.member(b),
        d.member(or),
        d.member(r),
        d.member(os),
        d.member(s),
        d.member(ot),
        d.member(t),
        bezout(d, a, b, os, ot, or),
        bezout(d, a, b, s, t, r),
        common_divisors_divide(d, or, r, a, b),
    ensures
        has_bezout_gcd(d, a, b),
    decreases d.norm(r),
{
    lemma_euclidean_parts(d);
    lemma_ring_parts(d);
    if d.eqv(r, d.zero_s()) {
        lemma_common_end(d, a, b, or, r);
        assert(bezout(d, a, b, os, ot, or));
    } else {
        assert(has_division(d, or, r));
        let (q, nr) = choose|q: D::M, nr: D::M|
            d.member(q) && d.member(nr) && #[trigger] d.quotient_remainder(or, r, q, nr) && d.norm(nr) < d.norm(r);
        lemma_division(d, or, r, q, nr);
        lemma_bezout_step(d, a, b, os, s, ot, t, q, or, r, nr);
        lemma_common_step(d, a, b, or, r, q, nr);
        crate::laws::lemma_mul_closed(d, q, s);
        crate::laws::lemma_mul_closed(d, q, t);
        crate::laws::lemma_sub_closed(d, os, d.mul_s(q, s));
        crate::laws::lemma_sub_closed(d, ot, d.mul_s(q, t));
        lemma_gcd_from(d, a, b, r, nr, s, d.sub_s(os, d.mul_s(q, s)), t, d.sub_s(ot, d.mul_s(q, t)));
    }
}

/// In a Euclidean domain where division can always be carried out, any two
/// elements have a greatest common divisor that is a combination of them.
pub proof fn lemma_bezout_exists<D: EuclideanDomain>(d: &D, a: D::M, b: D::M)
    requires
        euclidean_laws(d),
        division_exists(d),
        d.member(a),
        d.member(b),
    ensures
        has_bezout_gcd(d, a, b),
{
    lemma_euclidean_parts(d);
    lemma_ring_parts(d);
    crate::laws::lemma_refl(d, d.one_s());
    crate::laws::lemma_refl(d, d.zero_s());
    lemma_bezout_start(d, a, b, d.one_s(), d.zero_s());
    lemma_gcd_from(d, a, b, a, b, d.one_s(), d.zero_s(), d.zero_s(), d.one_s());
}

} // verus!
