//! The quotient ring `R / (m)` of a Euclidean domain by the ideal of a modulus.

use crate::laws::{
    lemma_add_assoc, lemma_add_zero, lemma_mul_one,
    lemma_divisor_nonzero, lemma_norm_congruent, lemma_norm_multiple,
    additive_laws, commutative_laws, equivalence, euclidean_laws, group_laws, lemma_add_closed,
    lemma_add_congruent, lemma_distrib, lemma_division, lemma_euclidean_parts, lemma_mul_assoc,
    lemma_mul_closed, lemma_mul_comm, lemma_mul_congruent, lemma_mul_sub, lemma_refl,
    lemma_ring_parts, lemma_sub_add, lemma_sub_add_sub, lemma_sub_closed, lemma_sub_congruent,
    lemma_sub_mul, lemma_sub_unique, lemma_sym, lemma_add_comm, lemma_telescope, lemma_trans, lemma_zero_mul,
    monoid_laws, ring_laws, semigroup_laws, field_laws, has_inverse, complete_field,
};
use crate::euclidean::{
    bezout, divides, division_exists, is_unit, lemma_bezout_congruent, lemma_bezout_exists,
    lemma_bezout_scale,
};
use crate::structures::{
    AdditiveGroup, CommutativeMonoid, DecidableEq, Domain, EuclideanDomain, Field, Monoid, Ring,
    SemiRing, Semigroup,
};
use crate::text::Render;
use std::rc::Rc;
use vstd::prelude::*;

verus! {

/// `Rc::clone`: another handle on the same value.
#[verifier::external_body]
pub(crate) fn share<T>(r: &Rc<T>) -> (s: Rc<T>)
    ensures
        s == *r,
{
    Rc::clone(r)
}

/// The quotient ring `R / (modulus)`, where `R` is a Euclidean domain.
pub struct QuotientRing<R: EuclideanDomain> {
    ring: R,
    modulus: R::E,
}

/// An element of a quotient ring `R / (m)`.
///
/// The stored representative is reduced modulo `m` after construction and after every
/// arithmetic operation. Two elements are equal iff their representatives are
/// congruent modulo `m`.
pub struct QuotientRingElement<R: EuclideanDomain> {
    value: R::E,
    ring: Rc<QuotientRing<R>>,
}

impl<R: EuclideanDomain> QuotientRing<R> {
    /// The ring that the quotient is taken of.
    pub closed spec fn base(&self) -> R {
        self.ring
    }

    /// The modulus, as an element of the base ring.
    pub closed spec fn modulus_element(&self) -> R::E {
        self.modulus
    }

    /// The model of the modulus.
    pub open spec fn modulus_model(&self) -> R::M {
        self.base().model(self.modulus_element())
    }

    /// The handle's invariant: the modulus is an element of the base ring that it can
    /// divide by.
    pub open spec fn well_formed(&self) -> bool {
        &&& self.base().wf()
        &&& self.base().valid(self.modulus_element())
        &&& self.base().divisor_ok(self.modulus_model())
    }

    /// `a ≡ b (mod m)`: the modulus divides `a - b`.
    pub open spec fn congruent(&self, a: R::M, b: R::M) -> bool {
        exists|k: R::M|
            self.base().member(k) && self.base().eqv(
                self.base().sub_s(a, b),
                self.base().mul_s(k, self.modulus_model()),
            )
    }

    /// Construct `R / (modulus)`, wrapped in an `Rc` so that elements can hold a
    /// cheap shared reference back to their containing ring.
    ///
    /// Its elements can be built only when the modulus is something the base ring
    /// divides by (`well_formed`); a zero modulus gives a handle that no element
    /// belongs to.
    pub fn new(ring: R, modulus: R::E) -> (r: Rc<Self>)
        ensures
            r.base() == ring,
            r.modulus_element() == modulus,
    {
        Rc::new(QuotientRing { ring, modulus })
    }

    /// The modulus generating the ideal `(modulus)` that this quotient is taken by.
    pub fn modulus(&self) -> (r: &R::E)
        ensures
            *r == self.modulus_element(),
    {
        &self.modulus
    }

    /// The remainder of `value` by the modulus.
    pub fn reduce(&self, value: R::E) -> (r: R::E)
        requires
            self.well_formed(),
            self.base().valid(value),
        ensures
            self.base().valid(r),
            self.base().sound() ==> self.base().norm(self.base().model(r)) < self.base().norm(
                self.modulus_model(),
            ),
            self.base().sound() ==> exists|q: R::E|
                self.base().valid(q) && self.base().quotient_remainder(
                    self.base().model(value),
                    self.modulus_model(),
                    self.base().model(q),
                    self.base().model(r),
                ),
    {
        let (q, r) = self.ring.divide(&value, &self.modulus);
        r
    }
}

/// A remainder is congruent to what was divided: from `t ~ x` and `t ~ q·m + r`,
/// `r ≡ x (mod m)`.
proof fn lemma_remainder_congruent<R: EuclideanDomain>(
    qr: &QuotientRing<R>,
    t: R::M,
    x: R::M,
    quo: R::M,
    r: R::M,
)
    requires
        euclidean_laws(&qr.base()),
        qr.well_formed(),
        qr.base().member(t),
        qr.base().member(x),
        qr.base().member(quo),
        qr.base().member(r),
        qr.base().member(qr.modulus_model()),
        qr.base().eqv(t, x),
        qr.base().eqv(t, qr.base().add_s(qr.base().mul_s(quo, qr.modulus_model()), r)),
    ensures
        qr.congruent(r, x),
{
    let b = qr.base();
    let m = qr.modulus_model();
    lemma_euclidean_parts(&b);
    lemma_ring_parts(&b);
    lemma_zero_mul(&b, m);
    reveal(ring_laws);
    reveal(group_laws);
    reveal(additive_laws);
    reveal(semigroup_laws);
    reveal(equivalence);
    let z = b.zero_s();
    let qm = b.mul_s(quo, m);
    let k = b.sub_s(z, quo);
    lemma_sub_mul(&b, z, quo, m);
    // k·m ~ 0·m - q·m ~ 0 - q·m
    assert(b.eqv(b.mul_s(k, m), b.sub_s(b.mul_s(z, m), qm)));
    assert(b.eqv(b.sub_s(b.mul_s(z, m), qm), b.sub_s(z, qm)));
    assert(b.eqv(b.mul_s(k, m), b.sub_s(z, qm)));
    // (0 - qm) + (qm + r) ~ r, so 0 - qm ~ r - (qm + r)
    let n = b.sub_s(z, qm);
    assert(b.eqv(b.add_s(b.add_s(n, qm), r), b.add_s(n, b.add_s(qm, r))));
    assert(b.eqv(b.add_s(n, qm), z));
    assert(b.eqv(b.add_s(b.add_s(n, qm), r), b.add_s(z, r)));
    assert(b.eqv(b.add_s(n, b.add_s(qm, r)), r));
    lemma_sub_unique(&b, n, r, b.add_s(qm, r));
    // x ~ qm + r, so r - x ~ r - (qm + r)
    assert(b.eqv(x, b.add_s(qm, r)));
    assert(b.eqv(b.sub_s(r, x), b.sub_s(r, b.add_s(qm, r))));
    assert(b.eqv(b.sub_s(r, x), b.mul_s(k, m)));
}

/// Equal elements of the base ring are congruent.
proof fn lemma_eqv_congruent<R: EuclideanDomain>(qr: &QuotientRing<R>, a: R::M, c: R::M)
    requires
        euclidean_laws(&qr.base()),
        qr.well_formed(),
        qr.base().member(a),
        qr.base().member(c),
        qr.base().member(qr.modulus_model()),
        qr.base().eqv(a, c),
    ensures
        qr.congruent(a, c),
{
    let b = qr.base();
    let m = qr.modulus_model();
    lemma_euclidean_parts(&b);
    lemma_ring_parts(&b);
    lemma_zero_mul(&b, m);
    reveal(ring_laws);
    reveal(group_laws);
    reveal(additive_laws);
    reveal(semigroup_laws);
    reveal(equivalence);
    let z = b.zero_s();
    assert(b.eqv(b.add_s(z, c), c));
    lemma_sub_unique(&b, z, c, c);
    assert(b.eqv(b.sub_s(a, c), b.sub_s(c, c)));
    assert(b.eqv(b.sub_s(a, c), b.mul_s(z, m)));
}

/// The facts about the base ring that the congruence lemmas below start from.
pub open spec fn base_ready<R: EuclideanDomain>(qr: &QuotientRing<R>) -> bool {
    &&& euclidean_laws(&qr.base())
    &&& qr.well_formed()
}

proof fn lemma_base_ready<R: EuclideanDomain>(qr: &QuotientRing<R>)
    requires
        base_ready(qr),
    ensures
        ring_laws(&qr.base()),
        commutative_laws(&qr.base()),
        group_laws(&qr.base()),
        semigroup_laws(&qr.base()),
        monoid_laws(&qr.base()),
        additive_laws(&qr.base()),
        equivalence(&qr.base()),
        qr.base().member(qr.modulus_model()),
        qr.base().member(qr.base().zero_s()),
        qr.base().member(qr.base().one_s()),
        qr.base().sound(),
        euclidean_laws(&qr.base()),
{
    lemma_euclidean_parts(&qr.base());
    lemma_ring_parts(&qr.base());
    qr.base().lemma_valid_member(qr.modulus_element());
}

/// `a ≡ a`.
proof fn lemma_congruent_refl<R: EuclideanDomain>(qr: &QuotientRing<R>, a: R::M)
    requires
        base_ready(qr),
        qr.base().member(a),
    ensures
        qr.congruent(a, a),
{
    lemma_base_ready(qr);
    crate::laws::lemma_refl(&qr.base(), a);
    lemma_eqv_congruent(qr, a, a);
}

/// `a ≡ b` gives `b ≡ a`.
proof fn lemma_congruent_sym<R: EuclideanDomain>(qr: &QuotientRing<R>, a: R::M, c: R::M)
    requires
        base_ready(qr),
        qr.base().member(a),
        qr.base().member(c),
        qr.congruent(a, c),
    ensures
        qr.congruent(c, a),
{
    lemma_base_ready(qr);
    let b = qr.base();
    let m = qr.modulus_model();
    let k = choose|k: R::M| b.member(k) && b.eqv(b.sub_s(a, c), b.mul_s(k, m));
    lemma_zero_mul(&b, m);
    lemma_sub_mul(&b, b.zero_s(), k, m);
    crate::laws::lemma_telescope(&b, c, a, c);
    crate::laws::lemma_sub_self(&b, c);
    reveal(ring_laws);
    reveal(group_laws);
    reveal(additive_laws);
    reveal(semigroup_laws);
    reveal(equivalence);
    let z = b.zero_s();
    let km = b.mul_s(k, m);
    crate::laws::lemma_mul_closed(&b, k, m);
    crate::laws::lemma_sub_closed(&b, c, a);
    crate::laws::lemma_sub_closed(&b, a, c);
    crate::laws::lemma_sub_closed(&b, z, k);
    // (c - a) + km ~ (c - a) + (a - c) ~ c - c ~ 0
    assert(b.eqv(b.add_s(b.sub_s(c, a), km), b.add_s(b.sub_s(c, a), b.sub_s(a, c))));
    assert(b.eqv(b.add_s(b.sub_s(c, a), km), z));
    lemma_sub_unique(&b, b.sub_s(c, a), z, km);
    // (0 - k)·m ~ 0·m - km ~ 0 - km
    crate::laws::lemma_mul_closed(&b, z, m);
    crate::laws::lemma_refl(&b, km);
    crate::laws::lemma_sub_congruent(&b, b.mul_s(z, m), z, km, km);
    assert(b.eqv(b.sub_s(b.mul_s(z, m), km), b.sub_s(z, km)));
    assert(b.eqv(b.sub_s(c, a), b.mul_s(b.sub_s(z, k), m)));
}

/// `a ≡ b` and `b ≡ c` give `a ≡ c`.
proof fn lemma_congruent_trans<R: EuclideanDomain>(qr: &QuotientRing<R>, a: R::M, b0: R::M, c: R::M)
    requires
        base_ready(qr),
        qr.base().member(a),
        qr.base().member(b0),
        qr.base().member(c),
        qr.congruent(a, b0),
        qr.congruent(b0, c),
    ensures
        qr.congruent(a, c),
{
    lemma_base_ready(qr);
    let b = qr.base();
    let m = qr.modulus_model();
    let k1 = choose|k: R::M| b.member(k) && b.eqv(b.sub_s(a, b0), b.mul_s(k, m));
    let k2 = choose|k: R::M| b.member(k) && b.eqv(b.sub_s(b0, c), b.mul_s(k, m));
    crate::laws::lemma_telescope(&b, a, b0, c);
    crate::laws::lemma_distrib(&b, k1, k2, m);
    crate::laws::lemma_mul_closed(&b, k1, m);
    crate::laws::lemma_mul_closed(&b, k2, m);
    crate::laws::lemma_sub_closed(&b, a, b0);
    crate::laws::lemma_sub_closed(&b, b0, c);
    crate::laws::lemma_sub_closed(&b, a, c);
    reveal(ring_laws);
    reveal(group_laws);
    reveal(additive_laws);
    reveal(semigroup_laws);
    reveal(equivalence);
    assert(b.eqv(
        b.add_s(b.sub_s(a, b0), b.sub_s(b0, c)),
        b.add_s(b.mul_s(k1, m), b.mul_s(k2, m)),
    ));
    assert(b.eqv(b.sub_s(a, c), b.mul_s(b.add_s(k1, k2), m)));
}

/// A congruence carries over an equality of the base ring on the right.
proof fn lemma_congruent_eqv<R: EuclideanDomain>(qr: &QuotientRing<R>, a: R::M, t: R::M, x: R::M)
    requires
        base_ready(qr),
        qr.base().member(a),
        qr.base().member(t),
        qr.base().member(x),
        qr.congruent(a, t),
        qr.base().eqv(t, x),
    ensures
        qr.congruent(a, x),
{
    lemma_base_ready(qr);
    lemma_eqv_congruent(qr, t, x);
    lemma_congruent_trans(qr, a, t, x);
}

/// Addition respects congruence.
proof fn lemma_congruent_add<R: EuclideanDomain>(
    qr: &QuotientRing<R>,
    a1: R::M,
    a2: R::M,
    b1: R::M,
    b2: R::M,
)
    requires
        base_ready(qr),
        qr.base().member(a1),
        qr.base().member(a2),
        qr.base().member(b1),
        qr.base().member(b2),
        qr.congruent(a1, a2),
        qr.congruent(b1, b2),
    ensures
        qr.congruent(qr.base().add_s(a1, b1), qr.base().add_s(a2, b2)),
{
    lemma_base_ready(qr);
    let b = qr.base();
    let m = qr.modulus_model();
    let k1 = choose|k: R::M| b.member(k) && b.eqv(b.sub_s(a1, a2), b.mul_s(k, m));
    let k2 = choose|k: R::M| b.member(k) && b.eqv(b.sub_s(b1, b2), b.mul_s(k, m));
    crate::laws::lemma_sub_add_sub(&b, a1, a2, b1, b2);
    crate::laws::lemma_distrib(&b, k1, k2, m);
    crate::laws::lemma_mul_closed(&b, k1, m);
    crate::laws::lemma_mul_closed(&b, k2, m);
    crate::laws::lemma_sub_closed(&b, a1, a2);
    crate::laws::lemma_sub_closed(&b, b1, b2);
    reveal(ring_laws);
    reveal(group_laws);
    reveal(additive_laws);
    reveal(semigroup_laws);
    reveal(equivalence);
    assert(b.eqv(
        b.add_s(b.sub_s(a1, a2), b.sub_s(b1, b2)),
        b.add_s(b.mul_s(k1, m), b.mul_s(k2, m)),
    ));
    assert(b.eqv(b.sub_s(b.add_s(a1, b1), b.add_s(a2, b2)), b.mul_s(b.add_s(k1, k2), m)));
}

/// Subtraction respects congruence.
proof fn lemma_congruent_sub<R: EuclideanDomain>(
    qr: &QuotientRing<R>,
    a1: R::M,
    a2: R::M,
    b1: R::M,
    b2: R::M,
)
    requires
        base_ready(qr),
        qr.base().member(a1),
        qr.base().member(a2),
        qr.base().member(b1),
        qr.base().member(b2),
        qr.congruent(a1, a2),
        qr.congruent(b1, b2),
    ensures
        qr.congruent(qr.base().sub_s(a1, b1), qr.base().sub_s(a2, b2)),
{
    lemma_base_ready(qr);
    let b = qr.base();
    let m = qr.modulus_model();
    let k1 = choose|k: R::M| b.member(k) && b.eqv(b.sub_s(a1, a2), b.mul_s(k, m));
    let k2 = choose|k: R::M| b.member(k) && b.eqv(b.sub_s(b1, b2), b.mul_s(k, m));
    let km1 = b.mul_s(k1, m);
    let km2 = b.mul_s(k2, m);
    let u = b.sub_s(a1, b1);
    let v = b.sub_s(a2, b2);
    let ub = b.add_s(u, b1);
    let vb = b.add_s(v, b2);
    let uv = b.sub_s(u, v);
    let bb = b.sub_s(b1, b2);
    let aa = b.sub_s(a1, a2);
    lemma_mul_closed(&b, k1, m);
    lemma_mul_closed(&b, k2, m);
    lemma_sub_closed(&b, a1, b1);
    lemma_sub_closed(&b, a2, b2);
    lemma_sub_closed(&b, a1, a2);
    lemma_sub_closed(&b, b1, b2);
    lemma_sub_closed(&b, u, v);
    lemma_sub_closed(&b, k1, k2);
    lemma_sub_closed(&b, km1, km2);
    lemma_add_closed(&b, u, b1);
    lemma_add_closed(&b, v, b2);
    lemma_add_closed(&b, uv, bb);
    lemma_add_closed(&b, uv, km2);
    lemma_sub_closed(&b, ub, vb);
    lemma_mul_closed(&b, b.sub_s(k1, k2), m);
    lemma_sub_add(&b, a1, b1);
    lemma_sub_add(&b, a2, b2);
    lemma_sub_congruent(&b, ub, a1, vb, a2);
    lemma_sub_add_sub(&b, u, v, b1, b2);
    lemma_trans(&b, b.add_s(uv, bb), b.sub_s(ub, vb), aa);
    lemma_trans(&b, b.add_s(uv, bb), aa, km1);
    lemma_refl(&b, uv);
    lemma_add_congruent(&b, uv, uv, bb, km2);
    lemma_sym(&b, b.add_s(uv, bb), b.add_s(uv, km2));
    lemma_trans(&b, b.add_s(uv, km2), b.add_s(uv, bb), km1);
    lemma_sub_unique(&b, uv, km1, km2);
    lemma_sub_mul(&b, k1, k2, m);
    lemma_sym(&b, b.mul_s(b.sub_s(k1, k2), m), b.sub_s(km1, km2));
    lemma_trans(&b, uv, b.sub_s(km1, km2), b.mul_s(b.sub_s(k1, k2), m));
}

/// Multiplication respects congruence.
proof fn lemma_congruent_mul<R: EuclideanDomain>(
    qr: &QuotientRing<R>,
    a1: R::M,
    a2: R::M,
    b1: R::M,
    b2: R::M,
)
    requires
        base_ready(qr),
        qr.base().member(a1),
        qr.base().member(a2),
        qr.base().member(b1),
        qr.base().member(b2),
        qr.congruent(a1, a2),
        qr.congruent(b1, b2),
    ensures
        qr.congruent(qr.base().mul_s(a1, b1), qr.base().mul_s(a2, b2)),
{
    lemma_base_ready(qr);
    let b = qr.base();
    let m = qr.modulus_model();
    let k1 = choose|k: R::M| b.member(k) && b.eqv(b.sub_s(a1, a2), b.mul_s(k, m));
    let k2 = choose|k: R::M| b.member(k) && b.eqv(b.sub_s(b1, b2), b.mul_s(k, m));
    let km1 = b.mul_s(k1, m);
    let km2 = b.mul_s(k2, m);
    let x = b.mul_s(a1, b1);
    let y = b.mul_s(a2, b1);
    let w = b.mul_s(a2, b2);
    let aa = b.sub_s(a1, a2);
    let bb = b.sub_s(b1, b2);
    let c1 = b.mul_s(k1, b1);
    let c2 = b.mul_s(a2, k2);
    lemma_mul_closed(&b, k1, m);
    lemma_mul_closed(&b, k2, m);
    lemma_mul_closed(&b, a1, b1);
    lemma_mul_closed(&b, a2, b1);
    lemma_mul_closed(&b, a2, b2);
    lemma_mul_closed(&b, k1, b1);
    lemma_mul_closed(&b, a2, k2);
    lemma_mul_closed(&b, m, b1);
    lemma_mul_closed(&b, b1, m);
    lemma_mul_closed(&b, c1, m);
    lemma_mul_closed(&b, c2, m);
    lemma_mul_closed(&b, km1, b1);
    lemma_mul_closed(&b, k1, b.mul_s(m, b1));
    lemma_mul_closed(&b, k1, b.mul_s(b1, m));
    lemma_mul_closed(&b, a2, km2);
    lemma_sub_closed(&b, a1, a2);
    lemma_sub_closed(&b, b1, b2);
    lemma_sub_closed(&b, x, y);
    lemma_sub_closed(&b, y, w);
    lemma_sub_closed(&b, x, w);
    lemma_mul_closed(&b, aa, b1);
    lemma_mul_closed(&b, a2, bb);
    lemma_add_closed(&b, c1, c2);
    lemma_add_closed(&b, b.sub_s(x, y), b.sub_s(y, w));
    lemma_add_closed(&b, b.mul_s(c1, m), b.mul_s(c2, m));
    lemma_mul_closed(&b, b.add_s(c1, c2), m);
    // x - y ~ (a1 - a2)·b1 ~ (k1·m)·b1 ~ k1·(m·b1) ~ k1·(b1·m) ~ (k1·b1)·m
    lemma_sub_mul(&b, a1, a2, b1);
    lemma_sym(&b, b.mul_s(aa, b1), b.sub_s(x, y));
    lemma_refl(&b, b1);
    lemma_mul_congruent(&b, aa, km1, b1, b1);
    lemma_mul_assoc(&b, k1, m, b1);
    lemma_mul_comm(&b, m, b1);
    lemma_refl(&b, k1);
    lemma_mul_congruent(&b, k1, k1, b.mul_s(m, b1), b.mul_s(b1, m));
    lemma_mul_assoc(&b, k1, b1, m);
    lemma_sym(&b, b.mul_s(c1, m), b.mul_s(k1, b.mul_s(b1, m)));
    lemma_trans(&b, b.sub_s(x, y), b.mul_s(aa, b1), b.mul_s(km1, b1));
    lemma_trans(&b, b.sub_s(x, y), b.mul_s(km1, b1), b.mul_s(k1, b.mul_s(m, b1)));
    lemma_trans(&b, b.sub_s(x, y), b.mul_s(k1, b.mul_s(m, b1)), b.mul_s(k1, b.mul_s(b1, m)));
    lemma_trans(&b, b.sub_s(x, y), b.mul_s(k1, b.mul_s(b1, m)), b.mul_s(c1, m));
    // y - w ~ a2·(b1 - b2) ~ a2·(k2·m) ~ (a2·k2)·m
    lemma_mul_sub(&b, a2, b1, b2);
    lemma_sym(&b, b.mul_s(a2, bb), b.sub_s(y, w));
    lemma_refl(&b, a2);
    lemma_mul_congruent(&b, a2, a2, bb, km2);
    lemma_mul_assoc(&b, a2, k2, m);
    lemma_sym(&b, b.mul_s(c2, m), b.mul_s(a2, km2));
    lemma_trans(&b, b.sub_s(y, w), b.mul_s(a2, bb), b.mul_s(a2, km2));
    lemma_trans(&b, b.sub_s(y, w), b.mul_s(a2, km2), b.mul_s(c2, m));
    // x - w ~ (x - y) + (y - w) ~ c1·m + c2·m ~ (c1 + c2)·m
    lemma_telescope(&b, x, y, w);
    lemma_sym(&b, b.add_s(b.sub_s(x, y), b.sub_s(y, w)), b.sub_s(x, w));
    lemma_add_congruent(&b, b.sub_s(x, y), b.mul_s(c1, m), b.sub_s(y, w), b.mul_s(c2, m));
    lemma_distrib(&b, c1, c2, m);
    lemma_sym(&b, b.mul_s(b.add_s(c1, c2), m), b.add_s(b.mul_s(c1, m), b.mul_s(c2, m)));
    lemma_trans(&b, b.sub_s(x, w), b.add_s(b.sub_s(x, y), b.sub_s(y, w)), b.add_s(b.mul_s(c1, m), b.mul_s(c2, m)));
    lemma_trans(&b, b.sub_s(x, w), b.add_s(b.mul_s(c1, m), b.mul_s(c2, m)), b.mul_s(b.add_s(c1, c2), m));
}

impl<R: EuclideanDomain> Domain for Rc<QuotientRing<R>> {
    type E = QuotientRingElement<R>;
    type Repr = R::E;
    type M = R::M;

    open spec fn wf(&self) -> bool {
        (**self).well_formed()
    }

    open spec fn sound(&self) -> bool {
        euclidean_laws(&(**self).base())
    }

    open spec fn model(&self, x: QuotientRingElement<R>) -> R::M {
        (**self).base().model(x.value_element())
    }

    open spec fn valid(&self, x: QuotientRingElement<R>) -> bool {
        &&& x.handle() == *self
        &&& (**self).base().valid(x.value_element())
    }

    open spec fn member(&self, a: R::M) -> bool {
        (**self).base().member(a)
    }

    open spec fn eqv(&self, a: R::M, b: R::M) -> bool {
        (**self).congruent(a, b)
    }

    open spec fn repr_ok(&self, v: R::E) -> bool {
        (**self).base().valid(v)
    }

    open spec fn denote(&self, v: R::E) -> R::M {
        (**self).base().model(v)
    }

    proof fn lemma_valid_member(&self, x: QuotientRingElement<R>) {
        (**self).base().lemma_valid_member(x.value_element());
    }

    proof fn lemma_repr_member(&self, v: R::E) {
        (**self).base().lemma_valid_member(v);
    }

    /// Reduces the representative modulo the modulus.
    fn element(&self, value: R::E) -> (r: QuotientRingElement<R>) {
        let ghost v = value;
        let reduced = self.reduce(value);
        proof {
            if self.sound() {
                let qr = **self;
                let b = qr.base();
                lemma_euclidean_parts(&b);
                lemma_ring_parts(&b);
                let q = choose|q: R::E|
                    b.valid(q) && b.quotient_remainder(
                        b.model(v),
                        qr.modulus_model(),
                        b.model(q),
                        b.model(reduced),
                    );
                b.lemma_valid_member(q);
                b.lemma_valid_member(v);
                b.lemma_valid_member(reduced);
                b.lemma_valid_member(qr.modulus_element());
                lemma_division(&b, b.model(v), qr.modulus_model(), b.model(q), b.model(reduced));
                crate::laws::lemma_refl(&b, b.model(v));
                lemma_remainder_congruent(&qr, b.model(v), b.model(v), b.model(q), b.model(reduced));
            }
        }
        QuotientRingElement { value: reduced, ring: share(self) }
    }

    fn duplicate(&self) -> (r: Rc<QuotientRing<R>>) {
        share(self)
    }

    fn copy(&self, x: &QuotientRingElement<R>) -> (r: QuotientRingElement<R>) {
        QuotientRingElement { value: self.ring.copy(&x.value), ring: share(&x.ring) }
    }
}

impl<R: EuclideanDomain> QuotientRingElement<R> {
    /// The stored representative.
    pub closed spec fn value_element(&self) -> R::E {
        self.value
    }

    /// The quotient ring this element belongs to.
    pub closed spec fn handle(&self) -> Rc<QuotientRing<R>> {
        self.ring
    }
}

impl<R: EuclideanDomain> QuotientRing<R> {
    /// The remainder of `a` by the modulus is zero exactly when `a ≡ 0`.
    pub fn is_zero(&self, a: &R::E) -> (z: bool)
        requires
            self.well_formed(),
            self.base().valid(*a),
        ensures
            euclidean_laws(&self.base()) ==> (z == self.congruent(
                self.base().model(*a),
                self.base().zero_s(),
            )),
    {
        let ghost av = *a;
        let r = self.ring.divide(a, &self.modulus);
        let zero = self.ring.zero();
        let z = self.ring.equal(&r.1, &zero);
        proof {
            if euclidean_laws(&self.base()) {
                lemma_euclidean_parts(&self.base());
                self.base().lemma_valid_member(av);
                self.base().lemma_valid_member(r.0);
                self.base().lemma_valid_member(r.1);
                self.base().lemma_valid_member(zero);
                lemma_zero_test(self, self.base().model(av), self.base().model(r.0), self.base().model(r.1), self.base().model(zero));
            }
        }
        z
    }
}

/// The zero test on a remainder: for `a ~ q·m + r` with `r` smaller than `m`,
/// `r ~ 0` exactly when `a ≡ 0 (mod m)`.
proof fn lemma_zero_test<R: EuclideanDomain>(qr: &QuotientRing<R>, a: R::M, q: R::M, r: R::M, z: R::M)
    requires
        base_ready(qr),
        qr.base().member(a),
        qr.base().member(q),
        qr.base().member(r),
        qr.base().member(z),
        qr.base().eqv(z, qr.base().zero_s()),
        qr.base().quotient_remainder(a, qr.modulus_model(), q, r),
        qr.base().norm(r) < qr.base().norm(qr.modulus_model()),
    ensures
        qr.base().eqv(r, z) == qr.congruent(a, qr.base().zero_s()),
{
    lemma_base_ready(qr);
    let b = qr.base();
    let m = qr.modulus_model();
    let zs = b.zero_s();
    let qm = b.mul_s(q, m);
    lemma_division(&b, a, m, q, r);
    lemma_mul_closed(&b, q, m);
    lemma_add_closed(&b, qm, r);
    lemma_sub_closed(&b, a, zs);
    lemma_sub_closed(&b, a, qm);
    // a - 0 ~ a
    crate::laws::lemma_add_zero(&b, a);
    lemma_sub_unique(&b, a, a, zs);
    lemma_sym(&b, a, b.sub_s(a, zs));
    // r ~ a - q·m
    lemma_add_closed(&b, r, qm);
    lemma_add_closed(&b, qm, zs);
    lemma_add_comm(&b, r, qm);
    lemma_sym(&b, a, b.add_s(qm, r));
    lemma_trans(&b, b.add_s(r, qm), b.add_s(qm, r), a);
    lemma_sub_unique(&b, r, a, qm);
    if b.eqv(r, z) {
        // a ~ q·m + 0 ~ q·m, so a - 0 ~ q·m
        lemma_trans(&b, r, z, zs);
        lemma_refl(&b, qm);
        lemma_add_congruent(&b, qm, qm, r, zs);
        crate::laws::lemma_add_zero(&b, qm);
        lemma_trans(&b, a, b.add_s(qm, r), b.add_s(qm, zs));
        lemma_trans(&b, a, b.add_s(qm, zs), qm);
        lemma_trans(&b, b.sub_s(a, zs), a, qm);
        assert(qr.congruent(a, zs));
    }
    if qr.congruent(a, zs) {
        let k = choose|k: R::M| b.member(k) && b.eqv(b.sub_s(a, zs), b.mul_s(k, m));
        let km = b.mul_s(k, m);
        lemma_mul_closed(&b, k, m);
        lemma_sub_closed(&b, km, qm);
        lemma_sub_closed(&b, k, q);
        lemma_mul_closed(&b, b.sub_s(k, q), m);
        // a ~ k·m
        lemma_trans(&b, a, b.sub_s(a, zs), km);
        // r ~ a - q·m ~ k·m - q·m ~ (k - q)·m
        lemma_refl(&b, qm);
        lemma_sub_congruent(&b, a, km, qm, qm);
        lemma_trans(&b, r, b.sub_s(a, qm), b.sub_s(km, qm));
        lemma_sub_mul(&b, k, q, m);
        lemma_sym(&b, b.mul_s(b.sub_s(k, q), m), b.sub_s(km, qm));
        lemma_trans(&b, r, b.sub_s(km, qm), b.mul_s(b.sub_s(k, q), m));
        lemma_divisor_nonzero(&b, m);
        if !b.eqv(b.sub_s(k, q), zs) {
            lemma_norm_multiple(&b, b.sub_s(k, q), m);
            lemma_norm_congruent(&b, r, b.mul_s(b.sub_s(k, q), m));
            assert(false);
        }
        // k - q ~ 0, so r ~ 0·m ~ 0
        lemma_refl(&b, m);
        lemma_mul_congruent(&b, b.sub_s(k, q), zs, m, m);
        lemma_zero_mul(&b, m);
        lemma_mul_closed(&b, zs, m);
        lemma_trans(&b, r, b.mul_s(b.sub_s(k, q), m), b.mul_s(zs, m));
        lemma_trans(&b, r, b.mul_s(zs, m), zs);
        lemma_sym(&b, z, zs);
        lemma_trans(&b, r, zs, z);
    }
}

/// `x ≡ 0` exactly when `a ≡ b`, for `x ~ a - b`.
proof fn lemma_congruent_zero<R: EuclideanDomain>(qr: &QuotientRing<R>, x: R::M, a: R::M, c: R::M)
    requires
        base_ready(qr),
        qr.base().member(x),
        qr.base().member(a),
        qr.base().member(c),
        qr.base().eqv(x, qr.base().sub_s(a, c)),
    ensures
        qr.congruent(x, qr.base().zero_s()) == qr.congruent(a, c),
{
    lemma_base_ready(qr);
    let b = qr.base();
    let m = qr.modulus_model();
    let zs = b.zero_s();
    lemma_sub_closed(&b, x, zs);
    lemma_sub_closed(&b, a, c);
    crate::laws::lemma_add_zero(&b, x);
    lemma_sub_unique(&b, x, x, zs);
    lemma_sym(&b, x, b.sub_s(x, zs));
    // x - 0 ~ x ~ a - c
    lemma_trans(&b, b.sub_s(x, zs), x, b.sub_s(a, c));
    lemma_sym(&b, b.sub_s(x, zs), b.sub_s(a, c));
    if qr.congruent(x, zs) {
        let k = choose|k: R::M| b.member(k) && b.eqv(b.sub_s(x, zs), b.mul_s(k, m));
        lemma_mul_closed(&b, k, m);
        lemma_trans(&b, b.sub_s(a, c), b.sub_s(x, zs), b.mul_s(k, m));
    }
    if qr.congruent(a, c) {
        let k = choose|k: R::M| b.member(k) && b.eqv(b.sub_s(a, c), b.mul_s(k, m));
        lemma_mul_closed(&b, k, m);
        lemma_trans(&b, b.sub_s(x, zs), b.sub_s(a, c), b.mul_s(k, m));
    }
}

/// A result element congruent to a base-ring value `t ~ x` is congruent to `x`.
proof fn lemma_result<R: EuclideanDomain>(h: &Rc<QuotientRing<R>>, r: QuotientRingElement<R>, t: R::E, x: R::M)
    requires
        h.wf(),
        h.sound(),
        h.valid(r),
        (**h).base().valid(t),
        (**h).base().member(x),
        h.eqv(h.model(r), (**h).base().model(t)),
        (**h).base().eqv((**h).base().model(t), x),
    ensures
        h.eqv(h.model(r), x),
{
    let qr = **h;
    lemma_base_ready(&qr);
    qr.base().lemma_valid_member(t);
    h.lemma_valid_member(r);
    lemma_congruent_eqv(&qr, h.model(r), qr.base().model(t), x);
}

impl<R: EuclideanDomain> Semigroup for Rc<QuotientRing<R>> {
    open spec fn mul_s(&self, a: R::M, b: R::M) -> R::M {
        (**self).base().mul_s(a, b)
    }

    fn mul(&self, a: &QuotientRingElement<R>, b: &QuotientRingElement<R>) -> (r: QuotientRingElement<R>) {
        let t = self.ring.mul(&a.value, &b.value);
        let r = self.element(t);
        proof {
            if self.sound() {
                let qr = **self;
                lemma_base_ready(&qr);
                qr.base().lemma_valid_member(a.value_element());
                qr.base().lemma_valid_member(b.value_element());
                lemma_mul_closed(&qr.base(), self.model(*a), self.model(*b));
                lemma_result(self, r, t, self.mul_s(self.model(*a), self.model(*b)));
            }
        }
        r
    }
}

impl<R: EuclideanDomain> Monoid for Rc<QuotientRing<R>> {
    open spec fn one_s(&self) -> R::M {
        (**self).base().one_s()
    }

    fn identity(&self) -> (r: QuotientRingElement<R>) {
        let t = self.ring.identity();
        let r = self.element(t);
        proof {
            if self.sound() {
                lemma_base_ready(&**self);
                lemma_result(self, r, t, self.one_s());
            }
        }
        r
    }
}

impl<R: EuclideanDomain> CommutativeMonoid for Rc<QuotientRing<R>> {
    open spec fn add_s(&self, a: R::M, b: R::M) -> R::M {
        (**self).base().add_s(a, b)
    }

    open spec fn zero_s(&self) -> R::M {
        (**self).base().zero_s()
    }

    fn add(&self, a: &QuotientRingElement<R>, b: &QuotientRingElement<R>) -> (r: QuotientRingElement<R>) {
        let t = self.ring.add(&a.value, &b.value);
        let r = self.element(t);
        proof {
            if self.sound() {
                let qr = **self;
                lemma_base_ready(&qr);
                qr.base().lemma_valid_member(a.value_element());
                qr.base().lemma_valid_member(b.value_element());
                lemma_add_closed(&qr.base(), self.model(*a), self.model(*b));
                lemma_result(self, r, t, self.add_s(self.model(*a), self.model(*b)));
            }
        }
        r
    }

    fn zero(&self) -> (r: QuotientRingElement<R>) {
        let t = self.ring.zero();
        let r = self.element(t);
        proof {
            if self.sound() {
                lemma_base_ready(&**self);
                lemma_result(self, r, t, self.zero_s());
            }
        }
        r
    }
}

impl<R: EuclideanDomain> AdditiveGroup for Rc<QuotientRing<R>> {
    open spec fn sub_s(&self, a: R::M, b: R::M) -> R::M {
        (**self).base().sub_s(a, b)
    }

    fn sub(&self, a: &QuotientRingElement<R>, b: &QuotientRingElement<R>) -> (r: QuotientRingElement<R>) {
        let t = self.ring.sub(&a.value, &b.value);
        let r = self.element(t);
        proof {
            if self.sound() {
                let qr = **self;
                lemma_base_ready(&qr);
                qr.base().lemma_valid_member(a.value_element());
                qr.base().lemma_valid_member(b.value_element());
                lemma_sub_closed(&qr.base(), self.model(*a), self.model(*b));
                lemma_result(self, r, t, self.sub_s(self.model(*a), self.model(*b)));
            }
        }
        r
    }
}

impl<R: EuclideanDomain> SemiRing for Rc<QuotientRing<R>> {

}

impl<R: EuclideanDomain> Ring for Rc<QuotientRing<R>> {

}

impl<R: EuclideanDomain> DecidableEq for Rc<QuotientRing<R>> {
    /// Two elements are equal when the modulus divides their difference.
    fn equal(&self, a: &QuotientRingElement<R>, b: &QuotientRingElement<R>) -> (r: bool) {
        let diff = self.ring.sub(&a.value, &b.value);
        let r = self.is_zero(&diff);
        proof {
            if self.sound() {
                let qr = **self;
                lemma_base_ready(&qr);
                qr.base().lemma_valid_member(a.value_element());
                qr.base().lemma_valid_member(b.value_element());
                qr.base().lemma_valid_member(diff);
                lemma_congruent_zero(&qr, qr.base().model(diff), self.model(*a), self.model(*b));
            }
        }
        r
    }
}

/// Congruence modulo `m` is an equivalence.
proof fn lemma_quotient_equivalence<R: EuclideanDomain>(h: &Rc<QuotientRing<R>>)
    requires
        h.wf(),
        euclidean_laws(&(**h).base()),
    ensures
        equivalence(h),
{
    let qr = **h;
    lemma_base_ready(&qr);
    reveal(equivalence);
    assert forall|a: R::M| #[trigger] h.member(a) implies h.eqv(a, a) by {
        lemma_congruent_refl(&qr, a);
    }
    assert forall|a: R::M, b: R::M|
        h.member(a) && h.member(b) && #[trigger] h.eqv(a, b) implies h.eqv(b, a) by {
        lemma_congruent_sym(&qr, a, b);
    }
    assert forall|a: R::M, b: R::M, c: R::M|
        h.member(a) && h.member(b) && h.member(c) && #[trigger] h.eqv(a, b) && #[trigger] h.eqv(
            b,
            c,
        ) implies h.eqv(a, c) by {
        lemma_congruent_trans(&qr, a, b, c);
    }
}

/// Addition modulo `m` is a commutative group.
proof fn lemma_quotient_group<R: EuclideanDomain>(h: &Rc<QuotientRing<R>>)
    requires
        h.wf(),
        euclidean_laws(&(**h).base()),
    ensures
        group_laws(h),
{
    let qr = **h;
    let b = qr.base();
    lemma_base_ready(&qr);
    lemma_quotient_equivalence(h);
    reveal(group_laws);
    reveal(additive_laws);
    assert forall|a: R::M, c: R::M| h.member(a) && h.member(c) implies #[trigger] h.member(
        h.add_s(a, c),
    ) by {
        lemma_add_closed(&b, a, c);
    }
    assert forall|a1: R::M, a2: R::M, b1: R::M, b2: R::M|
        h.member(a1) && h.member(a2) && h.member(b1) && h.member(b2) && h.eqv(a1, a2) && h.eqv(
            b1,
            b2,
        ) implies #[trigger] h.eqv(h.add_s(a1, b1), h.add_s(a2, b2)) by {
        lemma_congruent_add(&qr, a1, a2, b1, b2);
    }
    assert forall|a: R::M, c: R::M, e: R::M|
        h.member(a) && h.member(c) && h.member(e) implies h.eqv(
        #[trigger] h.add_s(h.add_s(a, c), e),
        h.add_s(a, h.add_s(c, e)),
    ) by {
        lemma_add_assoc(&b, a, c, e);
        lemma_add_closed(&b, a, c);
        lemma_add_closed(&b, c, e);
        lemma_add_closed(&b, b.add_s(a, c), e);
        lemma_add_closed(&b, a, b.add_s(c, e));
        lemma_eqv_congruent(&qr, b.add_s(b.add_s(a, c), e), b.add_s(a, b.add_s(c, e)));
    }
    assert forall|a: R::M, c: R::M| h.member(a) && h.member(c) implies h.eqv(
        #[trigger] h.add_s(a, c),
        h.add_s(c, a),
    ) by {
        lemma_add_comm(&b, a, c);
        lemma_add_closed(&b, a, c);
        lemma_add_closed(&b, c, a);
        lemma_eqv_congruent(&qr, b.add_s(a, c), b.add_s(c, a));
    }
    assert forall|a: R::M| h.member(a) implies h.eqv(#[trigger] h.add_s(h.zero_s(), a), a) by {
        lemma_add_zero(&b, a);
        lemma_add_closed(&b, b.zero_s(), a);
        lemma_eqv_congruent(&qr, b.add_s(b.zero_s(), a), a);
    }
    assert forall|a: R::M, c: R::M| h.member(a) && h.member(c) implies #[trigger] h.member(
        h.sub_s(a, c),
    ) by {
        lemma_sub_closed(&b, a, c);
    }
    assert forall|a1: R::M, a2: R::M, b1: R::M, b2: R::M|
        h.member(a1) && h.member(a2) && h.member(b1) && h.member(b2) && h.eqv(a1, a2) && h.eqv(
            b1,
            b2,
        ) implies #[trigger] h.eqv(h.sub_s(a1, b1), h.sub_s(a2, b2)) by {
        lemma_congruent_sub(&qr, a1, a2, b1, b2);
    }
    assert forall|a: R::M, c: R::M| h.member(a) && h.member(c) implies h.eqv(
        #[trigger] h.add_s(h.sub_s(a, c), c),
        a,
    ) by {
        lemma_sub_add(&b, a, c);
        lemma_sub_closed(&b, a, c);
        lemma_add_closed(&b, b.sub_s(a, c), c);
        lemma_eqv_congruent(&qr, b.add_s(b.sub_s(a, c), c), a);
    }
}

/// Multiplication modulo `m` is a commutative monoid.
proof fn lemma_quotient_monoid<R: EuclideanDomain>(h: &Rc<QuotientRing<R>>)
    requires
        h.wf(),
        euclidean_laws(&(**h).base()),
    ensures
        monoid_laws(h),
        commutative_laws(h),
{
    let qr = **h;
    let b = qr.base();
    lemma_base_ready(&qr);
    lemma_quotient_equivalence(h);
    reveal(monoid_laws);
    reveal(semigroup_laws);
    reveal(commutative_laws);
    assert forall|a: R::M, c: R::M| h.member(a) && h.member(c) implies #[trigger] h.member(
        h.mul_s(a, c),
    ) by {
        lemma_mul_closed(&b, a, c);
    }
    assert forall|a1: R::M, a2: R::M, b1: R::M, b2: R::M|
        h.member(a1) && h.member(a2) && h.member(b1) && h.member(b2) && h.eqv(a1, a2) && h.eqv(
            b1,
            b2,
        ) implies #[trigger] h.eqv(h.mul_s(a1, b1), h.mul_s(a2, b2)) by {
        lemma_congruent_mul(&qr, a1, a2, b1, b2);
    }
    assert forall|a: R::M, c: R::M, e: R::M|
        h.member(a) && h.member(c) && h.member(e) implies h.eqv(
        #[trigger] h.mul_s(h.mul_s(a, c), e),
        h.mul_s(a, h.mul_s(c, e)),
    ) by {
        lemma_mul_assoc(&b, a, c, e);
        lemma_mul_closed(&b, a, c);
        lemma_mul_closed(&b, c, e);
        lemma_mul_closed(&b, b.mul_s(a, c), e);
        lemma_mul_closed(&b, a, b.mul_s(c, e));
        lemma_eqv_congruent(&qr, b.mul_s(b.mul_s(a, c), e), b.mul_s(a, b.mul_s(c, e)));
    }
    assert forall|a: R::M| h.member(a) implies h.eqv(#[trigger] h.mul_s(h.one_s(), a), a) by {
        lemma_mul_one(&b, a);
        lemma_mul_closed(&b, b.one_s(), a);
        lemma_eqv_congruent(&qr, b.mul_s(b.one_s(), a), a);
    }
    assert forall|a: R::M| h.member(a) implies h.eqv(#[trigger] h.mul_s(a, h.one_s()), a) by {
        lemma_mul_one(&b, a);
        lemma_mul_closed(&b, a, b.one_s());
        lemma_eqv_congruent(&qr, b.mul_s(a, b.one_s()), a);
    }
    assert forall|a: R::M, c: R::M| h.member(a) && h.member(c) implies h.eqv(
        #[trigger] h.mul_s(a, c),
        h.mul_s(c, a),
    ) by {
        lemma_mul_comm(&b, a, c);
        lemma_mul_closed(&b, a, c);
        lemma_mul_closed(&b, c, a);
        lemma_eqv_congruent(&qr, b.mul_s(a, c), b.mul_s(c, a));
    }
}

/// `R / (m)` is a commutative ring whenever `R` is a Euclidean domain.
pub proof fn lemma_quotient_ring<R: EuclideanDomain>(h: &Rc<QuotientRing<R>>)
    requires
        h.wf(),
        euclidean_laws(&(**h).base()),
    ensures
        ring_laws(h),
        commutative_laws(h),
        h.sound(),
{
    let qr = **h;
    let b = qr.base();
    lemma_base_ready(&qr);
    lemma_quotient_group(h);
    lemma_quotient_monoid(h);
    reveal(ring_laws);
    assert forall|a: R::M, c: R::M, e: R::M|
        h.member(a) && h.member(c) && h.member(e) implies h.eqv(
        #[trigger] h.mul_s(a, h.add_s(c, e)),
        h.add_s(h.mul_s(a, c), h.mul_s(a, e)),
    ) by {
        lemma_distrib(&b, a, c, e);
        lemma_add_closed(&b, c, e);
        lemma_mul_closed(&b, a, b.add_s(c, e));
        lemma_mul_closed(&b, a, c);
        lemma_mul_closed(&b, a, e);
        lemma_add_closed(&b, b.mul_s(a, c), b.mul_s(a, e));
        lemma_eqv_congruent(&qr, b.mul_s(a, b.add_s(c, e)), b.add_s(b.mul_s(a, c), b.mul_s(a, e)));
    }
    assert forall|a: R::M, c: R::M, e: R::M|
        h.member(a) && h.member(c) && h.member(e) implies h.eqv(
        #[trigger] h.mul_s(h.add_s(a, c), e),
        h.add_s(h.mul_s(a, e), h.mul_s(c, e)),
    ) by {
        lemma_distrib(&b, a, c, e);
        lemma_add_closed(&b, a, c);
        lemma_mul_closed(&b, b.add_s(a, c), e);
        lemma_mul_closed(&b, a, e);
        lemma_mul_closed(&b, c, e);
        lemma_add_closed(&b, b.mul_s(a, e), b.mul_s(c, e));
        lemma_eqv_congruent(&qr, b.mul_s(b.add_s(a, c), e), b.add_s(b.mul_s(a, e), b.mul_s(c, e)));
    }
}


/// A common divisor `g` of `x` and the modulus is a unit once `x` has an inverse
/// modulo `m`: from `x ~ k1·g`, `m ~ k2·g` and `x·y - 1 ~ k·m`,
/// `g · (k1·y - k·k2) ~ 1`.
proof fn lemma_common_divisor_unit<R: EuclideanDomain>(qr: &QuotientRing<R>, x: R::M, y: R::M, g: R::M)
    requires
        base_ready(qr),
        qr.base().member(x),
        qr.base().member(y),
        qr.base().member(g),
        divides(&qr.base(), g, x),
        divides(&qr.base(), g, qr.modulus_model()),
        qr.congruent(qr.base().mul_s(x, y), qr.base().one_s()),
    ensures
        is_unit(&qr.base(), g),
{
    lemma_base_ready(qr);
    let b = qr.base();
    let m = qr.modulus_model();
    let one = b.one_s();
    let xy = b.mul_s(x, y);
    let k1 = choose|k: R::M| b.member(k) && b.eqv(x, b.mul_s(k, g));
    let k2 = choose|k: R::M| b.member(k) && b.eqv(m, b.mul_s(k, g));
    let k = choose|k: R::M| b.member(k) && b.eqv(b.sub_s(xy, one), b.mul_s(k, m));
    let km = b.mul_s(k, m);
    let k1y = b.mul_s(k1, y);
    let kk2 = b.mul_s(k, k2);
    let c = b.sub_s(k1y, kk2);
    lemma_mul_closed(&b, x, y);
    lemma_mul_closed(&b, k, m);
    lemma_mul_closed(&b, k1, y);
    lemma_mul_closed(&b, k, k2);
    lemma_mul_closed(&b, k1, g);
    lemma_mul_closed(&b, k2, g);
    lemma_mul_closed(&b, g, k1);
    lemma_mul_closed(&b, g, k);
    lemma_mul_closed(&b, k, g);
    lemma_mul_closed(&b, g, k2);
    lemma_mul_closed(&b, g, k1y);
    lemma_mul_closed(&b, g, kk2);
    lemma_mul_closed(&b, b.mul_s(g, k1), y);
    lemma_mul_closed(&b, b.mul_s(g, k), k2);
    lemma_mul_closed(&b, b.mul_s(k, g), k2);
    lemma_mul_closed(&b, k, b.mul_s(g, k2));
    lemma_mul_closed(&b, k, b.mul_s(k2, g));
    lemma_sub_closed(&b, k1y, kk2);
    lemma_mul_closed(&b, g, c);
    lemma_sub_closed(&b, xy, one);
    lemma_sub_closed(&b, xy, km);
    lemma_sub_closed(&b, b.mul_s(g, k1y), b.mul_s(g, kk2));
    // g·(k1·y) ~ (g·k1)·y ~ (k1·g)·y ~ x·y
    lemma_mul_assoc(&b, g, k1, y);
    lemma_sym(&b, b.mul_s(b.mul_s(g, k1), y), b.mul_s(g, k1y));
    lemma_mul_comm(&b, g, k1);
    lemma_sym(&b, x, b.mul_s(k1, g));
    lemma_trans(&b, b.mul_s(g, k1), b.mul_s(k1, g), x);
    lemma_refl(&b, y);
    lemma_mul_congruent(&b, b.mul_s(g, k1), x, y, y);
    lemma_trans(&b, b.mul_s(g, k1y), b.mul_s(b.mul_s(g, k1), y), xy);
    // g·(k·k2) ~ (g·k)·k2 ~ (k·g)·k2 ~ k·(g·k2) ~ k·(k2·g) ~ k·m
    lemma_mul_assoc(&b, g, k, k2);
    lemma_sym(&b, b.mul_s(b.mul_s(g, k), k2), b.mul_s(g, kk2));
    lemma_mul_comm(&b, g, k);
    lemma_refl(&b, k2);
    lemma_mul_congruent(&b, b.mul_s(g, k), b.mul_s(k, g), k2, k2);
    lemma_mul_assoc(&b, k, g, k2);
    lemma_mul_comm(&b, g, k2);
    lemma_refl(&b, k);
    lemma_mul_congruent(&b, k, k, b.mul_s(g, k2), b.mul_s(k2, g));
    lemma_sym(&b, m, b.mul_s(k2, g));
    lemma_mul_congruent(&b, k, k, b.mul_s(k2, g), m);
    lemma_trans(&b, b.mul_s(g, kk2), b.mul_s(b.mul_s(g, k), k2), b.mul_s(b.mul_s(k, g), k2));
    lemma_trans(&b, b.mul_s(g, kk2), b.mul_s(b.mul_s(k, g), k2), b.mul_s(k, b.mul_s(g, k2)));
    lemma_trans(&b, b.mul_s(g, kk2), b.mul_s(k, b.mul_s(g, k2)), b.mul_s(k, b.mul_s(k2, g)));
    lemma_trans(&b, b.mul_s(g, kk2), b.mul_s(k, b.mul_s(k2, g)), km);
    // g·c ~ g·(k1·y) - g·(k·k2) ~ x·y - k·m
    lemma_mul_sub(&b, g, k1y, kk2);
    lemma_sub_congruent(&b, b.mul_s(g, k1y), xy, b.mul_s(g, kk2), km);
    lemma_trans(&b, b.mul_s(g, c), b.sub_s(b.mul_s(g, k1y), b.mul_s(g, kk2)), b.sub_s(xy, km));
    // x·y - k·m ~ 1, since 1 + k·m ~ (x·y - 1) + 1 ~ x·y
    lemma_add_closed(&b, one, km);
    lemma_add_closed(&b, km, one);
    lemma_add_closed(&b, b.sub_s(xy, one), one);
    lemma_add_comm(&b, one, km);
    lemma_sym(&b, b.sub_s(xy, one), km);
    lemma_refl(&b, one);
    lemma_add_congruent(&b, km, b.sub_s(xy, one), one, one);
    lemma_sub_add(&b, xy, one);
    lemma_trans(&b, b.add_s(one, km), b.add_s(km, one), b.add_s(b.sub_s(xy, one), one));
    lemma_trans(&b, b.add_s(one, km), b.add_s(b.sub_s(xy, one), one), xy);
    lemma_sub_unique(&b, one, xy, km);
    lemma_sym(&b, one, b.sub_s(xy, km));
    lemma_trans(&b, b.mul_s(g, c), b.sub_s(xy, km), one);
    assert(b.member(c) && b.eqv(b.mul_s(g, c), one));
}

/// From `s·x + t·m ~ 1`, `x · s ≡ 1 (mod m)`.
proof fn lemma_bezout_inverse<R: EuclideanDomain>(qr: &QuotientRing<R>, x: R::M, s: R::M, t: R::M)
    requires
        base_ready(qr),
        qr.base().member(x),
        qr.base().member(s),
        qr.base().member(t),
        bezout(&qr.base(), x, qr.modulus_model(), s, t, qr.base().one_s()),
    ensures
        qr.congruent(qr.base().mul_s(x, s), qr.base().one_s()),
{
    lemma_base_ready(qr);
    let b = qr.base();
    let m = qr.modulus_model();
    let one = b.one_s();
    let z = b.zero_s();
    let sx = b.mul_s(s, x);
    let tm = b.mul_s(t, m);
    lemma_mul_closed(&b, s, x);
    lemma_mul_closed(&b, x, s);
    lemma_mul_closed(&b, t, m);
    lemma_sub_closed(&b, tm, z);
    lemma_add_closed(&b, sx, tm);
    lemma_add_closed(&b, sx, z);
    // t·m ≡ 0, as t·m - 0 ~ t·m
    lemma_add_zero(&b, tm);
    lemma_sub_unique(&b, tm, tm, z);
    lemma_sym(&b, tm, b.sub_s(tm, z));
    assert(qr.congruent(tm, z));
    // s·x + t·m ≡ s·x + 0 ~ s·x
    lemma_congruent_refl(qr, sx);
    lemma_congruent_add(qr, sx, sx, tm, z);
    lemma_add_zero(&b, sx);
    lemma_congruent_eqv(qr, b.add_s(sx, tm), b.add_s(sx, z), sx);
    // s·x + t·m ~ 1, so s·x ≡ 1
    lemma_eqv_congruent(qr, b.add_s(sx, tm), one);
    lemma_congruent_sym(qr, b.add_s(sx, tm), sx);
    lemma_congruent_trans(qr, sx, b.add_s(sx, tm), one);
    // x·s ~ s·x
    lemma_mul_comm(&b, x, s);
    lemma_eqv_congruent(qr, b.mul_s(x, s), sx);
    lemma_congruent_trans(qr, b.mul_s(x, s), sx, one);
}

impl<R: EuclideanDomain> Field for Rc<QuotientRing<R>> {
    /// The extended Euclidean algorithm runs on the base ring.
    open spec fn invert_defined(&self) -> bool {
        &&& (**self).base().division_total()
        &&& (**self).base().sound()
    }

    /// `a` is not zero and has an inverse modulo `m`.
    open spec fn invertible(&self, a: R::M) -> bool {
        &&& !(**self).congruent(a, (**self).base().zero_s())
        &&& exists|y: R::M|
            (**self).base().member(y) && (**self).congruent(
                (**self).base().mul_s(a, y),
                (**self).base().one_s(),
            )
    }

    /// `a · b ≡ 1 (mod m)`.
    open spec fn inverse_of(&self, a: R::M, b: R::M) -> bool {
        (**self).congruent((**self).base().mul_s(a, b), (**self).base().one_s())
    }

    /// The algebraic contract (every nonzero element has an inverse) only holds when
    /// the modulus is irreducible in `R`. With a reducible modulus, non-units get
    /// `None` rather than a wrong inverse. Relies on `extended_gcd` returning a
    /// canonical gcd, so `gcd == identity` is the right coprimality test.
    fn invert(&self, x: &QuotientRingElement<R>) -> (r: Option<QuotientRingElement<R>>) {
        let zero = self.zero();
        if self.equal(x, &zero) {
            proof {
                if self.sound() {
                    let qr = **self;
                    lemma_base_ready(&qr);
                    self.lemma_valid_member(*x);
                    self.lemma_valid_member(zero);
                    lemma_congruent_sym(&qr, self.model(zero), qr.base().zero_s());
                    lemma_congruent_trans(&qr, self.model(*x), self.model(zero), qr.base().zero_s());
                }
            }
            return None;
        }
        let value = self.ring.copy(&x.value);
        let modulus = self.ring.copy(&self.modulus);
        let (g, s, t) = crate::euclidean::extended_gcd(&self.ring, value, modulus);
        let one = self.ring.identity();
        if !self.ring.equal(&g, &one) {
            proof {
                if self.sound() {
                    let qr = **self;
                    let b = qr.base();
                    lemma_base_ready(&qr);
                    b.lemma_valid_member(g);
                    b.lemma_valid_member(one);
                    if b.eqv(b.model(g), b.one_s()) {
                        lemma_sym(&b, b.model(one), b.one_s());
                        lemma_trans(&b, b.model(g), b.one_s(), b.model(one));
                    }
                    assert(!is_unit(&b, b.model(g)));
                    assert forall|y: R::M| b.member(y) implies !qr.congruent(
                        b.mul_s(self.model(*x), y),
                        b.one_s(),
                    ) by {
                        self.lemma_valid_member(*x);
                        if qr.congruent(b.mul_s(self.model(*x), y), b.one_s()) {
                            lemma_common_divisor_unit(&qr, self.model(*x), y, b.model(g));
                        }
                    }
                }
            }
            return None;
        }
        let ghost sv = s;
        let inv = self.element(s);
        proof {
            let s = sv;
            if self.sound() {
                let qr = **self;
                let b = qr.base();
                let mx = self.model(*x);
                lemma_base_ready(&qr);
                self.lemma_valid_member(*x);
                self.lemma_valid_member(zero);
                self.lemma_valid_member(inv);
                b.lemma_valid_member(g);
                b.lemma_valid_member(s);
                b.lemma_valid_member(t);
                b.lemma_valid_member(one);
                // g ~ 1, so s·x + t·m ~ 1
                lemma_trans(&b, b.model(g), b.model(one), b.one_s());
                crate::laws::lemma_mul_closed(&b, b.model(s), mx);
                crate::laws::lemma_mul_closed(&b, b.model(t), qr.modulus_model());
                crate::laws::lemma_add_closed(
                    &b,
                    b.mul_s(b.model(s), mx),
                    b.mul_s(b.model(t), qr.modulus_model()),
                );
                lemma_trans(
                    &b,
                    b.add_s(b.mul_s(b.model(s), mx), b.mul_s(b.model(t), qr.modulus_model())),
                    b.model(g),
                    b.one_s(),
                );
                lemma_bezout_inverse(&qr, mx, b.model(s), b.model(t));
                // x · inv ≡ x · s ≡ 1
                lemma_congruent_refl(&qr, mx);
                lemma_congruent_mul(&qr, mx, mx, self.model(inv), b.model(s));
                lemma_mul_closed(&b, mx, self.model(inv));
                lemma_mul_closed(&b, mx, b.model(s));
                lemma_congruent_trans(&qr, b.mul_s(mx, self.model(inv)), b.mul_s(mx, b.model(s)), b.one_s());
                // x is not zero
                if qr.congruent(mx, b.zero_s()) {
                    lemma_congruent_sym(&qr, self.model(zero), b.zero_s());
                    lemma_congruent_trans(&qr, mx, b.zero_s(), self.model(zero));
                }
            }
        }
        Some(inv)
    }
}


/// `R / (m)` obeys the field laws whenever `R` is a Euclidean domain: what `invert`
/// returns multiplies back to one (whether every nonzero element has an inverse
/// depends on the modulus, and is not claimed here).
///
/// Needs a modulus that is not a unit, which would make every element zero.
pub proof fn lemma_quotient_field<R: EuclideanDomain>(h: &Rc<QuotientRing<R>>)
    requires
        h.wf(),
        euclidean_laws(&(**h).base()),
        !is_unit(&(**h).base(), (**h).modulus_model()),
    ensures
        field_laws(h),
{
    let qr = **h;
    let b = qr.base();
    let m = qr.modulus_model();
    lemma_quotient_ring(h);
    lemma_base_ready(&qr);
    // 1 ≢ 0, or else 1 ~ k·m and m is a unit
    if qr.congruent(b.one_s(), b.zero_s()) {
        let k = choose|k: R::M| b.member(k) && b.eqv(b.sub_s(b.one_s(), b.zero_s()), b.mul_s(k, m));
        lemma_add_zero(&b, b.one_s());
        lemma_sub_unique(&b, b.one_s(), b.one_s(), b.zero_s());
        lemma_sub_closed(&b, b.one_s(), b.zero_s());
        lemma_mul_closed(&b, k, m);
        lemma_mul_closed(&b, m, k);
        lemma_trans(&b, b.one_s(), b.sub_s(b.one_s(), b.zero_s()), b.mul_s(k, m));
        lemma_mul_comm(&b, m, k);
        lemma_sym(&b, b.one_s(), b.mul_s(k, m));
        lemma_trans(&b, b.mul_s(m, k), b.mul_s(k, m), b.one_s());
        assert(is_unit(&b, m));
    }
    assert forall|a: R::M| h.member(a) implies (#[trigger] h.invertible(a) <==> has_inverse(h, a)) by {
        if has_inverse(h, a) {
            let y = choose|y: R::M| h.member(y) && h.eqv(h.mul_s(a, y), h.one_s());
            if qr.congruent(a, b.zero_s()) {
                // 1 ≡ a·y ≡ 0·y ~ 0
                lemma_congruent_refl(&qr, y);
                lemma_congruent_mul(&qr, a, b.zero_s(), y, y);
                lemma_zero_mul(&b, y);
                lemma_mul_closed(&b, a, y);
                lemma_mul_closed(&b, b.zero_s(), y);
                lemma_congruent_eqv(&qr, b.mul_s(a, y), b.mul_s(b.zero_s(), y), b.zero_s());
                lemma_congruent_sym(&qr, b.mul_s(a, y), b.one_s());
                lemma_congruent_trans(&qr, b.one_s(), b.mul_s(a, y), b.zero_s());
            }
            assert(b.member(y) && qr.congruent(b.mul_s(a, y), b.one_s()));
        }
        if h.invertible(a) {
            let y = choose|y: R::M|
                b.member(y) && qr.congruent(b.mul_s(a, y), b.one_s());
            assert(h.member(y) && h.eqv(h.mul_s(a, y), h.one_s()));
        }
    }
    reveal(field_laws);
}

/// `m` is irreducible: not a unit, and in every factorisation `m ~ x · y` one of
/// the factors is a unit.
pub open spec fn irreducible<R: EuclideanDomain>(d: &R, m: R::M) -> bool {
    &&& !is_unit(d, m)
    &&& forall|x: R::M, y: R::M|
        d.member(x) && d.member(y) && #[trigger] d.eqv(m, d.mul_s(x, y)) ==> is_unit(d, x) || is_unit(d, y)
}

/// `R / (m)` is a field in which every nonzero element has an inverse when `m` is
/// irreducible in a Euclidean domain `R` whose divisions can always be carried out:
/// a nonzero `a` is coprime to `m`, and the Bezout coefficient of `a` is its inverse.
pub proof fn lemma_quotient_complete<R: EuclideanDomain>(h: &Rc<QuotientRing<R>>)
    requires
        h.wf(),
        euclidean_laws(&(**h).base()),
        division_exists(&(**h).base()),
        irreducible(&(**h).base(), (**h).modulus_model()),
    ensures
        field_laws(h),
        complete_field(h),
{
    let qr = **h;
    let b = qr.base();
    let m = qr.modulus_model();
    lemma_quotient_field(h);
    lemma_base_ready(&qr);
    crate::laws::lemma_invertible(h, h.one_s());
    assert forall|a: R::M| h.member(a) && !h.eqv(a, h.zero_s()) implies #[trigger] h.invertible(a) by {
        lemma_bezout_exists(&b, a, m);
        let (g, s, t) = choose|g: R::M, s: R::M, t: R::M|
            b.member(g) && b.member(s) && b.member(t) && #[trigger] bezout(&b, a, m, s, t, g) && divides(&b, g, a)
                && divides(&b, g, m);
        let k = choose|k: R::M| b.member(k) && b.eqv(m, b.mul_s(k, g));
        assert(is_unit(&b, k) || is_unit(&b, g));
        if is_unit(&b, g) {
            // scale the Bezout relation by an inverse of g
            let c = choose|c: R::M| b.member(c) && b.eqv(b.mul_s(g, c), b.one_s());
            lemma_bezout_scale(&b, a, m, s, t, g, c);
            lemma_mul_closed(&b, s, c);
            lemma_mul_closed(&b, t, c);
            lemma_mul_closed(&b, g, c);
            lemma_refl(&b, b.mul_s(s, c));
            lemma_refl(&b, b.mul_s(t, c));
            lemma_bezout_congruent(&b, a, m, b.mul_s(s, c), b.mul_s(t, c), b.mul_s(g, c), b.mul_s(s, c), b.mul_s(t, c), b.one_s());
            lemma_bezout_inverse(&qr, a, b.mul_s(s, c), b.mul_s(t, c));
            assert(h.member(b.mul_s(s, c)));
        } else {
            // k is a unit, so g ~ k⁻¹ · m and m divides a, which is then zero
            let c = choose|c: R::M| b.member(c) && b.eqv(b.mul_s(k, c), b.one_s());
            let j = choose|j: R::M| b.member(j) && b.eqv(a, b.mul_s(j, g));
            let one = b.one_s();
            lemma_mul_closed(&b, k, c);
            lemma_mul_closed(&b, c, k);
            lemma_mul_closed(&b, k, g);
            lemma_mul_closed(&b, c, m);
            lemma_mul_closed(&b, j, g);
            lemma_mul_closed(&b, j, c);
            lemma_mul_comm(&b, c, k);
            lemma_trans(&b, b.mul_s(c, k), b.mul_s(k, c), one);
            // g ~ 1 · g ~ (c · k) · g ~ c · (k · g) ~ c · m
            lemma_mul_one(&b, g);
            lemma_refl(&b, g);
            lemma_mul_congruent(&b, b.mul_s(c, k), one, g, g);
            lemma_mul_closed(&b, b.mul_s(c, k), g);
            lemma_mul_closed(&b, one, g);
            lemma_trans(&b, b.mul_s(b.mul_s(c, k), g), b.mul_s(one, g), g);
            lemma_mul_assoc(&b, c, k, g);
            lemma_mul_closed(&b, c, b.mul_s(k, g));
            lemma_refl(&b, c);
            lemma_sym(&b, m, b.mul_s(k, g));
            lemma_mul_congruent(&b, c, c, b.mul_s(k, g), m);
            lemma_sym(&b, b.mul_s(b.mul_s(c, k), g), g);
            lemma_sym(&b, b.mul_s(b.mul_s(c, k), g), b.mul_s(c, b.mul_s(k, g)));
            lemma_trans(&b, g, b.mul_s(b.mul_s(c, k), g), b.mul_s(c, b.mul_s(k, g)));
            lemma_trans(&b, g, b.mul_s(c, b.mul_s(k, g)), b.mul_s(c, m));
            // a ~ j · g ~ j · (c · m) ~ (j · c) · m
            lemma_refl(&b, j);
            lemma_mul_congruent(&b, j, j, g, b.mul_s(c, m));
            lemma_mul_closed(&b, j, b.mul_s(c, m));
            lemma_trans(&b, a, b.mul_s(j, g), b.mul_s(j, b.mul_s(c, m)));
            lemma_mul_assoc(&b, j, c, m);
            lemma_mul_closed(&b, b.mul_s(j, c), m);
            lemma_sym(&b, b.mul_s(b.mul_s(j, c), m), b.mul_s(j, b.mul_s(c, m)));
            lemma_trans(&b, a, b.mul_s(j, b.mul_s(c, m)), b.mul_s(b.mul_s(j, c), m));
            // a - 0 ~ a ~ (j · c) · m: a ≡ 0
            crate::elimination::lemma_sub_zero(&b, a);
            lemma_sub_closed(&b, a, b.zero_s());
            lemma_trans(&b, b.sub_s(a, b.zero_s()), a, b.mul_s(b.mul_s(j, c), m));
            assert(qr.congruent(a, b.zero_s()));
        }
    }
}

impl<R: EuclideanDomain + Render> Render for Rc<QuotientRing<R>> {
    /// The text of the reduced representative.
    open spec fn text(&self, x: QuotientRingElement<R>) -> Seq<char> {
        (**self).base().text(x.value_element())
    }

    fn render(&self, x: &QuotientRingElement<R>) -> (r: String) {
        self.ring.render(&x.value)
    }
}

} // verus!
