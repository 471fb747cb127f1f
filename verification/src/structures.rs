//! The algebraic hierarchy.
//!
//! The hierarchy goes `Domain` → `Semigroup` → `Monoid` → `SemiRing` → `Ring` →
//! `EuclideanDomain`, and (orthogonally) `CommutativeMonoid` → `AdditiveGroup`. Traits
//! are implemented on a value-domain handle (such as `Integers`) rather than on the
//! element type, so one element type can take part in several structures.
//!
//! Every domain gives each of its elements a mathematical model (`Domain::M`), and
//! states the operations over models. Two models may denote the same element without
//! being equal (residues modulo `m`, polynomials with trailing zero coefficients), so
//! each domain also has its own equality on models, `Domain::eqv`. The executable
//! operations are specified against the model operations up to `eqv`. Whether the
//! model operations obey the ring axioms is a property of each instance, stated by
//! the `*_laws` predicates of the `laws` module.

use crate::integers::Integer;
use crate::laws::{
    equivalence, additive_laws, integer_multiple, group_laws, integer_image, lemma_add_closed, lemma_add_congruent,
    lemma_additive_equivalence, lemma_group_additive, lemma_multiple_add, lemma_multiple_member,
    lemma_ring_parts, lemma_sub_congruent, lemma_refl, lemma_sym, lemma_trans, multiple, ring_laws,
    lemma_sub_closed,
};
use vstd::arithmetic::div_mod::lemma_fundamental_div_mod;
use vstd::arithmetic::mul::{lemma_mul_is_associative, lemma_mul_is_distributive_add};
use vstd::prelude::*;

verus! {

/// A value-domain handle: it names a concrete element type and knows how to build
/// elements of it from representatives.
pub trait Domain: Sized {
    /// The element type carried by this domain.
    type E;

    /// A representative that this domain knows how to turn into an element.
    type Repr;

    /// The mathematical model of an element.
    type M;

    /// The handle's own invariant.
    spec fn wf(&self) -> bool;

    /// The hypotheses under which this domain's operations meet their model
    /// operations (for a construction, the laws of the structure it is built on).
    spec fn sound(&self) -> bool;

    /// The model of an element.
    spec fn model(&self, x: Self::E) -> Self::M;

    /// Whether `x` is a well-formed element of this domain.
    spec fn valid(&self, x: Self::E) -> bool;

    /// Whether a model belongs to this domain.
    spec fn member(&self, a: Self::M) -> bool;

    /// Whether two models denote the same element of this domain.
    spec fn eqv(&self, a: Self::M, b: Self::M) -> bool;

    /// Whether this domain can build an element from the representative.
    spec fn repr_ok(&self, v: Self::Repr) -> bool;

    /// The model that a representative denotes.
    spec fn denote(&self, v: Self::Repr) -> Self::M;

    /// The model of a well-formed element belongs to the domain.
    proof fn lemma_valid_member(&self, x: Self::E)
        requires
            self.wf(),
            self.valid(x),
        ensures
            self.member(self.model(x)),
    ;

    /// The model of a representative that the domain accepts belongs to it.
    proof fn lemma_repr_member(&self, v: Self::Repr)
        requires
            self.wf(),
            self.repr_ok(v),
        ensures
            self.member(self.denote(v)),
    ;

    /// Builds an element of this domain from a representative.
    fn element(&self, value: Self::Repr) -> (r: Self::E)
        requires
            self.wf(),
            self.repr_ok(value),
        ensures
            self.valid(r),
            self.sound() ==> self.eqv(self.model(r), self.denote(value)),
    ;

    /// Another handle on this domain.
    fn duplicate(&self) -> (r: Self)
        ensures
            r == *self,
    ;

    /// A copy of an element.
    fn copy(&self, x: &Self::E) -> (r: Self::E)
        ensures
            self.valid(*x) ==> self.model(r) == self.model(*x),
            self.valid(*x) ==> self.valid(r),
    ;
}

/// A domain whose equality can be decided.
pub trait DecidableEq: Domain {
    /// Whether `a` and `b` are the same element.
    fn equal(&self, a: &Self::E, b: &Self::E) -> (r: bool)
        requires
            self.wf(),
            self.valid(*a),
            self.valid(*b),
        ensures
            self.sound() ==> r == self.eqv(self.model(*a), self.model(*b)),
    ;
}

/// Equality tested on representatives, on every domain with a decidable equality.
pub trait ReprEq: DecidableEq {
    /// Tests whether two representatives denote the same element of this domain.
    fn eq(&self, a: Self::Repr, b: Self::Repr) -> (r: bool)
        requires
            self.wf(),
            self.repr_ok(a),
            self.repr_ok(b),
        ensures
            equivalence(self) ==> (r == self.eqv(self.denote(a), self.denote(b))),
    ;
}

impl<D: DecidableEq> ReprEq for D {
    fn eq(&self, a: Self::Repr, b: Self::Repr) -> (r: bool) {
        let ghost (da, db) = (self.denote(a), self.denote(b));
        proof {
            self.lemma_repr_member(a);
            self.lemma_repr_member(b);
        }
        let x = self.element(a);
        let y = self.element(b);
        let r = self.equal(&x, &y);
        proof {
            if equivalence(self) {
                reveal(equivalence);
                self.lemma_valid_member(x);
                self.lemma_valid_member(y);
                crate::laws::lemma_sym(self, self.model(x), da);
                crate::laws::lemma_sym(self, self.model(y), db);
                if self.eqv(self.model(x), self.model(y)) {
                    lemma_trans(self, da, self.model(x), self.model(y));
                    lemma_trans(self, da, self.model(y), db);
                }
                if self.eqv(da, db) {
                    lemma_trans(self, self.model(x), da, db);
                    lemma_trans(self, self.model(x), db, self.model(y));
                }
            }
        }
        r
    }
}

/// A domain whose elements form a semigroup under multiplication.
pub trait Semigroup: Domain {
    /// The product of two models.
    spec fn mul_s(&self, a: Self::M, b: Self::M) -> Self::M;

    /// The product `a * b`.
    fn mul(&self, a: &Self::E, b: &Self::E) -> (r: Self::E)
        requires
            self.wf(),
            self.valid(*a),
            self.valid(*b),
        ensures
            self.valid(r),
            self.sound() ==> self.eqv(self.model(r), self.mul_s(self.model(*a), self.model(*b))),
    ;
}

/// A semigroup with a multiplicative identity.
pub trait Monoid: Semigroup {
    /// The model of `1`.
    spec fn one_s(&self) -> Self::M;

    /// Returns the multiplicative identity (`1`).
    fn identity(&self) -> (r: Self::E)
        requires
            self.wf(),
        ensures
            self.valid(r),
            self.sound() ==> self.eqv(self.model(r), self.one_s()),
    ;
}

/// A domain whose elements form a commutative monoid under addition.
pub trait CommutativeMonoid: Domain {
    /// The sum of two models.
    spec fn add_s(&self, a: Self::M, b: Self::M) -> Self::M;

    /// The model of `0`.
    spec fn zero_s(&self) -> Self::M;

    /// The sum `a + b`.
    fn add(&self, a: &Self::E, b: &Self::E) -> (r: Self::E)
        requires
            self.wf(),
            self.valid(*a),
            self.valid(*b),
        ensures
            self.valid(r),
            self.sound() ==> self.eqv(self.model(r), self.add_s(self.model(*a), self.model(*b))),
    ;

    /// Returns the additive identity (`0`).
    fn zero(&self) -> (r: Self::E)
        requires
            self.wf(),
        ensures
            self.valid(r),
            self.sound() ==> self.eqv(self.model(r), self.zero_s()),
    ;
}

/// A commutative monoid under addition where every element has an additive inverse,
/// so subtraction is total.
pub trait AdditiveGroup: CommutativeMonoid {
    /// The difference of two models.
    spec fn sub_s(&self, a: Self::M, b: Self::M) -> Self::M;

    /// The difference `a - b`.
    fn sub(&self, a: &Self::E, b: &Self::E) -> (r: Self::E)
        requires
            self.wf(),
            self.valid(*a),
            self.valid(*b),
        ensures
            self.valid(r),
            self.sound() ==> self.eqv(self.model(r), self.sub_s(self.model(*a), self.model(*b))),
    ;
}

/// A domain that is both a multiplicative monoid and a commutative additive monoid.
pub trait SemiRing: Monoid + CommutativeMonoid {

}

/// A ring: a `SemiRing` whose additive monoid is also a group.
pub trait Ring: SemiRing + AdditiveGroup {

}

/// The canonical homomorphism `Z → R`, on every ring.
pub trait FromInteger: Ring {
    /// The canonical homomorphism `Z → R`, `n ↦ n · 1`, by double-and-add.
    ///
    /// On rings rather than semirings because a negative `n` needs subtraction.
    fn from_integer(&self, n: &Integer) -> (r: Self::E)
        requires
            self.wf(),
        ensures
            self.valid(r),
            ring_laws(self) ==> self.eqv(self.model(r), integer_image(self, n@)),
    ;
}

impl<R: Ring> FromInteger for R {
    fn from_integer(&self, n: &Integer) -> (r: Self::E) {
        let ghost one = self.one_s();
        let ghost laws = ring_laws(self);
        let magnitude = n.magnitude();
        let mut result = self.zero();
        let mut addend = self.identity();
        let mut m = magnitude.copy();
        let two = Integer::from_i64(2);
        let ghost mut done: nat = 0;
        let ghost mut k: nat = 1;
        proof {
            if laws {
                lemma_ring_parts(self);
                lemma_add_zero_one(self);
                self.lemma_valid_member(addend);
                self.lemma_valid_member(result);
                lemma_multiple_member(self, one, 1);
                lemma_multiple_member(self, one, 0);
                lemma_trans(self, self.model(addend), one, multiple(self, one, 1));
                lemma_trans(self, self.model(result), self.zero_s(), multiple(self, one, 0));
            }
        }
        while !m.is_zero()
            invariant
                self.wf(),
                self.valid(result),
                self.valid(addend),
                one == self.one_s(),
                laws == ring_laws(self),
                two@ == 2,
                m@ >= 0,
                magnitude@ == done + k * m@,
                laws ==> self.eqv(self.model(result), multiple(self, one, done)),
                laws ==> self.eqv(self.model(addend), multiple(self, one, k)),
            decreases m@,
        {
            let (q, rem) = m.quot_rem(&two);
            proof {
                lemma_fundamental_div_mod(m@, 2);
                assert(m@ == 2 * q@ + rem@);
                assert(rem@ == 0 || rem@ == 1);
            }
            if !rem.is_zero() {
                let sum = self.add(&result, &addend);
                proof {
                    if laws {
                        lemma_ring_parts(self);
                        lemma_double_step(self, result, addend, sum, one, done, k);
                    }
                    done = done + k;
                }
                result = sum;
            }
            proof {
                lemma_mul_is_distributive_add(k as int, 2 * q@, rem@);
                lemma_mul_is_associative(k as int, 2, q@);
            }
            m = q;
            if !m.is_zero() {
                let double = self.add(&addend, &addend);
                proof {
                    if laws {
                        lemma_ring_parts(self);
                        lemma_double_step(self, addend, addend, double, one, k, k);
                    }
                    k = k + k;
                }
                addend = double;
            }
        }
        if n.is_negative() {
            let zero = self.zero();
            let negated = self.sub(&zero, &result);
            proof {
                if laws {
                    lemma_ring_parts(self);
                    self.lemma_valid_member(zero);
                    self.lemma_valid_member(result);
                    self.lemma_valid_member(negated);
                    lemma_multiple_member(self, one, done);
                    lemma_refl(self, self.zero_s());
                    lemma_sub_closed(self, self.model(zero), self.model(result));
                    lemma_sub_closed(self, self.zero_s(), multiple(self, one, done));
                    lemma_sub_congruent(
                        self,
                        self.model(zero),
                        self.zero_s(),
                        self.model(result),
                        multiple(self, one, done),
                    );
                    lemma_trans(
                        self,
                        self.model(negated),
                        self.sub_s(self.model(zero), self.model(result)),
                        self.sub_s(self.zero_s(), multiple(self, one, done)),
                    );
                }
            }
            negated
        } else {
            result
        }
    }
}

/// `n · p`, by double-and-add, in any additive group; a negative `n` multiplies by
/// `|n|` and subtracts the result from zero.
pub fn scalar_multiple<D: AdditiveGroup>(d: &D, n: &Integer, p: &D::E) -> (r: D::E)
    requires
        d.wf(),
        d.valid(*p),
    ensures
        d.valid(r),
        group_laws(d) ==> d.eqv(d.model(r), integer_multiple(d, n@, d.model(*p))),
{
    let ghost a = d.model(*p);
    let ghost laws = group_laws(d);
    let magnitude = n.magnitude();
    let mut result = d.zero();
    let mut addend = d.copy(p);
    let mut m = magnitude.copy();
    let two = Integer::from_i64(2);
    let ghost mut done: nat = 0;
    let ghost mut k: nat = 1;
    proof {
        if laws {
            lemma_group_additive(d);
            d.lemma_valid_member(*p);
            d.lemma_valid_member(result);
            d.lemma_valid_member(addend);
            reveal_with_fuel(multiple, 2);
            crate::laws::lemma_add_zero(d, a);
            lemma_add_closed(d, d.zero_s(), a);
            lemma_sym(d, d.add_s(d.zero_s(), a), a);
            lemma_refl(d, a);
            lemma_trans(d, d.model(addend), a, multiple(d, a, 1));
            lemma_refl(d, d.zero_s());
            lemma_trans(d, d.model(result), d.zero_s(), multiple(d, a, 0));
        }
    }
    while !m.is_zero()
        invariant
            d.wf(),
            d.valid(result),
            d.valid(addend),
            a == d.model(*p),
            laws == group_laws(d),
            two@ == 2,
            m@ >= 0,
            magnitude@ == done + k * m@,
            laws ==> d.eqv(d.model(result), multiple(d, a, done)),
            laws ==> d.eqv(d.model(addend), multiple(d, a, k)),
            laws ==> d.member(a),
        decreases m@,
    {
        let (q, rem) = m.quot_rem(&two);
        proof {
            lemma_fundamental_div_mod(m@, 2);
            assert(m@ == 2 * q@ + rem@);
            assert(rem@ == 0 || rem@ == 1);
        }
        if !rem.is_zero() {
            let sum = d.add(&result, &addend);
            proof {
                if laws {
                    lemma_group_additive(d);
                    d.lemma_valid_member(result);
                    d.lemma_valid_member(addend);
                    d.lemma_valid_member(sum);
                    crate::laws::lemma_multiple_step(d, d.model(sum), d.model(result), d.model(addend), a, done, k);
                }
                done = done + k;
            }
            result = sum;
        }
        proof {
            lemma_mul_is_distributive_add(k as int, 2 * q@, rem@);
            lemma_mul_is_associative(k as int, 2, q@);
        }
        m = q;
        if !m.is_zero() {
            let double = d.add(&addend, &addend);
            proof {
                if laws {
                    lemma_group_additive(d);
                    d.lemma_valid_member(addend);
                    d.lemma_valid_member(double);
                    crate::laws::lemma_multiple_step(d, d.model(double), d.model(addend), d.model(addend), a, k, k);
                }
                k = k + k;
            }
            addend = double;
        }
    }
    if n.is_negative() {
        let zero = d.zero();
        let negated = d.sub(&zero, &result);
        proof {
            if laws {
                lemma_group_additive(d);
                d.lemma_valid_member(zero);
                d.lemma_valid_member(result);
                d.lemma_valid_member(negated);
                lemma_multiple_member(d, a, done);
                crate::laws::lemma_sub_step(d, d.model(negated), d.model(zero), d.model(result), d.zero_s(), multiple(d, a, done));
            }
        }
        negated
    } else {
        result
    }
}

/// `1` lies in the ring and `1 ~ 1 · 1`.
proof fn lemma_add_zero_one<R: Ring>(r: &R)
    requires
        ring_laws(r),
    ensures
        r.member(r.one_s()),
        r.eqv(r.one_s(), multiple(r, r.one_s(), 1)),
        r.eqv(r.zero_s(), multiple(r, r.one_s(), 0)),
{
    lemma_ring_parts(r);
    reveal_with_fuel(multiple, 2);
    crate::laws::lemma_add_zero(r, r.one_s());
    assert(multiple(r, r.one_s(), 1) == r.add_s(r.zero_s(), r.one_s()));
    lemma_multiple_member(r, r.one_s(), 1);
    lemma_sym(r, multiple(r, r.one_s(), 1), r.one_s());
    lemma_refl(r, r.zero_s());
}

/// One step of double-and-add: adding `i · 1` and `j · 1` held in `x` and `y` gives
/// `(i + j) · 1`.
proof fn lemma_double_step<R: Ring>(
    r: &R,
    x: R::E,
    y: R::E,
    sum: R::E,
    one: R::M,
    i: nat,
    j: nat,
)
    requires
        ring_laws(r),
        r.wf(),
        r.valid(x),
        r.valid(y),
        r.valid(sum),
        one == r.one_s(),
        r.eqv(r.model(x), multiple(r, one, i)),
        r.eqv(r.model(y), multiple(r, one, j)),
        r.eqv(r.model(sum), r.add_s(r.model(x), r.model(y))),
    ensures
        r.eqv(r.model(sum), multiple(r, one, i + j)),
{
    lemma_ring_parts(r);
    r.lemma_valid_member(x);
    r.lemma_valid_member(y);
    r.lemma_valid_member(sum);
    lemma_multiple_member(r, one, i);
    lemma_multiple_member(r, one, j);
    lemma_multiple_member(r, one, i + j);
    lemma_add_closed(r, r.model(x), r.model(y));
    lemma_add_closed(r, multiple(r, one, i), multiple(r, one, j));
    lemma_add_congruent(r, r.model(x), multiple(r, one, i), r.model(y), multiple(r, one, j));
    lemma_multiple_add(r, one, i, j);
    lemma_trans(
        r,
        r.model(sum),
        r.add_s(r.model(x), r.model(y)),
        r.add_s(multiple(r, one, i), multiple(r, one, j)),
    );
    lemma_trans(
        r,
        r.model(sum),
        r.add_s(multiple(r, one, i), multiple(r, one, j)),
        multiple(r, one, i + j),
    );
}

/// Elements that support Euclidean division, yielding `(quotient, remainder)`.
pub trait DivRem: Sized {
    /// Whether `self` can be divided by `divisor`.
    spec fn can_divide_by(&self, divisor: Self) -> bool;

    /// Whether `q` and `r` are the quotient and remainder of `self` by `divisor`.
    spec fn is_quotient_remainder(&self, divisor: Self, q: Self, r: Self) -> bool;

    /// Returns `(self / divisor, self % divisor)`.
    fn div_rem(&self, divisor: &Self) -> (qr: (Self, Self))
        requires
            self.can_divide_by(*divisor),
        ensures
            self.is_quotient_remainder(*divisor, qr.0, qr.1),
    ;
}

/// A Euclidean domain: a ring with division with remainder, and a known unit
/// structure (needed to canonicalise gcds).
///
/// `x = unit_part(x) * normal_part(x)`, where `normal_part(x) = unit_inverse(unit_part(x)) * x`
/// is the canonical representative of the associate class of `x`. For `Z`, the unit
/// part is the sign and the normal part is the absolute value. For a polynomial
/// ring `F[x]` over a field, the unit part is the leading coefficient and the
/// normal part is the monic associate.
pub trait EuclideanDomain: Ring + DecidableEq {
    /// The Euclidean size: a remainder is smaller than its divisor.
    spec fn norm(&self, a: Self::M) -> nat;

    /// Whether division by `d` is defined.
    spec fn divisor_ok(&self, d: Self::M) -> bool;

    /// Whether every nonzero element is a divisor and every unit part can be inverted,
    /// which the Euclidean algorithm relies on.
    spec fn division_total(&self) -> bool;

    /// Whether `q` and `r` are what dividing `a` by `d` gives.
    spec fn quotient_remainder(&self, a: Self::M, d: Self::M, q: Self::M, r: Self::M) -> bool;

    /// The unit part of an element.
    spec fn unit_part_s(&self, a: Self::M) -> Self::M;

    /// The inverse of a unit.
    spec fn unit_inverse_s(&self, u: Self::M) -> Self::M;

    /// Whether `unit_inverse` can invert `u`.
    spec fn unit_ok(&self, u: Self::M) -> bool;

    /// Under `division_total`, every element that differs from a zero `z` is a divisor.
    proof fn lemma_divisor(&self, d: Self::E, z: Self::E)
        requires
            self.wf(),
            self.division_total(),
            self.valid(d),
            self.valid(z),
            self.eqv(self.model(z), self.zero_s()),
            !self.eqv(self.model(d), self.model(z)),
        ensures
            self.divisor_ok(self.model(d)),
    ;

    /// `(a / d, a % d)`.
    fn divide(&self, a: &Self::E, d: &Self::E) -> (qr: (Self::E, Self::E))
        requires
            self.wf(),
            self.valid(*a),
            self.valid(*d),
            self.divisor_ok(self.model(*d)),
        ensures
            self.valid(qr.0),
            self.valid(qr.1),
            self.sound() ==> self.norm(self.model(qr.1)) < self.norm(self.model(*d)),
            self.sound() ==> self.quotient_remainder(
                self.model(*a),
                self.model(*d),
                self.model(qr.0),
                self.model(qr.1),
            ),
    ;

    /// Returns the unit part of `x` (the unit that, when divided out, leaves the
    /// canonical representative of `x`'s associate class).
    ///
    /// Convention: `unit_part(zero) = identity` so that `zero / unit_part(zero) = zero`.
    fn unit_part(&self, x: &Self::E) -> (u: Self::E)
        requires
            self.wf(),
            self.valid(*x),
        ensures
            self.valid(u),
            self.sound() ==> self.eqv(self.model(u), self.unit_part_s(self.model(*x))),
            self.division_total() ==> self.unit_ok(self.model(u)),
    ;

    /// Returns the multiplicative inverse of a unit.
    fn unit_inverse(&self, u: &Self::E) -> (v: Self::E)
        requires
            self.wf(),
            self.valid(*u),
            self.unit_ok(self.model(*u)),
        ensures
            self.valid(v),
            self.sound() ==> self.eqv(self.model(v), self.unit_inverse_s(self.model(*u))),
    ;
}

/// A field: a ring in which every nonzero element has a multiplicative inverse.
pub trait Field: Ring + DecidableEq {
    /// Whether `invert` may be called on this handle.
    spec fn invert_defined(&self) -> bool;

    /// Whether `invert` finds an inverse of `a`.
    spec fn invertible(&self, a: Self::M) -> bool;

    /// Whether `b` is the inverse that `invert` gives for `a`.
    spec fn inverse_of(&self, a: Self::M, b: Self::M) -> bool;

    /// Returns the multiplicative inverse of `x`, or `None` if there is none.
    fn invert(&self, x: &Self::E) -> (r: Option<Self::E>)
        requires
            self.wf(),
            self.invert_defined(),
            self.valid(*x),
        ensures
            r matches Some(y) ==> self.valid(y),
            self.sound() ==> (r is Some <==> self.invertible(self.model(*x))),
            self.sound() ==> (r matches Some(y) ==> self.inverse_of(self.model(*x), self.model(y))),
    ;

    /// The inverse of the element denoted by a representative.
    fn inverse(&self, x: Self::Repr) -> (r: Option<Self::E>)
        requires
            self.wf(),
            self.invert_defined(),
            self.repr_ok(x),
        ensures
            r matches Some(y) ==> self.valid(y),
            self.sound() ==> exists|e: Self::M|
                self.eqv(e, self.denote(x)) && (r is Some <==> self.invertible(e)) && (r matches Some(
                    y,
                ) ==> self.inverse_of(e, self.model(y))),
    {
        let e = self.element(x);
        let r = self.invert(&e);
        proof {
            if self.sound() {
                let m = self.model(e);
                assert(self.eqv(m, self.denote(x)) && (r is Some <==> self.invertible(m)) && (r matches Some(
                    y,
                ) ==> self.inverse_of(m, self.model(y))));
            }
        }
        r
    }
}

} // verus!
