//! The axioms of the algebraic structures, as predicates over a domain's model
//! operations, and one lemma per axiom to use them.
//!
//! An instance obeys a structure's laws when its predicate holds; the instances prove
//! it where they can (see `integers` and `quotient`). Generic algorithms state their
//! results under these predicates.

use crate::structures::{
    AdditiveGroup, CommutativeMonoid, Domain, EuclideanDomain, Field, Monoid, Ring, Semigroup,
};
use vstd::arithmetic::div_mod::lemma_fundamental_div_mod;
use vstd::arithmetic::mul::{lemma_mul_is_associative, lemma_mul_is_distributive_add};
use vstd::prelude::*;

verus! {

/// The domain is sound and `eqv` is an equivalence relation on its members.
#[verifier::opaque]
pub open spec fn equivalence<D: Domain>(d: &D) -> bool {
    &&& d.sound()
    &&& forall|a: D::M| #[trigger] d.member(a) ==> d.eqv(a, a)
    &&& forall|a: D::M, b: D::M|
        d.member(a) && d.member(b) && #[trigger] d.eqv(a, b) ==> d.eqv(b, a)
    &&& forall|a: D::M, b: D::M, c: D::M|
        d.member(a) && d.member(b) && d.member(c) && #[trigger] d.eqv(a, b) && #[trigger] d.eqv(
            b,
            c,
        ) ==> d.eqv(a, c)
}

/// Addition is a commutative monoid with identity `0`, compatible with `eqv`.
#[verifier::opaque]
pub open spec fn additive_laws<D: CommutativeMonoid>(d: &D) -> bool {
    &&& equivalence(d)
    &&& d.member(d.zero_s())
    &&& forall|a: D::M, b: D::M|
        d.member(a) && d.member(b) ==> #[trigger] d.member(d.add_s(a, b))
    &&& forall|a1: D::M, a2: D::M, b1: D::M, b2: D::M|
        d.member(a1) && d.member(a2) && d.member(b1) && d.member(b2) && d.eqv(a1, a2) && d.eqv(
            b1,
            b2,
        ) ==> #[trigger] d.eqv(d.add_s(a1, b1), d.add_s(a2, b2))
    &&& forall|a: D::M, b: D::M, c: D::M|
        d.member(a) && d.member(b) && d.member(c) ==> d.eqv(
            #[trigger] d.add_s(d.add_s(a, b), c),
            d.add_s(a, d.add_s(b, c)),
        )
    &&& forall|a: D::M, b: D::M|
        d.member(a) && d.member(b) ==> d.eqv(#[trigger] d.add_s(a, b), d.add_s(b, a))
    &&& forall|a: D::M| d.member(a) ==> d.eqv(#[trigger] d.add_s(d.zero_s(), a), a)
}

/// Addition forms a group: on top of `additive_laws`, subtraction is compatible with
/// `eqv` and undoes addition.
#[verifier::opaque]
pub open spec fn group_laws<D: AdditiveGroup>(d: &D) -> bool {
    &&& additive_laws(d)
    &&& forall|a: D::M, b: D::M|
        d.member(a) && d.member(b) ==> #[trigger] d.member(d.sub_s(a, b))
    &&& forall|a1: D::M, a2: D::M, b1: D::M, b2: D::M|
        d.member(a1) && d.member(a2) && d.member(b1) && d.member(b2) && d.eqv(a1, a2) && d.eqv(
            b1,
            b2,
        ) ==> #[trigger] d.eqv(d.sub_s(a1, b1), d.sub_s(a2, b2))
    &&& forall|a: D::M, b: D::M|
        d.member(a) && d.member(b) ==> d.eqv(#[trigger] d.add_s(d.sub_s(a, b), b), a)
}

/// Multiplication is associative and compatible with `eqv`.
#[verifier::opaque]
pub open spec fn semigroup_laws<D: Semigroup>(d: &D) -> bool {
    &&& equivalence(d)
    &&& forall|a: D::M, b: D::M|
        d.member(a) && d.member(b) ==> #[trigger] d.member(d.mul_s(a, b))
    &&& forall|a1: D::M, a2: D::M, b1: D::M, b2: D::M|
        d.member(a1) && d.member(a2) && d.member(b1) && d.member(b2) && d.eqv(a1, a2) && d.eqv(
            b1,
            b2,
        ) ==> #[trigger] d.eqv(d.mul_s(a1, b1), d.mul_s(a2, b2))
    &&& forall|a: D::M, b: D::M, c: D::M|
        d.member(a) && d.member(b) && d.member(c) ==> d.eqv(
            #[trigger] d.mul_s(d.mul_s(a, b), c),
            d.mul_s(a, d.mul_s(b, c)),
        )
}

/// A semigroup whose `1` is a two-sided identity.
#[verifier::opaque]
pub open spec fn monoid_laws<D: Monoid>(d: &D) -> bool {
    &&& semigroup_laws(d)
    &&& d.member(d.one_s())
    &&& forall|a: D::M| d.member(a) ==> d.eqv(#[trigger] d.mul_s(d.one_s(), a), a)
    &&& forall|a: D::M| d.member(a) ==> d.eqv(#[trigger] d.mul_s(a, d.one_s()), a)
}

/// Multiplication commutes.
#[verifier::opaque]
pub open spec fn commutative_laws<D: Semigroup>(d: &D) -> bool {
    forall|a: D::M, b: D::M|
        d.member(a) && d.member(b) ==> d.eqv(#[trigger] d.mul_s(a, b), d.mul_s(b, a))
}

/// A ring: a multiplicative monoid and an additive group, with multiplication
/// distributing over addition on both sides.
#[verifier::opaque]
pub open spec fn ring_laws<D: Ring>(d: &D) -> bool {
    &&& monoid_laws(d)
    &&& group_laws(d)
    &&& forall|a: D::M, b: D::M, c: D::M|
        d.member(a) && d.member(b) && d.member(c) ==> d.eqv(
            #[trigger] d.mul_s(a, d.add_s(b, c)),
            d.add_s(d.mul_s(a, b), d.mul_s(a, c)),
        )
    &&& forall|a: D::M, b: D::M, c: D::M|
        d.member(a) && d.member(b) && d.member(c) ==> d.eqv(
            #[trigger] d.mul_s(d.add_s(a, b), c),
            d.add_s(d.mul_s(a, c), d.mul_s(b, c)),
        )
}

/// A Euclidean domain: a commutative ring whose division satisfies
/// `a = q · d + r`.
#[verifier::opaque]
pub open spec fn euclidean_laws<D: EuclideanDomain>(d: &D) -> bool {
    &&& ring_laws(d)
    &&& commutative_laws(d)
    &&& forall|a: D::M, e: D::M, q: D::M, r: D::M|
        d.member(a) && d.member(e) && d.member(q) && d.member(r) && #[trigger] d.quotient_remainder(
            a,
            e,
            q,
            r,
        ) ==> d.eqv(a, d.add_s(d.mul_s(q, e), r))
    &&& forall|a: D::M, b: D::M|
        d.member(a) && d.member(b) && #[trigger] d.eqv(a, b) ==> d.norm(a) == d.norm(b)
    &&& forall|k: D::M, e: D::M|
        d.member(k) && d.member(e) && !d.eqv(k, d.zero_s()) && !d.eqv(e, d.zero_s()) ==> d.norm(
            #[trigger] d.mul_s(k, e),
        ) >= d.norm(e)
    &&& forall|e: D::M| d.member(e) && #[trigger] d.divisor_ok(e) ==> !d.eqv(e, d.zero_s())
    &&& forall|x: D::M, v: D::M|
        d.member(x) && d.member(v) && #[trigger] d.eqv(v, d.unit_part_s(x)) ==> {
            &&& d.member(d.unit_inverse_s(v))
            &&& d.eqv(d.mul_s(d.unit_inverse_s(v), v), d.one_s())
        }
    &&& forall|u: D::M, c: D::M, v: D::M|
        d.member(u) && d.member(c) && d.member(v) && #[trigger] d.eqv(d.mul_s(u, c), d.one_s())
            && #[trigger] d.eqv(v, d.unit_part_s(u)) ==> d.eqv(
            d.mul_s(u, d.unit_inverse_s(v)),
            d.one_s(),
        )
    &&& forall|x: D::M, v: D::M, i: D::M, w: D::M|
        #![trigger d.eqv(v, d.unit_part_s(x)), d.eqv(i, d.unit_inverse_s(v)), d.eqv(w, d.mul_s(x, i))]
        d.member(x) && d.member(v) && d.member(i) && d.member(w) && d.eqv(v, d.unit_part_s(x)) && d.eqv(
            i,
            d.unit_inverse_s(v),
        ) && d.eqv(w, d.mul_s(x, i)) ==> d.eqv(d.unit_part_s(w), d.one_s())
}

/// A commutative ring whose `invert` gives true inverses: `a · b ~ 1` whenever `b`
/// is what `invert` returns for `a`.
///
/// Also: `1` is not `0`, and `invert` finds an inverse exactly for the elements that
/// have one.
#[verifier::opaque]
pub open spec fn field_laws<F: Field>(f: &F) -> bool {
    &&& ring_laws(f)
    &&& commutative_laws(f)
    &&& !f.eqv(f.one_s(), f.zero_s())
    &&& forall|a: F::M, b: F::M|
        f.member(a) && f.member(b) && #[trigger] f.inverse_of(a, b) ==> f.eqv(
            f.mul_s(a, b),
            f.one_s(),
        )
    &&& forall|a: F::M| f.member(a) ==> (#[trigger] f.invertible(a) <==> has_inverse(f, a))
}

/// An inverse of `d`, when it has one.
pub open spec fn inverse_s<D: Monoid>(d: &D, a: D::M) -> D::M {
    choose|y: D::M| d.member(y) && d.eqv(d.mul_s(a, y), d.one_s())
}

/// `a · y ~ 1` for some `y`.
pub open spec fn has_inverse<D: Monoid>(d: &D, a: D::M) -> bool {
    exists|y: D::M| d.member(y) && d.eqv(d.mul_s(a, y), d.one_s())
}

/// Every nonzero element can be inverted, and `1` is not `0`: what makes a field out
/// of, say, the integers modulo a prime.
pub open spec fn complete_field<F: Field>(f: &F) -> bool {
    &&& !f.eqv(f.one_s(), f.zero_s())
    &&& forall|a: F::M| f.member(a) && !f.eqv(a, f.zero_s()) ==> #[trigger] f.invertible(a)
}

// ---------------------------------------------------------------------------------
// One lemma per axiom.
pub proof fn lemma_refl<D: Domain>(d: &D, a: D::M)
    requires
        equivalence(d),
        d.member(a),
    ensures
        d.eqv(a, a),
{
    reveal(equivalence);
}

pub proof fn lemma_sym<D: Domain>(d: &D, a: D::M, b: D::M)
    requires
        equivalence(d),
        d.member(a),
        d.member(b),
        d.eqv(a, b),
    ensures
        d.eqv(b, a),
{
    reveal(equivalence);
}

pub proof fn lemma_trans<D: Domain>(d: &D, a: D::M, b: D::M, c: D::M)
    requires
        equivalence(d),
        d.member(a),
        d.member(b),
        d.member(c),
        d.eqv(a, b),
        d.eqv(b, c),
    ensures
        d.eqv(a, c),
{
    reveal(equivalence);
}

pub proof fn lemma_additive_equivalence<D: CommutativeMonoid>(d: &D)
    requires
        additive_laws(d),
    ensures
        equivalence(d),
        d.sound(),
        d.member(d.zero_s()),
{
    reveal(additive_laws);
    reveal(equivalence);
}

pub proof fn lemma_add_closed<D: CommutativeMonoid>(d: &D, a: D::M, b: D::M)
    requires
        additive_laws(d),
        d.member(a),
        d.member(b),
    ensures
        d.member(d.add_s(a, b)),
{
    reveal(additive_laws);
}

pub proof fn lemma_add_congruent<D: CommutativeMonoid>(
    d: &D,
    a1: D::M,
    a2: D::M,
    b1: D::M,
    b2: D::M,
)
    requires
        additive_laws(d),
        d.member(a1),
        d.member(a2),
        d.member(b1),
        d.member(b2),
        d.eqv(a1, a2),
        d.eqv(b1, b2),
    ensures
        d.eqv(d.add_s(a1, b1), d.add_s(a2, b2)),
{
    reveal(additive_laws);
}

pub proof fn lemma_add_assoc<D: CommutativeMonoid>(d: &D, a: D::M, b: D::M, c: D::M)
    requires
        additive_laws(d),
        d.member(a),
        d.member(b),
        d.member(c),
    ensures
        d.eqv(d.add_s(d.add_s(a, b), c), d.add_s(a, d.add_s(b, c))),
{
    reveal(additive_laws);
}

pub proof fn lemma_add_comm<D: CommutativeMonoid>(d: &D, a: D::M, b: D::M)
    requires
        additive_laws(d),
        d.member(a),
        d.member(b),
    ensures
        d.eqv(d.add_s(a, b), d.add_s(b, a)),
{
    reveal(additive_laws);
}

pub proof fn lemma_add_zero<D: CommutativeMonoid>(d: &D, a: D::M)
    requires
        additive_laws(d),
        d.member(a),
    ensures
        d.eqv(d.add_s(d.zero_s(), a), a),
        d.eqv(d.add_s(a, d.zero_s()), a),
{
    reveal(additive_laws);
    lemma_trans(d, d.add_s(a, d.zero_s()), d.add_s(d.zero_s(), a), a);
}

pub proof fn lemma_group_additive<D: AdditiveGroup>(d: &D)
    requires
        group_laws(d),
    ensures
        additive_laws(d),
        equivalence(d),
        d.sound(),
        d.member(d.zero_s()),
{
    reveal(group_laws);
    lemma_additive_equivalence(d);
}

pub proof fn lemma_sub_closed<D: AdditiveGroup>(d: &D, a: D::M, b: D::M)
    requires
        group_laws(d),
        d.member(a),
        d.member(b),
    ensures
        d.member(d.sub_s(a, b)),
{
    reveal(group_laws);
}

pub proof fn lemma_sub_congruent<D: AdditiveGroup>(
    d: &D,
    a1: D::M,
    a2: D::M,
    b1: D::M,
    b2: D::M,
)
    requires
        group_laws(d),
        d.member(a1),
        d.member(a2),
        d.member(b1),
        d.member(b2),
        d.eqv(a1, a2),
        d.eqv(b1, b2),
    ensures
        d.eqv(d.sub_s(a1, b1), d.sub_s(a2, b2)),
{
    reveal(group_laws);
}

pub proof fn lemma_sub_add<D: AdditiveGroup>(d: &D, a: D::M, b: D::M)
    requires
        group_laws(d),
        d.member(a),
        d.member(b),
    ensures
        d.eqv(d.add_s(d.sub_s(a, b), b), a),
{
    reveal(group_laws);
}

pub proof fn lemma_semigroup_equivalence<D: Semigroup>(d: &D)
    requires
        semigroup_laws(d),
    ensures
        equivalence(d),
        d.sound(),
{
    reveal(semigroup_laws);
    reveal(equivalence);
}

pub proof fn lemma_mul_closed<D: Semigroup>(d: &D, a: D::M, b: D::M)
    requires
        semigroup_laws(d),
        d.member(a),
        d.member(b),
    ensures
        d.member(d.mul_s(a, b)),
{
    reveal(semigroup_laws);
}

pub proof fn lemma_mul_congruent<D: Semigroup>(
    d: &D,
    a1: D::M,
    a2: D::M,
    b1: D::M,
    b2: D::M,
)
    requires
        semigroup_laws(d),
        d.member(a1),
        d.member(a2),
        d.member(b1),
        d.member(b2),
        d.eqv(a1, a2),
        d.eqv(b1, b2),
    ensures
        d.eqv(d.mul_s(a1, b1), d.mul_s(a2, b2)),
{
    reveal(semigroup_laws);
}

pub proof fn lemma_mul_assoc<D: Semigroup>(d: &D, a: D::M, b: D::M, c: D::M)
    requires
        semigroup_laws(d),
        d.member(a),
        d.member(b),
        d.member(c),
    ensures
        d.eqv(d.mul_s(d.mul_s(a, b), c), d.mul_s(a, d.mul_s(b, c))),
{
    reveal(semigroup_laws);
}

pub proof fn lemma_monoid_semigroup<D: Monoid>(d: &D)
    requires
        monoid_laws(d),
    ensures
        semigroup_laws(d),
        equivalence(d),
        d.sound(),
        d.member(d.one_s()),
{
    reveal(monoid_laws);
    lemma_semigroup_equivalence(d);
}

pub proof fn lemma_mul_one<D: Monoid>(d: &D, a: D::M)
    requires
        monoid_laws(d),
        d.member(a),
    ensures
        d.eqv(d.mul_s(d.one_s(), a), a),
        d.eqv(d.mul_s(a, d.one_s()), a),
{
    reveal(monoid_laws);
}

pub proof fn lemma_mul_comm<D: Semigroup>(d: &D, a: D::M, b: D::M)
    requires
        commutative_laws(d),
        d.member(a),
        d.member(b),
    ensures
        d.eqv(d.mul_s(a, b), d.mul_s(b, a)),
{
    reveal(commutative_laws);
}

pub proof fn lemma_ring_parts<D: Ring>(d: &D)
    requires
        ring_laws(d),
    ensures
        monoid_laws(d),
        semigroup_laws(d),
        group_laws(d),
        additive_laws(d),
        equivalence(d),
        d.sound(),
        d.member(d.zero_s()),
        d.member(d.one_s()),
{
    reveal(ring_laws);
    lemma_monoid_semigroup(d);
    lemma_group_additive(d);
}

pub proof fn lemma_euclidean_parts<D: EuclideanDomain>(d: &D)
    requires
        euclidean_laws(d),
    ensures
        ring_laws(d),
        commutative_laws(d),
        d.sound(),
{
    reveal(euclidean_laws);
    lemma_ring_parts(d);
}

pub proof fn lemma_division<D: EuclideanDomain>(d: &D, a: D::M, e: D::M, q: D::M, r: D::M)
    requires
        euclidean_laws(d),
        d.member(a),
        d.member(e),
        d.member(q),
        d.member(r),
        d.quotient_remainder(a, e, q, r),
    ensures
        d.eqv(a, d.add_s(d.mul_s(q, e), r)),
{
    reveal(euclidean_laws);
}

/// Equal elements have the same norm.
pub proof fn lemma_norm_congruent<D: EuclideanDomain>(d: &D, a: D::M, b: D::M)
    requires
        euclidean_laws(d),
        d.member(a),
        d.member(b),
        d.eqv(a, b),
    ensures
        d.norm(a) == d.norm(b),
{
    reveal(euclidean_laws);
}

/// A nonzero multiple of a nonzero `e` is at least as large as `e`.
pub proof fn lemma_norm_multiple<D: EuclideanDomain>(d: &D, k: D::M, e: D::M)
    requires
        euclidean_laws(d),
        d.member(k),
        d.member(e),
        !d.eqv(k, d.zero_s()),
        !d.eqv(e, d.zero_s()),
    ensures
        d.norm(d.mul_s(k, e)) >= d.norm(e),
{
    reveal(euclidean_laws);
}

/// The inverse of a unit part is a member and inverts it.
pub proof fn lemma_unit_part_inverse<D: EuclideanDomain>(d: &D, x: D::M, v: D::M)
    requires
        euclidean_laws(d),
        d.member(x),
        d.member(v),
        d.eqv(v, d.unit_part_s(x)),
    ensures
        d.member(d.unit_inverse_s(v)),
        d.eqv(d.mul_s(d.unit_inverse_s(v), v), d.one_s()),
{
    reveal(euclidean_laws);
}

/// Dividing out the unit part leaves the normal form: its own unit part is one.
pub proof fn lemma_normal_form<D: EuclideanDomain>(d: &D, x: D::M, v: D::M, i: D::M, w: D::M)
    requires
        euclidean_laws(d),
        d.member(x),
        d.member(v),
        d.member(i),
        d.member(w),
        d.eqv(v, d.unit_part_s(x)),
        d.eqv(i, d.unit_inverse_s(v)),
        d.eqv(w, d.mul_s(x, i)),
    ensures
        d.eqv(d.unit_part_s(w), d.one_s()),
{
    reveal(euclidean_laws);
}

/// The normal part of a unit is one.
pub proof fn lemma_unit_normal<D: EuclideanDomain>(d: &D, u: D::M, c: D::M, v: D::M)
    requires
        euclidean_laws(d),
        d.member(u),
        d.member(c),
        d.member(v),
        d.eqv(d.mul_s(u, c), d.one_s()),
        d.eqv(v, d.unit_part_s(u)),
    ensures
        d.eqv(d.mul_s(u, d.unit_inverse_s(v)), d.one_s()),
{
    reveal(euclidean_laws);
}

/// A divisor is not zero.
pub proof fn lemma_divisor_nonzero<D: EuclideanDomain>(d: &D, e: D::M)
    requires
        euclidean_laws(d),
        d.member(e),
        d.divisor_ok(e),
    ensures
        !d.eqv(e, d.zero_s()),
{
    reveal(euclidean_laws);
}

pub proof fn lemma_distrib<D: Ring>(d: &D, a: D::M, b: D::M, c: D::M)
    requires
        ring_laws(d),
        d.member(a),
        d.member(b),
        d.member(c),
    ensures
        d.eqv(d.mul_s(a, d.add_s(b, c)), d.add_s(d.mul_s(a, b), d.mul_s(a, c))),
        d.eqv(d.mul_s(d.add_s(a, b), c), d.add_s(d.mul_s(a, c), d.mul_s(b, c))),
{
    reveal(ring_laws);
}

/// `n · a`: the sum of `n` copies of `a`; `0 · a` is zero.
pub open spec fn multiple<D: CommutativeMonoid>(d: &D, a: D::M, n: nat) -> D::M
    decreases n,
{
    if n == 0 {
        d.zero_s()
    } else {
        d.add_s(multiple(d, a, (n - 1) as nat), a)
    }
}

/// The image of the integer `n` under the canonical map `Z → R`, `n ↦ n · 1`; a
/// negative `n` goes to `0 - |n| · 1`.
pub open spec fn integer_image<R: Ring>(r: &R, n: int) -> R::M {
    if n < 0 {
        r.sub_s(r.zero_s(), multiple(r, r.one_s(), (-n) as nat))
    } else {
        multiple(r, r.one_s(), n as nat)
    }
}

pub proof fn lemma_multiple_member<D: CommutativeMonoid>(d: &D, a: D::M, n: nat)
    requires
        additive_laws(d),
        d.member(a),
    ensures
        d.member(multiple(d, a, n)),
    decreases n,
{
    lemma_additive_equivalence(d);
    if n > 0 {
        lemma_multiple_member(d, a, (n - 1) as nat);
        lemma_add_closed(d, multiple(d, a, (n - 1) as nat), a);
    }
}

/// `i · a + j · a = (i + j) · a`.
pub proof fn lemma_multiple_add<D: CommutativeMonoid>(d: &D, a: D::M, i: nat, j: nat)
    requires
        additive_laws(d),
        d.member(a),
    ensures
        d.eqv(d.add_s(multiple(d, a, i), multiple(d, a, j)), multiple(d, a, i + j)),
    decreases j,
{
    lemma_additive_equivalence(d);
    lemma_multiple_member(d, a, i);
    lemma_multiple_member(d, a, j);
    lemma_multiple_member(d, a, i + j);
    if j == 0 {
        lemma_add_zero(d, multiple(d, a, i));
    } else {
        let pi = multiple(d, a, i);
        let pj1 = multiple(d, a, (j - 1) as nat);
        lemma_multiple_member(d, a, (j - 1) as nat);
        lemma_multiple_member(d, a, (i + j - 1) as nat);
        lemma_add_closed(d, pi, pj1);
        lemma_add_closed(d, pj1, a);
        lemma_add_closed(d, d.add_s(pi, pj1), a);
        lemma_add_closed(d, pi, d.add_s(pj1, a));
        lemma_add_assoc(d, pi, pj1, a);
        lemma_sym(d, d.add_s(d.add_s(pi, pj1), a), d.add_s(pi, d.add_s(pj1, a)));
        lemma_multiple_add(d, a, i, (j - 1) as nat);
        lemma_refl(d, a);
        lemma_add_congruent(d, d.add_s(pi, pj1), multiple(d, a, (i + j - 1) as nat), a, a);
        assert(multiple(d, a, i + j) == d.add_s(multiple(d, a, (i + j - 1) as nat), a));
        lemma_trans(
            d,
            d.add_s(pi, d.add_s(pj1, a)),
            d.add_s(d.add_s(pi, pj1), a),
            multiple(d, a, i + j),
        );
    }
}

// ---------------------------------------------------------------------------------
// Identities that follow from the axioms.
/// `p + q + (r + s) ~ (p + r) + (q + s)`.
pub proof fn lemma_add_swap_middle<D: CommutativeMonoid>(d: &D, p: D::M, q: D::M, r: D::M, s: D::M)
    requires
        additive_laws(d),
        d.member(p),
        d.member(q),
        d.member(r),
        d.member(s),
    ensures
        d.eqv(d.add_s(d.add_s(p, q), d.add_s(r, s)), d.add_s(d.add_s(p, r), d.add_s(q, s))),
{
    reveal(additive_laws);
    reveal(equivalence);
    let qr = d.add_s(q, r);
    let rq = d.add_s(r, q);
    let rs = d.add_s(r, s);
    let qs = d.add_s(q, s);
    // (p + q) + (r + s) ~ p + (q + (r + s))
    assert(d.eqv(d.add_s(d.add_s(p, q), rs), d.add_s(p, d.add_s(q, rs))));
    // q + (r + s) ~ (q + r) + s ~ (r + q) + s ~ r + (q + s)
    assert(d.eqv(d.add_s(qr, s), d.add_s(q, rs)));
    assert(d.eqv(d.add_s(q, rs), d.add_s(qr, s)));
    assert(d.eqv(d.add_s(qr, s), d.add_s(rq, s)));
    assert(d.eqv(d.add_s(rq, s), d.add_s(r, qs)));
    assert(d.eqv(d.add_s(q, rs), d.add_s(r, qs)));
    assert(d.eqv(d.add_s(p, d.add_s(q, rs)), d.add_s(p, d.add_s(r, qs))));
    // p + (r + (q + s)) ~ (p + r) + (q + s)
    assert(d.eqv(d.add_s(d.add_s(p, r), qs), d.add_s(p, d.add_s(r, qs))));
    assert(d.eqv(d.add_s(p, d.add_s(r, qs)), d.add_s(d.add_s(p, r), qs)));
}

/// `(p · q) · (r · s) ~ (p · r) · (q · s)` when multiplication commutes.
pub proof fn lemma_mul_swap_middle<D: Semigroup>(d: &D, p: D::M, q: D::M, r: D::M, s: D::M)
    requires
        semigroup_laws(d),
        commutative_laws(d),
        d.member(p),
        d.member(q),
        d.member(r),
        d.member(s),
    ensures
        d.eqv(d.mul_s(d.mul_s(p, q), d.mul_s(r, s)), d.mul_s(d.mul_s(p, r), d.mul_s(q, s))),
{
    reveal(semigroup_laws);
    reveal(commutative_laws);
    reveal(equivalence);
    let qr = d.mul_s(q, r);
    let rq = d.mul_s(r, q);
    let rs = d.mul_s(r, s);
    let qs = d.mul_s(q, s);
    assert(d.eqv(d.mul_s(d.mul_s(p, q), rs), d.mul_s(p, d.mul_s(q, rs))));
    assert(d.eqv(d.mul_s(qr, s), d.mul_s(q, rs)));
    assert(d.eqv(d.mul_s(q, rs), d.mul_s(qr, s)));
    assert(d.eqv(d.mul_s(qr, s), d.mul_s(rq, s)));
    assert(d.eqv(d.mul_s(rq, s), d.mul_s(r, qs)));
    assert(d.eqv(d.mul_s(q, rs), d.mul_s(r, qs)));
    assert(d.eqv(d.mul_s(p, d.mul_s(q, rs)), d.mul_s(p, d.mul_s(r, qs))));
    assert(d.eqv(d.mul_s(d.mul_s(p, r), qs), d.mul_s(p, d.mul_s(r, qs))));
    assert(d.eqv(d.mul_s(p, d.mul_s(r, qs)), d.mul_s(d.mul_s(p, r), qs)));
}

/// Addition cancels: `y + b ~ x + b` gives `y ~ x`.
pub proof fn lemma_add_cancel<D: AdditiveGroup>(d: &D, y: D::M, x: D::M, b: D::M)
    requires
        group_laws(d),
        d.member(y),
        d.member(x),
        d.member(b),
        d.eqv(d.add_s(y, b), d.add_s(x, b)),
    ensures
        d.eqv(y, x),
{
    reveal(group_laws);
    reveal(additive_laws);
    reveal(equivalence);
    let z = d.zero_s();
    let n = d.sub_s(z, b);
    // b + n ~ 0
    assert(d.eqv(d.add_s(n, b), z));
    assert(d.eqv(d.add_s(b, n), d.add_s(n, b)));
    assert(d.eqv(d.add_s(b, n), z));
    // (y + b) + n ~ y + (b + n) ~ y + 0 ~ y
    assert(d.eqv(d.add_s(d.add_s(y, b), n), d.add_s(y, d.add_s(b, n))));
    assert(d.eqv(d.add_s(y, d.add_s(b, n)), d.add_s(y, z)));
    assert(d.eqv(d.add_s(y, z), d.add_s(z, y)));
    assert(d.eqv(d.add_s(d.add_s(y, b), n), y));
    assert(d.eqv(d.add_s(d.add_s(x, b), n), d.add_s(x, d.add_s(b, n))));
    assert(d.eqv(d.add_s(x, d.add_s(b, n)), d.add_s(x, z)));
    assert(d.eqv(d.add_s(x, z), d.add_s(z, x)));
    assert(d.eqv(d.add_s(d.add_s(x, b), n), x));
    assert(d.eqv(d.add_s(d.add_s(y, b), n), d.add_s(d.add_s(x, b), n)));
}

/// Subtraction is the unique solution: `x + b ~ a` gives `x ~ a - b`.
pub proof fn lemma_sub_unique<D: AdditiveGroup>(d: &D, x: D::M, a: D::M, b: D::M)
    requires
        group_laws(d),
        d.member(x),
        d.member(a),
        d.member(b),
        d.eqv(d.add_s(x, b), a),
    ensures
        d.eqv(x, d.sub_s(a, b)),
{
    reveal(group_laws);
    reveal(additive_laws);
    reveal(equivalence);
    assert(d.eqv(d.add_s(d.sub_s(a, b), b), a));
    assert(d.eqv(d.add_s(x, b), d.add_s(d.sub_s(a, b), b)));
    lemma_add_cancel(d, x, d.sub_s(a, b), b);
}

/// `(u - v) · w ~ u · w - v · w`.
pub proof fn lemma_sub_mul<R: Ring>(r: &R, u: R::M, v: R::M, w: R::M)
    requires
        ring_laws(r),
        r.member(u),
        r.member(v),
        r.member(w),
    ensures
        r.eqv(r.mul_s(r.sub_s(u, v), w), r.sub_s(r.mul_s(u, w), r.mul_s(v, w))),
{
    lemma_ring_parts(r);
    reveal(ring_laws);
    reveal(group_laws);
    reveal(additive_laws);
    reveal(semigroup_laws);
    reveal(equivalence);
    let d = r.sub_s(u, v);
    // (d + v) w ~ d w + v w, and (d + v) ~ u
    assert(r.eqv(r.mul_s(r.add_s(d, v), w), r.add_s(r.mul_s(d, w), r.mul_s(v, w))));
    assert(r.eqv(r.add_s(d, v), u));
    assert(r.eqv(r.mul_s(r.add_s(d, v), w), r.mul_s(u, w)));
    assert(r.eqv(r.add_s(r.mul_s(d, w), r.mul_s(v, w)), r.mul_s(u, w)));
    lemma_sub_unique(r, r.mul_s(d, w), r.mul_s(u, w), r.mul_s(v, w));
}

/// `(A - B) + (C - D) ~ (A + C) - (B + D)`.
pub proof fn lemma_sub_add_sub<D: AdditiveGroup>(d: &D, a: D::M, b: D::M, c: D::M, e: D::M)
    requires
        group_laws(d),
        d.member(a),
        d.member(b),
        d.member(c),
        d.member(e),
    ensures
        d.eqv(d.add_s(d.sub_s(a, b), d.sub_s(c, e)), d.sub_s(d.add_s(a, c), d.add_s(b, e))),
{
    reveal(group_laws);
    reveal(additive_laws);
    reveal(equivalence);
    let x = d.sub_s(a, b);
    let y = d.sub_s(c, e);
    lemma_add_swap_middle(d, x, y, b, e);
    assert(d.eqv(d.add_s(x, b), a));
    assert(d.eqv(d.add_s(y, e), c));
    assert(d.eqv(d.add_s(d.add_s(x, b), d.add_s(y, e)), d.add_s(a, c)));
    assert(d.eqv(d.add_s(d.add_s(x, y), d.add_s(b, e)), d.add_s(a, c)));
    lemma_sub_unique(d, d.add_s(x, y), d.add_s(a, c), d.add_s(b, e));
}

/// `0 · x ~ 0`.
pub proof fn lemma_zero_mul<D: Ring>(d: &D, x: D::M)
    requires
        ring_laws(d),
        d.member(x),
    ensures
        d.eqv(d.mul_s(d.zero_s(), x), d.zero_s()),
{
    lemma_ring_parts(d);
    reveal(ring_laws);
    reveal(group_laws);
    reveal(additive_laws);
    reveal(semigroup_laws);
    reveal(equivalence);
    let z = d.zero_s();
    assert(d.eqv(d.add_s(z, z), z));
    assert(d.eqv(d.mul_s(d.add_s(z, z), x), d.mul_s(z, x)));
    assert(d.eqv(d.mul_s(d.add_s(z, z), x), d.add_s(d.mul_s(z, x), d.mul_s(z, x))));
    assert(d.eqv(d.add_s(d.mul_s(z, x), d.mul_s(z, x)), d.add_s(z, d.mul_s(z, x))));
    lemma_add_cancel(d, d.mul_s(z, x), z, d.mul_s(z, x));
}

/// `u · (v - w) ~ u · v - u · w`.
pub proof fn lemma_mul_sub<R: Ring>(r: &R, u: R::M, v: R::M, w: R::M)
    requires
        ring_laws(r),
        r.member(u),
        r.member(v),
        r.member(w),
    ensures
        r.eqv(r.mul_s(u, r.sub_s(v, w)), r.sub_s(r.mul_s(u, v), r.mul_s(u, w))),
{
    lemma_ring_parts(r);
    reveal(ring_laws);
    reveal(group_laws);
    reveal(additive_laws);
    reveal(semigroup_laws);
    reveal(equivalence);
    let d = r.sub_s(v, w);
    assert(r.eqv(r.mul_s(u, r.add_s(d, w)), r.add_s(r.mul_s(u, d), r.mul_s(u, w))));
    assert(r.eqv(r.add_s(d, w), v));
    assert(r.eqv(r.mul_s(u, r.add_s(d, w)), r.mul_s(u, v)));
    assert(r.eqv(r.add_s(r.mul_s(u, d), r.mul_s(u, w)), r.mul_s(u, v)));
    lemma_sub_unique(r, r.mul_s(u, d), r.mul_s(u, v), r.mul_s(u, w));
}

/// `(a - b) + (b - c) ~ a - c`.
pub proof fn lemma_telescope<D: AdditiveGroup>(d: &D, a: D::M, b: D::M, c: D::M)
    requires
        group_laws(d),
        d.member(a),
        d.member(b),
        d.member(c),
    ensures
        d.eqv(d.add_s(d.sub_s(a, b), d.sub_s(b, c)), d.sub_s(a, c)),
{
    reveal(group_laws);
    reveal(additive_laws);
    reveal(equivalence);
    let x = d.sub_s(a, b);
    let y = d.sub_s(b, c);
    assert(d.eqv(d.add_s(d.add_s(x, y), c), d.add_s(x, d.add_s(y, c))));
    assert(d.eqv(d.add_s(y, c), b));
    assert(d.eqv(d.add_s(x, d.add_s(y, c)), d.add_s(x, b)));
    assert(d.eqv(d.add_s(x, b), a));
    lemma_sub_unique(d, d.add_s(x, y), a, c);
}

/// `a - a ~ 0`.
pub proof fn lemma_sub_self<D: AdditiveGroup>(d: &D, a: D::M)
    requires
        group_laws(d),
        d.member(a),
    ensures
        d.eqv(d.sub_s(a, a), d.zero_s()),
{
    reveal(group_laws);
    reveal(additive_laws);
    reveal(equivalence);
    assert(d.eqv(d.add_s(d.zero_s(), a), a));
    lemma_sub_unique(d, d.zero_s(), a, a);
}


/// The parts of the field laws.
pub proof fn lemma_field_parts<F: Field>(f: &F)
    requires
        field_laws(f),
    ensures
        ring_laws(f),
        commutative_laws(f),
        f.sound(),
        equivalence(f),
        f.member(f.zero_s()),
        f.member(f.one_s()),
{
    reveal(field_laws);
    lemma_ring_parts(f);
}

/// `invert` finds an inverse exactly for the elements that have one, and `1 ≁ 0`.
pub proof fn lemma_invertible<F: Field>(f: &F, a: F::M)
    requires
        field_laws(f),
        f.member(a),
    ensures
        f.invertible(a) == has_inverse(f, a),
        !f.eqv(f.one_s(), f.zero_s()),
{
    reveal(field_laws);
}

/// What `invert` returns is an inverse.
pub proof fn lemma_inverse<F: Field>(f: &F, a: F::M, b: F::M)
    requires
        field_laws(f),
        f.member(a),
        f.member(b),
        f.inverse_of(a, b),
    ensures
        f.eqv(f.mul_s(a, b), f.one_s()),
{
    reveal(field_laws);
}

/// `(p + b) + x ~ (p + x) + b`.
pub proof fn lemma_add_swap_right<D: CommutativeMonoid>(d: &D, p: D::M, b: D::M, x: D::M)
    requires
        additive_laws(d),
        d.member(p),
        d.member(b),
        d.member(x),
    ensures
        d.eqv(d.add_s(d.add_s(p, b), x), d.add_s(d.add_s(p, x), b)),
{
    reveal(additive_laws);
    reveal(equivalence);
    assert(d.eqv(d.add_s(d.add_s(p, b), x), d.add_s(p, d.add_s(b, x))));
    assert(d.eqv(d.add_s(b, x), d.add_s(x, b)));
    assert(d.eqv(d.add_s(p, d.add_s(b, x)), d.add_s(p, d.add_s(x, b))));
    assert(d.eqv(d.add_s(d.add_s(p, x), b), d.add_s(p, d.add_s(x, b))));
}

/// A sum computed from equal operands is equal to the sum of those operands.
pub proof fn lemma_add_step<D: CommutativeMonoid>(d: &D, r: D::M, x: D::M, y: D::M, sx: D::M, sy: D::M)
    requires
        additive_laws(d),
        d.member(r),
        d.member(x),
        d.member(y),
        d.member(sx),
        d.member(sy),
        d.eqv(r, d.add_s(x, y)),
        d.eqv(x, sx),
        d.eqv(y, sy),
    ensures
        d.eqv(r, d.add_s(sx, sy)),
        d.member(d.add_s(sx, sy)),
{
    lemma_add_closed(d, x, y);
    lemma_add_closed(d, sx, sy);
    lemma_add_congruent(d, x, sx, y, sy);
    lemma_additive_equivalence(d);
    lemma_trans(d, r, d.add_s(x, y), d.add_s(sx, sy));
}

/// A difference computed from equal operands is equal to the difference of those
/// operands.
pub proof fn lemma_sub_step<D: AdditiveGroup>(d: &D, r: D::M, x: D::M, y: D::M, sx: D::M, sy: D::M)
    requires
        group_laws(d),
        d.member(r),
        d.member(x),
        d.member(y),
        d.member(sx),
        d.member(sy),
        d.eqv(r, d.sub_s(x, y)),
        d.eqv(x, sx),
        d.eqv(y, sy),
    ensures
        d.eqv(r, d.sub_s(sx, sy)),
        d.member(d.sub_s(sx, sy)),
{
    lemma_group_additive(d);
    lemma_sub_closed(d, x, y);
    lemma_sub_closed(d, sx, sy);
    lemma_sub_congruent(d, x, sx, y, sy);
    lemma_trans(d, r, d.sub_s(x, y), d.sub_s(sx, sy));
}

/// A product computed from equal operands is equal to the product of those operands.
pub proof fn lemma_mul_step<D: Semigroup>(d: &D, r: D::M, x: D::M, y: D::M, sx: D::M, sy: D::M)
    requires
        semigroup_laws(d),
        d.member(r),
        d.member(x),
        d.member(y),
        d.member(sx),
        d.member(sy),
        d.eqv(r, d.mul_s(x, y)),
        d.eqv(x, sx),
        d.eqv(y, sy),
    ensures
        d.eqv(r, d.mul_s(sx, sy)),
        d.member(d.mul_s(sx, sy)),
{
    lemma_semigroup_equivalence(d);
    lemma_mul_closed(d, x, y);
    lemma_mul_closed(d, sx, sy);
    lemma_mul_congruent(d, x, sx, y, sy);
    lemma_trans(d, r, d.mul_s(x, y), d.mul_s(sx, sy));
}

/// The image of an integer is a member.
pub proof fn lemma_image_member<R: Ring>(r: &R, n: int)
    requires
        ring_laws(r),
    ensures
        r.member(integer_image(r, n)),
{
    lemma_ring_parts(r);
    if n < 0 {
        lemma_multiple_member(r, r.one_s(), (-n) as nat);
        lemma_sub_closed(r, r.zero_s(), multiple(r, r.one_s(), (-n) as nat));
    } else {
        lemma_multiple_member(r, r.one_s(), n as nat);
    }
}

/// Inverses, where they exist, are unique: `d · y ~ 1` and `d · w ~ 1` give `y ~ w`.
pub proof fn lemma_product_inverse_unique<R: Ring>(r: &R, d: R::M, y: R::M, w: R::M)
    requires
        ring_laws(r),
        commutative_laws(r),
        r.member(d),
        r.member(y),
        r.member(w),
        r.eqv(r.mul_s(d, y), r.one_s()),
        r.eqv(r.mul_s(d, w), r.one_s()),
    ensures
        r.eqv(y, w),
{
    lemma_ring_parts(r);
    reveal(semigroup_laws);
    reveal(monoid_laws);
    reveal(commutative_laws);
    reveal(equivalence);
    let one = r.one_s();
    // y ~ y·1 ~ y·(d·w) ~ (y·d)·w ~ (d·y)·w ~ 1·w ~ w
    assert(r.eqv(r.mul_s(y, one), y));
    assert(r.eqv(r.mul_s(y, r.mul_s(d, w)), r.mul_s(y, one)));
    assert(r.eqv(r.mul_s(r.mul_s(y, d), w), r.mul_s(y, r.mul_s(d, w))));
    assert(r.eqv(r.mul_s(y, d), r.mul_s(d, y)));
    assert(r.eqv(r.mul_s(r.mul_s(y, d), w), r.mul_s(r.mul_s(d, y), w)));
    assert(r.eqv(r.mul_s(r.mul_s(d, y), w), r.mul_s(one, w)));
    assert(r.eqv(r.mul_s(one, w), w));
    assert(r.eqv(y, r.mul_s(y, one)));
    assert(r.eqv(y, r.mul_s(y, r.mul_s(d, w))));
    assert(r.eqv(y, r.mul_s(r.mul_s(y, d), w)));
    assert(r.eqv(y, r.mul_s(r.mul_s(d, y), w)));
    assert(r.eqv(y, r.mul_s(one, w)));
}

/// `n · a` for any integer `n`; a negative `n` gives `0 - |n| · a`.
pub open spec fn integer_multiple<D: AdditiveGroup>(d: &D, n: int, a: D::M) -> D::M {
    if n < 0 {
        d.sub_s(d.zero_s(), multiple(d, a, (-n) as nat))
    } else {
        multiple(d, a, n as nat)
    }
}

/// Adding `i · a` and `j · a` gives `(i + j) · a`.
pub proof fn lemma_multiple_step<D: CommutativeMonoid>(d: &D, s: D::M, x: D::M, y: D::M, a: D::M, i: nat, j: nat)
    requires
        additive_laws(d),
        d.member(s),
        d.member(x),
        d.member(y),
        d.member(a),
        d.eqv(x, multiple(d, a, i)),
        d.eqv(y, multiple(d, a, j)),
        d.eqv(s, d.add_s(x, y)),
    ensures
        d.eqv(s, multiple(d, a, i + j)),
{
    lemma_additive_equivalence(d);
    lemma_multiple_member(d, a, i);
    lemma_multiple_member(d, a, j);
    lemma_multiple_member(d, a, i + j);
    lemma_add_step(d, s, x, y, multiple(d, a, i), multiple(d, a, j));
    lemma_multiple_add(d, a, i, j);
    lemma_trans(d, s, d.add_s(multiple(d, a, i), multiple(d, a, j)), multiple(d, a, i + j));
}

/// `x · 0 ~ 0`.
pub proof fn lemma_mul_zero<R: Ring>(r: &R, x: R::M)
    requires
        ring_laws(r),
        r.member(x),
    ensures
        r.eqv(r.mul_s(x, r.zero_s()), r.zero_s()),
{
    lemma_ring_parts(r);
    let z = r.zero_s();
    lemma_sub_self(r, z);
    lemma_sub_closed(r, z, z);
    lemma_mul_sub(r, x, z, z);
    lemma_refl(r, x);
    lemma_mul_congruent(r, x, x, r.sub_s(z, z), z);
    lemma_mul_closed(r, x, z);
    lemma_mul_closed(r, x, r.sub_s(z, z));
    lemma_sub_closed(r, r.mul_s(x, z), r.mul_s(x, z));
    lemma_sub_self(r, r.mul_s(x, z));
    lemma_sym(r, r.mul_s(x, r.sub_s(z, z)), r.mul_s(x, z));
    lemma_trans(r, r.mul_s(x, z), r.mul_s(x, r.sub_s(z, z)), r.sub_s(r.mul_s(x, z), r.mul_s(x, z)));
    lemma_trans(r, r.mul_s(x, z), r.sub_s(r.mul_s(x, z), r.mul_s(x, z)), z);
}

} // verus!
