//! Univariate polynomials with coefficients in an arbitrary `Ring`.
//!
//! `R[x]` is itself a ring, so this module provides the `PolynomialRing`
//! value-domain handle and the `Polynomial` element type, mirroring the
//! `QuotientRing` pattern.
//!
//! A polynomial's model is the sequence of the models of its coefficients, constant
//! term first. Two models denote the same polynomial when they agree coefficient by
//! coefficient, a missing coefficient counting as zero.

use crate::laws::{
    complete_field, equivalence, field_laws, inverse_s, lemma_field_parts, lemma_refl,
    lemma_ring_parts, lemma_sym, lemma_trans, ring_laws,
};
use crate::matrices::MatrixRing;
use crate::multivariate::MultivariatePolynomialRing;
use crate::quotient::share;
use crate::integers::decimal_digits;
use crate::text::{
    append_bracketed, append_brace_close, append_decimal, append_plus, append_power_open,
    append_times_x, append_zero_digit, bracketed, Render,
};
use crate::structures::{
    AdditiveGroup, CommutativeMonoid, DecidableEq, DivRem, Domain, EuclideanDomain, Field, Monoid,
    Ring, SemiRing, Semigroup,
};
use std::rc::Rc;
use vstd::prelude::*;

verus! {

/// The coefficient of `x^i` in `s`; zero past the end.
pub open spec fn coeff<R: Ring>(r: &R, s: Seq<R::M>, i: int) -> R::M {
    if 0 <= i < s.len() {
        s[i]
    } else {
        r.zero_s()
    }
}

/// The models of a sequence of elements.
pub open spec fn models<R: Domain>(r: &R, v: Seq<R::E>) -> Seq<R::M> {
    Seq::new(v.len(), |i: int| r.model(v[i]))
}

/// Every element of `v` is well formed.
pub open spec fn all_valid<R: Domain>(r: &R, v: Seq<R::E>) -> bool {
    forall|i: int| 0 <= i < v.len() ==> #[trigger] r.valid(v[i])
}

/// Every model in `s` belongs to the domain.
pub open spec fn all_members<R: Domain>(r: &R, s: Seq<R::M>) -> bool {
    forall|i: int| 0 <= i < s.len() ==> #[trigger] r.member(s[i])
}

/// No trailing zero coefficient: the zero polynomial is the empty sequence.
pub open spec fn trimmed<R: Ring>(r: &R, s: Seq<R::M>) -> bool {
    s.len() == 0 || !r.eqv(s[s.len() - 1], r.zero_s())
}

/// The larger of two lengths.
pub open spec fn max_len(a: nat, b: nat) -> nat {
    if a < b {
        b
    } else {
        a
    }
}

/// Whether `a` and `b` agree coefficient by coefficient, a missing coefficient
/// counting as zero.
pub open spec fn same_coefficients<R: Ring>(r: &R, a: Seq<R::M>, b: Seq<R::M>) -> bool {
    forall|i: int|
        0 <= i < max_len(a.len(), b.len()) ==> #[trigger] r.eqv(coeff(r, a, i), coeff(r, b, i))
}

/// The polynomial ring `R[x]` over a coefficient ring `R`.
pub struct PolynomialRing<R: Ring + DecidableEq> {
    coeff_ring: R,
}

/// A polynomial with coefficients in `R`, stored in increasing-degree order
/// (constant term first).
///
/// Invariant: the coefficient vector has no trailing zeros, so the zero polynomial
/// is the empty vector.
pub struct Polynomial<R: Ring + DecidableEq> {
    coefficients: Vec<R::E>,
    ring: Rc<PolynomialRing<R>>,
}

impl<R: Ring + DecidableEq> PolynomialRing<R> {
    /// The coefficient ring.
    pub closed spec fn coeff_ring(&self) -> R {
        self.coeff_ring
    }

    /// Construct `R[x]`, wrapped in an `Rc` so polynomials can share the ring handle.
    pub fn new(coeff_ring: R) -> (r: Rc<Self>)
        ensures
            r.coeff_ring() == coeff_ring,
    {
        Rc::new(PolynomialRing { coeff_ring })
    }

    /// The underlying coefficient ring.
    pub fn coefficient_ring(&self) -> (r: &R)
        ensures
            *r == self.coeff_ring(),
    {
        &self.coeff_ring
    }

    /// The underlying coefficient ring (the domain the coefficients live in).
    pub fn coefficients(&self) -> (r: &R)
        ensures
            *r == self.coeff_ring(),
    {
        &self.coeff_ring
    }
}

impl<R: Ring + DecidableEq> Polynomial<R> {
    /// The stored coefficients.
    pub closed spec fn coeffs(&self) -> Seq<R::E> {
        self.coefficients@
    }

    /// The ring this polynomial belongs to.
    pub closed spec fn handle(&self) -> Rc<PolynomialRing<R>> {
        self.ring
    }

    /// Degree of the polynomial, or `None` for the zero polynomial.
    pub fn degree(&self) -> (r: Option<usize>)
        ensures
            self.coeffs().len() == 0 ==> r is None,
            self.coeffs().len() > 0 ==> r == Some((self.coeffs().len() - 1) as usize),
    {
        if self.coefficients.len() == 0 {
            None
        } else {
            Some(self.coefficients.len() - 1)
        }
    }

    /// The leading coefficient, or `None` for the zero polynomial.
    pub fn lead(&self) -> (r: Option<&R::E>)
        ensures
            self.coeffs().len() == 0 ==> r is None,
            self.coeffs().len() > 0 ==> r == Some(&self.coeffs()[self.coeffs().len() - 1]),
    {
        let n = self.coefficients.len();
        if n == 0 {
            None
        } else {
            Some(&self.coefficients[n - 1])
        }
    }

    /// Coefficients in increasing-degree order.
    pub fn coefficients(&self) -> (r: &[R::E])
        ensures
            r@ == self.coeffs(),
    {
        self.coefficients.as_slice()
    }
}

/// `same_coefficients` is reflexive on members.
pub proof fn lemma_same_refl<R: Ring>(r: &R, a: Seq<R::M>)
    requires
        equivalence(r),
        r.member(r.zero_s()),
        all_members(r, a),
    ensures
        same_coefficients(r, a, a),
{
    assert forall|i: int| 0 <= i < max_len(a.len(), a.len()) implies #[trigger] r.eqv(
        coeff(r, a, i),
        coeff(r, a, i),
    ) by {
        lemma_refl(r, coeff(r, a, i));
    }
}

/// `same_coefficients` is symmetric on members.
pub proof fn lemma_same_sym<R: Ring>(r: &R, a: Seq<R::M>, b: Seq<R::M>)
    requires
        equivalence(r),
        r.member(r.zero_s()),
        all_members(r, a),
        all_members(r, b),
        same_coefficients(r, a, b),
    ensures
        same_coefficients(r, b, a),
{
    assert forall|i: int| 0 <= i < max_len(b.len(), a.len()) implies #[trigger] r.eqv(
        coeff(r, b, i),
        coeff(r, a, i),
    ) by {
        assert(r.eqv(coeff(r, a, i), coeff(r, b, i)));
        lemma_sym(r, coeff(r, a, i), coeff(r, b, i));
    }
}

/// `same_coefficients` is transitive on members.
pub proof fn lemma_same_trans<R: Ring>(r: &R, a: Seq<R::M>, b: Seq<R::M>, c: Seq<R::M>)
    requires
        equivalence(r),
        r.member(r.zero_s()),
        all_members(r, a),
        all_members(r, b),
        all_members(r, c),
        same_coefficients(r, a, b),
        same_coefficients(r, b, c),
    ensures
        same_coefficients(r, a, c),
{
    assert forall|i: int| 0 <= i < max_len(a.len(), c.len()) implies #[trigger] r.eqv(
        coeff(r, a, i),
        coeff(r, c, i),
    ) by {
        if i < max_len(a.len(), b.len()) {
            assert(r.eqv(coeff(r, a, i), coeff(r, b, i)));
        } else {
            lemma_refl(r, r.zero_s());
            assert(r.eqv(coeff(r, a, i), coeff(r, b, i)));
        }
        if i < max_len(b.len(), c.len()) {
            assert(r.eqv(coeff(r, b, i), coeff(r, c, i)));
        } else {
            lemma_refl(r, r.zero_s());
            assert(r.eqv(coeff(r, b, i), coeff(r, c, i)));
        }
        lemma_trans(r, coeff(r, a, i), coeff(r, b, i), coeff(r, c, i));
    }
}

impl<R: Ring + DecidableEq> Domain for Rc<PolynomialRing<R>> {
    type E = Polynomial<R>;
    type Repr = Vec<R::E>;
    type M = Seq<R::M>;

    open spec fn wf(&self) -> bool {
        (**self).coeff_ring().wf()
    }

    /// The coefficient ring is a ring.
    open spec fn sound(&self) -> bool {
        ring_laws(&(**self).coeff_ring())
    }

    open spec fn model(&self, x: Polynomial<R>) -> Seq<R::M> {
        models(&(**self).coeff_ring(), x.coeffs())
    }

    open spec fn valid(&self, x: Polynomial<R>) -> bool {
        &&& x.handle() == *self
        &&& all_valid(&(**self).coeff_ring(), x.coeffs())
        &&& self.sound() ==> trimmed(&(**self).coeff_ring(), self.model(x))
    }

    open spec fn member(&self, a: Seq<R::M>) -> bool {
        all_members(&(**self).coeff_ring(), a)
    }

    open spec fn eqv(&self, a: Seq<R::M>, b: Seq<R::M>) -> bool {
        same_coefficients(&(**self).coeff_ring(), a, b)
    }

    open spec fn repr_ok(&self, v: Vec<R::E>) -> bool {
        all_valid(&(**self).coeff_ring(), v@)
    }

    open spec fn denote(&self, v: Vec<R::E>) -> Seq<R::M> {
        models(&(**self).coeff_ring(), v@)
    }

    proof fn lemma_valid_member(&self, x: Polynomial<R>) {
        let base = (**self).coeff_ring();
        assert forall|i: int| 0 <= i < self.model(x).len() implies #[trigger] base.member(
            self.model(x)[i],
        ) by {
            assert(base.valid(x.coeffs()[i]));
            base.lemma_valid_member(x.coeffs()[i]);
        }
    }

    proof fn lemma_repr_member(&self, v: Vec<R::E>) {
        let base = (**self).coeff_ring();
        assert forall|i: int| 0 <= i < self.denote(v).len() implies #[trigger] base.member(
            self.denote(v)[i],
        ) by {
            assert(base.valid(v@[i]));
            base.lemma_valid_member(v@[i]);
        }
    }

    /// Trims trailing zero coefficients to keep the canonical form.
    fn element(&self, value: Vec<R::E>) -> (r: Polynomial<R>) {
        let ghost base = (**self).coeff_ring();
        let ghost original = value@;
        let mut coefficients = value;
        let zero = self.coeff_ring.zero();
        loop
            invariant_except_break
                base == (**self).coeff_ring(),
                base.wf(),
                base.valid(zero),
                coefficients@ == original.subrange(0, coefficients@.len() as int),
                coefficients@.len() <= original.len(),
                all_valid(&base, original),
                forall|i: int|
                    coefficients@.len() <= i < original.len() ==> base.sound() ==> #[trigger] base.eqv(
                        base.model(original[i]),
                        base.model(zero),
                    ),
            ensures
                base == (**self).coeff_ring(),
                base.wf(),
                base.valid(zero),
                coefficients@ == original.subrange(0, coefficients@.len() as int),
                coefficients@.len() <= original.len(),
                all_valid(&base, original),
                forall|i: int|
                    coefficients@.len() <= i < original.len() ==> base.sound() ==> #[trigger] base.eqv(
                        base.model(original[i]),
                        base.model(zero),
                    ),
                coefficients@.len() > 0 ==> (base.sound() ==> !base.eqv(
                    base.model(coefficients@[coefficients@.len() - 1]),
                    base.model(zero),
                )),
            decreases coefficients@.len(),
        {
            let n = coefficients.len();
            if n == 0 {
                break;
            }
            if !self.coeff_ring.equal(&coefficients[n - 1], &zero) {
                break;
            }
            coefficients.pop();
        }
        let r = Polynomial { coefficients, ring: share(self) };
        proof {
            let len = coefficients@.len();
            assert(r.coeffs() == coefficients@);
            if self.sound() {
                lemma_ring_parts(&base);
                base.lemma_valid_member(zero);
                if len > 0 {
                    if base.eqv(self.model(r)[len - 1], base.zero_s()) {
                        lemma_sym(&base, base.model(zero), base.zero_s());
                        assert(base.valid(original[len - 1]));
                        base.lemma_valid_member(original[len - 1]);
                        lemma_trans(
                            &base,
                            self.model(r)[len - 1],
                            base.zero_s(),
                            base.model(zero),
                        );
                    }
                }
                let a = self.model(r);
                assert forall|i: int| 0 <= i < max_len(a.len(), original.len()) implies #[trigger] base.eqv(
                    coeff(&base, a, i),
                    coeff(&base, models(&base, original), i),
                ) by {
                    assert(base.valid(original[i]));
                    base.lemma_valid_member(original[i]);
                    if i < len {
                        lemma_refl(&base, base.model(original[i]));
                    } else {
                        assert(base.eqv(base.model(original[i]), base.model(zero)));
                        lemma_trans(&base, base.model(original[i]), base.model(zero), base.zero_s());
                        lemma_sym(&base, base.model(original[i]), base.zero_s());
                    }
                }
            }
        }
        r
    }

    fn duplicate(&self) -> (r: Rc<PolynomialRing<R>>) {
        share(self)
    }

    fn copy(&self, x: &Polynomial<R>) -> (r: Polynomial<R>) {
        let ghost base = (**self).coeff_ring();
        let mut coefficients: Vec<R::E> = Vec::new();
        let n = x.coefficients.len();
        for i in 0..n
            invariant
                base == (**self).coeff_ring(),
                n == x.coeffs().len(),
                coefficients@.len() == i,
                forall|j: int| 0 <= j < i ==> base.valid(x.coeffs()[j]) ==> #[trigger] base.model(coefficients@[j]) == base.model(x.coeffs()[j]),
                forall|j: int| 0 <= j < i ==> base.valid(x.coeffs()[j]) ==> #[trigger] base.valid(coefficients@[j]),
        {
            let c = self.coeff_ring.copy(&x.coefficients[i]);
            coefficients.push(c);
        }
        let r = Polynomial { coefficients, ring: share(&x.ring) };
        proof {
            if self.valid(*x) {
                assert(self.model(r) =~= self.model(*x));
            }
        }
        r
    }
}


/// Coefficient-wise sum.
pub open spec fn poly_add<R: Ring>(r: &R, a: Seq<R::M>, b: Seq<R::M>) -> Seq<R::M> {
    Seq::new(max_len(a.len(), b.len()), |i: int| r.add_s(coeff(r, a, i), coeff(r, b, i)))
}

/// Coefficient-wise difference.
pub open spec fn poly_sub<R: Ring>(r: &R, a: Seq<R::M>, b: Seq<R::M>) -> Seq<R::M> {
    Seq::new(max_len(a.len(), b.len()), |i: int| r.sub_s(coeff(r, a, i), coeff(r, b, i)))
}

/// `sum_{i < t} a[i] · b[k - i]`, over the `i` for which `b[k - i]` exists, added
/// up in increasing `i` from zero.
pub open spec fn conv<R: Ring>(r: &R, a: Seq<R::M>, b: Seq<R::M>, k: int, t: nat) -> R::M
    decreases t,
{
    if t == 0 {
        r.zero_s()
    } else {
        let i = t - 1;
        let p = conv(r, a, b, k, (t - 1) as nat);
        if 0 <= k - i < b.len() {
            r.add_s(p, r.mul_s(coeff(r, a, i), b[k - i]))
        } else {
            p
        }
    }
}

/// The product: the coefficient of `x^k` is `sum_{i + j = k} a[i] · b[j]`.
pub open spec fn poly_mul<R: Ring>(r: &R, a: Seq<R::M>, b: Seq<R::M>) -> Seq<R::M> {
    if a.len() == 0 || b.len() == 0 {
        Seq::empty()
    } else {
        Seq::new((a.len() + b.len() - 1) as nat, |k: int| conv(r, a, b, k, a.len()))
    }
}

/// Every coefficient of a member is a member, zero included.
pub proof fn lemma_coeff_member<R: Ring>(r: &R, a: Seq<R::M>, i: int)
    requires
        ring_laws(r),
        all_members(r, a),
    ensures
        r.member(coeff(r, a, i)),
{
    lemma_ring_parts(r);
}

/// Partial convolution sums of members are members.
pub proof fn lemma_conv_member<R: Ring>(r: &R, a: Seq<R::M>, b: Seq<R::M>, k: int, t: nat)
    requires
        ring_laws(r),
        all_members(r, a),
        all_members(r, b),
    ensures
        r.member(conv(r, a, b, k, t)),
    decreases t,
{
    lemma_ring_parts(r);
    if t > 0 {
        let i = t - 1;
        lemma_conv_member(r, a, b, k, (t - 1) as nat);
        if 0 <= k - i < b.len() {
            lemma_coeff_member(r, a, i);
            crate::laws::lemma_mul_closed(r, coeff(r, a, i), b[k - i]);
            crate::laws::lemma_add_closed(r, conv(r, a, b, k, (t - 1) as nat), r.mul_s(coeff(r, a, i), b[k - i]));
        }
    }
}

/// From `r ~ v` (as polynomials) and `v[i] ~ target[i]` at every index of a common
/// length, `r ~ target`.
proof fn lemma_result_coefficients<R: Ring>(r: &R, got: Seq<R::M>, v: Seq<R::M>, target: Seq<R::M>)
    requires
        ring_laws(r),
        all_members(r, got),
        all_members(r, v),
        all_members(r, target),
        v.len() == target.len(),
        same_coefficients(r, got, v),
        forall|i: int| 0 <= i < v.len() ==> #[trigger] r.eqv(v[i], target[i]),
    ensures
        same_coefficients(r, got, target),
{
    lemma_ring_parts(r);
    assert forall|i: int| 0 <= i < max_len(v.len(), target.len()) implies #[trigger] r.eqv(
        coeff(r, v, i),
        coeff(r, target, i),
    ) by {
        assert(r.eqv(v[i], target[i]));
    }
    lemma_same_trans(r, got, v, target);
}

impl<R: Ring + DecidableEq> DecidableEq for Rc<PolynomialRing<R>> {
    /// Structural: the same number of coefficients, each equal.
    fn equal(&self, a: &Polynomial<R>, b: &Polynomial<R>) -> (r: bool) {
        let ghost base = (**self).coeff_ring();
        let ghost (ma, mb) = (self.model(*a), self.model(*b));
        let n = a.coefficients.len();
        if n != b.coefficients.len() {
            proof {
                if self.sound() {
                    lemma_ring_parts(&base);
                    let la = ma.len();
                    let lb = mb.len();
                    if la > lb {
                        assert(!base.eqv(coeff(&base, ma, la - 1), coeff(&base, mb, la - 1)));
                    } else {
                        if base.eqv(coeff(&base, ma, lb - 1), coeff(&base, mb, lb - 1)) {
                            assert(base.valid(b.coeffs()[lb - 1]));
                            base.lemma_valid_member(b.coeffs()[lb - 1]);
                            lemma_sym(&base, coeff(&base, ma, lb - 1), coeff(&base, mb, lb - 1));
                        }
                    }
                }
            }
            return false;
        }
        for i in 0..n
            invariant
                base == (**self).coeff_ring(),
                base.wf(),
                n == a.coeffs().len(),
                n == b.coeffs().len(),
                ma == self.model(*a),
                mb == self.model(*b),
                all_valid(&base, a.coeffs()),
                all_valid(&base, b.coeffs()),
                base.sound() ==> forall|j: int|
                    0 <= j < i ==> #[trigger] base.eqv(coeff(&base, ma, j), coeff(&base, mb, j)),
        {
            if !self.coeff_ring.equal(&a.coefficients[i], &b.coefficients[i]) {
                proof {
                    assert(base.sound() ==> !base.eqv(coeff(&base, ma, i as int), coeff(&base, mb, i as int)));
                    if self.sound() {
                        lemma_ring_parts(&base);
                    }
                }
                return false;
            }
        }
        proof {
            if self.sound() {
                lemma_ring_parts(&base);
            }
        }
        true
    }
}

impl<R: Ring + DecidableEq> CommutativeMonoid for Rc<PolynomialRing<R>> {
    open spec fn add_s(&self, a: Seq<R::M>, b: Seq<R::M>) -> Seq<R::M> {
        poly_add(&(**self).coeff_ring(), a, b)
    }

    open spec fn zero_s(&self) -> Seq<R::M> {
        Seq::empty()
    }

    /// Coefficient-wise; the shorter operand's missing coefficients are taken as
    /// zero, by carrying the longer one's through unchanged.
    fn add(&self, a: &Polynomial<R>, b: &Polynomial<R>) -> (r: Polynomial<R>) {
        let ghost base = (**self).coeff_ring();
        let ghost laws = ring_laws(&base);
        let ghost (ma, mb) = (self.model(*a), self.model(*b));
        let na = a.coefficients.len();
        let nb = b.coefficients.len();
        let n = if na < nb { nb } else { na };
        let mut result: Vec<R::E> = Vec::new();
        for i in 0..n
            invariant
                base == (**self).coeff_ring(),
                base.wf(),
                laws == ring_laws(&base),
                na == a.coeffs().len(),
                nb == b.coeffs().len(),
                n == max_len(na as nat, nb as nat),
                ma == self.model(*a),
                mb == self.model(*b),
                all_valid(&base, a.coeffs()),
                all_valid(&base, b.coeffs()),
                result@.len() == i,
                all_valid(&base, result@),
                laws ==> forall|j: int|
                    0 <= j < i ==> #[trigger] base.eqv(
                        base.model(result@[j]),
                        base.add_s(coeff(&base, ma, j), coeff(&base, mb, j)),
                    ),
        {
            let ghost ii = i as int;
            if i < na && i < nb {
                let c = self.coeff_ring.add(&a.coefficients[i], &b.coefficients[i]);
                proof {
                    if laws {
                        lemma_ring_parts(&base);
                    }
                }
                result.push(c);
            } else if i < na {
                let c = self.coeff_ring.copy(&a.coefficients[i]);
                proof {
                    if laws {
                        lemma_ring_parts(&base);
                        assert(base.valid(a.coeffs()[ii]));
                        base.lemma_valid_member(a.coeffs()[ii]);
                        crate::laws::lemma_add_zero(&base, ma[ii]);
                        crate::laws::lemma_add_closed(&base, ma[ii], base.zero_s());
                        lemma_sym(&base, base.add_s(ma[ii], base.zero_s()), ma[ii]);
                    }
                }
                result.push(c);
            } else {
                let c = self.coeff_ring.copy(&b.coefficients[i]);
                proof {
                    if laws {
                        lemma_ring_parts(&base);
                        assert(base.valid(b.coeffs()[ii]));
                        base.lemma_valid_member(b.coeffs()[ii]);
                        crate::laws::lemma_add_zero(&base, mb[ii]);
                        crate::laws::lemma_add_closed(&base, base.zero_s(), mb[ii]);
                        lemma_sym(&base, base.add_s(base.zero_s(), mb[ii]), mb[ii]);
                    }
                }
                result.push(c);
            }
        }
        let ghost v = result@;
        let r = self.element(result);
        proof {
            if laws {
                lemma_ring_parts(&base);
                self.lemma_valid_member(r);
                self.lemma_valid_member(*a);
                self.lemma_valid_member(*b);
                assert forall|j: int| 0 <= j < v.len() implies #[trigger] base.member(models(&base, v)[j]) by {
                    base.lemma_valid_member(v[j]);
                }
                let target = poly_add(&base, ma, mb);
                assert forall|j: int| 0 <= j < target.len() implies #[trigger] base.member(target[j]) by {
                    lemma_coeff_member(&base, ma, j);
                    lemma_coeff_member(&base, mb, j);
                    crate::laws::lemma_add_closed(&base, coeff(&base, ma, j), coeff(&base, mb, j));
                }
                assert forall|j: int| 0 <= j < v.len() implies #[trigger] base.eqv(
                    models(&base, v)[j],
                    target[j],
                ) by {
                    assert(base.eqv(base.model(v[j]), base.add_s(coeff(&base, ma, j), coeff(&base, mb, j))));
                }
                lemma_result_coefficients(&base, self.model(r), models(&base, v), target);
            }
        }
        r
    }

    fn zero(&self) -> (r: Polynomial<R>) {
        let v: Vec<R::E> = Vec::new();
        proof {
            assert(self.denote(v) =~= Seq::<R::M>::empty());
        }
        self.element(v)
    }
}


impl<R: Ring + DecidableEq> AdditiveGroup for Rc<PolynomialRing<R>> {
    open spec fn sub_s(&self, a: Seq<R::M>, b: Seq<R::M>) -> Seq<R::M> {
        poly_sub(&(**self).coeff_ring(), a, b)
    }

    /// As `add`, except a coefficient present only in `b` is negated as `0 - y`.
    fn sub(&self, a: &Polynomial<R>, b: &Polynomial<R>) -> (r: Polynomial<R>) {
        let ghost base = (**self).coeff_ring();
        let ghost laws = ring_laws(&base);
        let ghost (ma, mb) = (self.model(*a), self.model(*b));
        let zero = self.coeff_ring.zero();
        let na = a.coefficients.len();
        let nb = b.coefficients.len();
        let n = if na < nb { nb } else { na };
        let mut result: Vec<R::E> = Vec::new();
        for i in 0..n
            invariant
                base == (**self).coeff_ring(),
                base.wf(),
                laws == ring_laws(&base),
                na == a.coeffs().len(),
                nb == b.coeffs().len(),
                n == max_len(na as nat, nb as nat),
                ma == self.model(*a),
                mb == self.model(*b),
                base.valid(zero),
                base.sound() ==> base.eqv(base.model(zero), base.zero_s()),
                all_valid(&base, a.coeffs()),
                all_valid(&base, b.coeffs()),
                result@.len() == i,
                all_valid(&base, result@),
                laws ==> forall|j: int|
                    0 <= j < i ==> #[trigger] base.eqv(
                        base.model(result@[j]),
                        base.sub_s(coeff(&base, ma, j), coeff(&base, mb, j)),
                    ),
        {
            let ghost ii = i as int;
            if i < na && i < nb {
                let c = self.coeff_ring.sub(&a.coefficients[i], &b.coefficients[i]);
                proof {
                    if laws {
                        lemma_ring_parts(&base);
                    }
                }
                result.push(c);
            } else if i < na {
                let c = self.coeff_ring.copy(&a.coefficients[i]);
                proof {
                    if laws {
                        lemma_ring_parts(&base);
                        assert(base.valid(a.coeffs()[ii]));
                        base.lemma_valid_member(a.coeffs()[ii]);
                        crate::laws::lemma_add_zero(&base, ma[ii]);
                        crate::laws::lemma_sub_unique(&base, ma[ii], ma[ii], base.zero_s());
                    }
                }
                result.push(c);
            } else {
                let c = self.coeff_ring.sub(&zero, &b.coefficients[i]);
                proof {
                    if laws {
                        lemma_ring_parts(&base);
                        assert(base.valid(b.coeffs()[ii]));
                        base.lemma_valid_member(b.coeffs()[ii]);
                        base.lemma_valid_member(zero);
                        base.lemma_valid_member(c);
                        lemma_refl(&base, mb[ii]);
                        crate::laws::lemma_sub_closed(&base, base.model(zero), mb[ii]);
                        crate::laws::lemma_sub_closed(&base, base.zero_s(), mb[ii]);
                        crate::laws::lemma_sub_congruent(&base, base.model(zero), base.zero_s(), mb[ii], mb[ii]);
                        lemma_trans(
                            &base,
                            base.model(c),
                            base.sub_s(base.model(zero), mb[ii]),
                            base.sub_s(base.zero_s(), mb[ii]),
                        );
                    }
                }
                result.push(c);
            }
        }
        let ghost v = result@;
        let r = self.element(result);
        proof {
            if laws {
                lemma_ring_parts(&base);
                self.lemma_valid_member(r);
                assert forall|j: int| 0 <= j < v.len() implies #[trigger] base.member(models(&base, v)[j]) by {
                    base.lemma_valid_member(v[j]);
                }
                self.lemma_valid_member(*a);
                self.lemma_valid_member(*b);
                let target = poly_sub(&base, ma, mb);
                assert forall|j: int| 0 <= j < target.len() implies #[trigger] base.member(target[j]) by {
                    lemma_coeff_member(&base, ma, j);
                    lemma_coeff_member(&base, mb, j);
                    crate::laws::lemma_sub_closed(&base, coeff(&base, ma, j), coeff(&base, mb, j));
                }
                assert forall|j: int| 0 <= j < v.len() implies #[trigger] base.eqv(
                    models(&base, v)[j],
                    target[j],
                ) by {
                    assert(base.eqv(base.model(v[j]), base.sub_s(coeff(&base, ma, j), coeff(&base, mb, j))));
                }
                lemma_result_coefficients(&base, self.model(r), models(&base, v), target);
            }
        }
        r
    }
}

impl<R: Ring + DecidableEq> Semigroup for Rc<PolynomialRing<R>> {
    open spec fn mul_s(&self, a: Seq<R::M>, b: Seq<R::M>) -> Seq<R::M> {
        poly_mul(&(**self).coeff_ring(), a, b)
    }

    /// Schoolbook convolution of the coefficient vectors.
    fn mul(&self, a: &Polynomial<R>, b: &Polynomial<R>) -> (r: Polynomial<R>) {
        let ghost base = (**self).coeff_ring();
        let ghost laws = ring_laws(&base);
        let ghost (ma, mb) = (self.model(*a), self.model(*b));
        let n = a.coefficients.len();
        let m = b.coefficients.len();
        if n == 0 || m == 0 {
            let r = self.zero();
            proof {
                if laws {
                    assert(poly_mul(&base, ma, mb) =~= Seq::<R::M>::empty());
                }
            }
            return r;
        }
        let mut result: Vec<R::E> = Vec::new();
        for k in 0..n
            invariant
                base == (**self).coeff_ring(),
                base.wf(),
                laws == ring_laws(&base),
                result@.len() == k,
                all_valid(&base, result@),
                laws ==> forall|j: int|
                    0 <= j < result@.len() ==> #[trigger] base.eqv(base.model(result@[j]), base.zero_s()),
        {
            let z = self.coeff_ring.zero();
            proof {
                if laws {
                    lemma_ring_parts(&base);
                }
            }
            result.push(z);
        }
        for k in 1..m
            invariant
                base == (**self).coeff_ring(),
                base.wf(),
                laws == ring_laws(&base),
                result@.len() == n + k - 1,
                all_valid(&base, result@),
                laws ==> forall|j: int|
                    0 <= j < result@.len() ==> #[trigger] base.eqv(base.model(result@[j]), base.zero_s()),
        {
            let z = self.coeff_ring.zero();
            proof {
                if laws {
                    lemma_ring_parts(&base);
                }
            }
            result.push(z);
        }
        let total_exec = result.len();
        let ghost total = result@.len();
        assert(total == n + m - 1);
        for i in 0..n
            invariant
                base == (**self).coeff_ring(),
                base.wf(),
                laws == ring_laws(&base),
                self.valid(*a),
                self.valid(*b),
                n == a.coeffs().len(),
                m == b.coeffs().len(),
                ma == self.model(*a),
                mb == self.model(*b),
                all_valid(&base, a.coeffs()),
                all_valid(&base, b.coeffs()),
                total == n + m - 1,
                result@.len() == total,
                all_valid(&base, result@),
                total == total_exec,
                laws ==> forall|k: int|
                    0 <= k < total ==> base.eqv(base.model(#[trigger] result@[k]), conv(&base, ma, mb, k, i as nat)),
        {
            for j in 0..m
                invariant
                    base == (**self).coeff_ring(),
                    base.wf(),
                    laws == ring_laws(&base),
                    0 <= i < n,
                    self.valid(*a),
                    self.valid(*b),
                    n == a.coeffs().len(),
                    m == b.coeffs().len(),
                    ma == self.model(*a),
                    mb == self.model(*b),
                    all_valid(&base, a.coeffs()),
                    all_valid(&base, b.coeffs()),
                    total == n + m - 1,
                    total == total_exec,
                    result@.len() == total,
                    all_valid(&base, result@),
                    laws ==> forall|k: int|
                        0 <= k < total ==> base.eqv(
                            base.model(#[trigger] result@[k]),
                            conv(&base, ma, mb, k, if i <= k && k < i + j { (i + 1) as nat } else { i as nat }),
                        ),
            {
                let ghost k = (i + j) as int;
                let ghost before = base.model(result@[k]);
                let term = self.coeff_ring.mul(&a.coefficients[i], &b.coefficients[j]);
                let sum = self.coeff_ring.add(&result[i + j], &term);
                proof {
                    if laws {
                        lemma_ring_parts(&base);
                        self.lemma_valid_member(*a);
                        self.lemma_valid_member(*b);
                        let ii = i as int;
                        let jj = j as int;
                        assert(base.valid(a.coeffs()[ii]));
                        assert(base.valid(b.coeffs()[jj]));
                        assert(base.valid(result@[k]));
                        base.lemma_valid_member(a.coeffs()[ii]);
                        base.lemma_valid_member(b.coeffs()[jj]);
                        base.lemma_valid_member(result@[k]);
                        base.lemma_valid_member(term);
                        base.lemma_valid_member(sum);
                        let p = conv(&base, ma, mb, k, i as nat);
                        assert(base.eqv(before, p));
                        lemma_conv_member(&base, ma, mb, k, i as nat);
                        crate::laws::lemma_mul_closed(&base, ma[ii], mb[jj]);
                        crate::laws::lemma_add_closed(&base, before, base.model(term));
                        crate::laws::lemma_add_closed(&base, p, base.mul_s(ma[ii], mb[jj]));
                        crate::laws::lemma_add_congruent(&base, before, p, base.model(term), base.mul_s(ma[ii], mb[jj]));
                        lemma_trans(
                            &base,
                            base.model(sum),
                            base.add_s(before, base.model(term)),
                            base.add_s(p, base.mul_s(ma[ii], mb[jj])),
                        );
                        assert(coeff(&base, ma, ii) == ma[ii]);
                        assert(conv(&base, ma, mb, k, (i + 1) as nat) == base.add_s(p, base.mul_s(ma[ii], mb[k - ii])));
                    }
                }
                let ghost prev = result@;
                result.set(i + j, sum);
                proof {
                    if laws {
                        assert forall|k2: int| 0 <= k2 < total implies base.eqv(
                            base.model(#[trigger] result@[k2]),
                            conv(&base, ma, mb, k2, if i <= k2 && k2 < i + j + 1 { (i + 1) as nat } else { i as nat }),
                        ) by {
                            if k2 != k {
                                assert(result@[k2] == prev[k2]);
                                assert(base.eqv(
                                    base.model(prev[k2]),
                                    conv(&base, ma, mb, k2, if i <= k2 && k2 < i + j { (i + 1) as nat } else { i as nat }),
                                ));
                            }
                        }
                    }
                }
            }
            proof {
                if laws {
                    assert forall|k: int| 0 <= k < total implies base.eqv(
                        base.model(#[trigger] result@[k]),
                        conv(&base, ma, mb, k, (i + 1) as nat),
                    ) by {
                        assert(base.eqv(
                            base.model(result@[k]),
                            conv(&base, ma, mb, k, if i <= k && k < i + m { (i + 1) as nat } else { i as nat }),
                        ));
                    }
                }
            }
        }
        let ghost v = result@;
        let r = self.element(result);
        proof {
            if laws {
                lemma_ring_parts(&base);
                self.lemma_valid_member(r);
                self.lemma_valid_member(*a);
                self.lemma_valid_member(*b);
                assert forall|j: int| 0 <= j < v.len() implies #[trigger] base.member(models(&base, v)[j]) by {
                    base.lemma_valid_member(v[j]);
                }
                let target = poly_mul(&base, ma, mb);
                assert forall|j: int| 0 <= j < target.len() implies #[trigger] base.member(target[j]) by {
                    lemma_conv_member(&base, ma, mb, j, n as nat);
                }
                assert forall|j: int| 0 <= j < v.len() implies #[trigger] base.eqv(
                    models(&base, v)[j],
                    target[j],
                ) by {
                    assert(base.eqv(base.model(v[j]), conv(&base, ma, mb, j, n as nat)));
                }
                lemma_result_coefficients(&base, self.model(r), models(&base, v), target);
            }
        }
        r
    }
}

impl<R: Ring + DecidableEq> Monoid for Rc<PolynomialRing<R>> {
    open spec fn one_s(&self) -> Seq<R::M> {
        seq![(**self).coeff_ring().one_s()]
    }

    fn identity(&self) -> (r: Polynomial<R>) {
        let ghost base = (**self).coeff_ring();
        let one = self.coeff_ring.identity();
        let mut v: Vec<R::E> = Vec::new();
        v.push(one);
        let ghost vv = v@;
        let r = self.element(v);
        proof {
            if self.sound() {
                lemma_ring_parts(&base);
                self.lemma_valid_member(r);
                base.lemma_valid_member(vv[0]);
                assert forall|j: int| 0 <= j < vv.len() implies #[trigger] base.member(models(&base, vv)[j]) by {
                }
                assert(base.member(base.one_s()));
                assert forall|j: int| 0 <= j < vv.len() implies #[trigger] base.eqv(
                    models(&base, vv)[j],
                    self.one_s()[j],
                ) by {
                }
                lemma_result_coefficients(&base, self.model(r), models(&base, vv), self.one_s());
            }
        }
        r
    }
}

impl<R: Ring + DecidableEq> SemiRing for Rc<PolynomialRing<R>> {

}

impl<R: Ring + DecidableEq> Ring for Rc<PolynomialRing<R>> {

}


/// The value of the polynomial with coefficients `s` at `x`, by Horner's rule:
/// `s[0] + x · (s[1] + x · (...))`.
pub open spec fn horner<R: Ring>(r: &R, s: Seq<R::M>, x: R::M) -> R::M
    decreases s.len(),
{
    if s.len() == 0 {
        r.zero_s()
    } else {
        r.add_s(r.mul_s(horner(r, s.subrange(1, s.len() as int), x), x), s[0])
    }
}

pub proof fn lemma_horner_member<R: Ring>(r: &R, s: Seq<R::M>, x: R::M)
    requires
        ring_laws(r),
        all_members(r, s),
        r.member(x),
    ensures
        r.member(horner(r, s, x)),
    decreases s.len(),
{
    lemma_ring_parts(r);
    if s.len() > 0 {
        let t = s.subrange(1, s.len() as int);
        assert forall|i: int| 0 <= i < t.len() implies #[trigger] r.member(t[i]) by {
            assert(t[i] == s[i + 1]);
        }
        lemma_horner_member(r, t, x);
        crate::laws::lemma_mul_closed(r, horner(r, t, x), x);
        crate::laws::lemma_add_closed(r, r.mul_s(horner(r, t, x), x), s[0]);
    }
}

impl<R: Ring + DecidableEq> Polynomial<R> {
    /// The value at `x`, by Horner's rule; computed in the coefficient ring, so over
    /// `F_p` it stays in `F_p`.
    pub fn evaluate(&self, x: &R::E) -> (r: R::E)
        requires
            self.handle().wf(),
            self.handle().valid(*self),
            (*self.handle()).coeff_ring().valid(*x),
        ensures
            (*self.handle()).coeff_ring().valid(r),
            ring_laws(&(*self.handle()).coeff_ring()) ==> (*self.handle()).coeff_ring().eqv(
                (*self.handle()).coeff_ring().model(r),
                horner(
                    &(*self.handle()).coeff_ring(),
                    self.handle().model(*self),
                    (*self.handle()).coeff_ring().model(*x),
                ),
            ),
    {
        let ghost h = self.handle();
        let ghost base = (*h).coeff_ring();
        let ghost laws = ring_laws(&base);
        let ghost s = h.model(*self);
        let ghost mx = base.model(*x);
        let ring = &self.ring.coeff_ring;
        let mut acc = ring.zero();
        let mut i = self.coefficients.len();
        proof {
            if laws {
                lemma_ring_parts(&base);
                assert(s.subrange(i as int, s.len() as int).len() == 0);
            }
        }
        while i > 0
            invariant
                base == *ring,
                base == (*h).coeff_ring(),
                base.wf(),
                laws == ring_laws(&base),
                s == h.model(*self),
                h == self.handle(),
                h.wf(),
                h.valid(*self),
                mx == base.model(*x),
                base.valid(*x),
                i <= s.len(),
                s.len() == self.coeffs().len(),
                base.valid(acc),
                laws ==> base.eqv(base.model(acc), horner(&base, s.subrange(i as int, s.len() as int), mx)),
            decreases i,
        {
            i = i - 1;
            let ghost ii = i as int;
            assert(base.valid(self.coeffs()[ii]));
            let prod = ring.mul(&acc, x);
            let next = ring.add(&prod, &self.coefficients[i]);
            proof {
                if laws {
                    lemma_ring_parts(&base);
                    h.lemma_valid_member(*self);
                    let t = s.subrange(ii + 1, s.len() as int);
                    let u = s.subrange(ii, s.len() as int);
                    assert(u.subrange(1, u.len() as int) =~= t);
                    assert(u[0] == s[ii]);
                    assert forall|j: int| 0 <= j < t.len() implies #[trigger] base.member(t[j]) by {
                        assert(t[j] == s[ii + 1 + j]);
                    }
                    base.lemma_valid_member(acc);
                    base.lemma_valid_member(*x);
                    base.lemma_valid_member(prod);
                    base.lemma_valid_member(next);
                    lemma_horner_member(&base, t, mx);
                    lemma_refl(&base, mx);
                    crate::laws::lemma_mul_closed(&base, base.model(acc), mx);
                    crate::laws::lemma_mul_closed(&base, horner(&base, t, mx), mx);
                    crate::laws::lemma_mul_congruent(&base, base.model(acc), horner(&base, t, mx), mx, mx);
                    lemma_trans(&base, base.model(prod), base.mul_s(base.model(acc), mx), base.mul_s(horner(&base, t, mx), mx));
                    lemma_refl(&base, s[ii]);
                    crate::laws::lemma_add_closed(&base, base.model(prod), s[ii]);
                    crate::laws::lemma_add_closed(&base, base.mul_s(horner(&base, t, mx), mx), s[ii]);
                    crate::laws::lemma_add_congruent(&base, base.model(prod), base.mul_s(horner(&base, t, mx), mx), s[ii], s[ii]);
                    lemma_trans(&base, base.model(next), base.add_s(base.model(prod), s[ii]), horner(&base, u, mx));
                }
            }
            acc = next;
        }
        proof {
            assert(s.subrange(0, s.len() as int) =~= s);
        }
        acc
    }
}


// ---------------------------------------------------------------------------------
// Division with remainder, over a field.

/// The length of `s` once trailing zero coefficients are dropped: one more than the
/// degree, and zero for the zero polynomial.
pub open spec fn trim_len<R: Ring>(r: &R, s: Seq<R::M>) -> nat
    decreases s.len(),
{
    if s.len() > 0 && r.eqv(s[s.len() - 1], r.zero_s()) {
        trim_len(r, s.drop_last())
    } else {
        s.len()
    }
}

/// What adding `c · x^kk` to the left factor adds to the coefficient of `x^k` of a
/// product with `b`, once the partial sum has passed index `kk`.
pub open spec fn bonus<R: Ring>(r: &R, b: Seq<R::M>, k: int, kk: int, c: R::M, t: nat) -> R::M {
    if kk < t && 0 <= k - kk < b.len() {
        r.mul_s(c, b[k - kk])
    } else {
        r.zero_s()
    }
}

/// A sum with no term in range is zero.
proof fn lemma_conv_empty<R: Ring>(r: &R, a: Seq<R::M>, b: Seq<R::M>, k: int, t: nat)
    requires
        b.len() == 0 || k < 0 || k + 1 >= t + b.len(),
    ensures
        conv(r, a, b, k, t) == r.zero_s(),
    decreases t,
{
    if t > 0 {
        lemma_conv_empty(r, a, b, k, (t - 1) as nat);
    }
}

/// Every coefficient of a product is a full convolution sum.
pub proof fn lemma_mul_coeff<R: Ring>(r: &R, a: Seq<R::M>, b: Seq<R::M>, t: int)
    requires
        t >= 0,
    ensures
        coeff(r, poly_mul(r, a, b), t) == conv(r, a, b, t, a.len()),
{
    if a.len() == 0 {
    } else if b.len() == 0 {
        lemma_conv_empty(r, a, b, t, a.len());
    } else if t >= a.len() + b.len() - 1 {
        lemma_conv_empty(r, a, b, t, a.len());
    }
}

/// Convolution sums respect equality of the left factor's coefficients.
proof fn lemma_conv_congruent<R: Ring>(r: &R, a1: Seq<R::M>, a2: Seq<R::M>, b: Seq<R::M>, k: int, t: nat)
    requires
        ring_laws(r),
        all_members(r, a1),
        all_members(r, a2),
        all_members(r, b),
        forall|i: int| 0 <= i < t ==> r.eqv(#[trigger] coeff(r, a1, i), coeff(r, a2, i)),
    ensures
        r.eqv(conv(r, a1, b, k, t), conv(r, a2, b, k, t)),
    decreases t,
{
    lemma_ring_parts(r);
    if t == 0 {
        lemma_refl(r, r.zero_s());
    } else {
        let i = t - 1;
        let p1 = conv(r, a1, b, k, (t - 1) as nat);
        let p2 = conv(r, a2, b, k, (t - 1) as nat);
        lemma_conv_congruent(r, a1, a2, b, k, (t - 1) as nat);
        if 0 <= k - i < b.len() {
            let x1 = coeff(r, a1, i);
            let x2 = coeff(r, a2, i);
            let y = b[k - i];
            assert(r.eqv(x1, x2));
            lemma_coeff_member(r, a1, i);
            lemma_coeff_member(r, a2, i);
            lemma_conv_member(r, a1, b, k, (t - 1) as nat);
            lemma_conv_member(r, a2, b, k, (t - 1) as nat);
            lemma_refl(r, y);
            crate::laws::lemma_mul_congruent(r, x1, x2, y, y);
            crate::laws::lemma_mul_closed(r, x1, y);
            crate::laws::lemma_mul_closed(r, x2, y);
            crate::laws::lemma_add_congruent(r, p1, p2, r.mul_s(x1, y), r.mul_s(x2, y));
        }
    }
}

/// Past the end of `a`, a convolution sum only adds zero terms.
proof fn lemma_conv_tail<R: Ring>(r: &R, a: Seq<R::M>, b: Seq<R::M>, k: int, t: nat)
    requires
        ring_laws(r),
        all_members(r, a),
        all_members(r, b),
        t >= a.len(),
    ensures
        r.eqv(conv(r, a, b, k, t), conv(r, a, b, k, a.len())),
    decreases t,
{
    lemma_ring_parts(r);
    lemma_conv_member(r, a, b, k, a.len());
    if t == a.len() {
        lemma_refl(r, conv(r, a, b, k, t));
    } else {
        let i = t - 1;
        let p = conv(r, a, b, k, (t - 1) as nat);
        lemma_conv_tail(r, a, b, k, (t - 1) as nat);
        lemma_conv_member(r, a, b, k, (t - 1) as nat);
        if 0 <= k - i < b.len() {
            let y = b[k - i];
            let z = r.zero_s();
            crate::laws::lemma_zero_mul(r, y);
            crate::laws::lemma_mul_closed(r, z, y);
            lemma_refl(r, p);
            crate::laws::lemma_add_congruent(r, p, p, r.mul_s(z, y), z);
            crate::laws::lemma_add_zero(r, p);
            crate::laws::lemma_add_closed(r, p, r.mul_s(z, y));
            crate::laws::lemma_add_closed(r, p, z);
            lemma_trans(r, r.add_s(p, r.mul_s(z, y)), r.add_s(p, z), p);
            lemma_trans(r, r.add_s(p, r.mul_s(z, y)), p, conv(r, a, b, k, a.len()));
        }
    }
}

/// Adding `c` to one coefficient `kk` of the left factor adds `c · b[k - kk]` to the
/// convolution sum, once the sum has passed `kk`.
proof fn lemma_conv_update<R: Ring>(
    r: &R,
    a: Seq<R::M>,
    a2: Seq<R::M>,
    b: Seq<R::M>,
    k: int,
    kk: int,
    c: R::M,
    t: nat,
)
    requires
        ring_laws(r),
        all_members(r, a),
        all_members(r, a2),
        all_members(r, b),
        r.member(c),
        0 <= kk,
        forall|i: int| 0 <= i < t && i != kk ==> r.eqv(#[trigger] coeff(r, a2, i), coeff(r, a, i)),
        kk < t ==> r.eqv(coeff(r, a2, kk), r.add_s(coeff(r, a, kk), c)),
    ensures
        r.eqv(conv(r, a2, b, k, t), r.add_s(conv(r, a, b, k, t), bonus(r, b, k, kk, c, t))),
    decreases t,
{
    lemma_ring_parts(r);
    let z = r.zero_s();
    if t == 0 {
        crate::laws::lemma_add_zero(r, z);
        crate::laws::lemma_add_closed(r, z, z);
        lemma_sym(r, r.add_s(z, z), z);
    } else {
        let i = t - 1;
        let p2 = conv(r, a2, b, k, (t - 1) as nat);
        let p = conv(r, a, b, k, (t - 1) as nat);
        let bb = bonus(r, b, k, kk, c, (t - 1) as nat);
        lemma_conv_update(r, a, a2, b, k, kk, c, (t - 1) as nat);
        lemma_conv_member(r, a2, b, k, (t - 1) as nat);
        lemma_conv_member(r, a, b, k, (t - 1) as nat);
        lemma_coeff_member(r, a, i);
        lemma_coeff_member(r, a2, i);
        assert(r.member(bb)) by {
            if kk < t - 1 && 0 <= k - kk < b.len() {
                crate::laws::lemma_mul_closed(r, c, b[k - kk]);
            }
        }
        crate::laws::lemma_add_closed(r, p, bb);
        if 0 <= k - i < b.len() {
            let y = b[k - i];
            let x = coeff(r, a, i);
            let x2 = coeff(r, a2, i);
            let xy = r.mul_s(x, y);
            let x2y = r.mul_s(x2, y);
            crate::laws::lemma_mul_closed(r, x, y);
            crate::laws::lemma_mul_closed(r, x2, y);
            crate::laws::lemma_add_closed(r, p2, x2y);
            crate::laws::lemma_add_closed(r, p, xy);
            if i != kk {
                // x2·y ~ x·y, and the bonus is unchanged
                assert(r.eqv(x2, x));
                lemma_refl(r, y);
                crate::laws::lemma_mul_congruent(r, x2, x, y, y);
                crate::laws::lemma_add_congruent(r, p2, r.add_s(p, bb), x2y, xy);
                crate::laws::lemma_add_closed(r, r.add_s(p, bb), xy);
                crate::laws::lemma_add_swap_right(r, p, bb, xy);
                crate::laws::lemma_add_closed(r, r.add_s(p, xy), bb);
                lemma_trans(
                    r,
                    r.add_s(p2, x2y),
                    r.add_s(r.add_s(p, bb), xy),
                    r.add_s(r.add_s(p, xy), bb),
                );
                assert(bonus(r, b, k, kk, c, t) == bb);
            } else {
                // x2 ~ x + c: (x + c)·y ~ x·y + c·y, and p2 ~ p
                let cy = r.mul_s(c, y);
                assert(bb == z);
                assert(bonus(r, b, k, kk, c, t) == cy);
                crate::laws::lemma_mul_closed(r, c, y);
                crate::laws::lemma_add_closed(r, x, c);
                crate::laws::lemma_mul_closed(r, r.add_s(x, c), y);
                lemma_refl(r, y);
                crate::laws::lemma_mul_congruent(r, x2, r.add_s(x, c), y, y);
                crate::laws::lemma_distrib(r, x, c, y);
                crate::laws::lemma_add_closed(r, xy, cy);
                lemma_trans(r, x2y, r.mul_s(r.add_s(x, c), y), r.add_s(xy, cy));
                crate::laws::lemma_add_zero(r, p);
                lemma_trans(r, p2, r.add_s(p, z), p);
                crate::laws::lemma_add_congruent(r, p2, p, x2y, r.add_s(xy, cy));
                crate::laws::lemma_add_closed(r, p, r.add_s(xy, cy));
                crate::laws::lemma_add_assoc(r, p, xy, cy);
                crate::laws::lemma_add_closed(r, r.add_s(p, xy), cy);
                lemma_sym(r, r.add_s(r.add_s(p, xy), cy), r.add_s(p, r.add_s(xy, cy)));
                lemma_trans(
                    r,
                    r.add_s(p2, x2y),
                    r.add_s(p, r.add_s(xy, cy)),
                    r.add_s(r.add_s(p, xy), cy),
                );
            }
        } else {
            assert(bonus(r, b, k, kk, c, t) == bb);
        }
    }
}

/// `c · lead ~ x` when `c ~ x · inv` and `lead · inv ~ 1`.
pub proof fn lemma_cancel_lead<F: Field>(f: &F, x: F::M, inv: F::M, lead: F::M, c: F::M)
    requires
        field_laws(f),
        f.member(x),
        f.member(inv),
        f.member(lead),
        f.member(c),
        f.eqv(f.mul_s(lead, inv), f.one_s()),
        f.eqv(c, f.mul_s(x, inv)),
    ensures
        f.eqv(f.mul_s(c, lead), x),
{
    lemma_field_parts(f);
    lemma_ring_parts(f);
    let xi = f.mul_s(x, inv);
    crate::laws::lemma_mul_closed(f, x, inv);
    crate::laws::lemma_mul_closed(f, c, lead);
    crate::laws::lemma_mul_closed(f, xi, lead);
    crate::laws::lemma_mul_closed(f, inv, lead);
    crate::laws::lemma_mul_closed(f, lead, inv);
    crate::laws::lemma_mul_closed(f, x, f.mul_s(inv, lead));
    crate::laws::lemma_mul_closed(f, x, f.mul_s(lead, inv));
    crate::laws::lemma_mul_closed(f, x, f.one_s());
    lemma_refl(f, lead);
    lemma_refl(f, x);
    crate::laws::lemma_mul_congruent(f, c, xi, lead, lead);
    crate::laws::lemma_mul_assoc(f, x, inv, lead);
    crate::laws::lemma_mul_comm(f, inv, lead);
    crate::laws::lemma_mul_congruent(f, x, x, f.mul_s(inv, lead), f.mul_s(lead, inv));
    crate::laws::lemma_mul_congruent(f, x, x, f.mul_s(lead, inv), f.one_s());
    crate::laws::lemma_mul_one(f, x);
    lemma_trans(f, f.mul_s(c, lead), f.mul_s(xi, lead), f.mul_s(x, f.mul_s(inv, lead)));
    lemma_trans(f, f.mul_s(c, lead), f.mul_s(x, f.mul_s(inv, lead)), f.mul_s(x, f.mul_s(lead, inv)));
    lemma_trans(f, f.mul_s(c, lead), f.mul_s(x, f.mul_s(lead, inv)), f.mul_s(x, f.one_s()));
    lemma_trans(f, f.mul_s(c, lead), f.mul_s(x, f.one_s()), x);
}

/// The invariant of long division: `a ~ q · d + r`, coefficient by coefficient.
pub open spec fn division_invariant<R: Ring>(
    r: &R,
    a: Seq<R::M>,
    d: Seq<R::M>,
    q: Seq<R::M>,
    rem: Seq<R::M>,
) -> bool {
    forall|t: int|
        0 <= t ==> r.eqv(#[trigger] coeff(r, a, t), r.add_s(conv(r, q, d, t, q.len()), coeff(r, rem, t)))
}

/// One step of long division keeps `a ~ q · d + r`: subtracting `c · x^k · d` from
/// the remainder and adding `c · x^k` to the quotient.
pub proof fn lemma_division_step<R: Ring>(
    r: &R,
    a: Seq<R::M>,
    d: Seq<R::M>,
    q0: Seq<R::M>,
    r0: Seq<R::M>,
    q1: Seq<R::M>,
    r1: Seq<R::M>,
    r3: Seq<R::M>,
    c: R::M,
    k: int,
)
    requires
        ring_laws(r),
        all_members(r, a),
        all_members(r, d),
        all_members(r, q0),
        all_members(r, r0),
        all_members(r, q1),
        all_members(r, r1),
        all_members(r, r3),
        r.member(c),
        d.len() >= 1,
        0 <= k,
        r0.len() == k + d.len(),
        division_invariant(r, a, d, q0, r0),
        r1.len() == r0.len(),
        forall|t: int|
            0 <= t < r1.len() ==> (if k <= t < k + d.len() {
                r.eqv(#[trigger] r1[t], r.sub_s(r0[t], r.mul_s(c, d[t - k])))
            } else {
                r1[t] == r0[t]
            }),
        q1.len() >= q0.len(),
        q1.len() > k,
        forall|i: int| 0 <= i < q1.len() && i != k ==> r.eqv(#[trigger] coeff(r, q1, i), coeff(r, q0, i)),
        r.eqv(coeff(r, q1, k), r.add_s(coeff(r, q0, k), c)),
        r3.len() < r1.len(),
        forall|t: int| 0 <= t < r3.len() ==> #[trigger] r3[t] == r1[t],
        forall|t: int| r3.len() <= t < r1.len() ==> r.eqv(#[trigger] r1[t], r.zero_s()),
    ensures
        division_invariant(r, a, d, q1, r3),
{
    lemma_ring_parts(r);
    let z = r.zero_s();
    let l1 = q1.len();
    assert forall|t: int| 0 <= t implies r.eqv(
        #[trigger] coeff(r, a, t),
        r.add_s(conv(r, q1, d, t, q1.len()), coeff(r, r3, t)),
    ) by {
        let bt = bonus(r, d, t, k, c, l1);
        let p0 = conv(r, q0, d, t, q0.len());
        let p0l = conv(r, q0, d, t, l1);
        let p1 = conv(r, q1, d, t, l1);
        let x0 = coeff(r, r0, t);
        let x1 = coeff(r, r1, t);
        let x3 = coeff(r, r3, t);
        assert(r.member(bt)) by {
            if 0 <= t - k < d.len() {
                crate::laws::lemma_mul_closed(r, c, d[t - k]);
            }
        }
        lemma_coeff_member(r, a, t);
        lemma_coeff_member(r, r0, t);
        lemma_coeff_member(r, r1, t);
        lemma_coeff_member(r, r3, t);
        lemma_conv_member(r, q0, d, t, q0.len());
        lemma_conv_member(r, q0, d, t, l1);
        lemma_conv_member(r, q1, d, t, l1);
        // the quotient side: p1 ~ p0l + b ~ p0 + b
        lemma_conv_update(r, q0, q1, d, t, k, c, l1);
        lemma_conv_tail(r, q0, d, t, l1);
        lemma_refl(r, bt);
        crate::laws::lemma_add_congruent(r, p0l, p0, bt, bt);
        crate::laws::lemma_add_closed(r, p0l, bt);
        crate::laws::lemma_add_closed(r, p0, bt);
        lemma_trans(r, p1, r.add_s(p0l, bt), r.add_s(p0, bt));
        // the remainder side: x0 ~ x1 + b, and x1 ~ x3
        assert(r.eqv(x1, r.sub_s(x0, bt))) by {
            if 0 <= t < r1.len() {
                if k <= t < k + d.len() {
                    assert(r.eqv(r1[t], r.sub_s(r0[t], r.mul_s(c, d[t - k]))));
                } else {
                    assert(r1[t] == r0[t]);
                    crate::laws::lemma_add_zero(r, x0);
                    crate::laws::lemma_sub_unique(r, x0, x0, z);
                }
            } else {
                crate::laws::lemma_add_zero(r, z);
                crate::laws::lemma_sub_unique(r, z, z, z);
            }
        }
        assert(r.eqv(x3, x1)) by {
            if t < r3.len() {
                assert(r3[t] == r1[t]);
                lemma_refl(r, x1);
            } else if t < r1.len() {
                assert(r.eqv(r1[t], z));
                lemma_sym(r, x1, z);
            } else {
                lemma_refl(r, z);
            }
        }
        crate::laws::lemma_sub_closed(r, x0, bt);
        crate::laws::lemma_sub_add(r, x0, bt);
        crate::laws::lemma_add_closed(r, r.sub_s(x0, bt), bt);
        crate::laws::lemma_add_closed(r, x1, bt);
        crate::laws::lemma_add_closed(r, x3, bt);
        lemma_trans(r, x3, x1, r.sub_s(x0, bt));
        crate::laws::lemma_add_congruent(r, x3, r.sub_s(x0, bt), bt, bt);
        lemma_trans(r, r.add_s(x3, bt), r.add_s(r.sub_s(x0, bt), bt), x0);
        // a ~ p0 + x0 ~ p0 + (x3 + b) ~ (p0 + x3) + b ~ (p0 + b) + x3 ~ p1 + x3
        assert(r.eqv(coeff(r, a, t), r.add_s(p0, x0)));
        lemma_refl(r, p0);
        lemma_sym(r, r.add_s(x3, bt), x0);
        crate::laws::lemma_add_closed(r, p0, x0);
        crate::laws::lemma_add_closed(r, p0, r.add_s(x3, bt));
        crate::laws::lemma_add_congruent(r, p0, p0, x0, r.add_s(x3, bt));
        crate::laws::lemma_add_assoc(r, p0, x3, bt);
        crate::laws::lemma_add_closed(r, p0, x3);
        crate::laws::lemma_add_closed(r, r.add_s(p0, x3), bt);
        lemma_sym(r, r.add_s(r.add_s(p0, x3), bt), r.add_s(p0, r.add_s(x3, bt)));
        crate::laws::lemma_add_swap_right(r, p0, x3, bt);
        crate::laws::lemma_add_closed(r, r.add_s(p0, bt), x3);
        lemma_sym(r, p1, r.add_s(p0, bt));
        lemma_refl(r, x3);
        crate::laws::lemma_add_closed(r, p1, x3);
        crate::laws::lemma_add_congruent(r, r.add_s(p0, bt), p1, x3, x3);
        lemma_trans(r, coeff(r, a, t), r.add_s(p0, x0), r.add_s(p0, r.add_s(x3, bt)));
        lemma_trans(r, coeff(r, a, t), r.add_s(p0, r.add_s(x3, bt)), r.add_s(r.add_s(p0, x3), bt));
        lemma_trans(r, coeff(r, a, t), r.add_s(r.add_s(p0, x3), bt), r.add_s(r.add_s(p0, bt), x3));
        lemma_trans(r, coeff(r, a, t), r.add_s(r.add_s(p0, bt), x3), r.add_s(p1, x3));
    }
}


/// A trimmed sequence is its own trimmed length.
proof fn lemma_trim_len_trimmed<R: Ring>(r: &R, s: Seq<R::M>)
    requires
        trimmed(r, s),
    ensures
        trim_len(r, s) == s.len(),
{
}

/// A trimmed sequence is no longer than any sequence it agrees with.
proof fn lemma_trimmed_shorter<R: Ring>(r: &R, x: Seq<R::M>, y: Seq<R::M>)
    requires
        trimmed(r, x),
        same_coefficients(r, x, y),
    ensures
        x.len() <= y.len(),
{
    if x.len() > y.len() {
        assert(r.eqv(coeff(r, x, x.len() - 1), coeff(r, y, x.len() - 1)));
    }
}

/// A coefficient of a sum is the sum of the coefficients.
pub proof fn lemma_poly_add_coeff<R: Ring>(r: &R, a: Seq<R::M>, b: Seq<R::M>, t: int)
    requires
        ring_laws(r),
        all_members(r, a),
        all_members(r, b),
        0 <= t,
    ensures
        r.eqv(coeff(r, poly_add(r, a, b), t), r.add_s(coeff(r, a, t), coeff(r, b, t))),
{
    lemma_ring_parts(r);
    lemma_coeff_member(r, a, t);
    lemma_coeff_member(r, b, t);
    crate::laws::lemma_add_closed(r, coeff(r, a, t), coeff(r, b, t));
    if t < max_len(a.len(), b.len()) {
        lemma_refl(r, r.add_s(coeff(r, a, t), coeff(r, b, t)));
    } else {
        crate::laws::lemma_add_zero(r, r.zero_s());
        lemma_sym(r, r.add_s(r.zero_s(), r.zero_s()), r.zero_s());
    }
}

/// Agreeing left factors give agreeing products, coefficient by coefficient.
proof fn lemma_conv_same<R: Ring>(r: &R, q1: Seq<R::M>, q2: Seq<R::M>, d: Seq<R::M>, t: int)
    requires
        ring_laws(r),
        all_members(r, q1),
        all_members(r, q2),
        all_members(r, d),
        same_coefficients(r, q1, q2),
    ensures
        r.eqv(conv(r, q1, d, t, q1.len()), conv(r, q2, d, t, q2.len())),
{
    lemma_ring_parts(r);
    let l = max_len(q1.len(), q2.len());
    assert forall|i: int| 0 <= i < l implies r.eqv(#[trigger] coeff(r, q1, i), coeff(r, q2, i)) by {
    }
    lemma_conv_congruent(r, q1, q2, d, t, l);
    lemma_conv_tail(r, q1, d, t, l);
    lemma_conv_tail(r, q2, d, t, l);
    lemma_conv_member(r, q1, d, t, l);
    lemma_conv_member(r, q2, d, t, l);
    lemma_conv_member(r, q1, d, t, q1.len());
    lemma_conv_member(r, q2, d, t, q2.len());
    lemma_sym(r, conv(r, q1, d, t, l), conv(r, q1, d, t, q1.len()));
    lemma_trans(r, conv(r, q1, d, t, q1.len()), conv(r, q1, d, t, l), conv(r, q2, d, t, l));
    lemma_trans(r, conv(r, q1, d, t, q1.len()), conv(r, q2, d, t, l), conv(r, q2, d, t, q2.len()));
}

/// `r[k + j] = r[k + j] - c · d[j]` for every `j`.
fn subtract_shifted<R: Ring>(ring: &R, r: &mut Vec<R::E>, k: usize, c: &R::E, d: &Vec<R::E>)
    requires
        ring.wf(),
        k + d@.len() <= old(r)@.len(),
        all_valid(ring, old(r)@),
        all_valid(ring, d@),
        ring.valid(*c),
    ensures
        final(r)@.len() == old(r)@.len(),
        all_valid(ring, final(r)@),
        forall|t: int|
            0 <= t < final(r)@.len() ==> (if k <= t && t < k + d@.len() {
                ring_laws(ring) ==> ring.eqv(
                    ring.model(#[trigger] final(r)@[t]),
                    ring.sub_s(ring.model(old(r)@[t]), ring.mul_s(ring.model(*c), ring.model(d@[t - k]))),
                )
            } else {
                final(r)@[t] == old(r)@[t]
            }),
{
    let n = d.len();
    let len = r.len();
    for j in 0..n
        invariant
            ring.wf(),
            len == r@.len(),
            n == d@.len(),
            k + n <= old(r)@.len(),
            r@.len() == old(r)@.len(),
            all_valid(ring, r@),
            all_valid(ring, d@),
            all_valid(ring, old(r)@),
            ring.valid(*c),
            forall|t: int|
                0 <= t < r@.len() ==> (if k <= t && t < k + j {
                    ring_laws(ring) ==> ring.eqv(
                        ring.model(#[trigger] r@[t]),
                        ring.sub_s(ring.model(old(r)@[t]), ring.mul_s(ring.model(*c), ring.model(d@[t - k]))),
                    )
                } else {
                    r@[t] == old(r)@[t]
                }),
    {
        let ghost t0 = (k + j) as int;
        assert(r@[t0] == old(r)@[t0]);
        assert(ring.valid(d@[j as int]));
        let term = ring.mul(c, &d[j]);
        let v = ring.sub(&r[k + j], &term);
        proof {
            if ring_laws(ring) {
                lemma_ring_parts(ring);
                ring.lemma_valid_member(*c);
                ring.lemma_valid_member(d@[j as int]);
                ring.lemma_valid_member(term);
                ring.lemma_valid_member(old(r)@[t0]);
                crate::laws::lemma_mul_closed(ring, ring.model(*c), ring.model(d@[j as int]));
                lemma_refl(ring, ring.model(old(r)@[t0]));
                crate::laws::lemma_sub_congruent(
                    ring,
                    ring.model(old(r)@[t0]),
                    ring.model(old(r)@[t0]),
                    ring.model(term),
                    ring.mul_s(ring.model(*c), ring.model(d@[j as int])),
                );
                ring.lemma_valid_member(v);
                crate::laws::lemma_sub_closed(ring, ring.model(old(r)@[t0]), ring.model(term));
                crate::laws::lemma_sub_closed(
                    ring,
                    ring.model(old(r)@[t0]),
                    ring.mul_s(ring.model(*c), ring.model(d@[j as int])),
                );
                lemma_trans(
                    ring,
                    ring.model(v),
                    ring.sub_s(ring.model(old(r)@[t0]), ring.model(term)),
                    ring.sub_s(ring.model(old(r)@[t0]), ring.mul_s(ring.model(*c), ring.model(d@[j as int]))),
                );
            }
        }
        let ghost prev = r@;
        r.set(k + j, v);
        proof {
            assert forall|t: int| 0 <= t < r@.len() && t != t0 implies #[trigger] r@[t] == prev[t] by {
            }
        }
    }
}

/// `q[k] = q[k] + c`, after padding `q` with zeros up to length `k + 1`.
fn add_at<R: Ring>(ring: &R, q: &mut Vec<R::E>, k: usize, c: &R::E)
    requires
        ring.wf(),
        all_valid(ring, old(q)@),
        ring.valid(*c),
        k < usize::MAX,
    ensures
        final(q)@.len() == max_len(old(q)@.len(), (k + 1) as nat),
        all_valid(ring, final(q)@),
        forall|i: int| 0 <= i < old(q)@.len() && i != k ==> #[trigger] final(q)@[i] == old(q)@[i],
        ring_laws(ring) ==> forall|i: int|
            old(q)@.len() <= i < final(q)@.len() && i != k ==> ring.eqv(
                ring.model(#[trigger] final(q)@[i]),
                ring.zero_s(),
            ),
        ring_laws(ring) ==> ring.eqv(
            ring.model(final(q)@[k as int]),
            ring.add_s(coeff(ring, models(ring, old(q)@), k as int), ring.model(*c)),
        ),
{
    let ghost laws = ring_laws(ring);
    let ghost start = q@;
    while q.len() < k + 1
        invariant
            ring.wf(),
            k < usize::MAX,
            laws == ring_laws(ring),
            start == old(q)@,
            all_valid(ring, q@),
            q@.len() >= start.len(),
            q@.len() <= max_len(start.len(), (k + 1) as nat),
            forall|i: int| 0 <= i < start.len() ==> #[trigger] q@[i] == start[i],
            laws ==> forall|i: int|
                start.len() <= i < q@.len() ==> ring.eqv(ring.model(#[trigger] q@[i]), ring.zero_s()),
        decreases k + 1 - q@.len(),
    {
        let z = ring.zero();
        proof {
            if laws {
                lemma_ring_parts(ring);
            }
        }
        q.push(z);
    }
    let ghost before = q@;
    let v = ring.add(&q[k], c);
    proof {
        if laws {
            lemma_ring_parts(ring);
            let ki = k as int;
            ring.lemma_valid_member(before[ki]);
            ring.lemma_valid_member(*c);
            if ki < start.len() {
                assert(before[ki] == start[ki]);
            } else {
                assert(ring.eqv(ring.model(before[ki]), ring.zero_s()));
                lemma_refl(ring, ring.model(*c));
                crate::laws::lemma_add_congruent(ring, ring.model(before[ki]), ring.zero_s(), ring.model(*c), ring.model(*c));
                crate::laws::lemma_add_closed(ring, ring.model(before[ki]), ring.model(*c));
                crate::laws::lemma_add_closed(ring, ring.zero_s(), ring.model(*c));
                ring.lemma_valid_member(v);
                lemma_trans(
                    ring,
                    ring.model(v),
                    ring.add_s(ring.model(before[ki]), ring.model(*c)),
                    ring.add_s(ring.zero_s(), ring.model(*c)),
                );
            }
        }
    }
    q.set(k, v);
    proof {
        assert forall|i: int| 0 <= i < q@.len() && i != k implies #[trigger] q@[i] == before[i] by {
        }
    }
}

/// Drops trailing zero coefficients.
fn trim_zeros<R: Ring + DecidableEq>(ring: &R, v: &mut Vec<R::E>)
    requires
        ring.wf(),
        all_valid(ring, old(v)@),
    ensures
        final(v)@.len() <= old(v)@.len(),
        final(v)@ == old(v)@.subrange(0, final(v)@.len() as int),
        ring_laws(ring) ==> forall|t: int|
            final(v)@.len() <= t < old(v)@.len() ==> ring.eqv(ring.model(#[trigger] old(v)@[t]), ring.zero_s()),
        ring_laws(ring) ==> trimmed(ring, models(ring, final(v)@)),
{
    let ghost original = v@;
    let zero = ring.zero();
    loop
        invariant_except_break
            ring.wf(),
            ring.valid(zero),
            original == old(v)@,
            v@ == original.subrange(0, v@.len() as int),
            v@.len() <= original.len(),
            all_valid(ring, original),
            forall|i: int|
                v@.len() <= i < original.len() ==> ring.sound() ==> #[trigger] ring.eqv(
                    ring.model(original[i]),
                    ring.model(zero),
                ),
        ensures
            ring.wf(),
            ring.valid(zero),
            original == old(v)@,
            v@ == original.subrange(0, v@.len() as int),
            v@.len() <= original.len(),
            all_valid(ring, original),
            forall|i: int|
                v@.len() <= i < original.len() ==> ring.sound() ==> #[trigger] ring.eqv(
                    ring.model(original[i]),
                    ring.model(zero),
                ),
            v@.len() > 0 ==> (ring.sound() ==> !ring.eqv(ring.model(v@[v@.len() - 1]), ring.model(zero))),
        decreases v@.len(),
    {
        let n = v.len();
        if n == 0 {
            break;
        }
        if !ring.equal(&v[n - 1], &zero) {
            break;
        }
        v.pop();
    }
    proof {
        if ring_laws(ring) {
            lemma_ring_parts(ring);
            ring.lemma_valid_member(zero);
            assert forall|t: int| v@.len() <= t < original.len() implies ring.eqv(
                ring.model(#[trigger] original[t]),
                ring.zero_s(),
            ) by {
                assert(ring.valid(original[t]));
                ring.lemma_valid_member(original[t]);
                lemma_trans(ring, ring.model(original[t]), ring.model(zero), ring.zero_s());
            }
            let len = v@.len();
            if len > 0 && ring.eqv(ring.model(v@[len - 1]), ring.zero_s()) {
                assert(ring.valid(original[len - 1]));
                ring.lemma_valid_member(original[len - 1]);
                lemma_sym(ring, ring.model(zero), ring.zero_s());
                lemma_trans(ring, ring.model(v@[len - 1]), ring.zero_s(), ring.model(zero));
            }
        }
    }
}

/// An inverse is unique up to equality.
pub proof fn lemma_inverse_unique<F: Field>(f: &F, u: F::M, y1: F::M, y2: F::M)
    requires
        field_laws(f),
        f.member(u),
        f.member(y1),
        f.member(y2),
        f.eqv(f.mul_s(u, y1), f.one_s()),
        f.eqv(f.mul_s(u, y2), f.one_s()),
    ensures
        f.eqv(y1, y2),
{
    lemma_field_parts(f);
    lemma_ring_parts(f);
    let one = f.one_s();
    crate::laws::lemma_mul_closed(f, u, y1);
    crate::laws::lemma_mul_closed(f, u, y2);
    crate::laws::lemma_mul_closed(f, y1, u);
    crate::laws::lemma_mul_closed(f, y1, f.mul_s(u, y2));
    crate::laws::lemma_mul_closed(f, f.mul_s(y1, u), y2);
    crate::laws::lemma_mul_closed(f, f.mul_s(u, y1), y2);
    crate::laws::lemma_mul_closed(f, y1, one);
    crate::laws::lemma_mul_closed(f, one, y2);
    // y1 ~ y1·1 ~ y1·(u·y2) ~ (y1·u)·y2 ~ (u·y1)·y2 ~ 1·y2 ~ y2
    crate::laws::lemma_mul_one(f, y1);
    lemma_sym(f, f.mul_s(y1, one), y1);
    lemma_refl(f, y1);
    lemma_sym(f, f.mul_s(u, y2), one);
    crate::laws::lemma_mul_congruent(f, y1, y1, one, f.mul_s(u, y2));
    crate::laws::lemma_mul_assoc(f, y1, u, y2);
    lemma_sym(f, f.mul_s(f.mul_s(y1, u), y2), f.mul_s(y1, f.mul_s(u, y2)));
    crate::laws::lemma_mul_comm(f, y1, u);
    lemma_refl(f, y2);
    crate::laws::lemma_mul_congruent(f, f.mul_s(y1, u), f.mul_s(u, y1), y2, y2);
    crate::laws::lemma_mul_congruent(f, f.mul_s(u, y1), one, y2, y2);
    crate::laws::lemma_mul_one(f, y2);
    lemma_trans(f, y1, f.mul_s(y1, one), f.mul_s(y1, f.mul_s(u, y2)));
    lemma_trans(f, y1, f.mul_s(y1, f.mul_s(u, y2)), f.mul_s(f.mul_s(y1, u), y2));
    lemma_trans(f, y1, f.mul_s(f.mul_s(y1, u), y2), f.mul_s(f.mul_s(u, y1), y2));
    lemma_trans(f, y1, f.mul_s(f.mul_s(u, y1), y2), f.mul_s(one, y2));
    lemma_trans(f, y1, f.mul_s(one, y2), y2);
}


/// The models of well-formed elements are members.
proof fn lemma_models_members<R: Ring>(r: &R, v: Seq<R::E>)
    requires
        r.wf(),
        all_valid(r, v),
    ensures
        all_members(r, models(r, v)),
{
    assert forall|i: int| 0 <= i < models(r, v).len() implies #[trigger] r.member(models(r, v)[i]) by {
        assert(r.valid(v[i]));
        r.lemma_valid_member(v[i]);
    }
}

/// `R[x]` is a Euclidean domain when `R` is a field. The unit part is the leading
/// coefficient, so canonical representatives are monic polynomials.
impl<F: Field> EuclideanDomain for Rc<PolynomialRing<F>> {
    /// One more than the degree; zero for the zero polynomial.
    open spec fn norm(&self, a: Seq<F::M>) -> nat {
        trim_len(&(**self).coeff_ring(), a)
    }

    /// A nonzero polynomial whose leading coefficient `invert` can invert, over a
    /// coefficient ring that obeys the field laws.
    open spec fn divisor_ok(&self, d: Seq<F::M>) -> bool {
        let f = (**self).coeff_ring();
        &&& f.invert_defined()
        &&& field_laws(&f)
        &&& trim_len(&f, d) > 0
        &&& f.invertible(d[trim_len(&f, d) - 1])
    }

    /// The coefficients form a field: every nonzero one can be inverted.
    open spec fn division_total(&self) -> bool {
        let f = (**self).coeff_ring();
        &&& f.invert_defined()
        &&& field_laws(&f)
        &&& complete_field(&f)
    }

    /// `a ~ q · d + r` with `r` of lower degree than `d`.
    open spec fn quotient_remainder(&self, a: Seq<F::M>, d: Seq<F::M>, q: Seq<F::M>, r: Seq<F::M>) -> bool {
        &&& self.eqv(a, self.add_s(self.mul_s(q, d), r))
        &&& trim_len(&(**self).coeff_ring(), r) < trim_len(&(**self).coeff_ring(), d)
    }

    /// The leading coefficient, as a constant polynomial; one for the zero polynomial.
    open spec fn unit_part_s(&self, a: Seq<F::M>) -> Seq<F::M> {
        let f = (**self).coeff_ring();
        let n = trim_len(&f, a);
        if n == 0 {
            seq![f.one_s()]
        } else {
            seq![a[n - 1]]
        }
    }

    /// The constant polynomial of the inverse of the constant term.
    open spec fn unit_inverse_s(&self, u: Seq<F::M>) -> Seq<F::M> {
        let f = (**self).coeff_ring();
        seq![inverse_s(&f, coeff(&f, u, 0))]
    }

    /// A polynomial whose constant term `invert` can invert.
    open spec fn unit_ok(&self, u: Seq<F::M>) -> bool {
        let f = (**self).coeff_ring();
        &&& f.invert_defined()
        &&& field_laws(&f)
        &&& u.len() >= 1
        &&& f.invertible(u[0])
    }

    proof fn lemma_divisor(&self, d: Polynomial<F>, z: Polynomial<F>) {
        let f = (**self).coeff_ring();
        let md = self.model(d);
        let mz = self.model(z);
        lemma_field_parts(&f);
        lemma_ring_parts(&f);
        self.lemma_valid_member(d);
        self.lemma_valid_member(z);
        if md.len() == 0 {
            assert forall|i: int| 0 <= i < max_len(md.len(), mz.len()) implies #[trigger] f.eqv(
                coeff(&f, md, i),
                coeff(&f, mz, i),
            ) by {
                assert(f.eqv(coeff(&f, mz, i), coeff(&f, Seq::<F::M>::empty(), i)));
                lemma_sym(&f, coeff(&f, mz, i), f.zero_s());
            }
            assert(false);
        }
        lemma_trim_len_trimmed(&f, md);
    }

    /// Polynomial long division.
    fn divide(&self, a: &Polynomial<F>, d: &Polynomial<F>) -> (qr: (Polynomial<F>, Polynomial<F>)) {
        let ghost f = (**self).coeff_ring();
        let ghost (ma, md) = (self.model(*a), self.model(*d));
        proof {
            lemma_field_parts(&f);
            lemma_ring_parts(&f);
            self.lemma_valid_member(*a);
            self.lemma_valid_member(*d);
            lemma_trim_len_trimmed(&f, md);
        }
        let ring = &self.coeff_ring;
        let m = d.coefficients.len();
        let deg_b = m - 1;
        assert(f.valid(d.coeffs()[deg_b as int]));
        let inv = match ring.invert(&d.coefficients[deg_b]) {
            Some(v) => v,
            None => {
                return (self.zero(), self.copy(a));
            },
        };
        proof {
            f.lemma_valid_member(inv);
            crate::laws::lemma_inverse(&f, md[deg_b as int], f.model(inv));
        }
        let mut r: Vec<F::E> = Vec::new();
        let n = a.coefficients.len();
        for i in 0..n
            invariant
                f == (**self).coeff_ring(),
                f == *ring,
                n == a.coeffs().len(),
                r@.len() == i,
                all_valid(&f, a.coeffs()),
                all_valid(&f, r@),
                forall|j: int| 0 <= j < i ==> #[trigger] f.model(r@[j]) == f.model(a.coeffs()[j]),
        {
            assert(f.valid(a.coeffs()[i as int]));
            let c = ring.copy(&a.coefficients[i]);
            r.push(c);
        }
        proof {
            assert(models(&f, r@) =~= ma);
            lemma_add_zero_left_all(&f, ma, md);
        }
        let mut q: Vec<F::E> = Vec::new();
        proof {
            assert(models(&f, q@) =~= Seq::<F::M>::empty());
        }
        while r.len() > deg_b
            invariant
                f == (**self).coeff_ring(),
                f == *ring,
                f.wf(),
                field_laws(&f),
                ring_laws(&f),
                m == md.len(),
                m >= 1,
                deg_b == m - 1,
                md == self.model(*d),
                ma == self.model(*a),
                all_valid(&f, d.coeffs()),
                all_members(&f, md),
                all_members(&f, ma),
                f.valid(inv),
                f.member(f.model(inv)),
                f.eqv(f.mul_s(md[deg_b as int], f.model(inv)), f.one_s()),
                all_valid(&f, r@),
                all_valid(&f, q@),
                trimmed(&f, models(&f, r@)),
                division_invariant(&f, ma, md, models(&f, q@), models(&f, r@)),
            decreases r@.len(),
        {
            let top = r.len() - 1;
            let ghost r0 = r@;
            let ghost q0 = q@;
            assert(f.valid(r0[top as int]));
            let c = ring.mul(&r[top], &inv);
            let k = top - deg_b;
            subtract_shifted(ring, &mut r, k, &c, &d.coefficients);
            let ghost r1 = r@;
            add_at(ring, &mut q, k, &c);
            r.pop();
            let ghost r2 = r@;
            trim_zeros(ring, &mut r);
            proof {
                lemma_ring_parts(&f);
                let mc = f.model(c);
                let rr0 = models(&f, r0);
                let rr1 = models(&f, r1);
                let rr3 = models(&f, r@);
                let qq0 = models(&f, q0);
                let qq1 = models(&f, q@);
                let ti = top as int;
                let ki = k as int;
                lemma_models_members(&f, r0);
                lemma_models_members(&f, r1);
                lemma_models_members(&f, r@);
                lemma_models_members(&f, q0);
                lemma_models_members(&f, q@);
                f.lemma_valid_member(c);
                f.lemma_valid_member(r0[ti]);
                // the leading coefficient cancels
                assert(k <= top && top < k + d.coefficients@.len());
                assert(f.eqv(f.model(r1[ti]), f.sub_s(rr0[ti], f.mul_s(mc, md[ti - ki]))));
                assert(ti - ki == deg_b);
                lemma_cancel_lead(&f, rr0[ti], f.model(inv), md[deg_b as int], mc);
                crate::laws::lemma_mul_closed(&f, mc, md[deg_b as int]);
                lemma_refl(&f, rr0[ti]);
                crate::laws::lemma_sub_congruent(&f, rr0[ti], rr0[ti], f.mul_s(mc, md[deg_b as int]), rr0[ti]);
                crate::laws::lemma_sub_self(&f, rr0[ti]);
                crate::laws::lemma_sub_closed(&f, rr0[ti], f.mul_s(mc, md[deg_b as int]));
                crate::laws::lemma_sub_closed(&f, rr0[ti], rr0[ti]);
                lemma_trans(&f, rr1[ti], f.sub_s(rr0[ti], f.mul_s(mc, md[deg_b as int])), f.sub_s(rr0[ti], rr0[ti]));
                lemma_trans(&f, rr1[ti], f.sub_s(rr0[ti], rr0[ti]), f.zero_s());
                // what the subtraction did, on models
                assert forall|t: int| 0 <= t < rr1.len() implies (if ki <= t < ki + md.len() {
                    f.eqv(#[trigger] rr1[t], f.sub_s(rr0[t], f.mul_s(mc, md[t - ki])))
                } else {
                    rr1[t] == rr0[t]
                }) by {
                    assert(0 <= t < r1.len());
                    if ki <= t && t < ki + d.coefficients@.len() {
                        assert(f.eqv(f.model(r1[t]), f.sub_s(f.model(r0[t]), f.mul_s(mc, f.model(d.coefficients@[t - ki])))));
                    } else {
                        assert(r1[t] == r0[t]);
                    }
                }
                // what adding at k did, on models
                assert forall|i: int| 0 <= i < qq1.len() && i != ki implies f.eqv(
                    #[trigger] coeff(&f, qq1, i),
                    coeff(&f, qq0, i),
                ) by {
                    if i < q0.len() {
                        assert(q@[i] == q0[i]);
                        lemma_refl(&f, qq0[i]);
                    } else {
                        assert(f.eqv(f.model(q@[i]), f.zero_s()));
                    }
                }
                // what the trimming left
                assert forall|t: int| 0 <= t < rr3.len() implies #[trigger] rr3[t] == rr1[t] by {
                    assert(r@[t] == r2[t]);
                    assert(r2[t] == r1[t]);
                }
                assert forall|t: int| rr3.len() <= t < rr1.len() implies f.eqv(#[trigger] rr1[t], f.zero_s()) by {
                    if t < ti {
                        assert(r2[t] == r1[t]);
                        assert(f.eqv(f.model(r2[t]), f.zero_s()));
                    }
                }
                lemma_division_step(&f, ma, md, qq0, rr0, qq1, rr1, rr3, mc, ki);
            }
        }
        let ghost qv = models(&f, q@);
        let ghost rv = models(&f, r@);
        proof {
            lemma_models_members(&f, q@);
            lemma_models_members(&f, r@);
        }
        let qe = self.element(q);
        let re = self.element(r);
        proof {
            let mq = self.model(qe);
            let mr = self.model(re);
            self.lemma_valid_member(qe);
            self.lemma_valid_member(re);
            let x = poly_mul(&f, mq, md);
            let sum = poly_add(&f, x, mr);
            assert forall|i: int| 0 <= i < x.len() implies #[trigger] f.member(x[i]) by {
                lemma_conv_member(&f, mq, md, i, mq.len());
            }
            assert forall|i: int| 0 <= i < sum.len() implies #[trigger] f.member(sum[i]) by {
                lemma_coeff_member(&f, x, i);
                lemma_coeff_member(&f, mr, i);
                crate::laws::lemma_add_closed(&f, coeff(&f, x, i), coeff(&f, mr, i));
            }
            assert forall|t: int| 0 <= t < max_len(ma.len(), sum.len()) implies #[trigger] f.eqv(
                coeff(&f, ma, t),
                coeff(&f, sum, t),
            ) by {
                lemma_poly_add_coeff(&f, x, mr, t);
                lemma_mul_coeff(&f, mq, md, t);
                lemma_conv_same(&f, mq, qv, md, t);
                assert(f.eqv(coeff(&f, mr, t), coeff(&f, rv, t))) by {
                    if t >= max_len(mr.len(), rv.len()) {
                        lemma_refl(&f, f.zero_s());
                    }
                }
                lemma_coeff_member(&f, mr, t);
                lemma_coeff_member(&f, rv, t);
                lemma_coeff_member(&f, x, t);
                lemma_coeff_member(&f, ma, t);
                lemma_coeff_member(&f, sum, t);
                lemma_conv_member(&f, qv, md, t, qv.len());
                lemma_conv_member(&f, mq, md, t, mq.len());
                crate::laws::lemma_add_closed(&f, coeff(&f, x, t), coeff(&f, mr, t));
                crate::laws::lemma_add_closed(&f, conv(&f, qv, md, t, qv.len()), coeff(&f, rv, t));
                crate::laws::lemma_add_congruent(
                    &f,
                    coeff(&f, x, t),
                    conv(&f, qv, md, t, qv.len()),
                    coeff(&f, mr, t),
                    coeff(&f, rv, t),
                );
                assert(f.eqv(coeff(&f, ma, t), f.add_s(conv(&f, qv, md, t, qv.len()), coeff(&f, rv, t))));
                lemma_sym(&f, coeff(&f, sum, t), f.add_s(coeff(&f, x, t), coeff(&f, mr, t)));
                lemma_sym(&f, f.add_s(coeff(&f, x, t), coeff(&f, mr, t)), f.add_s(conv(&f, qv, md, t, qv.len()), coeff(&f, rv, t)));
                lemma_trans(
                    &f,
                    coeff(&f, ma, t),
                    f.add_s(conv(&f, qv, md, t, qv.len()), coeff(&f, rv, t)),
                    f.add_s(coeff(&f, x, t), coeff(&f, mr, t)),
                );
                lemma_trans(&f, coeff(&f, ma, t), f.add_s(coeff(&f, x, t), coeff(&f, mr, t)), coeff(&f, sum, t));
            }
            lemma_trim_len_trimmed(&f, mr);
            lemma_trimmed_shorter(&f, mr, rv);
        }
        (qe, re)
    }

    fn unit_part(&self, x: &Polynomial<F>) -> (u: Polynomial<F>) {
        let ghost f = (**self).coeff_ring();
        let ghost mx = self.model(*x);
        let n = x.coefficients.len();
        let lead = if n == 0 {
            self.coeff_ring.identity()
        } else {
            assert(f.valid(x.coeffs()[n - 1]));
            self.coeff_ring.copy(&x.coefficients[n - 1])
        };
        let mut v: Vec<F::E> = Vec::new();
        v.push(lead);
        let ghost vv = v@;
        let u = self.element(v);
        proof {
            let ml = f.model(lead);
            if self.sound() {
                lemma_ring_parts(&f);
                self.lemma_valid_member(*x);
                self.lemma_valid_member(u);
                f.lemma_valid_member(lead);
                lemma_trim_len_trimmed(&f, mx);
                lemma_models_members(&f, vv);
                let target = self.unit_part_s(mx);
                if n == 0 {
                    assert(f.eqv(ml, f.one_s()));
                } else {
                    assert(ml == mx[n - 1]);
                    lemma_refl(&f, ml);
                }
                assert(f.eqv(models(&f, vv)[0], target[0]));
                lemma_result_coefficients(&f, self.model(u), models(&f, vv), target);
            }
            if self.division_total() {
                lemma_field_parts(&f);
                lemma_ring_parts(&f);
                let mu = self.model(u);
                assert(models(&f, vv)[0] == ml);
                // the lead is not zero
                if f.eqv(ml, f.zero_s()) {
                    if n == 0 {
                        lemma_sym(&f, ml, f.one_s());
                        lemma_trans(&f, f.one_s(), ml, f.zero_s());
                    }
                }
                assert(!f.eqv(ml, f.zero_s()));
                assert(f.eqv(coeff(&f, mu, 0), coeff(&f, models(&f, vv), 0)));
                if mu.len() == 0 {
                    lemma_sym(&f, f.zero_s(), ml);
                }
                lemma_trimmed_shorter(&f, mu, models(&f, vv));
                if f.eqv(mu[0], f.zero_s()) {
                    lemma_sym(&f, mu[0], ml);
                    lemma_trans(&f, ml, mu[0], f.zero_s());
                }
            }
        }
        u
    }

    fn unit_inverse(&self, u: &Polynomial<F>) -> (v: Polynomial<F>) {
        let ghost f = (**self).coeff_ring();
        let ghost mu = self.model(*u);
        proof {
            lemma_field_parts(&f);
            lemma_ring_parts(&f);
            self.lemma_valid_member(*u);
        }
        assert(f.valid(u.coeffs()[0]));
        let inv = match self.coeff_ring.invert(&u.coefficients[0]) {
            Some(y) => y,
            None => {
                return self.identity();
            },
        };
        let mut w: Vec<F::E> = Vec::new();
        w.push(inv);
        let ghost ww = w@;
        let v = self.element(w);
        proof {
            f.lemma_valid_member(inv);
            self.lemma_valid_member(v);
            lemma_models_members(&f, ww);
            crate::laws::lemma_inverse(&f, mu[0], f.model(inv));
            let y = inverse_s(&f, coeff(&f, mu, 0));
            assert(f.member(f.model(inv)) && f.eqv(f.mul_s(coeff(&f, mu, 0), f.model(inv)), f.one_s()));
            lemma_inverse_unique(&f, mu[0], f.model(inv), y);
            let target = self.unit_inverse_s(mu);
            assert(f.eqv(models(&f, ww)[0], target[0]));
            lemma_result_coefficients(&f, self.model(v), models(&f, ww), target);
        }
        v
    }
}

/// Polynomial long division, on the elements themselves.
impl<F: Field> DivRem for Polynomial<F> {
    open spec fn can_divide_by(&self, divisor: Polynomial<F>) -> bool {
        &&& self.handle().wf()
        &&& self.handle().valid(*self)
        &&& self.handle().valid(divisor)
        &&& self.handle().divisor_ok(self.handle().model(divisor))
    }

    open spec fn is_quotient_remainder(&self, divisor: Polynomial<F>, q: Polynomial<F>, r: Polynomial<F>) -> bool {
        &&& self.handle().valid(q)
        &&& self.handle().valid(r)
        &&& self.handle().sound() ==> self.handle().quotient_remainder(
            self.handle().model(*self),
            self.handle().model(divisor),
            self.handle().model(q),
            self.handle().model(r),
        )
    }

    fn div_rem(&self, divisor: &Polynomial<F>) -> (qr: (Polynomial<F>, Polynomial<F>)) {
        self.ring.divide(self, divisor)
    }
}

/// Before any division step, `a ~ 0 · d + a`.
pub proof fn lemma_add_zero_left_all<R: Ring>(r: &R, a: Seq<R::M>, d: Seq<R::M>)
    requires
        ring_laws(r),
        all_members(r, a),
    ensures
        division_invariant(r, a, d, Seq::empty(), a),
{
    lemma_ring_parts(r);
    assert forall|t: int| 0 <= t implies r.eqv(
        #[trigger] coeff(r, a, t),
        r.add_s(conv(r, Seq::<R::M>::empty(), d, t, 0), coeff(r, a, t)),
    ) by {
        lemma_coeff_member(r, a, t);
        crate::laws::lemma_add_zero(r, coeff(r, a, t));
        crate::laws::lemma_add_closed(r, r.zero_s(), coeff(r, a, t));
        lemma_sym(r, r.add_s(r.zero_s(), coeff(r, a, t)), coeff(r, a, t));
    }
}


/// Convolution sums respect equality of the right factor.
proof fn lemma_conv_same_right<R: Ring>(r: &R, a: Seq<R::M>, b1: Seq<R::M>, b2: Seq<R::M>, k: int, t: nat)
    requires
        ring_laws(r),
        all_members(r, a),
        all_members(r, b1),
        all_members(r, b2),
        same_coefficients(r, b1, b2),
    ensures
        r.eqv(conv(r, a, b1, k, t), conv(r, a, b2, k, t)),
    decreases t,
{
    lemma_ring_parts(r);
    let z = r.zero_s();
    if t == 0 {
        lemma_refl(r, z);
    } else {
        let i = t - 1;
        let p1 = conv(r, a, b1, k, (t - 1) as nat);
        let p2 = conv(r, a, b2, k, (t - 1) as nat);
        lemma_conv_same_right(r, a, b1, b2, k, (t - 1) as nat);
        lemma_conv_member(r, a, b1, k, (t - 1) as nat);
        lemma_conv_member(r, a, b2, k, (t - 1) as nat);
        let x = coeff(r, a, i);
        lemma_coeff_member(r, a, i);
        let j = k - i;
        let in1 = 0 <= j < b1.len();
        let in2 = 0 <= j < b2.len();
        if in1 || in2 {
            assert(r.eqv(coeff(r, b1, j), coeff(r, b2, j)));
            lemma_coeff_member(r, b1, j);
            lemma_coeff_member(r, b2, j);
            lemma_refl(r, x);
            crate::laws::lemma_mul_congruent(r, x, x, coeff(r, b1, j), coeff(r, b2, j));
            crate::laws::lemma_mul_closed(r, x, coeff(r, b1, j));
            crate::laws::lemma_mul_closed(r, x, coeff(r, b2, j));
            crate::laws::lemma_mul_zero(r, x);
            crate::laws::lemma_mul_closed(r, x, z);
            crate::laws::lemma_add_zero(r, p1);
            crate::laws::lemma_add_zero(r, p2);
            crate::laws::lemma_add_closed(r, p1, r.mul_s(x, coeff(r, b1, j)));
            crate::laws::lemma_add_closed(r, p2, r.mul_s(x, coeff(r, b2, j)));
            crate::laws::lemma_add_congruent(r, p1, p2, r.mul_s(x, coeff(r, b1, j)), r.mul_s(x, coeff(r, b2, j)));
            if in1 && in2 {
            } else if in1 {
                // b2 has no coefficient there: its term is x · 0 ~ 0
                crate::laws::lemma_add_closed(r, p2, z);
                lemma_refl(r, p2);
                crate::laws::lemma_add_congruent(r, p2, p2, r.mul_s(x, z), z);
                lemma_trans(r, r.add_s(p1, r.mul_s(x, coeff(r, b1, j))), r.add_s(p2, r.mul_s(x, z)), r.add_s(p2, z));
                lemma_trans(r, r.add_s(p1, r.mul_s(x, coeff(r, b1, j))), r.add_s(p2, z), p2);
            } else {
                crate::laws::lemma_add_closed(r, p1, z);
                lemma_refl(r, p1);
                crate::laws::lemma_add_congruent(r, p1, p1, r.mul_s(x, z), z);
                lemma_trans(r, r.add_s(p1, r.mul_s(x, z)), r.add_s(p1, z), p1);
                lemma_sym(r, r.add_s(p1, r.mul_s(x, z)), p1);
                lemma_trans(r, p1, r.add_s(p1, r.mul_s(x, z)), r.add_s(p2, r.mul_s(x, coeff(r, b2, j))));
            }
        }
    }
}

/// Multiplication of polynomials respects their equality.
pub proof fn lemma_poly_mul_congruent<R: Ring>(
    r: &R,
    a1: Seq<R::M>,
    a2: Seq<R::M>,
    b1: Seq<R::M>,
    b2: Seq<R::M>,
)
    requires
        ring_laws(r),
        all_members(r, a1),
        all_members(r, a2),
        all_members(r, b1),
        all_members(r, b2),
        same_coefficients(r, a1, a2),
        same_coefficients(r, b1, b2),
    ensures
        same_coefficients(r, poly_mul(r, a1, b1), poly_mul(r, a2, b2)),
{
    lemma_ring_parts(r);
    let m1 = poly_mul(r, a1, b1);
    let m2 = poly_mul(r, a2, b2);
    assert forall|t: int| 0 <= t < max_len(m1.len(), m2.len()) implies #[trigger] r.eqv(
        coeff(r, m1, t),
        coeff(r, m2, t),
    ) by {
        lemma_mul_coeff(r, a1, b1, t);
        lemma_mul_coeff(r, a2, b2, t);
        lemma_conv_same(r, a1, a2, b1, t);
        lemma_conv_same_right(r, a2, b1, b2, t, a2.len());
        lemma_conv_member(r, a1, b1, t, a1.len());
        lemma_conv_member(r, a2, b1, t, a2.len());
        lemma_conv_member(r, a2, b2, t, a2.len());
        lemma_trans(r, conv(r, a1, b1, t, a1.len()), conv(r, a2, b1, t, a2.len()), conv(r, a2, b2, t, a2.len()));
    }
}

/// Addition of polynomials respects their equality.
pub proof fn lemma_poly_add_congruent<R: Ring>(
    r: &R,
    a1: Seq<R::M>,
    a2: Seq<R::M>,
    b1: Seq<R::M>,
    b2: Seq<R::M>,
)
    requires
        ring_laws(r),
        all_members(r, a1),
        all_members(r, a2),
        all_members(r, b1),
        all_members(r, b2),
        same_coefficients(r, a1, a2),
        same_coefficients(r, b1, b2),
    ensures
        same_coefficients(r, poly_add(r, a1, b1), poly_add(r, a2, b2)),
{
    lemma_ring_parts(r);
    let s1 = poly_add(r, a1, b1);
    let s2 = poly_add(r, a2, b2);
    assert forall|t: int| 0 <= t < max_len(s1.len(), s2.len()) implies #[trigger] r.eqv(
        coeff(r, s1, t),
        coeff(r, s2, t),
    ) by {
        lemma_poly_add_coeff(r, a1, b1, t);
        lemma_poly_add_coeff(r, a2, b2, t);
        lemma_coeff_member(r, a1, t);
        lemma_coeff_member(r, a2, t);
        lemma_coeff_member(r, b1, t);
        lemma_coeff_member(r, b2, t);
        crate::laws::lemma_add_closed(r, coeff(r, a1, t), coeff(r, b1, t));
        crate::laws::lemma_add_closed(r, coeff(r, a2, t), coeff(r, b2, t));
        assert(r.eqv(coeff(r, a1, t), coeff(r, a2, t))) by {
            if t >= max_len(a1.len(), a2.len()) {
                lemma_refl(r, r.zero_s());
            }
        }
        assert(r.eqv(coeff(r, b1, t), coeff(r, b2, t))) by {
            if t >= max_len(b1.len(), b2.len()) {
                lemma_refl(r, r.zero_s());
            }
        }
        crate::laws::lemma_add_step(r, coeff(r, s1, t), coeff(r, a1, t), coeff(r, b1, t), coeff(r, a2, t), coeff(r, b2, t));
        lemma_sym(r, coeff(r, s2, t), r.add_s(coeff(r, a2, t), coeff(r, b2, t)));
        lemma_trans(r, coeff(r, s1, t), r.add_s(coeff(r, a2, t), coeff(r, b2, t)), coeff(r, s2, t));
    }
}

/// The constructions over a ring: polynomials, square matrices and multivariate
/// polynomials with entries in it.
pub trait RingExt: Ring + DecidableEq {
    /// `R[x]`; `R[x].polynomials()` is `R[x][y]`.
    fn polynomials(&self) -> (r: Rc<PolynomialRing<Self>>)
        ensures
            r.coeff_ring() == *self,
    ;

    /// The ring of `n × n` matrices over this ring.
    fn matrices(&self, n: usize) -> (r: Rc<MatrixRing<Self>>)
        ensures
            r.base_s() == *self,
            r.dimension_s() == n,
    ;

    /// `R[x_0, .., x_{n-1}]`.
    fn multi_polynomials(&self, n: usize) -> (r: Rc<MultivariatePolynomialRing<Self>>)
        ensures
            r.coeff_ring() == *self,
            r.arity() == n,
    ;
}

impl<R: Ring + DecidableEq> RingExt for R {
    fn polynomials(&self) -> (r: Rc<PolynomialRing<R>>) {
        PolynomialRing::new(self.duplicate())
    }

    fn matrices(&self, n: usize) -> (r: Rc<MatrixRing<R>>) {
        MatrixRing::new(self.duplicate(), n)
    }

    fn multi_polynomials(&self, n: usize) -> (r: Rc<MultivariatePolynomialRing<R>>) {
        MultivariatePolynomialRing::new(self.duplicate(), n)
    }
}

/// What follows the coefficient of `x^k`: nothing, `*x`, or `*x^{k}`.
pub open spec fn power_suffix(k: nat) -> Seq<char> {
    if k == 0 {
        Seq::empty()
    } else if k == 1 {
        seq!['*', 'x']
    } else {
        seq!['*', 'x', '^', '{'] + decimal_digits(k) + seq!['}']
    }
}

/// The first `t` terms of a polynomial with coefficients `cs`, joined by ` + `.
pub open spec fn polynomial_terms<R: Render>(r: &R, cs: Seq<R::E>, t: nat) -> Seq<char>
    decreases t,
{
    if t == 0 {
        Seq::empty()
    } else {
        polynomial_terms(r, cs, (t - 1) as nat) + (if t > 1 {
            seq![' ', '+', ' ']
        } else {
            Seq::empty()
        }) + bracketed(r.text(cs[t - 1])) + power_suffix((t - 1) as nat)
    }
}

/// The text of a polynomial: `0`, or its terms in increasing degree.
pub open spec fn polynomial_text<R: Render>(r: &R, cs: Seq<R::E>) -> Seq<char> {
    if cs.len() == 0 {
        seq!['0']
    } else {
        polynomial_terms(r, cs, cs.len())
    }
}

impl<R: Ring + DecidableEq + Render> Polynomial<R> {
    /// The text of this polynomial, as `Display` prints it: `1 + 2*x + 3*x^{2}`, with
    /// a coefficient that holds a space in brackets.
    pub fn to_string(&self) -> (r: String)
        requires
            self.handle().wf(),
            self.handle().valid(*self),
        ensures
            r@ == polynomial_text(&(*self.handle()).coeff_ring(), self.coeffs()),
    {
        let ghost c = (*self.handle()).coeff_ring();
        let ring = &self.ring.coeff_ring;
        let mut s = String::new();
        let n = self.coefficients.len();
        if n == 0 {
            append_zero_digit(&mut s);
            return s;
        }
        for i in 0..n
            invariant
                c == *ring,
                c.wf(),
                n == self.coeffs().len(),
                all_valid(&c, self.coeffs()),
                s@ == polynomial_terms(&c, self.coeffs(), i as nat),
        {
            if i > 0 {
                append_plus(&mut s);
            }
            assert(c.valid(self.coeffs()[i as int]));
            let text = ring.render(&self.coefficients[i]);
            append_bracketed(&mut s, &text);
            if i == 1 {
                append_times_x(&mut s);
            } else if i > 1 {
                append_times_x(&mut s);
                append_power_open(&mut s);
                proof {
                    assert(seq!['*', 'x'] + seq!['^', '{'] =~= seq!['*', 'x', '^', '{']);
                }
                append_decimal(&mut s, i as u64);
                append_brace_close(&mut s);
            }
            proof {
                let prev = polynomial_terms(&c, self.coeffs(), i as nat);
                let sep: Seq<char> = if i > 0 { seq![' ', '+', ' '] } else { Seq::empty() };
                let term = bracketed(c.text(self.coeffs()[i as int]));
                assert(s@ =~= prev + sep + term + power_suffix(i as nat));
            }
        }
        s
    }
}

impl<R: Ring + DecidableEq + Render> Render for Rc<PolynomialRing<R>> {
    open spec fn text(&self, x: Polynomial<R>) -> Seq<char> {
        polynomial_text(&(**self).coeff_ring(), x.coeffs())
    }

    fn render(&self, x: &Polynomial<R>) -> (r: String) {
        x.to_string()
    }
}

} // verus!
