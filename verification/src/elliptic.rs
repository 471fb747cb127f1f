//! Elliptic curves in short Weierstrass form, `y^2 = x^3 + ax + b`.
//!
//! The points carry the chord-and-tangent law, with the point at infinity as the
//! identity. The base field must not have characteristic 2 or 3, which this form
//! assumes.
//!
//! No pairings: they need extension field towers this crate does not build yet.

use crate::integers::Integer;
use crate::laws::{
    field_laws, has_inverse, integer_image, lemma_add_step, lemma_field_parts,
    lemma_image_member, lemma_invertible, lemma_mul_step, lemma_refl, lemma_ring_parts,
    lemma_sub_step, lemma_sym, lemma_trans, ring_laws, inverse_s,
};
use crate::pow::{lemma_power_member, pow, power};
use crate::elliptic_laws::{lemma_chord_tangent_congruent, lemma_ladder_congruent, lemma_pair_sym_trans};
use crate::quotient::share;
use crate::text::{append_comma, append_letter_o, append_paren_close, append_paren_open, Render};
use crate::structures::{
    AdditiveGroup, CommutativeMonoid, DecidableEq, Domain, Field, FromInteger,
    Monoid, Semigroup,
};
use std::rc::Rc;
use vstd::arithmetic::div_mod::lemma_fundamental_div_mod;
use vstd::prelude::*;

verus! {

/// `-16(4a^3 + 27b^2)`, zero exactly when the curve is singular.
pub open spec fn discriminant_s<F: Field>(f: &F, a: F::M, b: F::M) -> F::M {
    f.sub_s(
        f.zero_s(),
        f.mul_s(
            integer_image(f, 16),
            f.add_s(
                f.mul_s(integer_image(f, 4), power(f, a, 3)),
                f.mul_s(integer_image(f, 27), power(f, b, 2)),
            ),
        ),
    )
}

/// `x^3 + ax + b`, computed as `(x·x)·x + a·x + b`.
pub open spec fn curve_rhs<F: Field>(f: &F, a: F::M, b: F::M, x: F::M) -> F::M {
    f.add_s(f.add_s(f.mul_s(f.mul_s(x, x), x), f.mul_s(a, x)), b)
}

/// The right-hand side of the curve equation is a member.
pub proof fn lemma_rhs_member<F: Field>(f: &F, a: F::M, b: F::M, x: F::M)
    requires
        ring_laws(f),
        f.member(a),
        f.member(b),
        f.member(x),
    ensures
        f.member(curve_rhs(f, a, b, x)),
{
    lemma_ring_parts(f);
    crate::laws::lemma_mul_closed(f, x, x);
    crate::laws::lemma_mul_closed(f, f.mul_s(x, x), x);
    crate::laws::lemma_mul_closed(f, a, x);
    crate::laws::lemma_add_closed(f, f.mul_s(f.mul_s(x, x), x), f.mul_s(a, x));
    crate::laws::lemma_add_closed(f, f.add_s(f.mul_s(f.mul_s(x, x), x), f.mul_s(a, x)), b);
}

/// `(x, y)` satisfies `y^2 = x^3 + ax + b`.
pub open spec fn on_curve<F: Field>(f: &F, a: F::M, b: F::M, x: F::M, y: F::M) -> bool {
    f.eqv(f.mul_s(y, y), curve_rhs(f, a, b, x))
}

/// The third point of the line of slope `s` through `(px, py)` and a point with x
/// coordinate `qx`, reflected in the x axis.
pub open spec fn third_point<F: Field>(f: &F, px: F::M, py: F::M, qx: F::M, s: F::M) -> (F::M, F::M) {
    let rx = f.sub_s(f.sub_s(f.mul_s(s, s), px), qx);
    (rx, f.sub_s(f.mul_s(s, f.sub_s(px, rx)), py))
}

/// The sum along the line of slope `num / den`, or the point at infinity when `den`
/// has no inverse.
pub open spec fn through<F: Field>(
    f: &F,
    px: F::M,
    py: F::M,
    qx: F::M,
    num: F::M,
    den: F::M,
) -> Option<(F::M, F::M)> {
    if has_inverse(f, den) {
        Some(third_point(f, px, py, qx, f.mul_s(num, inverse_s(f, den))))
    } else {
        None
    }
}

/// The chord-and-tangent law on the curve with coefficient `a`.
pub open spec fn chord_tangent<F: Field>(
    f: &F,
    a: F::M,
    p: Option<(F::M, F::M)>,
    q: Option<(F::M, F::M)>,
) -> Option<(F::M, F::M)> {
    match p {
        None => q,
        Some((px, py)) => match q {
            None => p,
            Some((qx, qy)) => if f.eqv(px, qx) {
                // Vertical line: the points are inverse, so the sum is the identity.
                if f.eqv(f.add_s(py, qy), f.zero_s()) {
                    None
                } else {
                    // Tangent at p: slope (3x^2 + a) / 2y.
                    through(
                        f,
                        px,
                        py,
                        qx,
                        f.add_s(f.mul_s(f.mul_s(integer_image(f, 3), px), px), a),
                        f.mul_s(integer_image(f, 2), py),
                    )
                }
            } else {
                through(f, px, py, qx, f.sub_s(qy, py), f.sub_s(qx, px))
            },
        },
    }
}

/// The negation `(x, y) ↦ (x, -y)`; the point at infinity is its own negation.
pub open spec fn negate<F: Field>(f: &F, p: Option<(F::M, F::M)>) -> Option<(F::M, F::M)> {
    match p {
        None => None,
        Some((x, y)) => Some((x, f.sub_s(f.zero_s(), y))),
    }
}

/// Double-and-add on the chord-and-tangent law, as `Curve::multiply` runs it: the
/// running sum `acc` plus `m` times `addend`, the bits of `m` taken from the lowest,
/// doubling the addend between bits.
pub open spec fn ladder<F: Field>(
    f: &F,
    a: F::M,
    acc: Option<(F::M, F::M)>,
    addend: Option<(F::M, F::M)>,
    m: nat,
) -> Option<(F::M, F::M)>
    decreases m,
{
    if m == 0 {
        acc
    } else {
        let next = if m % 2 == 1 {
            chord_tangent(f, a, acc, addend)
        } else {
            acc
        };
        if m / 2 == 0 {
            next
        } else {
            ladder(f, a, next, chord_tangent(f, a, addend, addend), m / 2)
        }
    }
}

/// `n · p` on the curve with coefficient `a`, by double-and-add from the point at
/// infinity; a negative `n` negates `|n| · p`.
pub open spec fn curve_multiple<F: Field>(f: &F, a: F::M, n: int, p: Option<(F::M, F::M)>) -> Option<(F::M, F::M)> {
    if n < 0 {
        negate(f, ladder(f, a, None, p, (-n) as nat))
    } else {
        ladder(f, a, None, p, n as nat)
    }
}

/// The negation of a pair of members is one.
pub proof fn lemma_negate_member<F: Field>(f: &F, p: Option<(F::M, F::M)>)
    requires
        field_laws(f),
        pair_member(f, p),
    ensures
        pair_member(f, negate(f, p)),
{
    lemma_field_parts(f);
    lemma_ring_parts(f);
    if let Some((x, y)) = p {
        crate::laws::lemma_sub_closed(f, f.zero_s(), y);
    }
}

/// Negation respects equality of points.
pub proof fn lemma_negate_congruent<F: Field>(f: &F, p: Option<(F::M, F::M)>, q: Option<(F::M, F::M)>)
    requires
        field_laws(f),
        pair_member(f, p),
        pair_member(f, q),
        pair_eqv(f, p, q),
    ensures
        pair_eqv(f, negate(f, p), negate(f, q)),
{
    lemma_field_parts(f);
    lemma_ring_parts(f);
    if let Some((x, y)) = p {
        let (x2, y2) = q->0;
        lemma_refl(f, f.zero_s());
        crate::laws::lemma_sub_congruent(f, f.zero_s(), f.zero_s(), y, y2);
    }
}

/// The curve `y^2 = x^3 + ax + b` over a field.
pub struct Curve<F: Field> {
    field: F,
    a: F::E,
    b: F::E,
}

/// A point on a curve, or the point at infinity.
pub struct Point<F: Field> {
    /// `None` is the point at infinity.
    coordinates: Option<(F::E, F::E)>,
    curve: Rc<Curve<F>>,
}

impl<F: Field> Curve<F> {
    /// The base field.
    pub closed spec fn field_s(&self) -> F {
        self.field
    }

    /// The coefficient `a`.
    pub closed spec fn a_s(&self) -> F::E {
        self.a
    }

    /// The coefficient `b`.
    pub closed spec fn b_s(&self) -> F::E {
        self.b
    }

    /// The field is well formed and holds both coefficients.
    pub open spec fn well_formed(&self) -> bool {
        &&& self.field_s().wf()
        &&& self.field_s().valid(self.a_s())
        &&& self.field_s().valid(self.b_s())
    }

    /// The model of `a`.
    pub open spec fn a_model(&self) -> F::M {
        self.field_s().model(self.a_s())
    }

    /// The model of `b`.
    pub open spec fn b_model(&self) -> F::M {
        self.field_s().model(self.b_s())
    }

    /// The curve `y^2 = x^3 + ax + b`, or `None` if it is singular.
    pub fn new(field: F, a: F::E, b: F::E) -> (r: Option<Rc<Self>>)
        requires
            field.wf(),
            field.valid(a),
            field.valid(b),
        ensures
            ring_laws(&field) ==> (r is Some <==> !field.eqv(
                discriminant_s(&field, field.model(a), field.model(b)),
                field.zero_s(),
            )),
            r matches Some(c) ==> c.field_s() == field && c.a_s() == a && c.b_s() == b,
    {
        let curve = Curve { field, a, b };
        let d = curve.discriminant();
        let z = curve.field.zero();
        let singular = curve.field.equal(&d, &z);
        proof {
            if ring_laws(&field) {
                lemma_ring_parts(&field);
                field.lemma_valid_member(d);
                field.lemma_valid_member(z);
                lemma_image_member(&field, 16);
                lemma_image_member(&field, 4);
                lemma_image_member(&field, 27);
                field.lemma_valid_member(curve.a);
                field.lemma_valid_member(curve.b);
                lemma_power_member(&field, field.model(a), 3);
                lemma_power_member(&field, field.model(b), 2);
                crate::laws::lemma_mul_closed(&field, integer_image(&field, 4), power(&field, field.model(a), 3));
                crate::laws::lemma_mul_closed(&field, integer_image(&field, 27), power(&field, field.model(b), 2));
                crate::laws::lemma_add_closed(
                    &field,
                    field.mul_s(integer_image(&field, 4), power(&field, field.model(a), 3)),
                    field.mul_s(integer_image(&field, 27), power(&field, field.model(b), 2)),
                );
                let ds = discriminant_s(&field, field.model(a), field.model(b));
                crate::laws::lemma_mul_closed(
                    &field,
                    integer_image(&field, 16),
                    field.add_s(
                        field.mul_s(integer_image(&field, 4), power(&field, field.model(a), 3)),
                        field.mul_s(integer_image(&field, 27), power(&field, field.model(b), 2)),
                    ),
                );
                crate::laws::lemma_sub_closed(
                    &field,
                    field.zero_s(),
                    field.mul_s(
                        integer_image(&field, 16),
                        field.add_s(
                            field.mul_s(integer_image(&field, 4), power(&field, field.model(a), 3)),
                            field.mul_s(integer_image(&field, 27), power(&field, field.model(b), 2)),
                        ),
                    ),
                );
                lemma_sym(&field, field.model(z), field.zero_s());
                if singular {
                    lemma_sym(&field, field.model(d), ds);
                    lemma_trans(&field, ds, field.model(d), field.model(z));
                    lemma_trans(&field, ds, field.model(z), field.zero_s());
                }
                if field.eqv(ds, field.zero_s()) {
                    lemma_trans(&field, field.model(d), ds, field.zero_s());
                    lemma_trans(&field, field.model(d), field.zero_s(), field.model(z));
                }
            }
        }
        if singular {
            None
        } else {
            Some(Rc::new(curve))
        }
    }

    /// `-16(4a^3 + 27b^2)`, zero exactly when the curve is singular.
    pub fn discriminant(&self) -> (r: F::E)
        requires
            self.well_formed(),
        ensures
            self.field_s().valid(r),
            ring_laws(&self.field_s()) ==> self.field_s().eqv(
                self.field_s().model(r),
                discriminant_s(&self.field_s(), self.a_model(), self.b_model()),
            ),
    {
        let f = &self.field;
        let four = f.from_integer(&Integer::from_i64(4));
        let a3 = pow(f, &self.a, &Integer::from_i64(3));
        let t1 = f.mul(&four, &a3);
        let twenty_seven = f.from_integer(&Integer::from_i64(27));
        let b2 = pow(f, &self.b, &Integer::from_i64(2));
        let t2 = f.mul(&twenty_seven, &b2);
        let inner = f.add(&t1, &t2);
        let sixteen = f.from_integer(&Integer::from_i64(16));
        let product = f.mul(&sixteen, &inner);
        let zero = f.zero();
        let r = f.sub(&zero, &product);
        proof {
            if ring_laws(f) {
                lemma_ring_parts(f);
                f.lemma_valid_member(four);
                f.lemma_valid_member(a3);
                f.lemma_valid_member(t1);
                f.lemma_valid_member(twenty_seven);
                f.lemma_valid_member(b2);
                f.lemma_valid_member(t2);
                f.lemma_valid_member(inner);
                f.lemma_valid_member(sixteen);
                f.lemma_valid_member(product);
                f.lemma_valid_member(zero);
                f.lemma_valid_member(r);
                f.lemma_valid_member(self.a);
                f.lemma_valid_member(self.b);
                lemma_image_member(f, 4);
                lemma_image_member(f, 27);
                lemma_image_member(f, 16);
                lemma_power_member(f, self.a_model(), 3);
                lemma_power_member(f, self.b_model(), 2);
                lemma_mul_step(f, f.model(t1), f.model(four), f.model(a3), integer_image(f, 4), power(f, self.a_model(), 3));
                lemma_mul_step(f, f.model(t2), f.model(twenty_seven), f.model(b2), integer_image(f, 27), power(f, self.b_model(), 2));
                lemma_add_step(
                    f,
                    f.model(inner),
                    f.model(t1),
                    f.model(t2),
                    f.mul_s(integer_image(f, 4), power(f, self.a_model(), 3)),
                    f.mul_s(integer_image(f, 27), power(f, self.b_model(), 2)),
                );
                lemma_mul_step(
                    f,
                    f.model(product),
                    f.model(sixteen),
                    f.model(inner),
                    integer_image(f, 16),
                    f.add_s(
                        f.mul_s(integer_image(f, 4), power(f, self.a_model(), 3)),
                        f.mul_s(integer_image(f, 27), power(f, self.b_model(), 2)),
                    ),
                );
                lemma_sub_step(
                    f,
                    f.model(r),
                    f.model(zero),
                    f.model(product),
                    f.zero_s(),
                    f.mul_s(
                        integer_image(f, 16),
                        f.add_s(
                            f.mul_s(integer_image(f, 4), power(f, self.a_model(), 3)),
                            f.mul_s(integer_image(f, 27), power(f, self.b_model(), 2)),
                        ),
                    ),
                );
            }
        }
        r
    }

    /// The base field.
    pub fn field(&self) -> (r: &F)
        ensures
            *r == self.field_s(),
    {
        &self.field
    }

    /// The curve's coefficients `(a, b)`.
    pub fn coefficients(&self) -> (r: (&F::E, &F::E))
        ensures
            *r.0 == self.a_s(),
            *r.1 == self.b_s(),
    {
        (&self.a, &self.b)
    }

    /// Whether `(x, y)` satisfies the curve equation.
    pub fn contains(&self, x: &F::E, y: &F::E) -> (r: bool)
        requires
            self.well_formed(),
            self.field_s().valid(*x),
            self.field_s().valid(*y),
        ensures
            ring_laws(&self.field_s()) ==> (r == on_curve(
                &self.field_s(),
                self.a_model(),
                self.b_model(),
                self.field_s().model(*x),
                self.field_s().model(*y),
            )),
    {
        let f = &self.field;
        let lhs = f.mul(y, y);
        let xx = f.mul(x, x);
        let xxx = f.mul(&xx, x);
        let ax = f.mul(&self.a, x);
        let s1 = f.add(&xxx, &ax);
        let rhs = f.add(&s1, &self.b);
        let r = f.equal(&lhs, &rhs);
        proof {
            if ring_laws(f) {
                let mx = f.model(*x);
                let my = f.model(*y);
                let ma = self.a_model();
                let mb = self.b_model();
                lemma_ring_parts(f);
                f.lemma_valid_member(*x);
                f.lemma_valid_member(*y);
                f.lemma_valid_member(self.a);
                f.lemma_valid_member(self.b);
                f.lemma_valid_member(lhs);
                f.lemma_valid_member(xx);
                f.lemma_valid_member(xxx);
                f.lemma_valid_member(ax);
                f.lemma_valid_member(s1);
                f.lemma_valid_member(rhs);
                lemma_refl(f, mx);
                lemma_refl(f, my);
                lemma_refl(f, ma);
                lemma_refl(f, mb);
                lemma_mul_step(f, f.model(lhs), my, my, my, my);
                lemma_mul_step(f, f.model(xx), mx, mx, mx, mx);
                lemma_mul_step(f, f.model(xxx), f.model(xx), mx, f.mul_s(mx, mx), mx);
                lemma_mul_step(f, f.model(ax), ma, mx, ma, mx);
                lemma_add_step(f, f.model(s1), f.model(xxx), f.model(ax), f.mul_s(f.mul_s(mx, mx), mx), f.mul_s(ma, mx));
                lemma_add_step(
                    f,
                    f.model(rhs),
                    f.model(s1),
                    mb,
                    f.add_s(f.mul_s(f.mul_s(mx, mx), mx), f.mul_s(ma, mx)),
                    mb,
                );
                let sl = f.mul_s(my, my);
                let sr = curve_rhs(f, ma, mb, mx);
                if r {
                    lemma_sym(f, f.model(lhs), sl);
                    lemma_trans(f, sl, f.model(lhs), f.model(rhs));
                    lemma_trans(f, sl, f.model(rhs), sr);
                }
                if f.eqv(sl, sr) {
                    lemma_sym(f, f.model(rhs), sr);
                    lemma_trans(f, f.model(lhs), sl, sr);
                    lemma_trans(f, f.model(lhs), sr, f.model(rhs));
                }
            }
        }
        r
    }

    /// The point `(x, y)`, or `None` if it is not on the curve.
    pub fn point(self: &Rc<Self>, x: F::E, y: F::E) -> (r: Option<Point<F>>)
        requires
            self.well_formed(),
            self.field_s().valid(x),
            self.field_s().valid(y),
        ensures
            ring_laws(&self.field_s()) ==> (r is Some <==> on_curve(
                &self.field_s(),
                self.a_model(),
                self.b_model(),
                self.field_s().model(x),
                self.field_s().model(y),
            )),
            r matches Some(p) ==> p.coords() == Some((x, y)) && p.curve_handle() == *self,
    {
        if self.contains(&x, &y) {
            Some(Point { coordinates: Some((x, y)), curve: share(self) })
        } else {
            None
        }
    }

    /// The point at infinity, which is the group's identity.
    pub fn infinity(self: &Rc<Self>) -> (r: Point<F>)
        ensures
            r.coords() is None,
            r.curve_handle() == *self,
    {
        Point { coordinates: None, curve: share(self) }
    }
}

impl<F: Field> Point<F> {
    /// The stored coordinates; `None` at infinity.
    pub closed spec fn coords(&self) -> Option<(F::E, F::E)> {
        self.coordinates
    }

    /// The curve this point lies on.
    pub closed spec fn curve_handle(&self) -> Rc<Curve<F>> {
        self.curve
    }

    /// The affine coordinates, or `None` at infinity.
    pub fn coordinates(&self) -> (r: Option<(&F::E, &F::E)>)
        ensures
            self.coords() is None ==> r is None,
            self.coords() matches Some((x, y)) ==> r == Some((&x, &y)),
    {
        match &self.coordinates {
            Some((x, y)) => Some((x, y)),
            None => None,
        }
    }

    /// Whether this is the point at infinity.
    pub fn is_infinity(&self) -> (r: bool)
        ensures
            r == self.coords() is None,
    {
        self.coordinates.is_none()
    }

    /// The curve this point lies on.
    pub fn curve(&self) -> (r: &Rc<Curve<F>>)
        ensures
            *r == self.curve_handle(),
    {
        &self.curve
    }
}

/// The models of two field elements, as a pair.
pub open spec fn pair_model<F: Field>(f: &F, c: Option<(F::E, F::E)>) -> Option<(F::M, F::M)> {
    match c {
        None => None,
        Some((x, y)) => Some((f.model(x), f.model(y))),
    }
}

/// `num / den`, then the third point of the line of that slope through `(px, py)`
/// and a point at `qx`; `None` when `den` has no inverse.
fn line_sum<F: Field>(
    f: &F,
    px: &F::E,
    py: &F::E,
    qx: &F::E,
    num: &F::E,
    den: &F::E,
    Ghost(spx): Ghost<F::M>,
    Ghost(spy): Ghost<F::M>,
    Ghost(sqx): Ghost<F::M>,
    Ghost(sn): Ghost<F::M>,
    Ghost(sd): Ghost<F::M>,
) -> (r: Option<(F::E, F::E)>)
    requires
        f.wf(),
        f.invert_defined(),
        f.valid(*px),
        f.valid(*py),
        f.valid(*qx),
        f.valid(*num),
        f.valid(*den),
        field_laws(f) ==> {
            &&& f.member(spx) && f.member(spy) && f.member(sqx) && f.member(sn) && f.member(sd)
            &&& f.eqv(f.model(*px), spx) && f.eqv(f.model(*py), spy) && f.eqv(f.model(*qx), sqx)
            &&& f.eqv(f.model(*num), sn) && f.eqv(f.model(*den), sd)
        },
    ensures
        r matches Some((x, y)) ==> f.valid(x) && f.valid(y),
        field_laws(f) ==> pair_eqv(f, pair_model(f, r), through(f, spx, spy, sqx, sn, sd)),
{
    let inv = match f.invert(den) {
        Some(y) => y,
        None => {
            proof {
                if field_laws(f) {
                    lemma_field_parts(f);
                    lemma_ring_parts(f);
                    f.lemma_valid_member(*den);
                    lemma_invertible(f, f.model(*den));
                    if has_inverse(f, sd) {
                        let y = choose|y: F::M| f.member(y) && f.eqv(f.mul_s(sd, y), f.one_s());
                        lemma_refl(f, y);
                        crate::laws::lemma_mul_closed(f, f.model(*den), y);
                        crate::laws::lemma_mul_closed(f, sd, y);
                        crate::laws::lemma_mul_congruent(f, f.model(*den), sd, y, y);
                        lemma_trans(f, f.mul_s(f.model(*den), y), f.mul_s(sd, y), f.one_s());
                        assert(has_inverse(f, f.model(*den)));
                    }
                }
            }
            return None;
        },
    };
    let slope = f.mul(num, &inv);
    let ss = f.mul(&slope, &slope);
    let d1 = f.sub(&ss, px);
    let rx = f.sub(&d1, qx);
    let dx = f.sub(px, &rx);
    let sdx = f.mul(&slope, &dx);
    let ry = f.sub(&sdx, py);
    proof {
        if field_laws(f) {
            lemma_field_parts(f);
            lemma_ring_parts(f);
            let mi = f.model(inv);
            let mpx = f.model(*px);
            let mpy = f.model(*py);
            let mqx = f.model(*qx);
            f.lemma_valid_member(*den);
            f.lemma_valid_member(*num);
            f.lemma_valid_member(*px);
            f.lemma_valid_member(*py);
            f.lemma_valid_member(*qx);
            f.lemma_valid_member(inv);
            f.lemma_valid_member(slope);
            f.lemma_valid_member(ss);
            f.lemma_valid_member(d1);
            f.lemma_valid_member(rx);
            f.lemma_valid_member(dx);
            f.lemma_valid_member(sdx);
            f.lemma_valid_member(ry);
            crate::laws::lemma_inverse(f, f.model(*den), mi);
            // sd · inv ~ den · inv ~ 1, so sd has an inverse, and it is inv
            lemma_refl(f, mi);
            crate::laws::lemma_mul_closed(f, f.model(*den), mi);
            crate::laws::lemma_mul_closed(f, sd, mi);
            lemma_sym(f, f.model(*den), sd);
            crate::laws::lemma_mul_congruent(f, sd, f.model(*den), mi, mi);
            lemma_trans(f, f.mul_s(sd, mi), f.mul_s(f.model(*den), mi), f.one_s());
            assert(has_inverse(f, sd));
            let w = inverse_s(f, sd);
            crate::laws::lemma_product_inverse_unique(f, sd, mi, w);
            let s = f.mul_s(sn, w);
            lemma_mul_step(f, f.model(slope), f.model(*num), mi, sn, w);
            lemma_mul_step(f, f.model(ss), f.model(slope), f.model(slope), s, s);
            lemma_sub_step(f, f.model(d1), f.model(ss), mpx, f.mul_s(s, s), spx);
            lemma_sub_step(f, f.model(rx), f.model(d1), mqx, f.sub_s(f.mul_s(s, s), spx), sqx);
            let srx = f.sub_s(f.sub_s(f.mul_s(s, s), spx), sqx);
            lemma_sub_step(f, f.model(dx), mpx, f.model(rx), spx, srx);
            lemma_mul_step(f, f.model(sdx), f.model(slope), f.model(dx), s, f.sub_s(spx, srx));
            lemma_sub_step(f, f.model(ry), f.model(sdx), mpy, f.mul_s(s, f.sub_s(spx, srx)), spy);
        }
    }
    Some((rx, ry))
}

/// Two optional points are the same: both at infinity, or coordinates equal.
pub open spec fn pair_eqv<F: Field>(f: &F, p: Option<(F::M, F::M)>, q: Option<(F::M, F::M)>) -> bool {
    match p {
        None => q is None,
        Some((x1, y1)) => match q {
            None => false,
            Some((x2, y2)) => f.eqv(x1, x2) && f.eqv(y1, y2),
        },
    }
}


/// A copy of a pair of coordinates.
fn copy_coords<F: Field>(f: &F, c: &Option<(F::E, F::E)>) -> (r: Option<(F::E, F::E)>)
    ensures
        coords_valid(f, *c) ==> pair_model(f, r) == pair_model(f, *c),
        coords_valid(f, *c) ==> coords_valid(f, r),
        r is None <==> c is None,
{
    match c {
        None => None,
        Some((x, y)) => Some((f.copy(x), f.copy(y))),
    }
}

/// Every coordinate is a member.
pub open spec fn pair_member<F: Field>(f: &F, p: Option<(F::M, F::M)>) -> bool {
    p matches Some((x, y)) ==> f.member(x) && f.member(y)
}

/// Every coordinate is well formed.
pub open spec fn coords_valid<F: Field>(f: &F, c: Option<(F::E, F::E)>) -> bool {
    c matches Some((x, y)) ==> f.valid(x) && f.valid(y)
}

proof fn lemma_coords_member<F: Field>(f: &F, c: Option<(F::E, F::E)>)
    requires
        f.wf(),
        coords_valid(f, c),
    ensures
        pair_member(f, pair_model(f, c)),
{
    if let Some((x, y)) = c {
        f.lemma_valid_member(x);
        f.lemma_valid_member(y);
    }
}

/// The chord-and-tangent sum of `p` and `q` on the curve with coefficient `a`,
/// against coordinates `sp` and `sq` that they are equal to.
fn sum_coords<F: Field>(
    f: &F,
    a: &F::E,
    p: &Option<(F::E, F::E)>,
    q: &Option<(F::E, F::E)>,
    Ghost(sp): Ghost<Option<(F::M, F::M)>>,
    Ghost(sq): Ghost<Option<(F::M, F::M)>>,
) -> (r: Option<(F::E, F::E)>)
    requires
        f.wf(),
        f.invert_defined(),
        f.valid(*a),
        coords_valid(f, *p),
        coords_valid(f, *q),
        field_laws(f) ==> {
            &&& pair_member(f, sp) && pair_member(f, sq)
            &&& pair_eqv(f, pair_model(f, *p), sp) && pair_eqv(f, pair_model(f, *q), sq)
        },
    ensures
        coords_valid(f, r),
        field_laws(f) ==> pair_eqv(f, pair_model(f, r), chord_tangent(f, f.model(*a), sp, sq)),
{
    proof {
        if field_laws(f) {
            lemma_field_parts(f);
            lemma_ring_parts(f);
            lemma_coords_member(f, *p);
            lemma_coords_member(f, *q);
            f.lemma_valid_member(*a);
        }
    }
    match p {
        None => {
            let r = copy_coords(f, q);
            r
        },
        Some((px, py)) => match q {
            None => {
                let r = copy_coords(f, p);
                r
            },
            Some((qx, qy)) => {
                let ghost (spx, spy) = sp->0;
                let ghost (sqx, sqy) = sq->0;
                let ghost ma = f.model(*a);
                let same_x = f.equal(px, qx);
                proof {
                    if field_laws(f) {
                        let (mpx, mqx) = (f.model(*px), f.model(*qx));
                        lemma_sym(f, mpx, spx);
                        if f.eqv(mpx, mqx) {
                            lemma_trans(f, spx, mpx, mqx);
                            lemma_trans(f, spx, mqx, sqx);
                        }
                        if f.eqv(spx, sqx) {
                            lemma_sym(f, mqx, sqx);
                            lemma_trans(f, mpx, spx, sqx);
                            lemma_trans(f, mpx, sqx, mqx);
                        }
                    }
                }
                if same_x {
                    let s = f.add(py, qy);
                    let z = f.zero();
                    let vertical = f.equal(&s, &z);
                    proof {
                        if field_laws(f) {
                            let sum = f.add_s(spy, sqy);
                            f.lemma_valid_member(s);
                            f.lemma_valid_member(z);
                            lemma_add_step(f, f.model(s), f.model(*py), f.model(*qy), spy, sqy);
                            lemma_sym(f, f.model(s), sum);
                            lemma_sym(f, f.model(z), f.zero_s());
                            if vertical {
                                lemma_trans(f, sum, f.model(s), f.model(z));
                                lemma_trans(f, sum, f.model(z), f.zero_s());
                            }
                            if f.eqv(sum, f.zero_s()) {
                                lemma_trans(f, f.model(s), sum, f.zero_s());
                                lemma_trans(f, f.model(s), f.zero_s(), f.model(z));
                            }
                        }
                    }
                    if vertical {
                        return None;
                    }
                    let three = f.from_integer(&Integer::from_i64(3));
                    let t = f.mul(&three, px);
                    let tt = f.mul(&t, px);
                    let num = f.add(&tt, a);
                    let two = f.from_integer(&Integer::from_i64(2));
                    let den = f.mul(&two, py);
                    let ghost sn = f.add_s(f.mul_s(f.mul_s(integer_image(f, 3), spx), spx), ma);
                    let ghost sd = f.mul_s(integer_image(f, 2), spy);
                    proof {
                        if field_laws(f) {
                            f.lemma_valid_member(three);
                            f.lemma_valid_member(t);
                            f.lemma_valid_member(tt);
                            f.lemma_valid_member(num);
                            f.lemma_valid_member(two);
                            f.lemma_valid_member(den);
                            lemma_image_member(f, 3);
                            lemma_image_member(f, 2);
                            lemma_refl(f, ma);
                            lemma_mul_step(f, f.model(t), f.model(three), f.model(*px), integer_image(f, 3), spx);
                            lemma_mul_step(f, f.model(tt), f.model(t), f.model(*px), f.mul_s(integer_image(f, 3), spx), spx);
                            lemma_add_step(f, f.model(num), f.model(tt), ma, f.mul_s(f.mul_s(integer_image(f, 3), spx), spx), ma);
                            lemma_mul_step(f, f.model(den), f.model(two), f.model(*py), integer_image(f, 2), spy);
                        }
                    }
                    line_sum(f, px, py, qx, &num, &den, Ghost(spx), Ghost(spy), Ghost(sqx), Ghost(sn), Ghost(sd))
                } else {
                    let num = f.sub(qy, py);
                    let den = f.sub(qx, px);
                    let ghost sn = f.sub_s(sqy, spy);
                    let ghost sd = f.sub_s(sqx, spx);
                    proof {
                        if field_laws(f) {
                            f.lemma_valid_member(num);
                            f.lemma_valid_member(den);
                            lemma_sub_step(f, f.model(num), f.model(*qy), f.model(*py), sqy, spy);
                            lemma_sub_step(f, f.model(den), f.model(*qx), f.model(*px), sqx, spx);
                        }
                    }
                    line_sum(f, px, py, qx, &num, &den, Ghost(spx), Ghost(spy), Ghost(sqx), Ghost(sn), Ghost(sd))
                }
            },
        },
    }
}


impl<F: Field> Domain for Rc<Curve<F>> {
    type E = Point<F>;
    /// `None` is the point at infinity.
    type Repr = Option<(F::E, F::E)>;
    type M = Option<(F::M, F::M)>;

    open spec fn wf(&self) -> bool {
        &&& (**self).well_formed()
        &&& (**self).field_s().invert_defined()
    }

    /// The base field obeys the field laws.
    open spec fn sound(&self) -> bool {
        field_laws(&(**self).field_s())
    }

    open spec fn model(&self, x: Point<F>) -> Option<(F::M, F::M)> {
        pair_model(&(**self).field_s(), x.coords())
    }

    open spec fn valid(&self, x: Point<F>) -> bool {
        &&& x.curve_handle() == *self
        &&& coords_valid(&(**self).field_s(), x.coords())
    }

    open spec fn member(&self, a: Option<(F::M, F::M)>) -> bool {
        pair_member(&(**self).field_s(), a)
    }

    open spec fn eqv(&self, a: Option<(F::M, F::M)>, b: Option<(F::M, F::M)>) -> bool {
        pair_eqv(&(**self).field_s(), a, b)
    }

    /// The point at infinity, or a point on the curve.
    open spec fn repr_ok(&self, v: Option<(F::E, F::E)>) -> bool {
        let f = (**self).field_s();
        &&& coords_valid(&f, v)
        &&& v matches Some((x, y)) ==> (ring_laws(&f) ==> on_curve(
            &f,
            (**self).a_model(),
            (**self).b_model(),
            f.model(x),
            f.model(y),
        ))
    }

    open spec fn denote(&self, v: Option<(F::E, F::E)>) -> Option<(F::M, F::M)> {
        pair_model(&(**self).field_s(), v)
    }

    proof fn lemma_valid_member(&self, x: Point<F>) {
        lemma_coords_member(&(**self).field_s(), x.coords());
    }

    proof fn lemma_repr_member(&self, v: Option<(F::E, F::E)>) {
        lemma_coords_member(&(**self).field_s(), v);
    }

    /// The representative must be on the curve; `Curve::point` checks.
    fn element(&self, value: Option<(F::E, F::E)>) -> (r: Point<F>) {
        let ghost v = value;
        let r = match value {
            None => self.infinity(),
            Some((x, y)) => match self.point(x, y) {
                Some(p) => p,
                None => self.infinity(),
            },
        };
        proof {
            let f = (**self).field_s();
            if self.sound() {
                lemma_field_parts(&f);
                lemma_coords_member(&f, v);
                if let Some((x, y)) = v {
                    lemma_refl(&f, f.model(x));
                    lemma_refl(&f, f.model(y));
                }
            }
        }
        r
    }

    fn duplicate(&self) -> (r: Rc<Curve<F>>) {
        share(self)
    }

    fn copy(&self, x: &Point<F>) -> (r: Point<F>) {
        Point { coordinates: copy_coords(&self.field, &x.coordinates), curve: share(&x.curve) }
    }
}

impl<F: Field> DecidableEq for Rc<Curve<F>> {
    /// Both at infinity, or the same coordinates.
    fn equal(&self, p: &Point<F>, q: &Point<F>) -> (r: bool) {
        let ghost f = (**self).field_s();
        proof {
            if self.sound() {
                lemma_field_parts(&f);
            }
        }
        match &p.coordinates {
            None => q.coordinates.is_none(),
            Some((px, py)) => match &q.coordinates {
                None => false,
                Some((qx, qy)) => {
                    if !self.field.equal(px, qx) {
                        return false;
                    }
                    self.field.equal(py, qy)
                },
            },
        }
    }
}

impl<F: Field> CommutativeMonoid for Rc<Curve<F>> {
    /// The chord-and-tangent law.
    open spec fn add_s(&self, p: Option<(F::M, F::M)>, q: Option<(F::M, F::M)>) -> Option<(F::M, F::M)> {
        chord_tangent(&(**self).field_s(), (**self).a_model(), p, q)
    }

    /// The point at infinity.
    open spec fn zero_s(&self) -> Option<(F::M, F::M)> {
        None
    }

    /// The chord-and-tangent law. Where a slope's denominator has no inverse, which
    /// over a field of characteristic other than 2 happens for no pair of points on
    /// the curve, the sum is the point at infinity.
    fn add(&self, p: &Point<F>, q: &Point<F>) -> (r: Point<F>) {
        let ghost f = (**self).field_s();
        proof {
            if self.sound() {
                lemma_field_parts(&f);
                lemma_coords_member(&f, p.coords());
                lemma_coords_member(&f, q.coords());
                lemma_pair_refl(&f, self.model(*p));
                lemma_pair_refl(&f, self.model(*q));
            }
        }
        let coordinates = sum_coords(
            &self.field,
            &self.a,
            &p.coordinates,
            &q.coordinates,
            Ghost(self.model(*p)),
            Ghost(self.model(*q)),
        );
        Point { coordinates, curve: share(self) }
    }

    fn zero(&self) -> (r: Point<F>) {
        self.infinity()
    }
}

/// `pair_eqv` is reflexive on members.
pub proof fn lemma_pair_refl<F: Field>(f: &F, p: Option<(F::M, F::M)>)
    requires
        field_laws(f),
        pair_member(f, p),
    ensures
        pair_eqv(f, p, p),
{
    lemma_field_parts(f);
    if let Some((x, y)) = p {
        lemma_refl(f, x);
        lemma_refl(f, y);
    }
}

/// The coordinates of `-p`.
fn negate_coords<F: Field>(f: &F, c: &Option<(F::E, F::E)>) -> (r: Option<(F::E, F::E)>)
    requires
        f.wf(),
        coords_valid(f, *c),
    ensures
        coords_valid(f, r),
        field_laws(f) ==> pair_eqv(f, pair_model(f, r), negate(f, pair_model(f, *c))),
{
    match c {
        None => None,
        Some((x, y)) => {
            let zero = f.zero();
            let ny = f.sub(&zero, y);
            let nx = f.copy(x);
            proof {
                if field_laws(f) {
                    lemma_field_parts(f);
                    lemma_ring_parts(f);
                    f.lemma_valid_member(*x);
                    f.lemma_valid_member(*y);
                    f.lemma_valid_member(zero);
                    f.lemma_valid_member(ny);
                    lemma_refl(f, f.model(*x));
                    lemma_refl(f, f.model(*y));
                    lemma_sub_step(f, f.model(ny), f.model(zero), f.model(*y), f.zero_s(), f.model(*y));
                }
            }
            Some((nx, ny))
        },
    }
}

impl<F: Field> AdditiveGroup for Rc<Curve<F>> {
    /// `p + (-q)`.
    open spec fn sub_s(&self, p: Option<(F::M, F::M)>, q: Option<(F::M, F::M)>) -> Option<(F::M, F::M)> {
        chord_tangent(&(**self).field_s(), (**self).a_model(), p, negate(&(**self).field_s(), q))
    }

    fn sub(&self, p: &Point<F>, q: &Point<F>) -> (r: Point<F>) {
        let ghost f = (**self).field_s();
        let negated = negate_coords(&self.field, &q.coordinates);
        proof {
            if self.sound() {
                lemma_field_parts(&f);
                lemma_ring_parts(&f);
                lemma_coords_member(&f, p.coords());
                lemma_coords_member(&f, q.coords());
                lemma_pair_refl(&f, self.model(*p));
                if let Some((x, y)) = self.model(*q) {
                    crate::laws::lemma_sub_closed(&f, f.zero_s(), y);
                }
            }
        }
        let coordinates = sum_coords(
            &self.field,
            &self.a,
            &p.coordinates,
            &negated,
            Ghost(self.model(*p)),
            Ghost(negate(&f, self.model(*q))),
        );
        Point { coordinates, curve: share(self) }
    }
}

impl<F: Field> Point<F> {
    /// `-p`: the reflection `(x, y) ↦ (x, -y)`.
    pub fn neg(&self) -> (r: Point<F>)
        requires
            self.curve_handle().wf(),
            self.curve_handle().valid(*self),
        ensures
            self.curve_handle().valid(r),
            self.curve_handle().sound() ==> pair_eqv(
                &(*self.curve_handle()).field_s(),
                self.curve_handle().model(r),
                negate(&(*self.curve_handle()).field_s(), self.curve_handle().model(*self)),
            ),
    {
        Point { coordinates: negate_coords(&self.curve.field, &self.coordinates), curve: share(&self.curve) }
    }
}

impl<F: Field> Curve<F> {
    /// `n * p`, by double-and-add from the point at infinity, the bits of `|n|`
    /// taken from the lowest. A negative `n` negates `|n| * p`.
    pub fn multiply(self: &Rc<Self>, n: &Integer, p: &Point<F>) -> (r: Point<F>)
        requires
            self.wf(),
            self.valid(*p),
        ensures
            self.valid(r),
            self.sound() ==> self.eqv(
                self.model(r),
                curve_multiple(&(**self).field_s(), (**self).a_model(), n@, self.model(*p)),
            ),
    {
        let ghost f = (**self).field_s();
        let ghost a = (**self).a_model();
        let ghost mp = self.model(*p);
        let ghost sound = self.sound();
        let magnitude = n.magnitude();
        let mut result = self.infinity();
        let mut addend = self.copy(p);
        let mut m = magnitude.copy();
        let two = Integer::from_i64(2);
        proof {
            if sound {
                lemma_field_parts(&f);
                f.lemma_valid_member((**self).a_s());
                self.lemma_valid_member(*p);
                self.lemma_valid_member(addend);
                lemma_pair_refl(&f, mp);
                lemma_ladder_congruent(&f, a, None, self.model(addend), None, mp, magnitude@ as nat);
            }
        }
        while !m.is_zero()
            invariant
                self.wf(),
                self.valid(result),
                self.valid(addend),
                f == (**self).field_s(),
                a == (**self).a_model(),
                mp == self.model(*p),
                sound == self.sound(),
                two@ == 2,
                m@ >= 0,
                sound ==> pair_member(&f, mp),
                sound ==> pair_eqv(
                    &f,
                    ladder(&f, a, self.model(result), self.model(addend), m@ as nat),
                    ladder(&f, a, None, mp, magnitude@ as nat),
                ),
            decreases m@,
        {
            let ghost r0 = self.model(result);
            let ghost a0 = self.model(addend);
            let ghost m0: nat = m@ as nat;
            let (q, rem) = m.quot_rem(&two);
            proof {
                if sound {
                    lemma_field_parts(&f);
                    self.lemma_valid_member(result);
                    self.lemma_valid_member(addend);
                }
                lemma_fundamental_div_mod(m@, 2);
                assert(m@ == 2 * q@ + rem@);
                assert(q@ == m0 / 2 && rem@ == m0 % 2);
            }
            if !rem.is_zero() {
                let sum = self.add(&result, &addend);
                result = sum;
            }
            m = q;
            if !m.is_zero() {
                let double = self.add(&addend, &addend);
                addend = double;
            }
            proof {
                if sound {
                    lemma_field_parts(&f);
                    f.lemma_valid_member((**self).a_s());
                    self.lemma_valid_member(result);
                    self.lemma_valid_member(addend);
                    let next = if m0 % 2 == 1 { chord_tangent(&f, a, r0, a0) } else { r0 };
                    let doubled = chord_tangent(&f, a, a0, a0);
                    lemma_pair_refl(&f, r0);
                    lemma_pair_refl(&f, a0);
                    lemma_ladder_congruent(&f, a, r0, a0, r0, a0, m0);
                    lemma_chord_tangent_congruent(&f, a, r0, a0, r0, a0);
                    lemma_chord_tangent_congruent(&f, a, a0, a0, a0, a0);
                    lemma_pair_refl(&f, next);
                    lemma_pair_refl(&f, doubled);
                    lemma_pair_refl(&f, mp);
                    lemma_ladder_congruent(&f, a, None, mp, None, mp, magnitude@ as nat);
                    let target = ladder(&f, a, None, mp, magnitude@ as nat);
                    assert(ladder(&f, a, r0, a0, m0) == if m0 / 2 == 0 {
                        next
                    } else {
                        ladder(&f, a, next, doubled, m0 / 2)
                    });
                    assert(pair_eqv(&f, self.model(result), next));
                    assert(m@ != 0 ==> pair_eqv(&f, self.model(addend), doubled));
                    lemma_pair_refl(&f, self.model(result));
                    lemma_pair_refl(&f, self.model(addend));
                    lemma_ladder_congruent(&f, a, self.model(result), self.model(addend), self.model(result), self.model(addend), m@ as nat);
                    if m@ == 0 {
                        lemma_pair_sym_trans(&f, self.model(result), next, target);
                    } else {
                        lemma_ladder_congruent(&f, a, self.model(result), self.model(addend), next, doubled, m@ as nat);
                        lemma_pair_sym_trans(
                            &f,
                            ladder(&f, a, self.model(result), self.model(addend), m@ as nat),
                            ladder(&f, a, next, doubled, m0 / 2),
                            target,
                        );
                    }
                }
            }
        }
        if n.is_negative() {
            let negated = result.neg();
            proof {
                if sound {
                    lemma_field_parts(&f);
                    self.lemma_valid_member(result);
                    self.lemma_valid_member(negated);
                    lemma_pair_refl(&f, mp);
                    lemma_ladder_congruent(&f, a, None, mp, None, mp, magnitude@ as nat);
                    let target = ladder(&f, a, None, mp, magnitude@ as nat);
                    lemma_negate_member(&f, self.model(result));
                    lemma_negate_member(&f, target);
                    lemma_negate_congruent(&f, self.model(result), target);
                    lemma_pair_sym_trans(&f, self.model(negated), negate(&f, self.model(result)), negate(&f, target));
                }
            }
            negated
        } else {
            result
        }
    }
}

/// The text of a point: `O` at infinity, else `(x, y)`.
pub open spec fn point_text<F: Render>(f: &F, c: Option<(F::E, F::E)>) -> Seq<char> {
    match c {
        None => seq!['O'],
        Some((x, y)) => seq!['('] + f.text(x) + seq![',', ' '] + f.text(y) + seq![')'],
    }
}

impl<F: Field + Render> Point<F> {
    /// The text of this point, as `Display` prints it: `O` or `(x, y)`.
    pub fn to_string(&self) -> (r: String)
        requires
            self.curve_handle().wf(),
            self.curve_handle().valid(*self),
        ensures
            r@ == point_text(&(*self.curve_handle()).field_s(), self.coords()),
    {
        let mut s = String::new();
        match &self.coordinates {
            None => {
                append_letter_o(&mut s);
            },
            Some((x, y)) => {
                let field = &self.curve.field;
                append_paren_open(&mut s);
                let tx = field.render(x);
                s.append(tx.as_str());
                append_comma(&mut s);
                let ty = field.render(y);
                s.append(ty.as_str());
                append_paren_close(&mut s);
                proof {
                    let f = (*self.curve_handle()).field_s();
                    assert(s@ =~= seq!['('] + f.text(*x) + seq![',', ' '] + f.text(*y) + seq![')']);
                }
            },
        }
        s
    }
}

} // verus!
