//! Polynomial interpolation: the lowest-degree polynomial through a set of points.

use crate::laws::{
    commutative_laws, field_laws, has_inverse, inverse_s, lemma_add_closed, lemma_add_congruent,
    lemma_add_zero, lemma_field_parts, lemma_invertible, lemma_mul_assoc, lemma_mul_closed,
    lemma_mul_comm, lemma_mul_congruent, lemma_mul_one, lemma_mul_step, lemma_mul_zero, lemma_refl,
    lemma_ring_parts, lemma_sub_closed, lemma_sub_step, lemma_sym, lemma_trans, lemma_zero_mul,
    ring_laws,
};
use crate::polynomials::{
    all_members, all_valid, coeff, horner, lemma_poly_add_congruent, lemma_poly_mul_congruent,
    lemma_same_trans, max_len, models, poly_add, poly_mul, same_coefficients, Polynomial,
    PolynomialRing,
};
use crate::evaluation::{
    lemma_horner_congruent, lemma_horner_power_sum, lemma_power_sum_add,
    lemma_power_sum_linear_factor, lemma_power_sum_member, lemma_power_sum_scaled,
    lemma_power_sum_tail, power_sum, scaled,
};
use crate::quotient::share;
use crate::structures::{CommutativeMonoid, Domain, Field, Monoid, Semigroup};
use std::rc::Rc;
use vstd::prelude::*;

verus! {

/// `prod_{m < t, m != j} (x_j - x_m)`, multiplied on from the right starting at one.
pub open spec fn denominator_s<F: Field>(f: &F, xs: Seq<F::M>, j: int, t: nat) -> F::M
    decreases t,
{
    if t == 0 {
        f.one_s()
    } else {
        let p = denominator_s(f, xs, j, (t - 1) as nat);
        if t - 1 == j {
            p
        } else {
            f.mul_s(p, f.sub_s(xs[j], xs[t - 1]))
        }
    }
}

/// The Lagrange basis polynomial `l_j = prod_{m != j} (X - x_m) / (x_j - x_m)`:
/// the constant `1 / prod (x_j - x_m)` times the factors `X - x_m` for `m < t`, in
/// increasing `m`.
pub open spec fn basis_s<F: Field>(f: &F, xs: Seq<F::M>, j: int, t: nat) -> Seq<F::M>
    decreases t,
{
    if t == 0 {
        seq![inverse_s(f, denominator_s(f, xs, j, xs.len()))]
    } else {
        let p = basis_s(f, xs, j, (t - 1) as nat);
        if t - 1 == j {
            p
        } else {
            poly_mul(f, p, seq![f.sub_s(f.zero_s(), xs[t - 1]), f.one_s()])
        }
    }
}

/// `sum_{j < t} basis[j] · ys[j]`, added up in increasing `j` from zero.
pub open spec fn combination<F: Field>(f: &F, basis: Seq<Seq<F::M>>, ys: Seq<F::M>, t: nat) -> Seq<F::M>
    decreases t,
{
    if t == 0 {
        Seq::empty()
    } else {
        poly_add(f, combination(f, basis, ys, (t - 1) as nat), scaled(f, basis[t - 1], ys[t - 1]))
    }
}

/// The interpolant of the points `(xs[j], ys[j])`, as the Lagrange formula gives it.
pub open spec fn interpolant<F: Field>(f: &F, xs: Seq<F::M>, ys: Seq<F::M>) -> Seq<F::M> {
    combination(f, Seq::new(xs.len(), |j: int| basis_s(f, xs, j, xs.len())), ys, xs.len())
}

/// Every denominator of the Lagrange formula can be inverted: the nodes are distinct.
pub open spec fn nodes_ok<F: Field>(f: &F, xs: Seq<F::M>) -> bool {
    forall|j: int| 0 <= j < xs.len() ==> #[trigger] has_inverse(f, denominator_s(f, xs, j, xs.len()))
}

/// Having an inverse depends only on the element's value.
proof fn lemma_has_inverse_congruent<F: Field>(f: &F, a: F::M, b: F::M)
    requires
        field_laws(f),
        f.member(a),
        f.member(b),
        f.eqv(a, b),
    ensures
        has_inverse(f, a) == has_inverse(f, b),
{
    lemma_field_parts(f);
    lemma_ring_parts(f);
    if has_inverse(f, a) {
        let y = choose|y: F::M| f.member(y) && f.eqv(f.mul_s(a, y), f.one_s());
        lemma_refl(f, y);
        lemma_sym(f, a, b);
        crate::laws::lemma_mul_congruent(f, b, a, y, y);
        crate::laws::lemma_mul_closed(f, a, y);
        crate::laws::lemma_mul_closed(f, b, y);
        lemma_trans(f, f.mul_s(b, y), f.mul_s(a, y), f.one_s());
    }
    if has_inverse(f, b) {
        let y = choose|y: F::M| f.member(y) && f.eqv(f.mul_s(b, y), f.one_s());
        lemma_refl(f, y);
        crate::laws::lemma_mul_congruent(f, a, b, y, y);
        crate::laws::lemma_mul_closed(f, a, y);
        crate::laws::lemma_mul_closed(f, b, y);
        lemma_trans(f, f.mul_s(a, y), f.mul_s(b, y), f.one_s());
    }
}

proof fn lemma_denominator_member<F: Field>(f: &F, xs: Seq<F::M>, j: int, t: nat)
    requires
        ring_laws(f),
        all_members(f, xs),
        0 <= j < xs.len(),
        t <= xs.len(),
    ensures
        f.member(denominator_s(f, xs, j, t)),
    decreases t,
{
    lemma_ring_parts(f);
    if t > 0 {
        lemma_denominator_member(f, xs, j, (t - 1) as nat);
        if t - 1 != j {
            crate::laws::lemma_sub_closed(f, xs[j], xs[t - 1]);
            crate::laws::lemma_mul_closed(f, denominator_s(f, xs, j, (t - 1) as nat), f.sub_s(xs[j], xs[t - 1]));
        }
    }
}

/// A product of members is made of members.
proof fn lemma_poly_mul_members<F: Field>(f: &F, a: Seq<F::M>, b: Seq<F::M>)
    requires
        ring_laws(f),
        all_members(f, a),
        all_members(f, b),
    ensures
        all_members(f, poly_mul(f, a, b)),
{
    assert forall|i: int| 0 <= i < poly_mul(f, a, b).len() implies #[trigger] f.member(poly_mul(f, a, b)[i]) by {
        crate::polynomials::lemma_conv_member(f, a, b, i, a.len());
    }
}

proof fn lemma_basis_member<F: Field>(f: &F, xs: Seq<F::M>, j: int, t: nat)
    requires
        ring_laws(f),
        all_members(f, xs),
        0 <= j < xs.len(),
        t <= xs.len(),
        has_inverse(f, denominator_s(f, xs, j, xs.len())),
    ensures
        all_members(f, basis_s(f, xs, j, t)),
    decreases t,
{
    lemma_ring_parts(f);
    if t == 0 {
        assert(f.member(inverse_s(f, denominator_s(f, xs, j, xs.len()))));
    } else {
        lemma_basis_member(f, xs, j, (t - 1) as nat);
        if t - 1 != j {
            crate::laws::lemma_sub_closed(f, f.zero_s(), xs[t - 1]);
            let factor = seq![f.sub_s(f.zero_s(), xs[t - 1]), f.one_s()];
            assert(all_members(f, factor));
            lemma_poly_mul_members(f, basis_s(f, xs, j, (t - 1) as nat), factor);
        }
    }
}

/// Every coefficient multiplied by `c` on the right.
fn scale<F: Field>(ring: &Rc<PolynomialRing<F>>, p: &Polynomial<F>, c: &F::E) -> (r: Polynomial<F>)
    requires
        ring.wf(),
        ring.valid(*p),
        (**ring).coeff_ring().valid(*c),
    ensures
        ring.valid(r),
        ring.sound() ==> ring.eqv(
            ring.model(r),
            scaled(&(**ring).coeff_ring(), ring.model(*p), (**ring).coeff_ring().model(*c)),
        ),
{
    let ghost f = (**ring).coeff_ring();
    let field = ring.coefficient_ring();
    let coefficients = p.coefficients();
    let n = coefficients.len();
    let mut v: Vec<F::E> = Vec::new();
    for i in 0..n
        invariant
            f == (**ring).coeff_ring(),
            f == *field,
            f.wf(),
            ring.valid(*p),
            coefficients@ == p.coeffs(),
            n == coefficients@.len(),
            f.valid(*c),
            v@.len() == i,
            all_valid(&f, v@),
            f.sound() ==> forall|k: int|
                0 <= k < i ==> #[trigger] f.eqv(f.model(v@[k]), f.mul_s(f.model(p.coeffs()[k]), f.model(*c))),
    {
        assert(f.valid(coefficients@[i as int]));
        let e = field.mul(&coefficients[i], c);
        v.push(e);
    }
    let ghost vv = v@;
    let r = ring.element(v);
    proof {
        if ring.sound() {
            lemma_ring_parts(&f);
            ring.lemma_valid_member(r);
            ring.lemma_valid_member(*p);
            f.lemma_valid_member(*c);
            let target = scaled(&f, ring.model(*p), f.model(*c));
            assert forall|k: int| 0 <= k < target.len() implies #[trigger] f.member(target[k]) by {
                crate::laws::lemma_mul_closed(&f, ring.model(*p)[k], f.model(*c));
            }
            assert forall|k: int| 0 <= k < vv.len() implies #[trigger] f.member(models(&f, vv)[k]) by {
                f.lemma_valid_member(vv[k]);
            }
            assert forall|k: int| 0 <= k < max_len(vv.len(), target.len()) implies #[trigger] f.eqv(
                coeff(&f, models(&f, vv), k),
                coeff(&f, target, k),
            ) by {
                assert(f.eqv(f.model(vv[k]), f.mul_s(f.model(p.coeffs()[k]), f.model(*c))));
            }
            lemma_same_trans(&f, ring.model(r), models(&f, vv), target);
        }
    }
    r
}

/// Interpolation at a fixed set of nodes.
///
/// The Lagrange basis depends only on the x values, so building it once makes each
/// later interpolation a linear combination.
pub struct Interpolation<F: Field> {
    ring: Rc<PolynomialRing<F>>,
    /// `basis[j]` is 1 at `x[j]` and 0 at every other node.
    basis: Vec<Polynomial<F>>,
}

impl<F: Field> Interpolation<F> {
    /// The polynomial ring the basis lives in.
    pub closed spec fn ring_s(&self) -> Rc<PolynomialRing<F>> {
        self.ring
    }

    /// The basis polynomials.
    pub closed spec fn basis_s(&self) -> Seq<Polynomial<F>> {
        self.basis@
    }

    /// The ring is well formed and holds every basis polynomial.
    pub open spec fn well_formed(&self) -> bool {
        &&& self.ring_s().wf()
        &&& forall|j: int| 0 <= j < self.basis_s().len() ==> #[trigger] self.ring_s().valid(self.basis_s()[j])
    }

    /// The models of the basis polynomials.
    pub open spec fn basis_models(&self) -> Seq<Seq<F::M>> {
        Seq::new(self.basis_s().len(), |j: int| self.ring_s().model(self.basis_s()[j]))
    }

    /// Builds the Lagrange basis for `nodes`, or `None` if a denominator cannot be
    /// inverted, as when two nodes coincide.
    pub fn new(ring: &Rc<PolynomialRing<F>>, nodes: &[F::E]) -> (r: Option<Self>)
        requires
            ring.wf(),
            (**ring).coeff_ring().invert_defined(),
            all_valid(&(**ring).coeff_ring(), nodes@),
        ensures
            field_laws(&(**ring).coeff_ring()) ==> (r is Some <==> nodes_ok(
                &(**ring).coeff_ring(),
                models(&(**ring).coeff_ring(), nodes@),
            )),
            r matches Some(it) ==> {
                &&& it.well_formed()
                &&& it.ring_s() == *ring
                &&& it.basis_s().len() == nodes@.len()
                &&& field_laws(&(**ring).coeff_ring()) ==> forall|j: int|
                    0 <= j < nodes@.len() ==> #[trigger] ring.eqv(
                        it.basis_models()[j],
                        basis_s(&(**ring).coeff_ring(), models(&(**ring).coeff_ring(), nodes@), j, nodes@.len()),
                    )
            },
    {
        let ghost f = (**ring).coeff_ring();
        let ghost laws = field_laws(&f);
        let ghost xs = models(&f, nodes@);
        let field = ring.coefficient_ring();
        let n = nodes.len();
        proof {
            if laws {
                lemma_field_parts(&f);
                lemma_ring_parts(&f);
                assert forall|i: int| 0 <= i < xs.len() implies #[trigger] f.member(xs[i]) by {
                    f.lemma_valid_member(nodes@[i]);
                }
            }
        }
        let mut basis: Vec<Polynomial<F>> = Vec::new();
        for j in 0..n
            invariant
                f == (**ring).coeff_ring(),
                f == *field,
                ring.wf(),
                f.invert_defined(),
                laws == field_laws(&f),
                xs == models(&f, nodes@),
                n == nodes@.len(),
                all_valid(&f, nodes@),
                laws ==> all_members(&f, xs),
                basis@.len() == j,
                forall|k: int| 0 <= k < j ==> #[trigger] ring.valid(basis@[k]),
                laws ==> forall|k: int| 0 <= k < j ==> #[trigger] has_inverse(&f, denominator_s(&f, xs, k, n as nat)),
                laws ==> forall|k: int|
                    0 <= k < j ==> #[trigger] ring.eqv(ring.model(basis@[k]), basis_s(&f, xs, k, n as nat)),
        {
            let mut denominator = field.identity();
            proof {
                if laws {
                    lemma_field_parts(&f);
                    lemma_ring_parts(&f);
                }
            }
            for m in 0..n
                invariant
                    f == (**ring).coeff_ring(),
                    f == *field,
                    f.wf(),
                    laws == field_laws(&f),
                    xs == models(&f, nodes@),
                    n == nodes@.len(),
                    j < n,
                    all_valid(&f, nodes@),
                    laws ==> all_members(&f, xs),
                    f.valid(denominator),
                    laws ==> f.eqv(f.model(denominator), denominator_s(&f, xs, j as int, m as nat)),
            {
                if m != j {
                    assert(f.valid(nodes@[j as int]));
                    assert(f.valid(nodes@[m as int]));
                    let d = field.sub(&nodes[j], &nodes[m]);
                    let next = field.mul(&denominator, &d);
                    proof {
                        if laws {
                            lemma_field_parts(&f);
                            lemma_ring_parts(&f);
                            f.lemma_valid_member(d);
                            f.lemma_valid_member(next);
                            f.lemma_valid_member(denominator);
                            lemma_denominator_member(&f, xs, j as int, m as nat);
                            crate::laws::lemma_sub_closed(&f, xs[j as int], xs[m as int]);
                            lemma_refl(&f, f.sub_s(xs[j as int], xs[m as int]));
                            lemma_mul_step(
                                &f,
                                f.model(next),
                                f.model(denominator),
                                f.model(d),
                                denominator_s(&f, xs, j as int, m as nat),
                                f.sub_s(xs[j as int], xs[m as int]),
                            );
                        }
                    }
                    denominator = next;
                }
            }
            let inv = match field.invert(&denominator) {
                Some(v) => v,
                None => {
                    proof {
                        if laws {
                            lemma_field_parts(&f);
                            lemma_ring_parts(&f);
                            f.lemma_valid_member(denominator);
                            lemma_denominator_member(&f, xs, j as int, n as nat);
                            lemma_invertible(&f, f.model(denominator));
                            lemma_has_inverse_congruent(&f, f.model(denominator), denominator_s(&f, xs, j as int, n as nat));
                            assert(!has_inverse(&f, denominator_s(&f, xs, j as int, n as nat)));
                            assert(xs.len() == n);
                            assert(!nodes_ok(&f, xs));
                        }
                    }
                    return None;
                },
            };
            let mut v: Vec<F::E> = Vec::new();
            v.push(inv);
            let ghost vv = v@;
            let mut l = ring.element(v);
            proof {
                if laws {
                    lemma_field_parts(&f);
                    lemma_ring_parts(&f);
                    let ds = denominator_s(&f, xs, j as int, n as nat);
                    f.lemma_valid_member(denominator);
                    f.lemma_valid_member(inv);
                    lemma_denominator_member(&f, xs, j as int, n as nat);
                    crate::laws::lemma_inverse(&f, f.model(denominator), f.model(inv));
                    lemma_invertible(&f, f.model(denominator));
                    lemma_has_inverse_congruent(&f, f.model(denominator), ds);
                    // inv is the inverse of the denominator
                    let w = inverse_s(&f, ds);
                    lemma_refl(&f, f.model(inv));
                    crate::laws::lemma_mul_closed(&f, f.model(denominator), f.model(inv));
                    crate::laws::lemma_mul_closed(&f, ds, f.model(inv));
                    lemma_sym(&f, f.model(denominator), ds);
                    crate::laws::lemma_mul_congruent(&f, ds, f.model(denominator), f.model(inv), f.model(inv));
                    lemma_trans(&f, f.mul_s(ds, f.model(inv)), f.mul_s(f.model(denominator), f.model(inv)), f.one_s());
                    crate::laws::lemma_product_inverse_unique(&f, ds, f.model(inv), w);
                    ring.lemma_valid_member(l);
                    assert(all_members(&f, models(&f, vv)));
                    assert(all_members(&f, basis_s(&f, xs, j as int, 0)));
                    assert forall|k: int| 0 <= k < max_len(models(&f, vv).len(), basis_s(&f, xs, j as int, 0).len()) implies #[trigger] f.eqv(
                        coeff(&f, models(&f, vv), k),
                        coeff(&f, basis_s(&f, xs, j as int, 0), k),
                    ) by {
                    }
                    lemma_same_trans(&f, ring.model(l), models(&f, vv), basis_s(&f, xs, j as int, 0));
                }
            }
            for m in 0..n
                invariant
                    f == (**ring).coeff_ring(),
                    f == *field,
                    ring.wf(),
                    laws == field_laws(&f),
                    xs == models(&f, nodes@),
                    n == nodes@.len(),
                    j < n,
                    all_valid(&f, nodes@),
                    laws ==> all_members(&f, xs),
                    laws ==> has_inverse(&f, denominator_s(&f, xs, j as int, n as nat)),
                    ring.valid(l),
                    laws ==> ring.eqv(ring.model(l), basis_s(&f, xs, j as int, m as nat)),
            {
                if m != j {
                    assert(f.valid(nodes@[m as int]));
                    let zero = field.zero();
                    let neg = field.sub(&zero, &nodes[m]);
                    let one = field.identity();
                    let mut fv: Vec<F::E> = Vec::new();
                    fv.push(neg);
                    fv.push(one);
                    let ghost fvv = fv@;
                    let factor = ring.element(fv);
                    let next = ring.mul(&l, &factor);
                    proof {
                        if laws {
                            lemma_field_parts(&f);
                            lemma_ring_parts(&f);
                            let spec_factor = seq![f.sub_s(f.zero_s(), xs[m as int]), f.one_s()];
                            f.lemma_valid_member(zero);
                            f.lemma_valid_member(neg);
                            f.lemma_valid_member(one);
                            ring.lemma_valid_member(factor);
                            ring.lemma_valid_member(l);
                            ring.lemma_valid_member(next);
                            lemma_refl(&f, xs[m as int]);
                            lemma_sub_step(&f, f.model(neg), f.model(zero), xs[m as int], f.zero_s(), xs[m as int]);
                            assert(all_members(&f, models(&f, fvv)));
                            assert(all_members(&f, spec_factor));
                            assert forall|k: int| 0 <= k < max_len(models(&f, fvv).len(), spec_factor.len()) implies #[trigger] f.eqv(
                                coeff(&f, models(&f, fvv), k),
                                coeff(&f, spec_factor, k),
                            ) by {
                            }
                            lemma_same_trans(&f, ring.model(factor), models(&f, fvv), spec_factor);
                            let prev = basis_s(&f, xs, j as int, m as nat);
                            lemma_basis_member(&f, xs, j as int, m as nat);
                            lemma_poly_mul_congruent(&f, ring.model(l), prev, ring.model(factor), spec_factor);
                            lemma_poly_mul_members(&f, ring.model(l), ring.model(factor));
                            lemma_poly_mul_members(&f, prev, spec_factor);
                            lemma_same_trans(
                                &f,
                                ring.model(next),
                                poly_mul(&f, ring.model(l), ring.model(factor)),
                                poly_mul(&f, prev, spec_factor),
                            );
                        }
                    }
                    l = next;
                }
            }
            basis.push(l);
        }
        Some(Interpolation { ring: share(ring), basis })
    }

    /// How many nodes this was built for.
    pub fn nodes(&self) -> (r: usize)
        ensures
            r == self.basis_s().len(),
    {
        self.basis.len()
    }

    /// The polynomial taking `values[j]` at node `j`: `sum_j basis[j] · values[j]`.
    /// There must be one value per node.
    pub fn apply(&self, values: &[F::E]) -> (r: Polynomial<F>)
        requires
            self.well_formed(),
            values@.len() == self.basis_s().len(),
            all_valid(&(*self.ring_s()).coeff_ring(), values@),
        ensures
            self.ring_s().valid(r),
            self.ring_s().sound() ==> self.ring_s().eqv(
                self.ring_s().model(r),
                combination(
                    &(*self.ring_s()).coeff_ring(),
                    self.basis_models(),
                    models(&(*self.ring_s()).coeff_ring(), values@),
                    values@.len(),
                ),
            ),
    {
        let ghost h = self.ring_s();
        let ghost f = (*h).coeff_ring();
        let ghost ys = models(&f, values@);
        let n = self.basis.len();
        let mut sum = self.ring.zero();
        for j in 0..n
            invariant
                self.well_formed(),
                h == self.ring_s(),
                f == (*h).coeff_ring(),
                n == self.basis_s().len(),
                values@.len() == n,
                ys == models(&f, values@),
                all_valid(&f, values@),
                h.valid(sum),
                h.sound() ==> h.eqv(h.model(sum), combination(&f, self.basis_models(), ys, j as nat)),
        {
            assert(h.valid(self.basis_s()[j as int]));
            assert(f.valid(values@[j as int]));
            let term = scale(&self.ring, &self.basis[j], &values[j]);
            let next = self.ring.add(&sum, &term);
            proof {
                if h.sound() {
                    lemma_ring_parts(&f);
                    h.lemma_valid_member(sum);
                    h.lemma_valid_member(term);
                    h.lemma_valid_member(next);
                    h.lemma_valid_member(self.basis_s()[j as int]);
                    f.lemma_valid_member(values@[j as int]);
                    let prev = combination(&f, self.basis_models(), ys, j as nat);
                    let sc = scaled(&f, self.basis_models()[j as int], ys[j as int]);
                    assert forall|i: int| 0 <= i < n implies #[trigger] all_members(&f, self.basis_models()[i]) by {
                        h.lemma_valid_member(self.basis_s()[i]);
                    }
                    assert forall|i: int| 0 <= i < ys.len() implies #[trigger] f.member(ys[i]) by {
                        f.lemma_valid_member(values@[i]);
                    }
                    lemma_combination_members(&f, self.basis_models(), ys, j as nat, n as nat);
                    assert forall|k: int| 0 <= k < sc.len() implies #[trigger] f.member(sc[k]) by {
                        crate::laws::lemma_mul_closed(&f, self.basis_models()[j as int][k], ys[j as int]);
                    }
                    crate::polynomials::lemma_same_refl(&f, sc);
                    lemma_poly_add_congruent(&f, h.model(sum), prev, h.model(term), sc);
                    assert(all_members(&f, poly_add(&f, h.model(sum), h.model(term)))) by {
                        assert forall|k: int| 0 <= k < poly_add(&f, h.model(sum), h.model(term)).len() implies #[trigger] f.member(
                            poly_add(&f, h.model(sum), h.model(term))[k],
                        ) by {
                            crate::polynomials::lemma_coeff_member(&f, h.model(sum), k);
                            crate::polynomials::lemma_coeff_member(&f, h.model(term), k);
                            crate::laws::lemma_add_closed(&f, coeff(&f, h.model(sum), k), coeff(&f, h.model(term), k));
                        }
                    }
                    lemma_combination_members(&f, self.basis_models(), ys, (j + 1) as nat, n as nat);
                    lemma_same_trans(&f, h.model(next), poly_add(&f, h.model(sum), h.model(term)), poly_add(&f, prev, sc));
                }
            }
            sum = next;
        }
        sum
    }
}

/// Partial combinations of members are members.
proof fn lemma_combination_members<F: Field>(f: &F, basis: Seq<Seq<F::M>>, ys: Seq<F::M>, t: nat, n: nat)
    requires
        ring_laws(f),
        t <= n,
        basis.len() == n,
        ys.len() == n,
        forall|j: int| 0 <= j < n ==> #[trigger] all_members(f, basis[j]),
        all_members(f, ys),
    ensures
        all_members(f, combination(f, basis, ys, t)),
    decreases t,
{
    lemma_ring_parts(f);
    if t > 0 {
        lemma_combination_members(f, basis, ys, (t - 1) as nat, n);
        let prev = combination(f, basis, ys, (t - 1) as nat);
        let sc = scaled(f, basis[t - 1], ys[t - 1]);
        assert(all_members(f, basis[t - 1]));
        assert forall|k: int| 0 <= k < sc.len() implies #[trigger] f.member(sc[k]) by {
            crate::laws::lemma_mul_closed(f, basis[t - 1][k], ys[t - 1]);
        }
        assert forall|k: int| 0 <= k < poly_add(f, prev, sc).len() implies #[trigger] f.member(poly_add(f, prev, sc)[k]) by {
            crate::polynomials::lemma_coeff_member(f, prev, k);
            crate::polynomials::lemma_coeff_member(f, sc, k);
            crate::laws::lemma_add_closed(f, coeff(f, prev, k), coeff(f, sc, k));
        }
    }
}

/// The lowest-degree polynomial with `p(x[i]) == y[i]`, or `None` if a Lagrange
/// denominator cannot be inverted, as when two x values coincide.
///
/// Builds the Lagrange basis and discards it; use `Interpolation` to interpolate
/// repeatedly at the same nodes. `x` and `y` must have the same length.
pub fn interpolate<F: Field>(ring: &Rc<PolynomialRing<F>>, x: &[F::E], y: &[F::E]) -> (r: Option<Polynomial<F>>)
    requires
        ring.wf(),
        (**ring).coeff_ring().invert_defined(),
        all_valid(&(**ring).coeff_ring(), x@),
        all_valid(&(**ring).coeff_ring(), y@),
        x@.len() == y@.len(),
    ensures
        field_laws(&(**ring).coeff_ring()) ==> (r is Some <==> nodes_ok(
            &(**ring).coeff_ring(),
            models(&(**ring).coeff_ring(), x@),
        )),
        r matches Some(p) ==> ring.valid(p),
        r matches Some(p) ==> (field_laws(&(**ring).coeff_ring()) ==> ring.eqv(
            ring.model(p),
            interpolant(
                &(**ring).coeff_ring(),
                models(&(**ring).coeff_ring(), x@),
                models(&(**ring).coeff_ring(), y@),
            ),
        )),
        r matches Some(p) ==> (field_laws(&(**ring).coeff_ring()) ==> forall|m: int|
            0 <= m < x@.len() ==> #[trigger] (**ring).coeff_ring().eqv(
                horner(&(**ring).coeff_ring(), ring.model(p), (**ring).coeff_ring().model(x@[m])),
                (**ring).coeff_ring().model(y@[m]),
            )),
        r matches Some(p) ==> (field_laws(&(**ring).coeff_ring()) ==> p.coeffs().len() <= x@.len()),
{
    let ghost f = (**ring).coeff_ring();
    match Interpolation::new(ring, x) {
        None => None,
        Some(it) => {
            let p = it.apply(y);
            proof {
                if field_laws(&f) {
                    lemma_field_parts(&f);
                    lemma_ring_parts(&f);
                    let xs = models(&f, x@);
                    let ys = models(&f, y@);
                    let n = x@.len();
                    let spec_basis = Seq::new(n, |j: int| basis_s(&f, xs, j, n));
                    assert forall|i: int| 0 <= i < xs.len() implies #[trigger] f.member(xs[i]) by {
                        f.lemma_valid_member(x@[i]);
                    }
                    assert forall|i: int| 0 <= i < ys.len() implies #[trigger] f.member(ys[i]) by {
                        f.lemma_valid_member(y@[i]);
                    }
                    assert forall|j: int| 0 <= j < n implies #[trigger] all_members(&f, it.basis_models()[j]) by {
                        ring.lemma_valid_member(it.basis_s()[j]);
                    }
                    assert forall|j: int| 0 <= j < n implies #[trigger] all_members(&f, spec_basis[j]) by {
                        lemma_basis_member(&f, xs, j, n);
                    }
                    assert forall|j: int| 0 <= j < n implies #[trigger] same_coefficients(&f, it.basis_models()[j], spec_basis[j]) by {
                        assert(ring.eqv(it.basis_models()[j], basis_s(&f, xs, j, n)));
                    }
                    lemma_combination_congruent(&f, it.basis_models(), spec_basis, ys, n, n);
                    lemma_combination_members(&f, it.basis_models(), ys, n, n);
                    lemma_combination_members(&f, spec_basis, ys, n, n);
                    ring.lemma_valid_member(p);
                    lemma_same_trans(&f, ring.model(p), combination(&f, it.basis_models(), ys, n), interpolant(&f, xs, ys));
                    let ip = interpolant(&f, xs, ys);
                    let pm = ring.model(p);
                    assert forall|m: int| 0 <= m < n implies #[trigger] f.eqv(horner(&f, pm, f.model(x@[m])), f.model(y@[m])) by {
                        assert(xs[m] == f.model(x@[m]));
                        assert(ys[m] == f.model(y@[m]));
                        lemma_interpolant_passes_through(&f, xs, ys, m);
                        lemma_horner_congruent(&f, pm, ip, xs[m]);
                        crate::polynomials::lemma_horner_member(&f, pm, xs[m]);
                        crate::polynomials::lemma_horner_member(&f, ip, xs[m]);
                        lemma_trans(&f, horner(&f, pm, xs[m]), horner(&f, ip, xs[m]), ys[m]);
                    }
                    if n > 0 {
                        lemma_interpolant_passes_through(&f, xs, ys, 0);
                    } else {
                        assert(ip.len() == 0);
                    }
                    if pm.len() > ip.len() {
                        let last = pm.len() - 1;
                        assert(f.eqv(coeff(&f, pm, last), coeff(&f, ip, last)));
                        assert(coeff(&f, ip, last) == f.zero_s());
                        assert(!f.eqv(pm[last], f.zero_s()));
                    }
                    assert(p.coeffs().len() == pm.len());
                }
            }
            Some(p)
        },
    }
}

/// Combinations of equal bases are equal.
proof fn lemma_combination_congruent<F: Field>(
    f: &F,
    b1: Seq<Seq<F::M>>,
    b2: Seq<Seq<F::M>>,
    ys: Seq<F::M>,
    t: nat,
    n: nat,
)
    requires
        ring_laws(f),
        t <= n,
        b1.len() == n,
        b2.len() == n,
        ys.len() == n,
        forall|j: int| 0 <= j < n ==> #[trigger] all_members(f, b1[j]),
        forall|j: int| 0 <= j < n ==> #[trigger] all_members(f, b2[j]),
        forall|j: int| 0 <= j < n ==> #[trigger] same_coefficients(f, b1[j], b2[j]),
        all_members(f, ys),
    ensures
        same_coefficients(f, combination(f, b1, ys, t), combination(f, b2, ys, t)),
    decreases t,
{
    lemma_ring_parts(f);
    if t == 0 {
        crate::polynomials::lemma_same_refl(f, Seq::<F::M>::empty());
    } else {
        let j = t - 1;
        lemma_combination_congruent(f, b1, b2, ys, (t - 1) as nat, n);
        lemma_combination_members(f, b1, ys, (t - 1) as nat, n);
        lemma_combination_members(f, b2, ys, (t - 1) as nat, n);
        let s1 = scaled(f, b1[j], ys[j]);
        let s2 = scaled(f, b2[j], ys[j]);
        assert(all_members(f, b1[j]));
        assert(all_members(f, b2[j]));
        assert(same_coefficients(f, b1[j], b2[j]));
        assert forall|k: int| 0 <= k < s1.len() implies #[trigger] f.member(s1[k]) by {
            crate::laws::lemma_mul_closed(f, b1[j][k], ys[j]);
        }
        assert forall|k: int| 0 <= k < s2.len() implies #[trigger] f.member(s2[k]) by {
            crate::laws::lemma_mul_closed(f, b2[j][k], ys[j]);
        }
        assert forall|k: int| 0 <= k < max_len(s1.len(), s2.len()) implies #[trigger] f.eqv(coeff(f, s1, k), coeff(f, s2, k)) by {
            assert(f.eqv(coeff(f, b1[j], k), coeff(f, b2[j], k)));
            crate::polynomials::lemma_coeff_member(f, b1[j], k);
            crate::polynomials::lemma_coeff_member(f, b2[j], k);
            lemma_refl(f, ys[j]);
            if k < s1.len() && k < s2.len() {
                crate::laws::lemma_mul_closed(f, b1[j][k], ys[j]);
                lemma_refl(f, s1[k]);
                lemma_mul_step(f, s1[k], b1[j][k], ys[j], b2[j][k], ys[j]);
            } else if k < s1.len() {
                // b2 has no coefficient there, so b1[j][k] ~ 0 and s1[k] ~ 0
                crate::laws::lemma_mul_closed(f, b1[j][k], ys[j]);
                lemma_refl(f, s1[k]);
                lemma_mul_step(f, s1[k], b1[j][k], ys[j], f.zero_s(), ys[j]);
                crate::laws::lemma_zero_mul(f, ys[j]);
                lemma_trans(f, s1[k], f.mul_s(f.zero_s(), ys[j]), f.zero_s());
            } else {
                crate::laws::lemma_mul_closed(f, b2[j][k], ys[j]);
                lemma_refl(f, s2[k]);
                lemma_sym(f, f.zero_s(), coeff(f, b2[j], k));
                lemma_mul_step(f, s2[k], b2[j][k], ys[j], f.zero_s(), ys[j]);
                crate::laws::lemma_zero_mul(f, ys[j]);
                lemma_trans(f, s2[k], f.mul_s(f.zero_s(), ys[j]), f.zero_s());
                lemma_sym(f, s2[k], f.zero_s());
            }
        }
        lemma_poly_add_congruent(f, combination(f, b1, ys, (t - 1) as nat), combination(f, b2, ys, (t - 1) as nat), s1, s2);
    }
}

/// `a + (0 - b) ~ a - b`.
proof fn lemma_add_negation<F: Field>(f: &F, a: F::M, b: F::M)
    requires
        ring_laws(f),
        f.member(a),
        f.member(b),
    ensures
        f.eqv(f.add_s(a, f.sub_s(f.zero_s(), b)), f.sub_s(a, b)),
        f.member(f.add_s(a, f.sub_s(f.zero_s(), b))),
{
    lemma_ring_parts(f);
    crate::laws::lemma_group_additive(f);
    let z = f.zero_s();
    let nb = f.sub_s(z, b);
    lemma_sub_closed(f, z, b);
    lemma_sub_closed(f, a, b);
    lemma_add_closed(f, a, nb);
    lemma_add_closed(f, nb, b);
    lemma_add_closed(f, f.add_s(a, nb), b);
    lemma_add_closed(f, a, f.add_s(nb, b));
    lemma_add_closed(f, a, z);
    lemma_add_closed(f, f.sub_s(a, b), b);
    // (a + (0 - b)) + b ~ a + ((0 - b) + b) ~ a + 0 ~ a
    crate::laws::lemma_add_assoc(f, a, nb, b);
    crate::laws::lemma_sub_add(f, z, b);
    lemma_refl(f, a);
    lemma_add_congruent(f, a, a, f.add_s(nb, b), z);
    lemma_add_zero(f, a);
    lemma_trans(f, f.add_s(f.add_s(a, nb), b), f.add_s(a, f.add_s(nb, b)), f.add_s(a, z));
    lemma_trans(f, f.add_s(f.add_s(a, nb), b), f.add_s(a, z), a);
    // (a - b) + b ~ a
    crate::laws::lemma_sub_add(f, a, b);
    lemma_sym(f, f.add_s(f.sub_s(a, b), b), a);
    lemma_trans(f, f.add_s(f.add_s(a, nb), b), a, f.add_s(f.sub_s(a, b), b));
    crate::laws::lemma_add_cancel(f, f.add_s(a, nb), f.sub_s(a, b), b);
}

/// A basis polynomial has one coefficient, plus one for each factor `X - x_q` with
/// `q < t`, `q != j`.
proof fn lemma_basis_len<F: Field>(f: &F, xs: Seq<F::M>, j: int, t: nat)
    requires
        0 <= j,
    ensures
        basis_s(f, xs, j, t).len() == t + 1 - (if j < t { 1int } else { 0int }),
    decreases t,
{
    if t > 0 {
        lemma_basis_len(f, xs, j, (t - 1) as nat);
    }
}

/// The value at `xs[m]` of the `j`-th basis polynomial, factor by factor: the constant
/// `1 / prod (x_j - x_q)` times `x_m + (0 - x_q)` for each `q < t`, `q != j`.
pub open spec fn basis_value<F: Field>(f: &F, xs: Seq<F::M>, j: int, m: int, t: nat) -> F::M
    decreases t,
{
    if t == 0 {
        inverse_s(f, denominator_s(f, xs, j, xs.len()))
    } else if t - 1 == j {
        basis_value(f, xs, j, m, (t - 1) as nat)
    } else {
        f.mul_s(basis_value(f, xs, j, m, (t - 1) as nat), f.add_s(xs[m], f.sub_s(f.zero_s(), xs[t - 1])))
    }
}

/// The basis values are members.
proof fn lemma_basis_value_member<F: Field>(f: &F, xs: Seq<F::M>, j: int, m: int, t: nat)
    requires
        ring_laws(f),
        all_members(f, xs),
        0 <= j < xs.len(),
        0 <= m < xs.len(),
        t <= xs.len(),
        has_inverse(f, denominator_s(f, xs, j, xs.len())),
    ensures
        f.member(basis_value(f, xs, j, m, t)),
    decreases t,
{
    lemma_ring_parts(f);
    if t > 0 {
        lemma_basis_value_member(f, xs, j, m, (t - 1) as nat);
        if t - 1 != j {
            lemma_sub_closed(f, f.zero_s(), xs[t - 1]);
            lemma_add_closed(f, xs[m], f.sub_s(f.zero_s(), xs[t - 1]));
            lemma_mul_closed(f, basis_value(f, xs, j, m, (t - 1) as nat), f.add_s(xs[m], f.sub_s(f.zero_s(), xs[t - 1])));
        }
    }
}

/// The value of a basis polynomial at a node is its basis value.
proof fn lemma_basis_evaluates<F: Field>(f: &F, xs: Seq<F::M>, j: int, m: int, t: nat)
    requires
        ring_laws(f),
        commutative_laws(f),
        all_members(f, xs),
        0 <= j < xs.len(),
        0 <= m < xs.len(),
        t <= xs.len(),
        has_inverse(f, denominator_s(f, xs, j, xs.len())),
    ensures
        f.eqv(power_sum(f, basis_s(f, xs, j, t), xs[m], xs.len() + 1), basis_value(f, xs, j, m, t)),
    decreases t,
{
    lemma_ring_parts(f);
    let k = (xs.len() + 1) as nat;
    let x = xs[m];
    lemma_basis_member(f, xs, j, t);
    lemma_basis_len(f, xs, j, t);
    lemma_basis_value_member(f, xs, j, m, t);
    if t == 0 {
        let inv = inverse_s(f, denominator_s(f, xs, j, xs.len()));
        let b = basis_s(f, xs, j, 0);
        let z = f.zero_s();
        let one = f.one_s();
        assert(f.member(inv));
        lemma_power_sum_tail(f, b, x, k);
        assert(crate::pow::power(f, x, 0) == one);
        assert(power_sum(f, b, x, 0) == z);
        assert(power_sum(f, b, x, 1) == f.add_s(z, f.mul_s(inv, one)));
        lemma_mul_one(f, inv);
        lemma_mul_closed(f, inv, one);
        lemma_add_zero(f, f.mul_s(inv, one));
        lemma_add_closed(f, z, f.mul_s(inv, one));
        lemma_power_sum_member(f, b, x, k);
        lemma_trans(f, power_sum(f, b, x, k), f.add_s(z, f.mul_s(inv, one)), f.mul_s(inv, one));
        lemma_trans(f, power_sum(f, b, x, k), f.mul_s(inv, one), inv);
    } else {
        lemma_basis_evaluates(f, xs, j, m, (t - 1) as nat);
        if t - 1 != j {
            let p = basis_s(f, xs, j, (t - 1) as nat);
            let c0 = f.sub_s(f.zero_s(), xs[t - 1]);
            let v = basis_value(f, xs, j, m, (t - 1) as nat);
            lemma_basis_member(f, xs, j, (t - 1) as nat);
            lemma_basis_len(f, xs, j, (t - 1) as nat);
            lemma_basis_value_member(f, xs, j, m, (t - 1) as nat);
            lemma_sub_closed(f, f.zero_s(), xs[t - 1]);
            lemma_add_closed(f, x, c0);
            lemma_power_sum_linear_factor(f, p, c0, x, k);
            lemma_power_sum_member(f, p, x, k);
            lemma_power_sum_member(f, basis_s(f, xs, j, t), x, k);
            lemma_mul_closed(f, power_sum(f, p, x, k), f.add_s(x, c0));
            lemma_refl(f, f.add_s(x, c0));
            lemma_mul_congruent(f, power_sum(f, p, x, k), v, f.add_s(x, c0), f.add_s(x, c0));
            lemma_trans(
                f,
                power_sum(f, basis_s(f, xs, j, t), x, k),
                f.mul_s(power_sum(f, p, x, k), f.add_s(x, c0)),
                basis_value(f, xs, j, m, t),
            );
        }
    }
}

/// At a node other than its own, a basis value is zero once the factor for that node
/// is in.
proof fn lemma_basis_value_other<F: Field>(f: &F, xs: Seq<F::M>, j: int, m: int, t: nat)
    requires
        ring_laws(f),
        all_members(f, xs),
        0 <= j < xs.len(),
        0 <= m < xs.len(),
        m != j,
        m < t <= xs.len(),
        has_inverse(f, denominator_s(f, xs, j, xs.len())),
    ensures
        f.eqv(basis_value(f, xs, j, m, t), f.zero_s()),
    decreases t,
{
    lemma_ring_parts(f);
    let z = f.zero_s();
    let prev = basis_value(f, xs, j, m, (t - 1) as nat);
    lemma_basis_value_member(f, xs, j, m, (t - 1) as nat);
    let c = f.add_s(xs[m], f.sub_s(z, xs[t - 1]));
    lemma_sub_closed(f, z, xs[t - 1]);
    lemma_add_closed(f, xs[m], f.sub_s(z, xs[t - 1]));
    if t - 1 == m {
        // the factor for node m vanishes there
        lemma_refl(f, xs[m]);
        crate::multivariate::lemma_difference_zero(f, xs[m], xs[m]);
        lemma_refl(f, prev);
        lemma_mul_congruent(f, prev, prev, c, z);
        lemma_mul_zero(f, prev);
        lemma_mul_closed(f, prev, c);
        lemma_mul_closed(f, prev, z);
        lemma_trans(f, f.mul_s(prev, c), f.mul_s(prev, z), z);
    } else {
        lemma_basis_value_other(f, xs, j, m, (t - 1) as nat);
        if t - 1 != j {
            lemma_refl(f, c);
            lemma_mul_congruent(f, prev, z, c, c);
            lemma_zero_mul(f, c);
            lemma_mul_closed(f, prev, c);
            lemma_mul_closed(f, z, c);
            lemma_trans(f, f.mul_s(prev, c), f.mul_s(z, c), z);
        }
    }
}

/// At its own node, a basis value is the inverse of the denominator times the
/// partial denominator.
proof fn lemma_basis_value_own<F: Field>(f: &F, xs: Seq<F::M>, j: int, t: nat)
    requires
        ring_laws(f),
        all_members(f, xs),
        0 <= j < xs.len(),
        t <= xs.len(),
        has_inverse(f, denominator_s(f, xs, j, xs.len())),
    ensures
        f.eqv(
            basis_value(f, xs, j, j, t),
            f.mul_s(inverse_s(f, denominator_s(f, xs, j, xs.len())), denominator_s(f, xs, j, t)),
        ),
    decreases t,
{
    lemma_ring_parts(f);
    let inv = inverse_s(f, denominator_s(f, xs, j, xs.len()));
    assert(f.member(inv));
    lemma_denominator_member(f, xs, j, t);
    lemma_basis_value_member(f, xs, j, j, t);
    lemma_mul_closed(f, inv, denominator_s(f, xs, j, t));
    if t == 0 {
        lemma_mul_one(f, inv);
        lemma_sym(f, f.mul_s(inv, f.one_s()), inv);
    } else {
        lemma_basis_value_own(f, xs, j, (t - 1) as nat);
        if t - 1 != j {
            let z = f.zero_s();
            let prev = basis_value(f, xs, j, j, (t - 1) as nat);
            let d = denominator_s(f, xs, j, (t - 1) as nat);
            let c = f.add_s(xs[j], f.sub_s(z, xs[t - 1]));
            let diff = f.sub_s(xs[j], xs[t - 1]);
            lemma_basis_value_member(f, xs, j, j, (t - 1) as nat);
            lemma_denominator_member(f, xs, j, (t - 1) as nat);
            lemma_add_negation(f, xs[j], xs[t - 1]);
            lemma_sub_closed(f, xs[j], xs[t - 1]);
            lemma_mul_closed(f, inv, d);
            lemma_mul_congruent(f, prev, f.mul_s(inv, d), c, diff);
            lemma_mul_assoc(f, inv, d, diff);
            lemma_mul_closed(f, prev, c);
            lemma_mul_closed(f, f.mul_s(inv, d), diff);
            lemma_mul_closed(f, d, diff);
            lemma_mul_closed(f, inv, f.mul_s(d, diff));
            lemma_trans(f, f.mul_s(prev, c), f.mul_s(f.mul_s(inv, d), diff), f.mul_s(inv, f.mul_s(d, diff)));
        }
    }
}

/// A basis value at its own node is one.
proof fn lemma_basis_value_one<F: Field>(f: &F, xs: Seq<F::M>, j: int)
    requires
        ring_laws(f),
        commutative_laws(f),
        all_members(f, xs),
        0 <= j < xs.len(),
        has_inverse(f, denominator_s(f, xs, j, xs.len())),
    ensures
        f.eqv(basis_value(f, xs, j, j, xs.len()), f.one_s()),
{
    lemma_ring_parts(f);
    let d = denominator_s(f, xs, j, xs.len());
    let inv = inverse_s(f, d);
    assert(f.member(inv) && f.eqv(f.mul_s(d, inv), f.one_s()));
    lemma_denominator_member(f, xs, j, xs.len());
    lemma_basis_value_own(f, xs, j, xs.len());
    lemma_basis_value_member(f, xs, j, j, xs.len());
    lemma_mul_comm(f, inv, d);
    lemma_mul_closed(f, inv, d);
    lemma_mul_closed(f, d, inv);
    lemma_trans(f, basis_value(f, xs, j, j, xs.len()), f.mul_s(inv, d), f.mul_s(d, inv));
    lemma_trans(f, basis_value(f, xs, j, j, xs.len()), f.mul_s(d, inv), f.one_s());
}

/// The Lagrange basis of the nodes `xs`.
pub open spec fn lagrange_basis<F: Field>(f: &F, xs: Seq<F::M>) -> Seq<Seq<F::M>> {
    Seq::new(xs.len(), |j: int| basis_s(f, xs, j, xs.len()))
}

/// The value at `xs[m]` of the first `t` terms of the combination: `ys[m]` once the
/// `m`-th term is in, zero before.
proof fn lemma_combination_evaluates<F: Field>(f: &F, xs: Seq<F::M>, ys: Seq<F::M>, m: int, t: nat)
    requires
        ring_laws(f),
        commutative_laws(f),
        all_members(f, xs),
        all_members(f, ys),
        xs.len() == ys.len(),
        nodes_ok(f, xs),
        0 <= m < xs.len(),
        t <= xs.len(),
    ensures
        f.eqv(
            power_sum(f, combination(f, lagrange_basis(f, xs), ys, t), xs[m], xs.len() + 1),
            if m < t { ys[m] } else { f.zero_s() },
        ),
        all_members(f, combination(f, lagrange_basis(f, xs), ys, t)),
    decreases t,
{
    lemma_ring_parts(f);
    let n = xs.len();
    let k = (n + 1) as nat;
    let x = xs[m];
    let basis = lagrange_basis(f, xs);
    let z = f.zero_s();
    assert forall|j: int| 0 <= j < n implies #[trigger] all_members(f, basis[j]) by {
        assert(has_inverse(f, denominator_s(f, xs, j, n)));
        lemma_basis_member(f, xs, j, n);
    }
    lemma_combination_members(f, basis, ys, t, n);
    if t == 0 {
        lemma_power_sum_tail(f, combination(f, basis, ys, 0), x, k);
    } else {
        let j = t - 1;
        let prev = combination(f, basis, ys, (t - 1) as nat);
        let b = basis[j];
        let y = ys[j];
        let sp = power_sum(f, prev, x, k);
        let sb = power_sum(f, b, x, k);
        lemma_combination_evaluates(f, xs, ys, m, (t - 1) as nat);
        lemma_power_sum_scaled(f, b, y, x, k);
        lemma_power_sum_add(f, prev, scaled(f, b, y), x, k);
        lemma_power_sum_member(f, prev, x, k);
        lemma_power_sum_member(f, b, x, k);
        lemma_power_sum_member(f, scaled(f, b, y), x, k);
        assert(has_inverse(f, denominator_s(f, xs, j, n)));
        lemma_basis_evaluates(f, xs, j, m, n);
        lemma_basis_value_member(f, xs, j, m, n);
        lemma_mul_closed(f, sb, y);
        let target_prev = if m < t - 1 { ys[m] } else { z };
        // the new term's value: sb · y, with sb ~ (1 at node j, 0 elsewhere)
        let term_value = if m == j { y } else { z };
        if m == j {
            lemma_basis_value_one(f, xs, j);
            lemma_trans(f, sb, basis_value(f, xs, j, m, n), f.one_s());
            lemma_refl(f, y);
            lemma_mul_congruent(f, sb, f.one_s(), y, y);
            lemma_mul_one(f, y);
            lemma_mul_closed(f, f.one_s(), y);
            lemma_trans(f, f.mul_s(sb, y), f.mul_s(f.one_s(), y), y);
        } else {
            lemma_basis_value_other(f, xs, j, m, n);
            lemma_trans(f, sb, basis_value(f, xs, j, m, n), z);
            lemma_refl(f, y);
            lemma_mul_congruent(f, sb, z, y, y);
            lemma_zero_mul(f, y);
            lemma_mul_closed(f, z, y);
            lemma_trans(f, f.mul_s(sb, y), f.mul_s(z, y), z);
        }
        // the sum: previous value plus the new term's
        lemma_trans(f, power_sum(f, scaled(f, b, y), x, k), f.mul_s(sb, y), term_value);
        lemma_add_congruent(f, sp, target_prev, power_sum(f, scaled(f, b, y), x, k), term_value);
        let total = power_sum(f, combination(f, basis, ys, t), x, k);
        assert(combination(f, basis, ys, t) == poly_add(f, prev, scaled(f, b, y)));
        lemma_add_closed(f, sp, power_sum(f, scaled(f, b, y), x, k));
        lemma_add_closed(f, target_prev, term_value);
        lemma_power_sum_member(f, combination(f, basis, ys, t), x, k);
        lemma_trans(
            f,
            total,
            f.add_s(sp, power_sum(f, scaled(f, b, y), x, k)),
            f.add_s(target_prev, term_value),
        );
        if m == j {
            lemma_add_zero(f, y);
        } else {
            lemma_add_zero(f, target_prev);
        }
        lemma_trans(f, total, f.add_s(target_prev, term_value), if m < t { ys[m] } else { z });
    }
}

/// Partial combinations are no longer than the longest basis polynomial.
proof fn lemma_combination_len<F: Field>(f: &F, basis: Seq<Seq<F::M>>, ys: Seq<F::M>, t: nat, bound: nat)
    requires
        t <= basis.len(),
        forall|j: int| 0 <= j < basis.len() ==> (#[trigger] basis[j]).len() <= bound,
    ensures
        combination(f, basis, ys, t).len() <= bound,
    decreases t,
{
    if t > 0 {
        lemma_combination_len(f, basis, ys, (t - 1) as nat, bound);
    }
}

/// The interpolant takes the value `ys[m]` at every node `xs[m]`, and has at most one
/// coefficient per node: for distinct nodes over a field, it is a polynomial of degree
/// below the node count through every point `(xs[m], ys[m])`.
pub proof fn lemma_interpolant_passes_through<F: Field>(f: &F, xs: Seq<F::M>, ys: Seq<F::M>, m: int)
    requires
        field_laws(f),
        all_members(f, xs),
        all_members(f, ys),
        xs.len() == ys.len(),
        nodes_ok(f, xs),
        0 <= m < xs.len(),
    ensures
        f.eqv(horner(f, interpolant(f, xs, ys), xs[m]), ys[m]),
        interpolant(f, xs, ys).len() <= xs.len(),
        all_members(f, interpolant(f, xs, ys)),
{
    lemma_field_parts(f);
    let n = xs.len();
    let k = (n + 1) as nat;
    let p = interpolant(f, xs, ys);
    let basis = lagrange_basis(f, xs);
    assert(p == combination(f, basis, ys, n));
    assert forall|j: int| 0 <= j < n implies (#[trigger] basis[j]).len() <= n by {
        lemma_basis_len(f, xs, j, n);
    }
    lemma_combination_len(f, basis, ys, n, n);
    lemma_combination_evaluates(f, xs, ys, m, n);
    lemma_horner_power_sum(f, p, xs[m]);
    lemma_power_sum_tail(f, p, xs[m], k);
    crate::polynomials::lemma_horner_member(f, p, xs[m]);
    lemma_power_sum_member(f, p, xs[m], k);
    lemma_power_sum_member(f, p, xs[m], p.len());
    lemma_sym(f, power_sum(f, p, xs[m], k), power_sum(f, p, xs[m], p.len()));
    lemma_trans(f, horner(f, p, xs[m]), power_sum(f, p, xs[m], p.len()), power_sum(f, p, xs[m], k));
    lemma_trans(f, horner(f, p, xs[m]), power_sum(f, p, xs[m], k), ys[m]);
}

} // verus!
