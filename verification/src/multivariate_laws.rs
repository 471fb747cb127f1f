//! `R[x_0, .., x_{n-1}]` obeys the ring laws whenever `R` does, and is commutative
//! whenever `R` is.
//!
//! A polynomial is a list of terms, and two lists are equal when they give every
//! monomial the same coefficient. The coefficient of `m` in a product is
//! `sum_i a_i · coefficient(b, m - e_i)`, or symmetrically
//! `sum_j coefficient(a, m - f_j) · b_j`, where exponents subtract entry by entry,
//! wrapping around as they add; the laws follow from these two forms.

use crate::laws::{
    additive_laws, commutative_laws, equivalence, group_laws, lemma_add_closed, lemma_add_comm,
    lemma_add_congruent, lemma_add_zero, lemma_distrib, lemma_mul_assoc, lemma_mul_closed,
    lemma_mul_comm, lemma_mul_congruent, lemma_mul_one, lemma_mul_zero, lemma_refl,
    lemma_ring_parts, lemma_sub_add, lemma_sub_closed, lemma_sub_congruent, lemma_sym,
    lemma_trans, lemma_zero_mul, monoid_laws, ring_laws, semigroup_laws,
};
use crate::multivariate::{
    arity_ok, coefficient_of, exponent_sum, lemma_coefficient_absent, lemma_coefficient_concat,
    lemma_coefficient_member, lemma_coefficient_negated, lemma_coefficient_push,
    lemma_products_members, lemma_same_terms_refl, lemma_same_terms_sym, lemma_same_terms_trans,
    negated, products, row, same_terms, term_members, term_product, MultivariatePolynomialRing,
};
use crate::structures::{
    AdditiveGroup, CommutativeMonoid, DecidableEq, Domain, Monoid, Ring, Semigroup,
};
use crate::sums::{
    double_sum, flip, lemma_double_sum_swap, lemma_sum_add, lemma_sum_congruent, lemma_sum_member,
    lemma_sum_mul_left, lemma_sum_mul_right, row_sums, sum_of,
};
use std::rc::Rc;
use vstd::prelude::*;

verus! {

/// The exponents `m - e`, entry by entry, wrapping around below zero.
pub open spec fn exponent_diff(m: Seq<u32>, e: Seq<u32>) -> Seq<u32> {
    Seq::new(m.len(), |k: int| vstd::wrapping::u32_specs::wrapping_sub(m[k], e[k]))
}

/// What the entry `s[i]` adds to the coefficient of `m`.
pub open spec fn matching<R: Ring>(r: &R, s: Seq<(Seq<u32>, R::M)>, m: Seq<u32>) -> spec_fn(int) -> R::M {
    |i: int| if s[i].0 == m { s[i].1 } else { r.zero_s() }
}

/// The terms `a_i · coefficient(b, m - e_i)`.
pub open spec fn right_form<R: Ring>(r: &R, a: Seq<(Seq<u32>, R::M)>, b: Seq<(Seq<u32>, R::M)>, m: Seq<u32>) -> spec_fn(int) -> R::M {
    |i: int| r.mul_s(a[i].1, coefficient_of(r, b, exponent_diff(m, a[i].0)))
}

/// The terms `coefficient(a, m - f_j) · b_j`.
pub open spec fn left_form<R: Ring>(r: &R, a: Seq<(Seq<u32>, R::M)>, b: Seq<(Seq<u32>, R::M)>, m: Seq<u32>) -> spec_fn(int) -> R::M {
    |j: int| r.mul_s(coefficient_of(r, a, exponent_diff(m, b[j].0)), b[j].1)
}

/// What the pair of entries `a_i`, `b_j` adds to the coefficient of `m` in `a · b`.
pub open spec fn pair_term<R: Ring>(r: &R, a: Seq<(Seq<u32>, R::M)>, b: Seq<(Seq<u32>, R::M)>, m: Seq<u32>) -> spec_fn(int, int) -> R::M {
    |i: int, j: int| if exponent_sum(a[i].0, b[j].0) == m { r.mul_s(a[i].1, b[j].1) } else { r.zero_s() }
}

/// `x + e == m` exactly when `x == m - e`, for exponent vectors of one length.
pub proof fn lemma_exponent_match(x: Seq<u32>, e: Seq<u32>, m: Seq<u32>)
    requires
        x.len() == e.len(),
    ensures
        (exponent_sum(x, e) == m) == (x == exponent_diff(m, e)),
{
    if exponent_sum(x, e) == m {
        assert forall|k: int| 0 <= k < x.len() implies x[k] == #[trigger] exponent_diff(m, e)[k] by {
            assert(exponent_sum(x, e)[k] == m[k]);
        }
        assert(x =~= exponent_diff(m, e));
    }
    if x == exponent_diff(m, e) {
        assert forall|k: int| 0 <= k < m.len() implies #[trigger] exponent_sum(x, e)[k] == m[k] by {
            assert(x[k] == exponent_diff(m, e)[k]);
        }
        assert(exponent_sum(x, e) =~= m);
    }
}

/// Adding exponents commutes.
pub proof fn lemma_exponent_sum_comm(x: Seq<u32>, e: Seq<u32>)
    requires
        x.len() == e.len(),
    ensures
        exponent_sum(x, e) == exponent_sum(e, x),
{
    assert(exponent_sum(x, e) =~= exponent_sum(e, x));
}

/// The coefficient of a monomial that has the wrong number of exponents is zero.
pub proof fn lemma_wrong_arity<R: Ring>(r: &R, s: Seq<(Seq<u32>, R::M)>, n: nat, m: Seq<u32>)
    requires
        arity_ok(s, n),
        m.len() != n,
    ensures
        coefficient_of(r, s, m) == r.zero_s(),
{
    assert forall|i: int| 0 <= i < s.len() implies (#[trigger] s[i]).0 != m by {
        assert(s[i].0.len() == n);
    }
    lemma_coefficient_absent(r, s, m);
}

/// A coefficient is the sum of what each entry adds to it.
pub proof fn lemma_coefficient_sum<R: Ring>(r: &R, s: Seq<(Seq<u32>, R::M)>, m: Seq<u32>)
    requires
        ring_laws(r),
        term_members(r, s),
    ensures
        forall|i: int| 0 <= i < s.len() ==> #[trigger] r.member(matching(r, s, m)(i)),
        r.eqv(coefficient_of(r, s, m), sum_of(r, matching(r, s, m), s.len())),
    decreases s.len(),
{
    lemma_ring_parts(r);
    let f = matching(r, s, m);
    assert forall|i: int| 0 <= i < s.len() implies #[trigger] r.member(f(i)) by {
    }
    if s.len() == 0 {
        lemma_refl(r, r.zero_s());
    } else {
        let k = (s.len() - 1) as nat;
        let s1 = s.drop_last();
        let f1 = matching(r, s1, m);
        lemma_coefficient_sum(r, s1, m);
        assert forall|i: int| 0 <= i < k implies r.eqv(#[trigger] f1(i), f(i)) by {
            assert(s1[i] == s[i]);
            lemma_refl(r, f(i));
        }
        lemma_sum_congruent(r, f1, f, k);
        lemma_sum_member(r, f1, k);
        lemma_sum_member(r, f, k);
        lemma_coefficient_member(r, s1, m);
        let c1 = coefficient_of(r, s1, m);
        let p = sum_of(r, f, k);
        lemma_trans(r, c1, sum_of(r, f1, k), p);
        let x = f(k as int);
        assert(r.member(x));
        lemma_add_closed(r, p, x);
        assert(sum_of(r, f, s.len()) == r.add_s(p, x));
        if s.last().0 == m {
            lemma_refl(r, x);
            lemma_add_congruent(r, c1, p, x, x);
        } else {
            lemma_add_zero(r, p);
            lemma_sym(r, r.add_s(p, x), p);
            lemma_trans(r, c1, p, r.add_s(p, x));
        }
    }
}

/// Every exponent vector of a product has `n` entries.
pub proof fn lemma_products_arity<R: Ring>(r: &R, a: Seq<(Seq<u32>, R::M)>, b: Seq<(Seq<u32>, R::M)>, n: nat)
    requires
        arity_ok(a, n),
        arity_ok(b, n),
    ensures
        arity_ok(products(r, a, b), n),
    decreases a.len(),
{
    if a.len() > 0 {
        lemma_products_arity(r, a.drop_last(), b, n);
        assert(arity_ok(row(r, a.last(), b), n));
        assert(arity_ok(products(r, a.drop_last(), b) + row(r, a.last(), b), n));
    }
}

/// The coefficient of `m` in the products of one term `s` with `b` is
/// `s · coefficient(b, m - e)`.
proof fn lemma_row_coefficient<R: Ring>(r: &R, s: (Seq<u32>, R::M), b: Seq<(Seq<u32>, R::M)>, n: nat, m: Seq<u32>)
    requires
        ring_laws(r),
        r.member(s.1),
        term_members(r, b),
        s.0.len() == n,
        arity_ok(b, n),
    ensures
        r.eqv(coefficient_of(r, row(r, s, b), m), r.mul_s(s.1, coefficient_of(r, b, exponent_diff(m, s.0)))),
    decreases b.len(),
{
    lemma_ring_parts(r);
    let d = exponent_diff(m, s.0);
    if b.len() == 0 {
        assert(row(r, s, b) =~= Seq::<(Seq<u32>, R::M)>::empty());
        lemma_mul_zero(r, s.1);
        lemma_mul_closed(r, s.1, r.zero_s());
        lemma_sym(r, r.mul_s(s.1, r.zero_s()), r.zero_s());
    } else {
        let b1 = b.drop_last();
        let t = b.last();
        lemma_row_coefficient(r, s, b1, n, m);
        assert(row(r, s, b) =~= row(r, s, b1).push(term_product(r, s, t)));
        assert(b1.push(t) =~= b);
        lemma_coefficient_push(r, row(r, s, b1), term_product(r, s, t), m);
        lemma_coefficient_push(r, b1, t, d);
        let c1 = coefficient_of(r, row(r, s, b1), m);
        let cb = coefficient_of(r, b1, d);
        lemma_coefficient_member(r, b1, d);
        assert(forall|i: int| 0 <= i < row(r, s, b1).len() ==> #[trigger] row(r, s, b1)[i] == term_product(r, s, b1[i]));
        assert(term_members(r, row(r, s, b1))) by {
            assert forall|i: int| 0 <= i < row(r, s, b1).len() implies #[trigger] r.member(row(r, s, b1)[i].1) by {
                lemma_mul_closed(r, s.1, b1[i].1);
            }
        }
        lemma_coefficient_member(r, row(r, s, b1), m);
        assert(r.member(t.1));
        assert(t.0.len() == n);
        lemma_exponent_sum_comm(s.0, t.0);
        lemma_exponent_match(t.0, s.0, m);
        lemma_mul_closed(r, s.1, t.1);
        lemma_mul_closed(r, s.1, cb);
        if t.0 == d {
            // both gain the product of the matching term
            lemma_refl(r, r.mul_s(s.1, t.1));
            lemma_add_congruent(r, c1, r.mul_s(s.1, cb), r.mul_s(s.1, t.1), r.mul_s(s.1, t.1));
            lemma_distrib(r, s.1, cb, t.1);
            lemma_add_closed(r, cb, t.1);
            lemma_mul_closed(r, s.1, r.add_s(cb, t.1));
            lemma_add_closed(r, c1, r.mul_s(s.1, t.1));
            lemma_add_closed(r, r.mul_s(s.1, cb), r.mul_s(s.1, t.1));
            lemma_sym(r, r.mul_s(s.1, r.add_s(cb, t.1)), r.add_s(r.mul_s(s.1, cb), r.mul_s(s.1, t.1)));
            lemma_trans(
                r,
                r.add_s(c1, r.mul_s(s.1, t.1)),
                r.add_s(r.mul_s(s.1, cb), r.mul_s(s.1, t.1)),
                r.mul_s(s.1, r.add_s(cb, t.1)),
            );
        }
    }
}

/// The coefficient of `m` in `a · b` is `sum_i a_i · coefficient(b, m - e_i)`.
pub proof fn lemma_product_right<R: Ring>(r: &R, a: Seq<(Seq<u32>, R::M)>, b: Seq<(Seq<u32>, R::M)>, n: nat, m: Seq<u32>)
    requires
        ring_laws(r),
        term_members(r, a),
        term_members(r, b),
        arity_ok(a, n),
        arity_ok(b, n),
    ensures
        forall|i: int| 0 <= i < a.len() ==> #[trigger] r.member(right_form(r, a, b, m)(i)),
        r.eqv(coefficient_of(r, products(r, a, b), m), sum_of(r, right_form(r, a, b, m), a.len())),
    decreases a.len(),
{
    lemma_ring_parts(r);
    let f = right_form(r, a, b, m);
    assert forall|i: int| 0 <= i < a.len() implies #[trigger] r.member(f(i)) by {
        lemma_coefficient_member(r, b, exponent_diff(m, a[i].0));
        lemma_mul_closed(r, a[i].1, coefficient_of(r, b, exponent_diff(m, a[i].0)));
    }
    if a.len() == 0 {
        lemma_refl(r, r.zero_s());
    } else {
        let k = (a.len() - 1) as nat;
        let a1 = a.drop_last();
        let s = a.last();
        let f1 = right_form(r, a1, b, m);
        lemma_product_right(r, a1, b, n, m);
        assert forall|i: int| 0 <= i < k implies r.eqv(#[trigger] f1(i), f(i)) by {
            assert(a1[i] == a[i]);
            lemma_refl(r, f(i));
        }
        lemma_sum_congruent(r, f1, f, k);
        lemma_products_members(r, a1, b);
        assert(term_members(r, row(r, s, b))) by {
            assert forall|j: int| 0 <= j < row(r, s, b).len() implies #[trigger] r.member(row(r, s, b)[j].1) by {
                lemma_mul_closed(r, s.1, b[j].1);
            }
        }
        lemma_coefficient_concat(r, products(r, a1, b), row(r, s, b), m);
        lemma_products_members(r, a, b);
        lemma_coefficient_member(r, products(r, a, b), m);
        lemma_row_coefficient(r, s, b, n, m);
        let cp = coefficient_of(r, products(r, a1, b), m);
        let cr = coefficient_of(r, row(r, s, b), m);
        lemma_coefficient_member(r, products(r, a1, b), m);
        lemma_coefficient_member(r, row(r, s, b), m);
        lemma_sum_member(r, f1, k);
        lemma_sum_member(r, f, k);
        lemma_trans(r, cp, sum_of(r, f1, k), sum_of(r, f, k));
        assert(f(k as int) == r.mul_s(s.1, coefficient_of(r, b, exponent_diff(m, s.0))));
        lemma_add_congruent(r, cp, sum_of(r, f, k), cr, f(k as int));
        lemma_add_closed(r, cp, cr);
        lemma_add_closed(r, sum_of(r, f, k), f(k as int));
        lemma_trans(r, coefficient_of(r, products(r, a, b), m), r.add_s(cp, cr), r.add_s(sum_of(r, f, k), f(k as int)));
    }
}

/// The coefficient of `m` in `a · b` is the double sum of what each pair of entries
/// adds to it.
proof fn lemma_product_pairs<R: Ring>(r: &R, a: Seq<(Seq<u32>, R::M)>, b: Seq<(Seq<u32>, R::M)>, n: nat, m: Seq<u32>)
    requires
        ring_laws(r),
        term_members(r, a),
        term_members(r, b),
        arity_ok(a, n),
        arity_ok(b, n),
    ensures
        forall|i: int, j: int| 0 <= i < a.len() && 0 <= j < b.len() ==> #[trigger] r.member(pair_term(r, a, b, m)(i, j)),
        r.eqv(coefficient_of(r, products(r, a, b), m), double_sum(r, pair_term(r, a, b, m), a.len(), b.len())),
{
    lemma_ring_parts(r);
    let g = pair_term(r, a, b, m);
    let f = right_form(r, a, b, m);
    let rows = row_sums(r, g, b.len());
    assert forall|i: int, j: int| 0 <= i < a.len() && 0 <= j < b.len() implies #[trigger] r.member(g(i, j)) by {
        lemma_mul_closed(r, a[i].1, b[j].1);
    }
    lemma_product_right(r, a, b, n, m);
    assert forall|i: int| 0 <= i < a.len() implies #[trigger] r.member(rows(i)) by {
        let gi = |j: int| g(i, j);
        assert forall|j: int| 0 <= j < b.len() implies #[trigger] r.member(gi(j)) by {
            assert(r.member(g(i, j)));
        }
        lemma_sum_member(r, gi, b.len());
    }
    assert forall|i: int| 0 <= i < a.len() implies r.eqv(#[trigger] f(i), rows(i)) by {
        let d = exponent_diff(m, a[i].0);
        let mt = matching(r, b, d);
        let gi = |j: int| g(i, j);
        let ai = a[i].1;
        lemma_coefficient_sum(r, b, d);
        lemma_sum_mul_left(r, ai, mt, b.len());
        let am = |j: int| r.mul_s(ai, mt(j));
        assert forall|j: int| 0 <= j < b.len() implies #[trigger] r.member(am(j)) by {
            lemma_mul_closed(r, ai, mt(j));
        }
        assert forall|j: int| 0 <= j < b.len() implies #[trigger] r.member(gi(j)) by {
            assert(r.member(g(i, j)));
        }
        assert forall|j: int| 0 <= j < b.len() implies r.eqv(#[trigger] am(j), gi(j)) by {
            assert(a[i].0.len() == n && b[j].0.len() == n);
            lemma_exponent_sum_comm(a[i].0, b[j].0);
            lemma_exponent_match(b[j].0, a[i].0, m);
            if b[j].0 == d {
                lemma_mul_closed(r, ai, b[j].1);
                lemma_refl(r, r.mul_s(ai, b[j].1));
            } else {
                lemma_mul_zero(r, ai);
            }
        }
        lemma_sum_congruent(r, am, gi, b.len());
        lemma_coefficient_member(r, b, d);
        lemma_sum_member(r, mt, b.len());
        lemma_sum_member(r, am, b.len());
        lemma_sum_member(r, gi, b.len());
        lemma_refl(r, ai);
        lemma_mul_congruent(r, ai, ai, coefficient_of(r, b, d), sum_of(r, mt, b.len()));
        lemma_mul_closed(r, ai, sum_of(r, mt, b.len()));
        lemma_trans(r, f(i), r.mul_s(ai, sum_of(r, mt, b.len())), sum_of(r, am, b.len()));
        lemma_trans(r, f(i), sum_of(r, am, b.len()), sum_of(r, gi, b.len()));
    }
    lemma_sum_congruent(r, f, rows, a.len());
    lemma_sum_member(r, f, a.len());
    lemma_products_members(r, a, b);
    lemma_coefficient_member(r, products(r, a, b), m);
    lemma_sum_member(r, rows, a.len());
    lemma_trans(r, coefficient_of(r, products(r, a, b), m), sum_of(r, f, a.len()), sum_of(r, rows, a.len()));
}

/// The coefficient of `m` in `a · b` is `sum_j coefficient(a, m - f_j) · b_j`.
pub proof fn lemma_product_left<R: Ring>(r: &R, a: Seq<(Seq<u32>, R::M)>, b: Seq<(Seq<u32>, R::M)>, n: nat, m: Seq<u32>)
    requires
        ring_laws(r),
        term_members(r, a),
        term_members(r, b),
        arity_ok(a, n),
        arity_ok(b, n),
    ensures
        forall|j: int| 0 <= j < b.len() ==> #[trigger] r.member(left_form(r, a, b, m)(j)),
        r.eqv(coefficient_of(r, products(r, a, b), m), sum_of(r, left_form(r, a, b, m), b.len())),
{
    lemma_ring_parts(r);
    let g = pair_term(r, a, b, m);
    let f = left_form(r, a, b, m);
    let cols = row_sums(r, flip(g), a.len());
    lemma_product_pairs(r, a, b, n, m);
    assert forall|j: int, i: int| 0 <= j < b.len() && 0 <= i < a.len() implies #[trigger] r.member(flip(g)(j, i)) by {
        assert(r.member(g(i, j)));
    }
    lemma_double_sum_swap(r, g, a.len(), b.len());
    assert forall|j: int| 0 <= j < b.len() implies #[trigger] r.member(f(j)) by {
        lemma_coefficient_member(r, a, exponent_diff(m, b[j].0));
        lemma_mul_closed(r, coefficient_of(r, a, exponent_diff(m, b[j].0)), b[j].1);
    }
    assert forall|j: int| 0 <= j < b.len() implies #[trigger] r.member(cols(j)) by {
        let gj = |i: int| flip(g)(j, i);
        assert forall|i: int| 0 <= i < a.len() implies #[trigger] r.member(gj(i)) by {
            assert(r.member(g(i, j)));
        }
        lemma_sum_member(r, gj, a.len());
    }
    assert forall|j: int| 0 <= j < b.len() implies r.eqv(#[trigger] cols(j), f(j)) by {
        let d = exponent_diff(m, b[j].0);
        let mt = matching(r, a, d);
        let gj = |i: int| flip(g)(j, i);
        let bj = b[j].1;
        let mb = |i: int| r.mul_s(mt(i), bj);
        lemma_coefficient_sum(r, a, d);
        lemma_sum_mul_right(r, mt, bj, a.len());
        assert forall|i: int| 0 <= i < a.len() implies #[trigger] r.member(mb(i)) by {
            lemma_mul_closed(r, mt(i), bj);
        }
        assert forall|i: int| 0 <= i < a.len() implies #[trigger] r.member(gj(i)) by {
            assert(r.member(g(i, j)));
        }
        assert forall|i: int| 0 <= i < a.len() implies r.eqv(#[trigger] gj(i), mb(i)) by {
            assert(a[i].0.len() == n && b[j].0.len() == n);
            lemma_exponent_match(a[i].0, b[j].0, m);
            if a[i].0 == d {
                lemma_mul_closed(r, a[i].1, bj);
                lemma_refl(r, r.mul_s(a[i].1, bj));
            } else {
                lemma_zero_mul(r, bj);
                lemma_mul_closed(r, r.zero_s(), bj);
                lemma_sym(r, r.mul_s(r.zero_s(), bj), r.zero_s());
            }
        }
        lemma_sum_congruent(r, gj, mb, a.len());
        lemma_coefficient_member(r, a, d);
        lemma_sum_member(r, mt, a.len());
        lemma_sum_member(r, mb, a.len());
        lemma_sum_member(r, gj, a.len());
        lemma_refl(r, bj);
        lemma_sym(r, coefficient_of(r, a, d), sum_of(r, mt, a.len()));
        lemma_mul_congruent(r, sum_of(r, mt, a.len()), coefficient_of(r, a, d), bj, bj);
        lemma_mul_closed(r, sum_of(r, mt, a.len()), bj);
        lemma_sym(r, r.mul_s(sum_of(r, mt, a.len()), bj), sum_of(r, mb, a.len()));
        lemma_trans(r, cols(j), sum_of(r, mb, a.len()), r.mul_s(sum_of(r, mt, a.len()), bj));
        lemma_trans(r, cols(j), r.mul_s(sum_of(r, mt, a.len()), bj), f(j));
    }
    lemma_sum_congruent(r, cols, f, b.len());
    let rows = row_sums(r, g, b.len());
    assert forall|i: int| 0 <= i < a.len() implies #[trigger] r.member(rows(i)) by {
        let gi = |j: int| g(i, j);
        assert forall|j: int| 0 <= j < b.len() implies #[trigger] r.member(gi(j)) by {
            assert(r.member(g(i, j)));
        }
        lemma_sum_member(r, gi, b.len());
    }
    lemma_sum_member(r, rows, a.len());
    lemma_sum_member(r, cols, b.len());
    lemma_sum_member(r, f, b.len());
    lemma_products_members(r, a, b);
    lemma_coefficient_member(r, products(r, a, b), m);
    assert(double_sum(r, g, a.len(), b.len()) == sum_of(r, rows, a.len()));
    assert(double_sum(r, flip(g), b.len(), a.len()) == sum_of(r, cols, b.len()));
    lemma_trans(r, coefficient_of(r, products(r, a, b), m), sum_of(r, rows, a.len()), sum_of(r, cols, b.len()));
    lemma_trans(r, coefficient_of(r, products(r, a, b), m), sum_of(r, cols, b.len()), sum_of(r, f, b.len()));
}

/// Subtracting exponents in either order gives the same result.
proof fn lemma_exponent_diff_swap(m: Seq<u32>, a: Seq<u32>, c: Seq<u32>, n: nat)
    requires
        m.len() == n,
        a.len() == n,
        c.len() == n,
    ensures
        exponent_diff(exponent_diff(m, c), a) == exponent_diff(exponent_diff(m, a), c),
{
    assert(exponent_diff(exponent_diff(m, c), a) =~= exponent_diff(exponent_diff(m, a), c));
}

/// The coefficient at `(m - c) - a` is the coefficient at `(m - a) - c`.
proof fn lemma_coefficient_diff_swap<R: Ring>(r: &R, b: Seq<(Seq<u32>, R::M)>, m: Seq<u32>, a: Seq<u32>, c: Seq<u32>, n: nat)
    requires
        arity_ok(b, n),
        a.len() == n,
        c.len() == n,
    ensures
        coefficient_of(r, b, exponent_diff(exponent_diff(m, c), a)) == coefficient_of(r, b, exponent_diff(exponent_diff(m, a), c)),
{
    if m.len() == n {
        lemma_exponent_diff_swap(m, a, c, n);
    } else {
        lemma_wrong_arity(r, b, n, exponent_diff(exponent_diff(m, c), a));
        lemma_wrong_arity(r, b, n, exponent_diff(exponent_diff(m, a), c));
    }
}

/// The products of a concatenation are the concatenated products.
pub proof fn lemma_products_concat<R: Ring>(r: &R, a: Seq<(Seq<u32>, R::M)>, b: Seq<(Seq<u32>, R::M)>, c: Seq<(Seq<u32>, R::M)>)
    ensures
        products(r, a + b, c) == products(r, a, c) + products(r, b, c),
    decreases b.len(),
{
    if b.len() == 0 {
        assert(a + b =~= a);
        assert(products(r, a, c) + products(r, b, c) =~= products(r, a, c));
    } else {
        let b1 = b.drop_last();
        lemma_products_concat(r, a, b1, c);
        assert((a + b).drop_last() =~= a + b1);
        assert((a + b).last() == b.last());
        assert(products(r, a, c) + products(r, b, c) =~= (products(r, a, c) + products(r, b1, c)) + row(r, b.last(), c));
    }
}

/// The coefficient of `m` in the monomial `x^0` with coefficient `c`, at `m - 0`, is
/// the coefficient at `m`.
proof fn lemma_diff_zero<R: Ring>(r: &R, a: Seq<(Seq<u32>, R::M)>, n: nat, m: Seq<u32>)
    requires
        arity_ok(a, n),
    ensures
        coefficient_of(r, a, exponent_diff(m, Seq::new(n, |k: int| 0u32))) == coefficient_of(r, a, m),
{
    let z = Seq::new(n, |k: int| 0u32);
    if m.len() == n {
        assert(exponent_diff(m, z) =~= m);
    } else {
        lemma_wrong_arity(r, a, n, exponent_diff(m, z));
        lemma_wrong_arity(r, a, n, m);
    }
}

/// Multiplication of term lists is associative, up to equal coefficients.
pub proof fn lemma_products_assoc<R: Ring>(r: &R, a: Seq<(Seq<u32>, R::M)>, b: Seq<(Seq<u32>, R::M)>, c: Seq<(Seq<u32>, R::M)>, n: nat)
    requires
        ring_laws(r),
        term_members(r, a),
        term_members(r, b),
        term_members(r, c),
        arity_ok(a, n),
        arity_ok(b, n),
        arity_ok(c, n),
    ensures
        same_terms(r, products(r, products(r, a, b), c), products(r, a, products(r, b, c))),
{
    lemma_ring_parts(r);
    let ab = products(r, a, b);
    let bc = products(r, b, c);
    lemma_products_members(r, a, b);
    lemma_products_members(r, b, c);
    lemma_products_arity(r, a, b, n);
    lemma_products_arity(r, b, c, n);
    assert forall|m: Seq<u32>|
        #![trigger coefficient_of(r, products(r, ab, c), m)]
        #![trigger coefficient_of(r, products(r, a, bc), m)]
        r.eqv(coefficient_of(r, products(r, ab, c), m), coefficient_of(r, products(r, a, bc), m)) by {
        // (k, i) ↦ (a_i · coefficient(b, (m - g_k) - e_i)) · c_k
        let lt = |k: int, i: int| r.mul_s(r.mul_s(a[i].1, coefficient_of(r, b, exponent_diff(exponent_diff(m, c[k].0), a[i].0))), c[k].1);
        let rt = |i: int, k: int| r.mul_s(a[i].1, r.mul_s(coefficient_of(r, b, exponent_diff(exponent_diff(m, a[i].0), c[k].0)), c[k].1));
        let lf = left_form(r, ab, c, m);
        let rf = right_form(r, a, bc, m);
        lemma_product_left(r, ab, c, n, m);
        lemma_product_right(r, a, bc, n, m);
        assert forall|k: int, i: int| 0 <= k < c.len() && 0 <= i < a.len() implies #[trigger] r.member(lt(k, i)) by {
            let x = coefficient_of(r, b, exponent_diff(exponent_diff(m, c[k].0), a[i].0));
            lemma_coefficient_member(r, b, exponent_diff(exponent_diff(m, c[k].0), a[i].0));
            lemma_mul_closed(r, a[i].1, x);
            lemma_mul_closed(r, r.mul_s(a[i].1, x), c[k].1);
        }
        assert forall|i: int, k: int| 0 <= i < a.len() && 0 <= k < c.len() implies #[trigger] r.member(rt(i, k)) by {
            let x = coefficient_of(r, b, exponent_diff(exponent_diff(m, a[i].0), c[k].0));
            lemma_coefficient_member(r, b, exponent_diff(exponent_diff(m, a[i].0), c[k].0));
            lemma_mul_closed(r, x, c[k].1);
            lemma_mul_closed(r, a[i].1, r.mul_s(x, c[k].1));
        }
        // left side: sum over k of (sum over i) · c_k
        let lrows = row_sums(r, lt, a.len());
        assert forall|k: int| 0 <= k < c.len() implies #[trigger] r.member(lrows(k)) by {
            let f = |i: int| lt(k, i);
            assert forall|i: int| 0 <= i < a.len() implies #[trigger] r.member(f(i)) by {
                assert(r.member(lt(k, i)));
            }
            lemma_sum_member(r, f, a.len());
        }
        assert forall|k: int| 0 <= k < c.len() implies r.eqv(#[trigger] lf(k), lrows(k)) by {
            let d = exponent_diff(m, c[k].0);
            let inner = right_form(r, a, b, d);
            lemma_product_right(r, a, b, n, d);
            lemma_sum_mul_right(r, inner, c[k].1, a.len());
            assert((|i: int| r.mul_s(inner(i), c[k].1)) =~= (|i: int| lt(k, i)));
            lemma_refl(r, c[k].1);
            lemma_coefficient_member(r, ab, d);
            lemma_sum_member(r, inner, a.len());
            lemma_mul_congruent(r, coefficient_of(r, ab, d), sum_of(r, inner, a.len()), c[k].1, c[k].1);
            lemma_mul_closed(r, coefficient_of(r, ab, d), c[k].1);
            lemma_mul_closed(r, sum_of(r, inner, a.len()), c[k].1);
            lemma_trans(r, lf(k), r.mul_s(sum_of(r, inner, a.len()), c[k].1), lrows(k));
        }
        lemma_sum_congruent(r, lf, lrows, c.len());
        lemma_double_sum_swap(r, lt, c.len(), a.len());
        // right side: sum over i of a_i · (sum over k)
        let rrows = row_sums(r, rt, c.len());
        assert forall|i: int| 0 <= i < a.len() implies #[trigger] r.member(rrows(i)) by {
            let f = |k: int| rt(i, k);
            assert forall|k: int| 0 <= k < c.len() implies #[trigger] r.member(f(k)) by {
                assert(r.member(rt(i, k)));
            }
            lemma_sum_member(r, f, c.len());
        }
        assert forall|i: int| 0 <= i < a.len() implies r.eqv(#[trigger] rf(i), rrows(i)) by {
            let d = exponent_diff(m, a[i].0);
            let inner = left_form(r, b, c, d);
            lemma_product_left(r, b, c, n, d);
            lemma_sum_mul_left(r, a[i].1, inner, c.len());
            assert((|k: int| r.mul_s(a[i].1, inner(k))) =~= (|k: int| rt(i, k)));
            lemma_refl(r, a[i].1);
            lemma_coefficient_member(r, bc, d);
            lemma_sum_member(r, inner, c.len());
            lemma_mul_congruent(r, a[i].1, a[i].1, coefficient_of(r, bc, d), sum_of(r, inner, c.len()));
            lemma_mul_closed(r, a[i].1, coefficient_of(r, bc, d));
            lemma_mul_closed(r, a[i].1, sum_of(r, inner, c.len()));
            lemma_trans(r, rf(i), r.mul_s(a[i].1, sum_of(r, inner, c.len())), rrows(i));
        }
        lemma_sum_congruent(r, rf, rrows, a.len());
        // and the rows agree term by term
        let frows = row_sums(r, flip(lt), c.len());
        assert forall|i: int| 0 <= i < a.len() implies #[trigger] r.member(frows(i)) by {
            let f = |k: int| flip(lt)(i, k);
            assert forall|k: int| 0 <= k < c.len() implies #[trigger] r.member(f(k)) by {
                assert(r.member(lt(k, i)));
            }
            lemma_sum_member(r, f, c.len());
        }
        assert forall|i: int| 0 <= i < a.len() implies r.eqv(#[trigger] frows(i), rrows(i)) by {
            let f = |k: int| flip(lt)(i, k);
            let g = |k: int| rt(i, k);
            assert forall|k: int| 0 <= k < c.len() implies #[trigger] r.member(f(k)) by {
                assert(r.member(lt(k, i)));
            }
            assert forall|k: int| 0 <= k < c.len() implies #[trigger] r.member(g(k)) by {
                assert(r.member(rt(i, k)));
            }
            assert forall|k: int| 0 <= k < c.len() implies r.eqv(#[trigger] f(k), g(k)) by {
                lemma_coefficient_diff_swap(r, b, m, a[i].0, c[k].0, n);
                let x = coefficient_of(r, b, exponent_diff(exponent_diff(m, a[i].0), c[k].0));
                lemma_coefficient_member(r, b, exponent_diff(exponent_diff(m, a[i].0), c[k].0));
                lemma_mul_assoc(r, a[i].1, x, c[k].1);
            }
            lemma_sum_congruent(r, f, g, c.len());
        }
        lemma_sum_congruent(r, frows, rrows, a.len());
        let x = coefficient_of(r, products(r, ab, c), m);
        let y = coefficient_of(r, products(r, a, bc), m);
        lemma_sum_member(r, lf, c.len());
        lemma_sum_member(r, lrows, c.len());
        lemma_sum_member(r, frows, a.len());
        lemma_sum_member(r, rrows, a.len());
        lemma_sum_member(r, rf, a.len());
        lemma_products_members(r, ab, c);
        lemma_products_members(r, a, bc);
        lemma_coefficient_member(r, products(r, ab, c), m);
        lemma_coefficient_member(r, products(r, a, bc), m);
        assert(double_sum(r, lt, c.len(), a.len()) == sum_of(r, lrows, c.len()));
        assert(double_sum(r, flip(lt), a.len(), c.len()) == sum_of(r, frows, a.len()));
        lemma_trans(r, x, sum_of(r, lf, c.len()), sum_of(r, lrows, c.len()));
        lemma_trans(r, x, sum_of(r, lrows, c.len()), sum_of(r, frows, a.len()));
        lemma_trans(r, x, sum_of(r, frows, a.len()), sum_of(r, rrows, a.len()));
        lemma_sym(r, y, sum_of(r, rf, a.len()));
        lemma_sym(r, sum_of(r, rf, a.len()), sum_of(r, rrows, a.len()));
        lemma_trans(r, x, sum_of(r, rrows, a.len()), sum_of(r, rf, a.len()));
        lemma_trans(r, x, sum_of(r, rf, a.len()), y);
    }
}

/// Multiplication of term lists respects equal coefficients.
pub proof fn lemma_products_congruent<R: Ring>(
    r: &R,
    a1: Seq<(Seq<u32>, R::M)>,
    a2: Seq<(Seq<u32>, R::M)>,
    b1: Seq<(Seq<u32>, R::M)>,
    b2: Seq<(Seq<u32>, R::M)>,
    n: nat,
)
    requires
        ring_laws(r),
        term_members(r, a1),
        term_members(r, a2),
        term_members(r, b1),
        term_members(r, b2),
        arity_ok(a1, n),
        arity_ok(a2, n),
        arity_ok(b1, n),
        arity_ok(b2, n),
        same_terms(r, a1, a2),
        same_terms(r, b1, b2),
    ensures
        same_terms(r, products(r, a1, b1), products(r, a2, b2)),
{
    lemma_ring_parts(r);
    lemma_products_members(r, a1, b1);
    lemma_products_members(r, a2, b1);
    lemma_products_members(r, a2, b2);
    assert forall|m: Seq<u32>|
        #![trigger coefficient_of(r, products(r, a1, b1), m)]
        #![trigger coefficient_of(r, products(r, a2, b2), m)]
        r.eqv(coefficient_of(r, products(r, a1, b1), m), coefficient_of(r, products(r, a2, b2), m)) by {
        let l1 = left_form(r, a1, b1, m);
        let l2 = left_form(r, a2, b1, m);
        let r2 = right_form(r, a2, b1, m);
        let r3 = right_form(r, a2, b2, m);
        lemma_product_left(r, a1, b1, n, m);
        lemma_product_left(r, a2, b1, n, m);
        lemma_product_right(r, a2, b1, n, m);
        lemma_product_right(r, a2, b2, n, m);
        assert forall|j: int| 0 <= j < b1.len() implies r.eqv(#[trigger] l1(j), l2(j)) by {
            let d = exponent_diff(m, b1[j].0);
            assert(r.eqv(coefficient_of(r, a1, d), coefficient_of(r, a2, d)));
            lemma_coefficient_member(r, a1, d);
            lemma_coefficient_member(r, a2, d);
            lemma_refl(r, b1[j].1);
            lemma_mul_congruent(r, coefficient_of(r, a1, d), coefficient_of(r, a2, d), b1[j].1, b1[j].1);
        }
        assert forall|i: int| 0 <= i < a2.len() implies r.eqv(#[trigger] r2(i), r3(i)) by {
            let d = exponent_diff(m, a2[i].0);
            assert(r.eqv(coefficient_of(r, b1, d), coefficient_of(r, b2, d)));
            lemma_coefficient_member(r, b1, d);
            lemma_coefficient_member(r, b2, d);
            lemma_refl(r, a2[i].1);
            lemma_mul_congruent(r, a2[i].1, a2[i].1, coefficient_of(r, b1, d), coefficient_of(r, b2, d));
        }
        lemma_sum_congruent(r, l1, l2, b1.len());
        lemma_sum_congruent(r, r2, r3, a2.len());
        let (x, y, w) = (
            coefficient_of(r, products(r, a1, b1), m),
            coefficient_of(r, products(r, a2, b1), m),
            coefficient_of(r, products(r, a2, b2), m),
        );
        lemma_coefficient_member(r, products(r, a1, b1), m);
        lemma_coefficient_member(r, products(r, a2, b1), m);
        lemma_coefficient_member(r, products(r, a2, b2), m);
        lemma_sum_member(r, l1, b1.len());
        lemma_sum_member(r, l2, b1.len());
        lemma_sum_member(r, r2, a2.len());
        lemma_sum_member(r, r3, a2.len());
        lemma_trans(r, x, sum_of(r, l1, b1.len()), sum_of(r, l2, b1.len()));
        lemma_sym(r, y, sum_of(r, l2, b1.len()));
        lemma_trans(r, x, sum_of(r, l2, b1.len()), y);
        lemma_trans(r, x, y, sum_of(r, r2, a2.len()));
        lemma_trans(r, x, sum_of(r, r2, a2.len()), sum_of(r, r3, a2.len()));
        lemma_sym(r, w, sum_of(r, r3, a2.len()));
        lemma_trans(r, x, sum_of(r, r3, a2.len()), w);
    }
}

/// Multiplication distributes over addition (concatenation) on the left; on the
/// right the products of a concatenation are already the concatenated products.
pub proof fn lemma_products_distrib<R: Ring>(r: &R, a: Seq<(Seq<u32>, R::M)>, b: Seq<(Seq<u32>, R::M)>, c: Seq<(Seq<u32>, R::M)>, n: nat)
    requires
        ring_laws(r),
        term_members(r, a),
        term_members(r, b),
        term_members(r, c),
        arity_ok(a, n),
        arity_ok(b, n),
        arity_ok(c, n),
    ensures
        same_terms(r, products(r, a, b + c), products(r, a, b) + products(r, a, c)),
        same_terms(r, products(r, a + b, c), products(r, a, c) + products(r, b, c)),
{
    lemma_ring_parts(r);
    let bc = b + c;
    assert(term_members(r, bc));
    assert(arity_ok(bc, n));
    lemma_products_members(r, a, b);
    lemma_products_members(r, a, c);
    lemma_products_members(r, a, bc);
    assert forall|m: Seq<u32>|
        #![trigger coefficient_of(r, products(r, a, bc), m)]
        #![trigger coefficient_of(r, products(r, a, b) + products(r, a, c), m)]
        r.eqv(coefficient_of(r, products(r, a, bc), m), coefficient_of(r, products(r, a, b) + products(r, a, c), m)) by {
        let f = right_form(r, a, bc, m);
        let g = right_form(r, a, b, m);
        let h = right_form(r, a, c, m);
        let both = |i: int| r.add_s(g(i), h(i));
        lemma_product_right(r, a, bc, n, m);
        lemma_product_right(r, a, b, n, m);
        lemma_product_right(r, a, c, n, m);
        assert forall|i: int| 0 <= i < a.len() implies #[trigger] r.member(both(i)) by {
            lemma_add_closed(r, g(i), h(i));
        }
        assert forall|i: int| 0 <= i < a.len() implies r.eqv(#[trigger] f(i), both(i)) by {
            let d = exponent_diff(m, a[i].0);
            let (cb, cc) = (coefficient_of(r, b, d), coefficient_of(r, c, d));
            lemma_coefficient_concat(r, b, c, d);
            lemma_coefficient_member(r, b, d);
            lemma_coefficient_member(r, c, d);
            lemma_coefficient_member(r, bc, d);
            lemma_add_closed(r, cb, cc);
            lemma_refl(r, a[i].1);
            lemma_mul_congruent(r, a[i].1, a[i].1, coefficient_of(r, bc, d), r.add_s(cb, cc));
            lemma_distrib(r, a[i].1, cb, cc);
            lemma_mul_closed(r, a[i].1, r.add_s(cb, cc));
            lemma_trans(r, f(i), r.mul_s(a[i].1, r.add_s(cb, cc)), both(i));
        }
        lemma_sum_congruent(r, f, both, a.len());
        lemma_sum_add(r, g, h, a.len());
        lemma_coefficient_concat(r, products(r, a, b), products(r, a, c), m);
        let (x, pb, pc) = (
            coefficient_of(r, products(r, a, bc), m),
            coefficient_of(r, products(r, a, b), m),
            coefficient_of(r, products(r, a, c), m),
        );
        lemma_coefficient_member(r, products(r, a, bc), m);
        lemma_coefficient_member(r, products(r, a, b), m);
        lemma_coefficient_member(r, products(r, a, c), m);
        lemma_sum_member(r, f, a.len());
        lemma_sum_member(r, g, a.len());
        lemma_sum_member(r, h, a.len());
        lemma_sum_member(r, both, a.len());
        lemma_add_closed(r, sum_of(r, g, a.len()), sum_of(r, h, a.len()));
        lemma_add_closed(r, pb, pc);
        lemma_trans(r, x, sum_of(r, f, a.len()), sum_of(r, both, a.len()));
        lemma_trans(r, x, sum_of(r, both, a.len()), r.add_s(sum_of(r, g, a.len()), sum_of(r, h, a.len())));
        lemma_sym(r, pb, sum_of(r, g, a.len()));
        lemma_sym(r, pc, sum_of(r, h, a.len()));
        lemma_add_congruent(r, sum_of(r, g, a.len()), pb, sum_of(r, h, a.len()), pc);
        lemma_trans(r, x, r.add_s(sum_of(r, g, a.len()), sum_of(r, h, a.len())), r.add_s(pb, pc));
        lemma_products_members(r, a, b);
        assert(term_members(r, products(r, a, b) + products(r, a, c)));
        lemma_coefficient_member(r, products(r, a, b) + products(r, a, c), m);
        lemma_sym(r, coefficient_of(r, products(r, a, b) + products(r, a, c), m), r.add_s(pb, pc));
        lemma_trans(r, x, r.add_s(pb, pc), coefficient_of(r, products(r, a, b) + products(r, a, c), m));
    }
    lemma_products_concat(r, a, b, c);
    lemma_products_members(r, a, c);
    lemma_products_members(r, b, c);
    assert(term_members(r, products(r, a, c) + products(r, b, c)));
    lemma_same_terms_refl(r, products(r, a, c) + products(r, b, c));
}

/// The constant one, `x^0` with coefficient one, is a two-sided identity.
pub proof fn lemma_products_one<R: Ring>(r: &R, a: Seq<(Seq<u32>, R::M)>, n: nat)
    requires
        ring_laws(r),
        term_members(r, a),
        arity_ok(a, n),
    ensures
        same_terms(r, products(r, seq![(Seq::new(n, |k: int| 0u32), r.one_s())], a), a),
        same_terms(r, products(r, a, seq![(Seq::new(n, |k: int| 0u32), r.one_s())]), a),
{
    lemma_ring_parts(r);
    let one = seq![(Seq::new(n, |k: int| 0u32), r.one_s())];
    assert(term_members(r, one));
    assert(arity_ok(one, n));
    lemma_products_members(r, one, a);
    lemma_products_members(r, a, one);
    assert forall|m: Seq<u32>|
        #![trigger coefficient_of(r, products(r, one, a), m)]
        #![trigger coefficient_of(r, a, m)]
        r.eqv(coefficient_of(r, products(r, one, a), m), coefficient_of(r, a, m)) by {
        let f = right_form(r, one, a, m);
        lemma_product_right(r, one, a, n, m);
        lemma_diff_zero(r, a, n, m);
        let am = coefficient_of(r, a, m);
        lemma_coefficient_member(r, a, m);
        assert(sum_of(r, f, 0) == r.zero_s());
        assert(f(0) == r.mul_s(r.one_s(), am));
        lemma_mul_one(r, am);
        lemma_add_zero(r, f(0));
        lemma_mul_closed(r, r.one_s(), am);
        lemma_add_closed(r, r.zero_s(), f(0));
        lemma_coefficient_member(r, products(r, one, a), m);
        lemma_trans(r, coefficient_of(r, products(r, one, a), m), r.add_s(r.zero_s(), f(0)), f(0));
        lemma_trans(r, coefficient_of(r, products(r, one, a), m), f(0), am);
    }
    assert forall|m: Seq<u32>|
        #![trigger coefficient_of(r, products(r, a, one), m)]
        #![trigger coefficient_of(r, a, m)]
        r.eqv(coefficient_of(r, products(r, a, one), m), coefficient_of(r, a, m)) by {
        let f = left_form(r, a, one, m);
        lemma_product_left(r, a, one, n, m);
        lemma_diff_zero(r, a, n, m);
        let am = coefficient_of(r, a, m);
        lemma_coefficient_member(r, a, m);
        assert(sum_of(r, f, 0) == r.zero_s());
        assert(f(0) == r.mul_s(am, r.one_s()));
        lemma_mul_one(r, am);
        lemma_add_zero(r, f(0));
        lemma_mul_closed(r, am, r.one_s());
        lemma_add_closed(r, r.zero_s(), f(0));
        lemma_coefficient_member(r, products(r, a, one), m);
        lemma_trans(r, coefficient_of(r, products(r, a, one), m), r.add_s(r.zero_s(), f(0)), f(0));
        lemma_trans(r, coefficient_of(r, products(r, a, one), m), f(0), am);
    }
}

/// Multiplication of term lists commutes when the coefficients do.
pub proof fn lemma_products_comm<R: Ring>(r: &R, a: Seq<(Seq<u32>, R::M)>, b: Seq<(Seq<u32>, R::M)>, n: nat)
    requires
        ring_laws(r),
        commutative_laws(r),
        term_members(r, a),
        term_members(r, b),
        arity_ok(a, n),
        arity_ok(b, n),
    ensures
        same_terms(r, products(r, a, b), products(r, b, a)),
{
    lemma_ring_parts(r);
    lemma_products_members(r, a, b);
    lemma_products_members(r, b, a);
    assert forall|m: Seq<u32>|
        #![trigger coefficient_of(r, products(r, a, b), m)]
        #![trigger coefficient_of(r, products(r, b, a), m)]
        r.eqv(coefficient_of(r, products(r, a, b), m), coefficient_of(r, products(r, b, a), m)) by {
        let f = right_form(r, a, b, m);
        let g = left_form(r, b, a, m);
        lemma_product_right(r, a, b, n, m);
        lemma_product_left(r, b, a, n, m);
        assert forall|i: int| 0 <= i < a.len() implies r.eqv(#[trigger] f(i), g(i)) by {
            let d = exponent_diff(m, a[i].0);
            lemma_coefficient_member(r, b, d);
            lemma_mul_comm(r, a[i].1, coefficient_of(r, b, d));
        }
        lemma_sum_congruent(r, f, g, a.len());
        lemma_sum_member(r, f, a.len());
        lemma_sum_member(r, g, a.len());
        lemma_coefficient_member(r, products(r, a, b), m);
        lemma_coefficient_member(r, products(r, b, a), m);
        lemma_trans(r, coefficient_of(r, products(r, a, b), m), sum_of(r, f, a.len()), sum_of(r, g, a.len()));
        lemma_sym(r, coefficient_of(r, products(r, b, a), m), sum_of(r, g, a.len()));
        lemma_trans(r, coefficient_of(r, products(r, a, b), m), sum_of(r, g, a.len()), coefficient_of(r, products(r, b, a), m));
    }
}

/// Concatenation adds coefficients: it respects equal coefficients and commutes, and
/// the negated terms of `b` cancel `b`.
proof fn lemma_concat_laws<R: Ring>(
    r: &R,
    a1: Seq<(Seq<u32>, R::M)>,
    a2: Seq<(Seq<u32>, R::M)>,
    b1: Seq<(Seq<u32>, R::M)>,
    b2: Seq<(Seq<u32>, R::M)>,
)
    requires
        ring_laws(r),
        term_members(r, a1),
        term_members(r, a2),
        term_members(r, b1),
        term_members(r, b2),
    ensures
        same_terms(r, a1, a2) && same_terms(r, b1, b2) ==> same_terms(r, a1 + b1, a2 + b2),
        same_terms(r, a1, a2) && same_terms(r, b1, b2) ==> same_terms(r, a1 + negated(r, b1), a2 + negated(r, b2)),
        same_terms(r, a1 + b1, b1 + a1),
        same_terms(r, (a1 + negated(r, b1)) + b1, a1),
        term_members(r, negated(r, b1)),
{
    lemma_ring_parts(r);
    let z = r.zero_s();
    assert forall|m: Seq<u32>| #[trigger] coefficient_of(r, negated(r, b1), m) == coefficient_of(r, negated(r, b1), m) by {
        lemma_coefficient_negated(r, b1, m);
    }
    lemma_coefficient_negated(r, b1, Seq::empty());
    lemma_coefficient_negated(r, b2, Seq::empty());
    let n1 = negated(r, b1);
    let n2 = negated(r, b2);
    if same_terms(r, a1, a2) && same_terms(r, b1, b2) {
        assert forall|m: Seq<u32>|
            #![trigger coefficient_of(r, a1 + b1, m)]
            #![trigger coefficient_of(r, a2 + b2, m)]
            r.eqv(coefficient_of(r, a1 + b1, m), coefficient_of(r, a2 + b2, m)) by {
            lemma_coefficient_concat(r, a1, b1, m);
            lemma_coefficient_concat(r, a2, b2, m);
            assert(term_members(r, a1 + b1));
            assert(term_members(r, a2 + b2));
            lemma_coefficient_member(r, a1 + b1, m);
            lemma_coefficient_member(r, a1, m);
            lemma_coefficient_member(r, a2, m);
            lemma_coefficient_member(r, b1, m);
            lemma_coefficient_member(r, b2, m);
            crate::laws::lemma_add_step(
                r,
                coefficient_of(r, a1 + b1, m),
                coefficient_of(r, a1, m),
                coefficient_of(r, b1, m),
                coefficient_of(r, a2, m),
                coefficient_of(r, b2, m),
            );
            lemma_coefficient_member(r, a1, m);
            lemma_coefficient_member(r, a2, m);
            lemma_coefficient_member(r, b1, m);
            lemma_coefficient_member(r, b2, m);
            lemma_coefficient_member(r, a1 + b1, m);
            lemma_coefficient_member(r, a2 + b2, m);
            lemma_sym(r, coefficient_of(r, a2 + b2, m), r.add_s(coefficient_of(r, a2, m), coefficient_of(r, b2, m)));
            lemma_trans(r, coefficient_of(r, a1 + b1, m), r.add_s(coefficient_of(r, a2, m), coefficient_of(r, b2, m)), coefficient_of(r, a2 + b2, m));
        }
        assert forall|m: Seq<u32>|
            #![trigger coefficient_of(r, a1 + n1, m)]
            #![trigger coefficient_of(r, a2 + n2, m)]
            r.eqv(coefficient_of(r, a1 + n1, m), coefficient_of(r, a2 + n2, m)) by {
            lemma_coefficient_negated(r, b1, m);
            lemma_coefficient_negated(r, b2, m);
            lemma_coefficient_member(r, b1, m);
            lemma_coefficient_member(r, b2, m);
            lemma_coefficient_member(r, n1, m);
            lemma_coefficient_member(r, n2, m);
            assert(r.eqv(coefficient_of(r, b1, m), coefficient_of(r, b2, m)));
            lemma_refl(r, z);
            crate::laws::lemma_sub_step(r, coefficient_of(r, n1, m), z, coefficient_of(r, b1, m), z, coefficient_of(r, b2, m));
            lemma_sym(r, coefficient_of(r, n2, m), r.sub_s(z, coefficient_of(r, b2, m)));
            lemma_sub_closed(r, z, coefficient_of(r, b2, m));
            lemma_trans(r, coefficient_of(r, n1, m), r.sub_s(z, coefficient_of(r, b2, m)), coefficient_of(r, n2, m));
            lemma_coefficient_concat(r, a1, n1, m);
            lemma_coefficient_concat(r, a2, n2, m);
            assert(term_members(r, a1 + n1));
            assert(term_members(r, a2 + n2));
            lemma_coefficient_member(r, a1 + n1, m);
            lemma_coefficient_member(r, a1, m);
            lemma_coefficient_member(r, a2, m);
            crate::laws::lemma_add_step(
                r,
                coefficient_of(r, a1 + n1, m),
                coefficient_of(r, a1, m),
                coefficient_of(r, n1, m),
                coefficient_of(r, a2, m),
                coefficient_of(r, n2, m),
            );
            lemma_coefficient_member(r, a1, m);
            lemma_coefficient_member(r, a2, m);
            lemma_coefficient_member(r, a1 + n1, m);
            lemma_coefficient_member(r, a2 + n2, m);
            lemma_sym(r, coefficient_of(r, a2 + n2, m), r.add_s(coefficient_of(r, a2, m), coefficient_of(r, n2, m)));
            lemma_trans(r, coefficient_of(r, a1 + n1, m), r.add_s(coefficient_of(r, a2, m), coefficient_of(r, n2, m)), coefficient_of(r, a2 + n2, m));
        }
    }
    assert forall|m: Seq<u32>|
        #![trigger coefficient_of(r, a1 + b1, m)]
        #![trigger coefficient_of(r, b1 + a1, m)]
        r.eqv(coefficient_of(r, a1 + b1, m), coefficient_of(r, b1 + a1, m)) by {
        lemma_coefficient_concat(r, a1, b1, m);
        lemma_coefficient_concat(r, b1, a1, m);
        let (x, y) = (coefficient_of(r, a1, m), coefficient_of(r, b1, m));
        lemma_coefficient_member(r, a1, m);
        lemma_coefficient_member(r, b1, m);
        lemma_coefficient_member(r, a1 + b1, m);
        lemma_coefficient_member(r, b1 + a1, m);
        lemma_add_comm(r, x, y);
        lemma_add_closed(r, x, y);
        lemma_add_closed(r, y, x);
        lemma_trans(r, coefficient_of(r, a1 + b1, m), r.add_s(x, y), r.add_s(y, x));
        lemma_sym(r, coefficient_of(r, b1 + a1, m), r.add_s(y, x));
        lemma_trans(r, coefficient_of(r, a1 + b1, m), r.add_s(y, x), coefficient_of(r, b1 + a1, m));
    }
    assert forall|m: Seq<u32>|
        #![trigger coefficient_of(r, (a1 + n1) + b1, m)]
        #![trigger coefficient_of(r, a1, m)]
        r.eqv(coefficient_of(r, (a1 + n1) + b1, m), coefficient_of(r, a1, m)) by {
        let (x, y) = (coefficient_of(r, a1, m), coefficient_of(r, b1, m));
        let ny = coefficient_of(r, n1, m);
        lemma_coefficient_negated(r, b1, m);
        lemma_coefficient_member(r, a1, m);
        lemma_coefficient_member(r, b1, m);
        lemma_coefficient_member(r, n1, m);
        lemma_coefficient_member(r, a1 + n1, m);
        lemma_coefficient_member(r, (a1 + n1) + b1, m);
        lemma_coefficient_concat(r, a1 + n1, b1, m);
        lemma_coefficient_concat(r, a1, n1, m);
        lemma_sub_closed(r, z, y);
        // (x + ny) + y ~ (x + (0 - y)) + y ~ (x - y) + y ~ x
        lemma_refl(r, x);
        lemma_add_congruent(r, x, x, ny, r.sub_s(z, y));
        lemma_add_closed(r, x, ny);
        lemma_add_closed(r, x, r.sub_s(z, y));
        lemma_trans(r, coefficient_of(r, a1 + n1, m), r.add_s(x, ny), r.add_s(x, r.sub_s(z, y)));
        crate::fourier::lemma_add_negated(r, x, y);
        lemma_sub_closed(r, x, y);
        lemma_trans(r, coefficient_of(r, a1 + n1, m), r.add_s(x, r.sub_s(z, y)), r.sub_s(x, y));
        lemma_refl(r, y);
        lemma_add_congruent(r, coefficient_of(r, a1 + n1, m), r.sub_s(x, y), y, y);
        lemma_sub_add(r, x, y);
        lemma_add_closed(r, coefficient_of(r, a1 + n1, m), y);
        lemma_add_closed(r, r.sub_s(x, y), y);
        lemma_trans(r, coefficient_of(r, (a1 + n1) + b1, m), r.add_s(coefficient_of(r, a1 + n1, m), y), r.add_s(r.sub_s(x, y), y));
        lemma_trans(r, coefficient_of(r, (a1 + n1) + b1, m), r.add_s(r.sub_s(x, y), y), x);
    }
}

proof fn lemma_multivariate_group<R: Ring + DecidableEq>(h: &Rc<MultivariatePolynomialRing<R>>)
    requires
        ring_laws(&(**h).coeff_ring()),
    ensures
        group_laws(h),
        equivalence(h),
{
    let r = (**h).coeff_ring();
    let n = (**h).arity();
    lemma_ring_parts(&r);
    assert(equivalence(h)) by {
        reveal(equivalence);
        assert forall|a: Seq<(Seq<u32>, R::M)>| #[trigger] h.member(a) implies h.eqv(a, a) by {
            lemma_same_terms_refl(&r, a);
        }
        assert forall|a: Seq<(Seq<u32>, R::M)>, b: Seq<(Seq<u32>, R::M)>| h.member(a) && h.member(b) && #[trigger] h.eqv(a, b) implies h.eqv(b, a) by {
            lemma_same_terms_sym(&r, a, b);
        }
        assert forall|a: Seq<(Seq<u32>, R::M)>, b: Seq<(Seq<u32>, R::M)>, c: Seq<(Seq<u32>, R::M)>|
            h.member(a) && h.member(b) && h.member(c) && #[trigger] h.eqv(a, b) && #[trigger] h.eqv(b, c) implies h.eqv(a, c) by {
            lemma_same_terms_trans(&r, a, b, c);
        }
    }
    reveal(group_laws);
    reveal(additive_laws);
    assert(h.member(h.zero_s()));
    assert forall|a: Seq<(Seq<u32>, R::M)>, b: Seq<(Seq<u32>, R::M)>| h.member(a) && h.member(b) implies #[trigger] h.member(h.add_s(a, b)) by {
        assert(arity_ok(a + b, n));
        assert(term_members(&r, a + b));
    }
    assert forall|a: Seq<(Seq<u32>, R::M)>, b: Seq<(Seq<u32>, R::M)>| h.member(a) && h.member(b) implies #[trigger] h.member(h.sub_s(a, b)) by {
        lemma_concat_laws(&r, a, a, b, b);
        assert(arity_ok(negated(&r, b), n));
        assert(arity_ok(a + negated(&r, b), n));
        assert(term_members(&r, a + negated(&r, b)));
    }
    assert forall|a1: Seq<(Seq<u32>, R::M)>, a2: Seq<(Seq<u32>, R::M)>, b1: Seq<(Seq<u32>, R::M)>, b2: Seq<(Seq<u32>, R::M)>|
        h.member(a1) && h.member(a2) && h.member(b1) && h.member(b2) && h.eqv(a1, a2) && h.eqv(b1, b2)
        implies #[trigger] h.eqv(h.add_s(a1, b1), h.add_s(a2, b2)) by {
        lemma_concat_laws(&r, a1, a2, b1, b2);
    }
    assert forall|a1: Seq<(Seq<u32>, R::M)>, a2: Seq<(Seq<u32>, R::M)>, b1: Seq<(Seq<u32>, R::M)>, b2: Seq<(Seq<u32>, R::M)>|
        h.member(a1) && h.member(a2) && h.member(b1) && h.member(b2) && h.eqv(a1, a2) && h.eqv(b1, b2)
        implies #[trigger] h.eqv(h.sub_s(a1, b1), h.sub_s(a2, b2)) by {
        lemma_concat_laws(&r, a1, a2, b1, b2);
    }
    assert forall|a: Seq<(Seq<u32>, R::M)>, b: Seq<(Seq<u32>, R::M)>, c: Seq<(Seq<u32>, R::M)>| h.member(a) && h.member(b) && h.member(c) implies h.eqv(
        #[trigger] h.add_s(h.add_s(a, b), c),
        h.add_s(a, h.add_s(b, c)),
    ) by {
        assert((a + b) + c =~= a + (b + c));
        lemma_same_terms_refl(&r, a + (b + c));
    }
    assert forall|a: Seq<(Seq<u32>, R::M)>, b: Seq<(Seq<u32>, R::M)>| h.member(a) && h.member(b) implies h.eqv(#[trigger] h.add_s(a, b), h.add_s(b, a)) by {
        lemma_concat_laws(&r, a, a, b, b);
    }
    assert forall|a: Seq<(Seq<u32>, R::M)>| h.member(a) implies h.eqv(#[trigger] h.add_s(h.zero_s(), a), a) by {
        assert(Seq::<(Seq<u32>, R::M)>::empty() + a =~= a);
        lemma_same_terms_refl(&r, a);
    }
    assert forall|a: Seq<(Seq<u32>, R::M)>, b: Seq<(Seq<u32>, R::M)>| h.member(a) && h.member(b) implies h.eqv(#[trigger] h.add_s(h.sub_s(a, b), b), a) by {
        lemma_concat_laws(&r, a, a, b, b);
    }
    assert(additive_laws(h));
}

proof fn lemma_multivariate_monoid<R: Ring + DecidableEq>(h: &Rc<MultivariatePolynomialRing<R>>)
    requires
        ring_laws(&(**h).coeff_ring()),
        equivalence(h),
    ensures
        monoid_laws(h),
{
    let r = (**h).coeff_ring();
    let n = (**h).arity();
    lemma_ring_parts(&r);
    reveal(monoid_laws);
    reveal(semigroup_laws);
    assert forall|a: Seq<(Seq<u32>, R::M)>, b: Seq<(Seq<u32>, R::M)>| h.member(a) && h.member(b) implies #[trigger] h.member(h.mul_s(a, b)) by {
        lemma_products_members(&r, a, b);
        lemma_products_arity(&r, a, b, n);
    }
    assert forall|a1: Seq<(Seq<u32>, R::M)>, a2: Seq<(Seq<u32>, R::M)>, b1: Seq<(Seq<u32>, R::M)>, b2: Seq<(Seq<u32>, R::M)>|
        h.member(a1) && h.member(a2) && h.member(b1) && h.member(b2) && h.eqv(a1, a2) && h.eqv(b1, b2)
        implies #[trigger] h.eqv(h.mul_s(a1, b1), h.mul_s(a2, b2)) by {
        lemma_products_congruent(&r, a1, a2, b1, b2, n);
    }
    assert forall|a: Seq<(Seq<u32>, R::M)>, b: Seq<(Seq<u32>, R::M)>, c: Seq<(Seq<u32>, R::M)>| h.member(a) && h.member(b) && h.member(c) implies h.eqv(
        #[trigger] h.mul_s(h.mul_s(a, b), c),
        h.mul_s(a, h.mul_s(b, c)),
    ) by {
        lemma_products_assoc(&r, a, b, c, n);
    }
    assert(semigroup_laws(h));
    assert(h.member(h.one_s()));
    assert forall|a: Seq<(Seq<u32>, R::M)>| h.member(a) implies h.eqv(#[trigger] h.mul_s(h.one_s(), a), a) by {
        lemma_products_one(&r, a, n);
    }
    assert forall|a: Seq<(Seq<u32>, R::M)>| h.member(a) implies h.eqv(#[trigger] h.mul_s(a, h.one_s()), a) by {
        lemma_products_one(&r, a, n);
    }
}

/// `R[x_0, .., x_{n-1}]` is a ring whenever `R` is, and a commutative one whenever
/// `R` is commutative: its operations obey every law of `ring_laws` when two
/// polynomials count as equal when they give every monomial the same coefficient.
pub proof fn lemma_multivariate_ring<R: Ring + DecidableEq>(h: &Rc<MultivariatePolynomialRing<R>>)
    requires
        ring_laws(&(**h).coeff_ring()),
    ensures
        ring_laws(h),
        commutative_laws(&(**h).coeff_ring()) ==> commutative_laws(h),
{
    let r = (**h).coeff_ring();
    let n = (**h).arity();
    lemma_ring_parts(&r);
    lemma_multivariate_group(h);
    lemma_multivariate_monoid(h);
    assert(ring_laws(h)) by {
        reveal(ring_laws);
        assert forall|a: Seq<(Seq<u32>, R::M)>, b: Seq<(Seq<u32>, R::M)>, c: Seq<(Seq<u32>, R::M)>| h.member(a) && h.member(b) && h.member(c) implies h.eqv(
            #[trigger] h.mul_s(a, h.add_s(b, c)),
            h.add_s(h.mul_s(a, b), h.mul_s(a, c)),
        ) by {
            lemma_products_distrib(&r, a, b, c, n);
        }
        assert forall|a: Seq<(Seq<u32>, R::M)>, b: Seq<(Seq<u32>, R::M)>, c: Seq<(Seq<u32>, R::M)>| h.member(a) && h.member(b) && h.member(c) implies h.eqv(
            #[trigger] h.mul_s(h.add_s(a, b), c),
            h.add_s(h.mul_s(a, c), h.mul_s(b, c)),
        ) by {
            lemma_products_distrib(&r, a, b, c, n);
        }
    }
    if commutative_laws(&r) {
        reveal(commutative_laws);
        assert forall|a: Seq<(Seq<u32>, R::M)>, b: Seq<(Seq<u32>, R::M)>| h.member(a) && h.member(b) implies h.eqv(#[trigger] h.mul_s(a, b), h.mul_s(b, a)) by {
            lemma_products_comm(&r, a, b, n);
        }
    }
}

/// `acc · x^e`, multiplied on one factor at a time, respects equality of `acc`.
proof fn lemma_times_power_congruent<R: Ring>(r: &R, a: R::M, b: R::M, x: R::M, e: nat)
    requires
        ring_laws(r),
        r.member(a),
        r.member(b),
        r.member(x),
        r.eqv(a, b),
    ensures
        r.eqv(crate::multivariate::times_power(r, a, x, e), crate::multivariate::times_power(r, b, x, e)),
    decreases e,
{
    lemma_ring_parts(r);
    if e > 0 {
        let e1 = (e - 1) as nat;
        lemma_times_power_congruent(r, a, b, x, e1);
        crate::multivariate::lemma_times_power_member(r, a, x, e1);
        crate::multivariate::lemma_times_power_member(r, b, x, e1);
        lemma_refl(r, x);
        lemma_mul_congruent(
            r,
            crate::multivariate::times_power(r, a, x, e1),
            crate::multivariate::times_power(r, b, x, e1),
            x,
            x,
        );
    }
}

/// Over a commutative ring, a factor `y` of the starting value can be taken out:
/// `(a · y) · x^e ~ (a · x^e) · y`.
proof fn lemma_times_power_factor<R: Ring>(r: &R, a: R::M, y: R::M, x: R::M, e: nat)
    requires
        ring_laws(r),
        commutative_laws(r),
        r.member(a),
        r.member(y),
        r.member(x),
    ensures
        r.eqv(
            crate::multivariate::times_power(r, r.mul_s(a, y), x, e),
            r.mul_s(crate::multivariate::times_power(r, a, x, e), y),
        ),
    decreases e,
{
    lemma_ring_parts(r);
    lemma_mul_closed(r, a, y);
    if e == 0 {
        lemma_refl(r, r.mul_s(a, y));
    } else {
        let e1 = (e - 1) as nat;
        lemma_times_power_factor(r, a, y, x, e1);
        let p = crate::multivariate::times_power(r, r.mul_s(a, y), x, e1);
        let q = crate::multivariate::times_power(r, a, x, e1);
        crate::multivariate::lemma_times_power_member(r, r.mul_s(a, y), x, e1);
        crate::multivariate::lemma_times_power_member(r, a, x, e1);
        lemma_mul_closed(r, q, y);
        lemma_mul_closed(r, p, x);
        lemma_mul_closed(r, r.mul_s(q, y), x);
        lemma_mul_closed(r, y, x);
        lemma_mul_closed(r, x, y);
        lemma_mul_closed(r, q, r.mul_s(y, x));
        lemma_mul_closed(r, q, r.mul_s(x, y));
        lemma_mul_closed(r, q, x);
        lemma_mul_closed(r, r.mul_s(q, x), y);
        // (a y) x^e = p x ~ (q y) x ~ q (y x) ~ q (x y) ~ (q x) y
        lemma_refl(r, x);
        lemma_mul_congruent(r, p, r.mul_s(q, y), x, x);
        lemma_mul_assoc(r, q, y, x);
        lemma_refl(r, q);
        lemma_mul_comm(r, y, x);
        lemma_mul_congruent(r, q, q, r.mul_s(y, x), r.mul_s(x, y));
        lemma_mul_assoc(r, q, x, y);
        lemma_sym(r, r.mul_s(r.mul_s(q, x), y), r.mul_s(q, r.mul_s(x, y)));
        lemma_trans(r, r.mul_s(p, x), r.mul_s(r.mul_s(q, y), x), r.mul_s(q, r.mul_s(y, x)));
        lemma_trans(r, r.mul_s(p, x), r.mul_s(q, r.mul_s(y, x)), r.mul_s(q, r.mul_s(x, y)));
        lemma_trans(r, r.mul_s(p, x), r.mul_s(q, r.mul_s(x, y)), r.mul_s(r.mul_s(q, x), y));
    }
}

/// The value of a term reads only the first `t` exponents.
proof fn lemma_term_value_prefix<R: Ring>(r: &R, c: R::M, m1: Seq<u32>, m2: Seq<u32>, point: Seq<R::M>, t: nat)
    requires
        forall|j: int| 0 <= j < t ==> m1[j] == m2[j],
    ensures
        crate::multivariate::term_value(r, c, m1, point, t) == crate::multivariate::term_value(r, c, m2, point, t),
    decreases t,
{
    if t > 0 {
        lemma_term_value_prefix(r, c, m1, m2, point, (t - 1) as nat);
    }
}

/// A term with every exponent zero is worth its coefficient.
pub proof fn lemma_term_value_constant<R: Ring>(r: &R, c: R::M, m: Seq<u32>, point: Seq<R::M>, t: nat)
    requires
        forall|j: int| 0 <= j < t ==> m[j] == 0,
    ensures
        crate::multivariate::term_value(r, c, m, point, t) == c,
    decreases t,
{
    if t > 0 {
        lemma_term_value_constant(r, c, m, point, (t - 1) as nat);
    }
}

/// Over a commutative ring, raising the exponent of `x_k` by one multiplies the value
/// of a term at a point by the `k`-th coordinate. With `lemma_term_value_constant`
/// this makes the value of `c · x_0^{e_0} ... x_{t-1}^{e_{t-1}}` equal to
/// `c · point[0]^{e_0} ... point[t-1]^{e_{t-1}}`.
pub proof fn lemma_term_value_step<R: Ring>(r: &R, c: R::M, m: Seq<u32>, point: Seq<R::M>, t: nat, k: int)
    requires
        ring_laws(r),
        commutative_laws(r),
        r.member(c),
        t <= point.len(),
        t <= m.len(),
        forall|j: int| 0 <= j < point.len() ==> #[trigger] r.member(point[j]),
        0 <= k < t,
        m[k] < u32::MAX,
    ensures
        r.eqv(
            crate::multivariate::term_value(r, c, m.update(k, (m[k] + 1) as u32), point, t),
            r.mul_s(crate::multivariate::term_value(r, c, m, point, t), point[k]),
        ),
    decreases t,
{
    lemma_ring_parts(r);
    let m2 = m.update(k, (m[k] + 1) as u32);
    let t1 = (t - 1) as nat;
    let x = point[t - 1];
    crate::multivariate::lemma_term_value_member(r, c, m, point, t1);
    crate::multivariate::lemma_term_value_member(r, c, m2, point, t1);
    crate::multivariate::lemma_term_value_member(r, c, m, point, t);
    let a = crate::multivariate::term_value(r, c, m, point, t1);
    if k == t - 1 {
        lemma_term_value_prefix(r, c, m2, m, point, t1);
        assert(m2[t - 1] as nat == (m[t - 1] as nat) + 1);
        let v = crate::multivariate::term_value(r, c, m, point, t);
        lemma_mul_closed(r, v, x);
        lemma_refl(r, r.mul_s(v, x));
    } else {
        lemma_term_value_step(r, c, m, point, t1, k);
        let e = m[t - 1] as nat;
        assert(m2[t - 1] == m[t - 1]);
        let a2 = crate::multivariate::term_value(r, c, m2, point, t1);
        let y = point[k];
        lemma_mul_closed(r, a, y);
        lemma_times_power_congruent(r, a2, r.mul_s(a, y), x, e);
        lemma_times_power_factor(r, a, y, x, e);
        crate::multivariate::lemma_times_power_member(r, a2, x, e);
        crate::multivariate::lemma_times_power_member(r, r.mul_s(a, y), x, e);
        crate::multivariate::lemma_times_power_member(r, a, x, e);
        lemma_mul_closed(r, crate::multivariate::times_power(r, a, x, e), y);
        lemma_trans(
            r,
            crate::multivariate::times_power(r, a2, x, e),
            crate::multivariate::times_power(r, r.mul_s(a, y), x, e),
            r.mul_s(crate::multivariate::times_power(r, a, x, e), y),
        );
    }
}

/// The value of a list of terms at a point adds up over concatenation: the empty list
/// is worth zero, and `s ++ s2` is worth the value of `s` plus that of `s2`.
pub proof fn lemma_evaluation_concat<R: Ring>(r: &R, s: Seq<(Seq<u32>, R::M)>, s2: Seq<(Seq<u32>, R::M)>, point: Seq<R::M>)
    requires
        ring_laws(r),
        term_members(r, s),
        term_members(r, s2),
        forall|i: int| 0 <= i < s.len() ==> (#[trigger] s[i]).0.len() <= point.len(),
        forall|i: int| 0 <= i < s2.len() ==> (#[trigger] s2[i]).0.len() <= point.len(),
        forall|k: int| 0 <= k < point.len() ==> #[trigger] r.member(point[k]),
    ensures
        crate::multivariate::evaluation(r, Seq::<(Seq<u32>, R::M)>::empty(), point) == r.zero_s(),
        r.eqv(
            crate::multivariate::evaluation(r, s + s2, point),
            r.add_s(crate::multivariate::evaluation(r, s, point), crate::multivariate::evaluation(r, s2, point)),
        ),
    decreases s2.len(),
{
    lemma_ring_parts(r);
    let ev = |q: Seq<(Seq<u32>, R::M)>| crate::multivariate::evaluation(r, q, point);
    crate::multivariate::lemma_evaluation_member(r, s, point);
    crate::multivariate::lemma_evaluation_member(r, s2, point);
    if s2.len() == 0 {
        assert(s + s2 =~= s);
        lemma_add_zero(r, ev(s));
        lemma_add_comm(r, r.zero_s(), ev(s));
        lemma_add_closed(r, ev(s), r.zero_s());
        lemma_add_closed(r, r.zero_s(), ev(s));
        lemma_sym(r, r.add_s(r.zero_s(), ev(s)), ev(s));
        lemma_trans(r, ev(s), r.add_s(r.zero_s(), ev(s)), r.add_s(ev(s), r.zero_s()));
    } else {
        let init = s2.drop_last();
        let last = s2.last();
        assert(term_members(r, init)) by {
            assert forall|i: int| 0 <= i < init.len() implies r.member(#[trigger] init[i].1) by {
                assert(init[i] == s2[i]);
            }
        }
        assert forall|i: int| 0 <= i < init.len() implies (#[trigger] init[i]).0.len() <= point.len() by {
            assert(init[i] == s2[i]);
        }
        lemma_evaluation_concat(r, s, init, point);
        assert((s + s2).drop_last() =~= s + init);
        assert((s + s2).last() == last);
        assert(r.member(last.1)) by {
            assert(s2[s2.len() - 1] == last);
        }
        assert(last.0.len() <= point.len()) by {
            assert(s2[s2.len() - 1] == last);
        }
        let tv = crate::multivariate::term_value(r, last.1, last.0, point, last.0.len());
        crate::multivariate::lemma_term_value_member(r, last.1, last.0, point, last.0.len());
        crate::multivariate::lemma_evaluation_member(r, init, point);
        assert(term_members(r, s + init)) by {
            assert forall|i: int| 0 <= i < (s + init).len() implies r.member(#[trigger] (s + init)[i].1) by {
                if i < s.len() {
                    assert((s + init)[i] == s[i]);
                } else {
                    assert((s + init)[i] == init[i - s.len()]);
                }
            }
        }
        assert forall|i: int| 0 <= i < (s + init).len() implies (#[trigger] (s + init)[i]).0.len() <= point.len() by {
            if i < s.len() {
                assert((s + init)[i] == s[i]);
            } else {
                assert((s + init)[i] == init[i - s.len()]);
            }
        }
        crate::multivariate::lemma_evaluation_member(r, s + init, point);
        // ev(s ++ s2) = ev(s ++ init) + tv ~ (ev(s) + ev(init)) + tv ~ ev(s) + (ev(init) + tv)
        lemma_refl(r, tv);
        lemma_add_closed(r, ev(s), ev(init));
        lemma_add_congruent(r, ev(s + init), r.add_s(ev(s), ev(init)), tv, tv);
        crate::laws::lemma_add_assoc(r, ev(s), ev(init), tv);
        lemma_add_closed(r, ev(s + init), tv);
        lemma_add_closed(r, r.add_s(ev(s), ev(init)), tv);
        lemma_add_closed(r, ev(init), tv);
        lemma_add_closed(r, ev(s), r.add_s(ev(init), tv));
        lemma_trans(r, r.add_s(ev(s + init), tv), r.add_s(r.add_s(ev(s), ev(init)), tv), r.add_s(ev(s), r.add_s(ev(init), tv)));
    }
}

/// Evaluating the variable `x_i` at a point gives the point's `i`-th coordinate.
pub proof fn lemma_evaluate_variable<R: Ring>(r: &R, n: nat, i: int, point: Seq<R::M>)
    requires
        ring_laws(r),
        commutative_laws(r),
        0 <= i < n,
        point.len() == n,
        forall|j: int| 0 <= j < point.len() ==> #[trigger] r.member(point[j]),
    ensures
        r.eqv(
            crate::multivariate::evaluation(r, seq![(crate::multivariate::unit_exponents(n, i), r.one_s())], point),
            point[i],
        ),
{
    lemma_ring_parts(r);
    let u = crate::multivariate::unit_exponents(n, i);
    let z = Seq::new(n, |k: int| 0u32);
    let one = r.one_s();
    lemma_term_value_constant(r, one, z, point, n);
    lemma_term_value_step(r, one, z, point, n, i);
    assert(z.update(i, (z[i] + 1) as u32) =~= u);
    crate::multivariate::lemma_term_value_member(r, one, u, point, n);
    let tv = crate::multivariate::term_value(r, one, u, point, n);
    let q = seq![(u, one)];
    assert(q.drop_last() =~= Seq::<(Seq<u32>, R::M)>::empty());
    assert(q.last() == (u, one));
    assert(crate::multivariate::evaluation(r, q.drop_last(), point) == r.zero_s());
    assert(u.len() == n);
    assert(crate::multivariate::evaluation(r, q, point) == r.add_s(r.zero_s(), tv));
    lemma_add_zero(r, tv);
    lemma_mul_one(r, point[i]);
    lemma_add_closed(r, r.zero_s(), tv);
    lemma_mul_closed(r, one, point[i]);
    lemma_trans(r, r.add_s(r.zero_s(), tv), tv, r.mul_s(one, point[i]));
    lemma_trans(r, r.add_s(r.zero_s(), tv), r.mul_s(one, point[i]), point[i]);
}

} // verus!
