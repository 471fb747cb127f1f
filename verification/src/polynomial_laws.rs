//! `R[x]` obeys the ring laws whenever `R` does, and is commutative whenever `R` is.
//!
//! The coefficient of `x^k` in a product is written as the finite sum
//! `sum_{i <= k} a_i · b_{k - i}`, a missing coefficient counting as zero; the laws
//! then follow from the rules for finite sums in `sums`. Over a field `F[x]` is a
//! Euclidean domain in which long division always goes through, so its quotient by
//! an irreducible polynomial is a field.

use crate::laws::{
    additive_laws, commutative_laws, complete_field, equivalence, euclidean_laws, field_laws,
    group_laws, has_inverse, inverse_s,
    lemma_add_closed, lemma_field_parts,
    lemma_add_assoc, lemma_add_comm, lemma_add_congruent, lemma_add_zero, lemma_distrib, lemma_mul_assoc, lemma_mul_closed,
    lemma_mul_comm, lemma_mul_congruent, lemma_mul_one, lemma_mul_zero, lemma_refl,
    lemma_ring_parts, lemma_sub_add, lemma_sub_closed, lemma_sub_self, lemma_sym, lemma_trans, lemma_zero_mul,
    monoid_laws, ring_laws, semigroup_laws,
};
use crate::euclidean::{division_exists, has_division};
use crate::quotient::{irreducible, lemma_quotient_complete, QuotientRing};
use crate::polynomials::{
    all_members, coeff, conv, division_invariant, lemma_coeff_member, lemma_conv_member,
    lemma_mul_coeff, lemma_poly_add_coeff, max_len,
    lemma_same_refl, lemma_same_sym, lemma_same_trans, poly_add, poly_mul, poly_sub,
    same_coefficients, trim_len, PolynomialRing,
};
use crate::structures::{
    AdditiveGroup, CommutativeMonoid, DecidableEq, Domain, EuclideanDomain, Field, Monoid, Ring,
    Semigroup,
};
use std::rc::Rc;
use crate::sums::{
    double_sum, flip, lemma_double_sum_swap, lemma_sum_add, lemma_sum_congruent, lemma_sum_extend,
    lemma_sum_first, lemma_sum_member, lemma_sum_mul_left, lemma_sum_mul_right, lemma_sum_reverse,
    lemma_sum_shift, lemma_sum_split, lemma_sum_zero, row_sums, sum_of,
};
use vstd::prelude::*;

verus! {

/// The terms `a_i · b_{k - i}` of the coefficient of `x^k` in `a · b`.
pub open spec fn product_term<R: Ring>(r: &R, a: Seq<R::M>, b: Seq<R::M>, k: int) -> spec_fn(int) -> R::M {
    |i: int| r.mul_s(coeff(r, a, i), coeff(r, b, k - i))
}

/// `sum_{i < n} a_i · b_{k - i}`.
pub open spec fn convolution<R: Ring>(r: &R, a: Seq<R::M>, b: Seq<R::M>, k: int, n: nat) -> R::M {
    sum_of(r, product_term(r, a, b, k), n)
}

proof fn lemma_term_member<R: Ring>(r: &R, a: Seq<R::M>, b: Seq<R::M>, k: int, i: int)
    requires
        ring_laws(r),
        all_members(r, a),
        all_members(r, b),
    ensures
        r.member(product_term(r, a, b, k)(i)),
{
    lemma_coeff_member(r, a, i);
    lemma_coeff_member(r, b, k - i);
    lemma_ring_parts(r);
    lemma_mul_closed(r, coeff(r, a, i), coeff(r, b, k - i));
}

proof fn lemma_convolution_member<R: Ring>(r: &R, a: Seq<R::M>, b: Seq<R::M>, k: int, n: nat)
    requires
        ring_laws(r),
        all_members(r, a),
        all_members(r, b),
    ensures
        r.member(convolution(r, a, b, k, n)),
{
    assert forall|i: int| 0 <= i < n implies #[trigger] r.member(product_term(r, a, b, k)(i)) by {
        lemma_term_member(r, a, b, k, i);
    }
    lemma_sum_member(r, product_term(r, a, b, k), n);
}

/// The convolution sum the product is computed with is the plain sum of terms.
proof fn lemma_conv_convolution<R: Ring>(r: &R, a: Seq<R::M>, b: Seq<R::M>, k: int, t: nat)
    requires
        ring_laws(r),
        all_members(r, a),
        all_members(r, b),
    ensures
        r.eqv(conv(r, a, b, k, t), convolution(r, a, b, k, t)),
    decreases t,
{
    lemma_ring_parts(r);
    if t == 0 {
        lemma_refl(r, r.zero_s());
    } else {
        let i = t - 1;
        let m = (t - 1) as nat;
        lemma_conv_convolution(r, a, b, k, m);
        let p = conv(r, a, b, k, m);
        let s = convolution(r, a, b, k, m);
        let x = product_term(r, a, b, k)(i);
        lemma_conv_member(r, a, b, k, m);
        lemma_convolution_member(r, a, b, k, m);
        lemma_term_member(r, a, b, k, i);
        assert(convolution(r, a, b, k, t) == r.add_s(s, x));
        lemma_add_closed(r, s, x);
        if 0 <= k - i < b.len() {
            lemma_refl(r, x);
            lemma_add_congruent(r, p, s, x, x);
        } else {
            let z = r.zero_s();
            lemma_coeff_member(r, a, i);
            lemma_mul_zero(r, coeff(r, a, i));
            lemma_refl(r, s);
            lemma_add_congruent(r, s, s, x, z);
            lemma_add_zero(r, s);
            lemma_add_closed(r, s, z);
            lemma_trans(r, r.add_s(s, x), r.add_s(s, z), s);
            lemma_sym(r, r.add_s(s, x), s);
            lemma_trans(r, p, s, r.add_s(s, x));
        }
    }
}

/// Terms past `k` vanish: `b` has no coefficient below `x^0`.
proof fn lemma_convolution_upto<R: Ring>(r: &R, a: Seq<R::M>, b: Seq<R::M>, k: int, n: nat)
    requires
        ring_laws(r),
        all_members(r, a),
        all_members(r, b),
        k >= 0,
        n >= k + 1,
    ensures
        r.eqv(convolution(r, a, b, k, n), convolution(r, a, b, k, (k + 1) as nat)),
{
    lemma_ring_parts(r);
    let f = product_term(r, a, b, k);
    assert forall|i: int| 0 <= i < n implies #[trigger] r.member(f(i)) by {
        lemma_term_member(r, a, b, k, i);
    }
    assert forall|i: int| k + 1 <= i < n implies r.eqv(#[trigger] f(i), r.zero_s()) by {
        lemma_coeff_member(r, a, i);
        lemma_mul_zero(r, coeff(r, a, i));
    }
    lemma_sum_extend(r, f, (k + 1) as nat, n);
}

/// Terms past the end of `a` vanish.
proof fn lemma_convolution_len<R: Ring>(r: &R, a: Seq<R::M>, b: Seq<R::M>, k: int, n: nat)
    requires
        ring_laws(r),
        all_members(r, a),
        all_members(r, b),
        n >= a.len(),
    ensures
        r.eqv(convolution(r, a, b, k, n), convolution(r, a, b, k, a.len())),
{
    lemma_ring_parts(r);
    let f = product_term(r, a, b, k);
    assert forall|i: int| 0 <= i < n implies #[trigger] r.member(f(i)) by {
        lemma_term_member(r, a, b, k, i);
    }
    assert forall|i: int| a.len() <= i < n implies r.eqv(#[trigger] f(i), r.zero_s()) by {
        lemma_coeff_member(r, b, k - i);
        lemma_zero_mul(r, coeff(r, b, k - i));
    }
    lemma_sum_extend(r, f, a.len(), n);
}

/// The coefficient of `x^k` in `a · b` is `sum_{i < n} a_i · b_{k - i}`, for any
/// `n` past `k`.
pub proof fn lemma_product_coeff<R: Ring>(r: &R, a: Seq<R::M>, b: Seq<R::M>, k: int, n: nat)
    requires
        ring_laws(r),
        all_members(r, a),
        all_members(r, b),
        k >= 0,
        n >= k + 1,
    ensures
        r.eqv(coeff(r, poly_mul(r, a, b), k), convolution(r, a, b, k, n)),
{
    lemma_ring_parts(r);
    lemma_mul_coeff(r, a, b, k);
    lemma_conv_convolution(r, a, b, k, a.len());
    let big = if n < a.len() { a.len() } else { n };
    let kk = (k + 1) as nat;
    lemma_convolution_len(r, a, b, k, big);
    lemma_convolution_upto(r, a, b, k, big);
    lemma_convolution_upto(r, a, b, k, n);
    lemma_conv_member(r, a, b, k, a.len());
    lemma_convolution_member(r, a, b, k, a.len());
    lemma_convolution_member(r, a, b, k, big);
    lemma_convolution_member(r, a, b, k, kk);
    lemma_convolution_member(r, a, b, k, n);
    let c0 = conv(r, a, b, k, a.len());
    lemma_sym(r, convolution(r, a, b, k, big), convolution(r, a, b, k, a.len()));
    lemma_trans(r, c0, convolution(r, a, b, k, a.len()), convolution(r, a, b, k, big));
    lemma_trans(r, c0, convolution(r, a, b, k, big), convolution(r, a, b, k, kk));
    lemma_sym(r, convolution(r, a, b, k, n), convolution(r, a, b, k, kk));
    lemma_trans(r, c0, convolution(r, a, b, k, kk), convolution(r, a, b, k, n));
}

/// A product of members is a member.
pub proof fn lemma_mul_members<R: Ring>(r: &R, a: Seq<R::M>, b: Seq<R::M>)
    requires
        ring_laws(r),
        all_members(r, a),
        all_members(r, b),
    ensures
        all_members(r, poly_mul(r, a, b)),
{
    let p = poly_mul(r, a, b);
    assert forall|t: int| 0 <= t < p.len() implies #[trigger] r.member(p[t]) by {
        lemma_conv_member(r, a, b, t, a.len());
    }
}

/// `(a_i · b_{j - i}) · c_{k - j}`: the terms of the coefficient of `x^k` in
/// `(a · b) · c`.
pub open spec fn left_terms<R: Ring>(r: &R, a: Seq<R::M>, b: Seq<R::M>, c: Seq<R::M>, k: int) -> spec_fn(int, int) -> R::M {
    |i: int, j: int| r.mul_s(r.mul_s(coeff(r, a, i), coeff(r, b, j - i)), coeff(r, c, k - j))
}

/// `a_i · (b_q · c_{k - i - q})`: the terms of the coefficient of `x^k` in
/// `a · (b · c)`.
pub open spec fn right_terms<R: Ring>(r: &R, a: Seq<R::M>, b: Seq<R::M>, c: Seq<R::M>, k: int) -> spec_fn(int, int) -> R::M {
    |i: int, q: int| r.mul_s(coeff(r, a, i), r.mul_s(coeff(r, b, q), coeff(r, c, k - i - q)))
}

proof fn lemma_terms_member<R: Ring>(r: &R, a: Seq<R::M>, b: Seq<R::M>, c: Seq<R::M>, k: int, i: int, j: int)
    requires
        ring_laws(r),
        all_members(r, a),
        all_members(r, b),
        all_members(r, c),
    ensures
        r.member(left_terms(r, a, b, c, k)(i, j)),
        r.member(right_terms(r, a, b, c, k)(i, j)),
{
    lemma_ring_parts(r);
    lemma_coeff_member(r, a, i);
    lemma_coeff_member(r, b, j - i);
    lemma_coeff_member(r, b, j);
    lemma_coeff_member(r, c, k - j);
    lemma_coeff_member(r, c, k - i - j);
    lemma_mul_closed(r, coeff(r, a, i), coeff(r, b, j - i));
    lemma_mul_closed(r, r.mul_s(coeff(r, a, i), coeff(r, b, j - i)), coeff(r, c, k - j));
    lemma_mul_closed(r, coeff(r, b, j), coeff(r, c, k - i - j));
    lemma_mul_closed(r, coeff(r, a, i), r.mul_s(coeff(r, b, j), coeff(r, c, k - i - j)));
}

proof fn lemma_right_sums_member<R: Ring>(r: &R, a: Seq<R::M>, b: Seq<R::M>, c: Seq<R::M>, k: int, n: nat)
    requires
        ring_laws(r),
        all_members(r, a),
        all_members(r, b),
        all_members(r, c),
    ensures
        forall|i: int| 0 <= i < n ==> #[trigger] r.member(row_sums(r, right_terms(r, a, b, c, k), n)(i)),
        r.member(double_sum(r, right_terms(r, a, b, c, k), n, n)),
{
    let rt = right_terms(r, a, b, c, k);
    assert forall|i: int| 0 <= i < n implies #[trigger] r.member(row_sums(r, rt, n)(i)) by {
        let f = |q: int| rt(i, q);
        assert forall|q: int| 0 <= q < n implies #[trigger] r.member(f(q)) by {
            lemma_terms_member(r, a, b, c, k, i, q);
        }
        lemma_sum_member(r, f, n);
    }
    lemma_sum_member(r, row_sums(r, rt, n), n);
}

/// The coefficient of `x^k` in `(a · b) · c` as a double sum.
proof fn lemma_assoc_left<R: Ring>(r: &R, a: Seq<R::M>, b: Seq<R::M>, c: Seq<R::M>, k: int)
    requires
        ring_laws(r),
        all_members(r, a),
        all_members(r, b),
        all_members(r, c),
        k >= 0,
    ensures
        r.eqv(
            coeff(r, poly_mul(r, poly_mul(r, a, b), c), k),
            double_sum(r, right_terms(r, a, b, c, k), (k + 1) as nat, (k + 1) as nat),
        ),
{
    lemma_ring_parts(r);
    let kk = (k + 1) as nat;
    let ab = poly_mul(r, a, b);
    let lt = left_terms(r, a, b, c, k);
    let rt = right_terms(r, a, b, c, k);
    lemma_mul_members(r, a, b);
    lemma_mul_members(r, ab, c);
    lemma_product_coeff(r, ab, c, k, kk);
    // The coefficient is the sum over j of the sums over i of the left terms.
    let g = product_term(r, ab, c, k);
    let h = row_sums(r, flip(lt), kk);
    assert forall|j: int| 0 <= j < kk implies #[trigger] r.member(h(j)) by {
        let f = |i: int| flip(lt)(j, i);
        assert forall|i: int| 0 <= i < kk implies #[trigger] r.member(f(i)) by {
            lemma_terms_member(r, a, b, c, k, i, j);
        }
        lemma_sum_member(r, f, kk);
    }
    assert forall|j: int| 0 <= j < kk implies #[trigger] r.member(g(j)) by {
        lemma_term_member(r, ab, c, k, j);
    }
    assert forall|j: int| 0 <= j < kk implies r.eqv(#[trigger] g(j), h(j)) by {
        let cj = coeff(r, c, k - j);
        let x = coeff(r, ab, j);
        let s = convolution(r, a, b, j, kk);
        lemma_product_coeff(r, a, b, j, kk);
        lemma_coeff_member(r, c, k - j);
        lemma_coeff_member(r, ab, j);
        lemma_convolution_member(r, a, b, j, kk);
        lemma_refl(r, cj);
        lemma_mul_congruent(r, x, s, cj, cj);
        assert forall|i: int| 0 <= i < kk implies #[trigger] r.member(product_term(r, a, b, j)(i)) by {
            lemma_term_member(r, a, b, j, i);
        }
        lemma_sum_mul_right(r, product_term(r, a, b, j), cj, kk);
        assert((|i: int| r.mul_s(product_term(r, a, b, j)(i), cj)) =~= (|i: int| flip(lt)(j, i)));
        lemma_mul_closed(r, x, cj);
        lemma_mul_closed(r, s, cj);
        lemma_trans(r, g(j), r.mul_s(s, cj), h(j));
    }
    lemma_sum_congruent(r, g, h, kk);
    // Exchange the two sums.
    assert forall|j: int, i: int| 0 <= j < kk && 0 <= i < kk implies #[trigger] r.member(flip(lt)(j, i)) by {
        lemma_terms_member(r, a, b, c, k, i, j);
    }
    lemma_double_sum_swap(r, flip(lt), kk, kk);
    assert(flip(flip(lt)) =~= lt);
    // For each i, start the inner sum at j = i, and regroup each term.
    let rl = row_sums(r, lt, kk);
    let rr = row_sums(r, rt, kk);
    lemma_right_sums_member(r, a, b, c, k, kk);
    assert forall|i: int| 0 <= i < kk implies #[trigger] r.member(rl(i)) by {
        let f = |j: int| lt(i, j);
        assert forall|j: int| 0 <= j < kk implies #[trigger] r.member(f(j)) by {
            lemma_terms_member(r, a, b, c, k, i, j);
        }
        lemma_sum_member(r, f, kk);
    }
    assert forall|i: int| 0 <= i < kk implies r.eqv(#[trigger] rl(i), rr(i)) by {
        let f = |j: int| lt(i, j);
        let z = r.zero_s();
        assert forall|j: int| 0 <= j < i + kk implies #[trigger] r.member(f(j)) by {
            lemma_terms_member(r, a, b, c, k, i, j);
        }
        assert forall|j: int| 0 <= j < i implies r.eqv(#[trigger] f(j), z) by {
            let ai = coeff(r, a, i);
            let cj = coeff(r, c, k - j);
            lemma_coeff_member(r, a, i);
            lemma_coeff_member(r, c, k - j);
            assert(coeff(r, b, j - i) == z);
            lemma_mul_zero(r, ai);
            lemma_mul_closed(r, ai, z);
            lemma_refl(r, cj);
            lemma_mul_congruent(r, r.mul_s(ai, z), z, cj, cj);
            lemma_zero_mul(r, cj);
            lemma_mul_closed(r, r.mul_s(ai, z), cj);
            lemma_mul_closed(r, z, cj);
            lemma_trans(r, f(j), r.mul_s(z, cj), z);
        }
        assert forall|j: int| kk <= j < i + kk implies r.eqv(#[trigger] f(j), z) by {
            let p = r.mul_s(coeff(r, a, i), coeff(r, b, j - i));
            lemma_coeff_member(r, a, i);
            lemma_coeff_member(r, b, j - i);
            lemma_mul_closed(r, coeff(r, a, i), coeff(r, b, j - i));
            assert(coeff(r, c, k - j) == z);
            lemma_mul_zero(r, p);
        }
        lemma_sum_shift(r, f, i as nat, kk);
        let sf = |q: int| f(i + q);
        let rq = |q: int| rt(i, q);
        assert forall|q: int| 0 <= q < kk implies #[trigger] r.member(sf(q)) by {
            lemma_terms_member(r, a, b, c, k, i, i + q);
        }
        assert forall|q: int| 0 <= q < kk implies #[trigger] r.member(rq(q)) by {
            lemma_terms_member(r, a, b, c, k, i, q);
        }
        assert forall|q: int| 0 <= q < kk implies r.eqv(#[trigger] sf(q), rq(q)) by {
            assert(i + q - i == q);
            assert(k - (i + q) == k - i - q);
            lemma_coeff_member(r, a, i);
            lemma_coeff_member(r, b, q);
            lemma_coeff_member(r, c, k - i - q);
            lemma_mul_assoc(r, coeff(r, a, i), coeff(r, b, q), coeff(r, c, k - i - q));
        }
        lemma_sum_congruent(r, sf, rq, kk);
        assert(rl(i) == sum_of(r, f, kk));
        assert(rr(i) == sum_of(r, rq, kk));
        lemma_sum_member(r, f, kk);
        lemma_sum_member(r, sf, kk);
        lemma_trans(r, rl(i), sum_of(r, sf, kk), rr(i));
    }
    lemma_sum_congruent(r, rl, rr, kk);
    // Chain the steps.
    let x = coeff(r, poly_mul(r, ab, c), k);
    lemma_coeff_member(r, poly_mul(r, ab, c), k);
    lemma_convolution_member(r, ab, c, k, kk);
    lemma_sum_member(r, h, kk);
    lemma_sum_member(r, rl, kk);
    assert(convolution(r, ab, c, k, kk) == sum_of(r, g, kk));
    assert(double_sum(r, flip(lt), kk, kk) == sum_of(r, h, kk));
    assert(double_sum(r, lt, kk, kk) == sum_of(r, rl, kk));
    lemma_trans(r, x, sum_of(r, g, kk), sum_of(r, h, kk));
    lemma_trans(r, x, sum_of(r, h, kk), sum_of(r, rl, kk));
    lemma_trans(r, x, sum_of(r, rl, kk), sum_of(r, rr, kk));
}

/// The coefficient of `x^k` in `a · (b · c)` as the same double sum.
proof fn lemma_assoc_right<R: Ring>(r: &R, a: Seq<R::M>, b: Seq<R::M>, c: Seq<R::M>, k: int)
    requires
        ring_laws(r),
        all_members(r, a),
        all_members(r, b),
        all_members(r, c),
        k >= 0,
    ensures
        r.eqv(
            coeff(r, poly_mul(r, a, poly_mul(r, b, c)), k),
            double_sum(r, right_terms(r, a, b, c, k), (k + 1) as nat, (k + 1) as nat),
        ),
{
    lemma_ring_parts(r);
    let kk = (k + 1) as nat;
    let bc = poly_mul(r, b, c);
    let rt = right_terms(r, a, b, c, k);
    lemma_mul_members(r, b, c);
    lemma_mul_members(r, a, bc);
    lemma_product_coeff(r, a, bc, k, kk);
    let g = product_term(r, a, bc, k);
    let rr = row_sums(r, rt, kk);
    lemma_right_sums_member(r, a, b, c, k, kk);
    assert forall|i: int| 0 <= i < kk implies #[trigger] r.member(g(i)) by {
        lemma_term_member(r, a, bc, k, i);
    }
    assert forall|i: int| 0 <= i < kk implies r.eqv(#[trigger] g(i), rr(i)) by {
        let ai = coeff(r, a, i);
        let y = coeff(r, bc, k - i);
        let s = convolution(r, b, c, k - i, kk);
        lemma_product_coeff(r, b, c, k - i, kk);
        lemma_coeff_member(r, a, i);
        lemma_coeff_member(r, bc, k - i);
        lemma_convolution_member(r, b, c, k - i, kk);
        lemma_refl(r, ai);
        lemma_mul_congruent(r, ai, ai, y, s);
        assert forall|q: int| 0 <= q < kk implies #[trigger] r.member(product_term(r, b, c, k - i)(q)) by {
            lemma_term_member(r, b, c, k - i, q);
        }
        lemma_sum_mul_left(r, ai, product_term(r, b, c, k - i), kk);
        assert((|q: int| r.mul_s(ai, product_term(r, b, c, k - i)(q))) =~= (|q: int| rt(i, q)));
        lemma_mul_closed(r, ai, y);
        lemma_mul_closed(r, ai, s);
        lemma_trans(r, g(i), r.mul_s(ai, s), rr(i));
    }
    lemma_sum_congruent(r, g, rr, kk);
    let x = coeff(r, poly_mul(r, a, bc), k);
    lemma_coeff_member(r, poly_mul(r, a, bc), k);
    lemma_convolution_member(r, a, bc, k, kk);
    lemma_sum_member(r, g, kk);
    assert(convolution(r, a, bc, k, kk) == sum_of(r, g, kk));
    lemma_trans(r, x, sum_of(r, g, kk), sum_of(r, rr, kk));
}

/// Multiplication of polynomials is associative.
pub proof fn lemma_poly_mul_assoc<R: Ring>(r: &R, a: Seq<R::M>, b: Seq<R::M>, c: Seq<R::M>)
    requires
        ring_laws(r),
        all_members(r, a),
        all_members(r, b),
        all_members(r, c),
    ensures
        same_coefficients(r, poly_mul(r, poly_mul(r, a, b), c), poly_mul(r, a, poly_mul(r, b, c))),
{
    lemma_ring_parts(r);
    let x = poly_mul(r, poly_mul(r, a, b), c);
    let y = poly_mul(r, a, poly_mul(r, b, c));
    lemma_mul_members(r, a, b);
    lemma_mul_members(r, b, c);
    lemma_mul_members(r, poly_mul(r, a, b), c);
    lemma_mul_members(r, a, poly_mul(r, b, c));
    assert forall|t: int| 0 <= t < max_len(x.len(), y.len()) implies #[trigger] r.eqv(coeff(r, x, t), coeff(r, y, t)) by {
        let d = double_sum(r, right_terms(r, a, b, c, t), (t + 1) as nat, (t + 1) as nat);
        lemma_assoc_left(r, a, b, c, t);
        lemma_assoc_right(r, a, b, c, t);
        lemma_right_sums_member(r, a, b, c, t, (t + 1) as nat);
        lemma_coeff_member(r, x, t);
        lemma_coeff_member(r, y, t);
        lemma_sym(r, coeff(r, y, t), d);
        lemma_trans(r, coeff(r, x, t), d, coeff(r, y, t));
    }
}

/// Multiplication of polynomials commutes when the coefficients do.
pub proof fn lemma_poly_mul_comm<R: Ring>(r: &R, a: Seq<R::M>, b: Seq<R::M>)
    requires
        ring_laws(r),
        commutative_laws(r),
        all_members(r, a),
        all_members(r, b),
    ensures
        same_coefficients(r, poly_mul(r, a, b), poly_mul(r, b, a)),
{
    lemma_ring_parts(r);
    let x = poly_mul(r, a, b);
    let y = poly_mul(r, b, a);
    lemma_mul_members(r, a, b);
    lemma_mul_members(r, b, a);
    assert forall|t: int| 0 <= t < max_len(x.len(), y.len()) implies #[trigger] r.eqv(coeff(r, x, t), coeff(r, y, t)) by {
        let kk = (t + 1) as nat;
        let f = product_term(r, a, b, t);
        let g = product_term(r, b, a, t);
        let back = |i: int| f(kk - 1 - i);
        lemma_product_coeff(r, a, b, t, kk);
        lemma_product_coeff(r, b, a, t, kk);
        assert forall|i: int| 0 <= i < kk implies #[trigger] r.member(f(i)) by {
            lemma_term_member(r, a, b, t, i);
        }
        assert forall|i: int| 0 <= i < kk implies #[trigger] r.member(g(i)) by {
            lemma_term_member(r, b, a, t, i);
        }
        assert forall|i: int| 0 <= i < kk implies #[trigger] r.member(back(i)) by {
            lemma_term_member(r, a, b, t, kk - 1 - i);
        }
        lemma_sum_reverse(r, f, kk);
        assert forall|i: int| 0 <= i < kk implies r.eqv(#[trigger] back(i), g(i)) by {
            assert(kk - 1 - i == t - i);
            assert(t - (t - i) == i);
            lemma_coeff_member(r, a, t - i);
            lemma_coeff_member(r, b, i);
            lemma_mul_comm(r, coeff(r, a, t - i), coeff(r, b, i));
        }
        lemma_sum_congruent(r, back, g, kk);
        lemma_sum_member(r, f, kk);
        lemma_sum_member(r, back, kk);
        lemma_sum_member(r, g, kk);
        lemma_coeff_member(r, x, t);
        lemma_coeff_member(r, y, t);
        lemma_trans(r, coeff(r, x, t), sum_of(r, f, kk), sum_of(r, back, kk));
        lemma_trans(r, coeff(r, x, t), sum_of(r, back, kk), sum_of(r, g, kk));
        lemma_sym(r, coeff(r, y, t), sum_of(r, g, kk));
        lemma_trans(r, coeff(r, x, t), sum_of(r, g, kk), coeff(r, y, t));
    }
}

/// A coefficient of a difference is the difference of the coefficients.
pub proof fn lemma_poly_sub_coeff<R: Ring>(r: &R, a: Seq<R::M>, b: Seq<R::M>, t: int)
    requires
        ring_laws(r),
        all_members(r, a),
        all_members(r, b),
        0 <= t,
    ensures
        r.eqv(coeff(r, poly_sub(r, a, b), t), r.sub_s(coeff(r, a, t), coeff(r, b, t))),
{
    lemma_ring_parts(r);
    lemma_coeff_member(r, a, t);
    lemma_coeff_member(r, b, t);
    lemma_sub_closed(r, coeff(r, a, t), coeff(r, b, t));
    if t < max_len(a.len(), b.len()) {
        lemma_refl(r, r.sub_s(coeff(r, a, t), coeff(r, b, t)));
    } else {
        lemma_sub_self(r, r.zero_s());
        lemma_sym(r, r.sub_s(r.zero_s(), r.zero_s()), r.zero_s());
    }
}

/// Sums and differences of members are members.
pub proof fn lemma_add_sub_members<R: Ring>(r: &R, a: Seq<R::M>, b: Seq<R::M>)
    requires
        ring_laws(r),
        all_members(r, a),
        all_members(r, b),
    ensures
        all_members(r, poly_add(r, a, b)),
        all_members(r, poly_sub(r, a, b)),
{
    lemma_ring_parts(r);
    assert forall|t: int| 0 <= t < poly_add(r, a, b).len() implies #[trigger] r.member(poly_add(r, a, b)[t]) by {
        lemma_coeff_member(r, a, t);
        lemma_coeff_member(r, b, t);
        lemma_add_closed(r, coeff(r, a, t), coeff(r, b, t));
    }
    assert forall|t: int| 0 <= t < poly_sub(r, a, b).len() implies #[trigger] r.member(poly_sub(r, a, b)[t]) by {
        lemma_coeff_member(r, a, t);
        lemma_coeff_member(r, b, t);
        lemma_sub_closed(r, coeff(r, a, t), coeff(r, b, t));
    }
}

/// Multiplication distributes over addition, on the left.
pub proof fn lemma_poly_distrib_left<R: Ring>(r: &R, a: Seq<R::M>, b: Seq<R::M>, c: Seq<R::M>)
    requires
        ring_laws(r),
        all_members(r, a),
        all_members(r, b),
        all_members(r, c),
    ensures
        same_coefficients(
            r,
            poly_mul(r, a, poly_add(r, b, c)),
            poly_add(r, poly_mul(r, a, b), poly_mul(r, a, c)),
        ),
{
    lemma_ring_parts(r);
    let bc = poly_add(r, b, c);
    let ab = poly_mul(r, a, b);
    let ac = poly_mul(r, a, c);
    let x = poly_mul(r, a, bc);
    let y = poly_add(r, ab, ac);
    lemma_add_sub_members(r, b, c);
    lemma_mul_members(r, a, b);
    lemma_mul_members(r, a, c);
    lemma_mul_members(r, a, bc);
    lemma_add_sub_members(r, ab, ac);
    assert forall|t: int| 0 <= t < max_len(x.len(), y.len()) implies #[trigger] r.eqv(coeff(r, x, t), coeff(r, y, t)) by {
        let kk = (t + 1) as nat;
        let f = product_term(r, a, bc, t);
        let g = product_term(r, a, b, t);
        let h = product_term(r, a, c, t);
        let both = |i: int| r.add_s(g(i), h(i));
        lemma_product_coeff(r, a, bc, t, kk);
        lemma_product_coeff(r, a, b, t, kk);
        lemma_product_coeff(r, a, c, t, kk);
        assert forall|i: int| 0 <= i < kk implies #[trigger] r.member(f(i)) by {
            lemma_term_member(r, a, bc, t, i);
        }
        assert forall|i: int| 0 <= i < kk implies #[trigger] r.member(g(i)) by {
            lemma_term_member(r, a, b, t, i);
        }
        assert forall|i: int| 0 <= i < kk implies #[trigger] r.member(h(i)) by {
            lemma_term_member(r, a, c, t, i);
        }
        assert forall|i: int| 0 <= i < kk implies #[trigger] r.member(both(i)) by {
            lemma_add_closed(r, g(i), h(i));
        }
        assert forall|i: int| 0 <= i < kk implies r.eqv(#[trigger] f(i), both(i)) by {
            let ai = coeff(r, a, i);
            let bi = coeff(r, b, t - i);
            let ci = coeff(r, c, t - i);
            lemma_coeff_member(r, a, i);
            lemma_coeff_member(r, b, t - i);
            lemma_coeff_member(r, c, t - i);
            lemma_coeff_member(r, bc, t - i);
            crate::polynomials::lemma_poly_add_coeff(r, b, c, t - i);
            lemma_add_closed(r, bi, ci);
            lemma_refl(r, ai);
            lemma_mul_congruent(r, ai, ai, coeff(r, bc, t - i), r.add_s(bi, ci));
            lemma_distrib(r, ai, bi, ci);
            lemma_mul_closed(r, ai, r.add_s(bi, ci));
            lemma_trans(r, f(i), r.mul_s(ai, r.add_s(bi, ci)), both(i));
        }
        lemma_sum_congruent(r, f, both, kk);
        lemma_sum_add(r, g, h, kk);
        lemma_sum_member(r, f, kk);
        lemma_sum_member(r, g, kk);
        lemma_sum_member(r, h, kk);
        lemma_sum_member(r, both, kk);
        lemma_add_closed(r, sum_of(r, g, kk), sum_of(r, h, kk));
        lemma_coeff_member(r, x, t);
        lemma_coeff_member(r, y, t);
        lemma_coeff_member(r, ab, t);
        lemma_coeff_member(r, ac, t);
        // coeff(x) ~ sum f ~ sum both ~ sum g + sum h ~ coeff(ab) + coeff(ac) ~ coeff(y)
        lemma_trans(r, coeff(r, x, t), sum_of(r, f, kk), sum_of(r, both, kk));
        lemma_trans(r, coeff(r, x, t), sum_of(r, both, kk), r.add_s(sum_of(r, g, kk), sum_of(r, h, kk)));
        lemma_sym(r, coeff(r, ab, t), sum_of(r, g, kk));
        lemma_sym(r, coeff(r, ac, t), sum_of(r, h, kk));
        lemma_add_congruent(r, sum_of(r, g, kk), coeff(r, ab, t), sum_of(r, h, kk), coeff(r, ac, t));
        lemma_add_closed(r, coeff(r, ab, t), coeff(r, ac, t));
        lemma_trans(r, coeff(r, x, t), r.add_s(sum_of(r, g, kk), sum_of(r, h, kk)), r.add_s(coeff(r, ab, t), coeff(r, ac, t)));
        crate::polynomials::lemma_poly_add_coeff(r, ab, ac, t);
        lemma_sym(r, coeff(r, y, t), r.add_s(coeff(r, ab, t), coeff(r, ac, t)));
        lemma_trans(r, coeff(r, x, t), r.add_s(coeff(r, ab, t), coeff(r, ac, t)), coeff(r, y, t));
    }
}

/// Multiplication distributes over addition, on the right.
pub proof fn lemma_poly_distrib_right<R: Ring>(r: &R, a: Seq<R::M>, b: Seq<R::M>, c: Seq<R::M>)
    requires
        ring_laws(r),
        all_members(r, a),
        all_members(r, b),
        all_members(r, c),
    ensures
        same_coefficients(
            r,
            poly_mul(r, poly_add(r, a, b), c),
            poly_add(r, poly_mul(r, a, c), poly_mul(r, b, c)),
        ),
{
    lemma_ring_parts(r);
    let ab = poly_add(r, a, b);
    let ac = poly_mul(r, a, c);
    let bc = poly_mul(r, b, c);
    let x = poly_mul(r, ab, c);
    let y = poly_add(r, ac, bc);
    lemma_add_sub_members(r, a, b);
    lemma_mul_members(r, a, c);
    lemma_mul_members(r, b, c);
    lemma_mul_members(r, ab, c);
    lemma_add_sub_members(r, ac, bc);
    assert forall|t: int| 0 <= t < max_len(x.len(), y.len()) implies #[trigger] r.eqv(coeff(r, x, t), coeff(r, y, t)) by {
        let kk = (t + 1) as nat;
        let f = product_term(r, ab, c, t);
        let g = product_term(r, a, c, t);
        let h = product_term(r, b, c, t);
        let both = |i: int| r.add_s(g(i), h(i));
        lemma_product_coeff(r, ab, c, t, kk);
        lemma_product_coeff(r, a, c, t, kk);
        lemma_product_coeff(r, b, c, t, kk);
        assert forall|i: int| 0 <= i < kk implies #[trigger] r.member(f(i)) by {
            lemma_term_member(r, ab, c, t, i);
        }
        assert forall|i: int| 0 <= i < kk implies #[trigger] r.member(g(i)) by {
            lemma_term_member(r, a, c, t, i);
        }
        assert forall|i: int| 0 <= i < kk implies #[trigger] r.member(h(i)) by {
            lemma_term_member(r, b, c, t, i);
        }
        assert forall|i: int| 0 <= i < kk implies #[trigger] r.member(both(i)) by {
            lemma_add_closed(r, g(i), h(i));
        }
        assert forall|i: int| 0 <= i < kk implies r.eqv(#[trigger] f(i), both(i)) by {
            let ai = coeff(r, a, i);
            let bi = coeff(r, b, i);
            let ci = coeff(r, c, t - i);
            lemma_coeff_member(r, a, i);
            lemma_coeff_member(r, b, i);
            lemma_coeff_member(r, c, t - i);
            lemma_coeff_member(r, ab, i);
            crate::polynomials::lemma_poly_add_coeff(r, a, b, i);
            lemma_add_closed(r, ai, bi);
            lemma_refl(r, ci);
            lemma_mul_congruent(r, coeff(r, ab, i), r.add_s(ai, bi), ci, ci);
            lemma_distrib(r, ai, bi, ci);
            lemma_mul_closed(r, r.add_s(ai, bi), ci);
            lemma_trans(r, f(i), r.mul_s(r.add_s(ai, bi), ci), both(i));
        }
        lemma_sum_congruent(r, f, both, kk);
        lemma_sum_add(r, g, h, kk);
        lemma_sum_member(r, f, kk);
        lemma_sum_member(r, g, kk);
        lemma_sum_member(r, h, kk);
        lemma_sum_member(r, both, kk);
        lemma_add_closed(r, sum_of(r, g, kk), sum_of(r, h, kk));
        lemma_coeff_member(r, x, t);
        lemma_coeff_member(r, y, t);
        lemma_coeff_member(r, ac, t);
        lemma_coeff_member(r, bc, t);
        lemma_trans(r, coeff(r, x, t), sum_of(r, f, kk), sum_of(r, both, kk));
        lemma_trans(r, coeff(r, x, t), sum_of(r, both, kk), r.add_s(sum_of(r, g, kk), sum_of(r, h, kk)));
        lemma_sym(r, coeff(r, ac, t), sum_of(r, g, kk));
        lemma_sym(r, coeff(r, bc, t), sum_of(r, h, kk));
        lemma_add_congruent(r, sum_of(r, g, kk), coeff(r, ac, t), sum_of(r, h, kk), coeff(r, bc, t));
        lemma_add_closed(r, coeff(r, ac, t), coeff(r, bc, t));
        lemma_trans(r, coeff(r, x, t), r.add_s(sum_of(r, g, kk), sum_of(r, h, kk)), r.add_s(coeff(r, ac, t), coeff(r, bc, t)));
        crate::polynomials::lemma_poly_add_coeff(r, ac, bc, t);
        lemma_sym(r, coeff(r, y, t), r.add_s(coeff(r, ac, t), coeff(r, bc, t)));
        lemma_trans(r, coeff(r, x, t), r.add_s(coeff(r, ac, t), coeff(r, bc, t)), coeff(r, y, t));
    }
}

/// The constant polynomial `1` is a two-sided identity.
pub proof fn lemma_poly_mul_one<R: Ring>(r: &R, a: Seq<R::M>)
    requires
        ring_laws(r),
        all_members(r, a),
    ensures
        same_coefficients(r, poly_mul(r, seq![r.one_s()], a), a),
        same_coefficients(r, poly_mul(r, a, seq![r.one_s()]), a),
{
    lemma_ring_parts(r);
    let one = seq![r.one_s()];
    let z = r.zero_s();
    assert(all_members(r, one));
    let x = poly_mul(r, one, a);
    let y = poly_mul(r, a, one);
    lemma_mul_members(r, one, a);
    lemma_mul_members(r, a, one);
    assert forall|t: int| 0 <= t < max_len(x.len(), a.len()) implies #[trigger] r.eqv(coeff(r, x, t), coeff(r, a, t)) by {
        let kk = (t + 1) as nat;
        let f = product_term(r, one, a, t);
        let rest = |q: int| f(1 + q);
        lemma_product_coeff(r, one, a, t, kk);
        assert forall|i: int| 0 <= i < kk implies #[trigger] r.member(f(i)) by {
            lemma_term_member(r, one, a, t, i);
        }
        lemma_sum_first(r, f, kk);
        assert forall|q: int| 0 <= q < t implies #[trigger] r.member(rest(q)) by {
            lemma_term_member(r, one, a, t, 1 + q);
        }
        assert forall|q: int| 0 <= q < t implies r.eqv(#[trigger] rest(q), z) by {
            assert(coeff(r, one, 1 + q) == z);
            lemma_coeff_member(r, a, t - (1 + q));
            lemma_zero_mul(r, coeff(r, a, t - (1 + q)));
        }
        lemma_sum_zero(r, rest, t as nat);
        let at = coeff(r, a, t);
        lemma_coeff_member(r, a, t);
        assert(f(0) == r.mul_s(r.one_s(), at));
        lemma_mul_one(r, at);
        lemma_sum_member(r, rest, t as nat);
        lemma_add_congruent(r, f(0), at, sum_of(r, rest, t as nat), z);
        lemma_add_zero(r, at);
        lemma_mul_closed(r, r.one_s(), at);
        lemma_add_closed(r, f(0), sum_of(r, rest, t as nat));
        lemma_add_closed(r, at, z);
        lemma_sum_member(r, f, kk);
        lemma_coeff_member(r, x, t);
        lemma_trans(r, coeff(r, x, t), sum_of(r, f, kk), r.add_s(f(0), sum_of(r, rest, t as nat)));
        lemma_trans(r, coeff(r, x, t), r.add_s(f(0), sum_of(r, rest, t as nat)), r.add_s(at, z));
        lemma_trans(r, coeff(r, x, t), r.add_s(at, z), at);
    }
    assert forall|t: int| 0 <= t < max_len(y.len(), a.len()) implies #[trigger] r.eqv(coeff(r, y, t), coeff(r, a, t)) by {
        let kk = (t + 1) as nat;
        let tt = t as nat;
        let f = product_term(r, a, one, t);
        lemma_product_coeff(r, a, one, t, kk);
        assert forall|i: int| 0 <= i < kk implies #[trigger] r.member(f(i)) by {
            lemma_term_member(r, a, one, t, i);
        }
        assert forall|i: int| 0 <= i < tt implies r.eqv(#[trigger] f(i), z) by {
            assert(coeff(r, one, t - i) == z);
            lemma_coeff_member(r, a, i);
            lemma_mul_zero(r, coeff(r, a, i));
        }
        lemma_sum_zero(r, f, tt);
        let at = coeff(r, a, t);
        lemma_coeff_member(r, a, t);
        assert(f(t) == r.mul_s(at, r.one_s()));
        assert(sum_of(r, f, kk) == r.add_s(sum_of(r, f, tt), f(t)));
        lemma_mul_one(r, at);
        lemma_sum_member(r, f, tt);
        lemma_add_congruent(r, sum_of(r, f, tt), z, f(t), at);
        lemma_add_zero(r, at);
        lemma_mul_closed(r, at, r.one_s());
        lemma_add_closed(r, sum_of(r, f, tt), f(t));
        lemma_add_closed(r, z, at);
        lemma_sum_member(r, f, kk);
        lemma_coeff_member(r, y, t);
        lemma_trans(r, coeff(r, y, t), sum_of(r, f, kk), r.add_s(z, at));
        lemma_trans(r, coeff(r, y, t), r.add_s(z, at), at);
    }
}

/// Addition is associative and commutative, with the empty polynomial as zero; and
/// subtracting then adding back gives the polynomial again.
pub proof fn lemma_poly_add_laws<R: Ring>(r: &R, a: Seq<R::M>, b: Seq<R::M>, c: Seq<R::M>)
    requires
        ring_laws(r),
        all_members(r, a),
        all_members(r, b),
        all_members(r, c),
    ensures
        same_coefficients(r, poly_add(r, poly_add(r, a, b), c), poly_add(r, a, poly_add(r, b, c))),
        same_coefficients(r, poly_add(r, a, b), poly_add(r, b, a)),
        same_coefficients(r, poly_add(r, Seq::empty(), a), a),
        same_coefficients(r, poly_add(r, poly_sub(r, a, b), b), a),
{
    lemma_ring_parts(r);
    let ab = poly_add(r, a, b);
    let bc = poly_add(r, b, c);
    let ba = poly_add(r, b, a);
    let d = poly_sub(r, a, b);
    let x = poly_add(r, ab, c);
    let y = poly_add(r, a, bc);
    let e = Seq::<R::M>::empty();
    let w = poly_add(r, d, b);
    lemma_add_sub_members(r, a, b);
    lemma_add_sub_members(r, b, c);
    lemma_add_sub_members(r, b, a);
    lemma_add_sub_members(r, ab, c);
    lemma_add_sub_members(r, a, bc);
    lemma_add_sub_members(r, e, a);
    lemma_add_sub_members(r, d, b);
    assert forall|t: int| 0 <= t < max_len(x.len(), y.len()) implies #[trigger] r.eqv(coeff(r, x, t), coeff(r, y, t)) by {
        let (at, bt, ct) = (coeff(r, a, t), coeff(r, b, t), coeff(r, c, t));
        lemma_coeff_member(r, a, t);
        lemma_coeff_member(r, b, t);
        lemma_coeff_member(r, c, t);
        lemma_coeff_member(r, ab, t);
        lemma_coeff_member(r, bc, t);
        lemma_coeff_member(r, x, t);
        lemma_coeff_member(r, y, t);
        crate::polynomials::lemma_poly_add_coeff(r, ab, c, t);
        crate::polynomials::lemma_poly_add_coeff(r, a, b, t);
        crate::polynomials::lemma_poly_add_coeff(r, b, c, t);
        crate::polynomials::lemma_poly_add_coeff(r, a, bc, t);
        lemma_add_closed(r, at, bt);
        lemma_add_closed(r, bt, ct);
        lemma_add_closed(r, r.add_s(at, bt), ct);
        lemma_add_closed(r, at, r.add_s(bt, ct));
        lemma_add_closed(r, coeff(r, ab, t), ct);
        lemma_add_closed(r, at, coeff(r, bc, t));
        lemma_refl(r, ct);
        lemma_refl(r, at);
        lemma_add_congruent(r, coeff(r, ab, t), r.add_s(at, bt), ct, ct);
        lemma_add_assoc(r, at, bt, ct);
        lemma_sym(r, coeff(r, bc, t), r.add_s(bt, ct));
        lemma_add_congruent(r, at, at, r.add_s(bt, ct), coeff(r, bc, t));
        lemma_sym(r, coeff(r, y, t), r.add_s(at, coeff(r, bc, t)));
        lemma_trans(r, coeff(r, x, t), r.add_s(coeff(r, ab, t), ct), r.add_s(r.add_s(at, bt), ct));
        lemma_trans(r, coeff(r, x, t), r.add_s(r.add_s(at, bt), ct), r.add_s(at, r.add_s(bt, ct)));
        lemma_trans(r, coeff(r, x, t), r.add_s(at, r.add_s(bt, ct)), r.add_s(at, coeff(r, bc, t)));
        lemma_trans(r, coeff(r, x, t), r.add_s(at, coeff(r, bc, t)), coeff(r, y, t));
    }
    assert forall|t: int| 0 <= t < max_len(ab.len(), ba.len()) implies #[trigger] r.eqv(coeff(r, ab, t), coeff(r, ba, t)) by {
        let (at, bt) = (coeff(r, a, t), coeff(r, b, t));
        lemma_coeff_member(r, a, t);
        lemma_coeff_member(r, b, t);
        lemma_coeff_member(r, ab, t);
        lemma_coeff_member(r, ba, t);
        crate::polynomials::lemma_poly_add_coeff(r, a, b, t);
        crate::polynomials::lemma_poly_add_coeff(r, b, a, t);
        lemma_add_comm(r, at, bt);
        lemma_add_closed(r, at, bt);
        lemma_add_closed(r, bt, at);
        lemma_trans(r, coeff(r, ab, t), r.add_s(at, bt), r.add_s(bt, at));
        lemma_sym(r, coeff(r, ba, t), r.add_s(bt, at));
        lemma_trans(r, coeff(r, ab, t), r.add_s(bt, at), coeff(r, ba, t));
    }
    let za = poly_add(r, e, a);
    assert forall|t: int| 0 <= t < max_len(za.len(), a.len()) implies #[trigger] r.eqv(coeff(r, za, t), coeff(r, a, t)) by {
        lemma_coeff_member(r, a, t);
        lemma_add_zero(r, coeff(r, a, t));
    }
    assert forall|t: int| 0 <= t < max_len(w.len(), a.len()) implies #[trigger] r.eqv(coeff(r, w, t), coeff(r, a, t)) by {
        let (at, bt) = (coeff(r, a, t), coeff(r, b, t));
        lemma_coeff_member(r, a, t);
        lemma_coeff_member(r, b, t);
        lemma_coeff_member(r, d, t);
        lemma_coeff_member(r, w, t);
        crate::polynomials::lemma_poly_add_coeff(r, d, b, t);
        lemma_poly_sub_coeff(r, a, b, t);
        lemma_sub_closed(r, at, bt);
        lemma_refl(r, bt);
        lemma_add_congruent(r, coeff(r, d, t), r.sub_s(at, bt), bt, bt);
        lemma_sub_add(r, at, bt);
        lemma_add_closed(r, coeff(r, d, t), bt);
        lemma_add_closed(r, r.sub_s(at, bt), bt);
        lemma_trans(r, coeff(r, w, t), r.add_s(coeff(r, d, t), bt), r.add_s(r.sub_s(at, bt), bt));
        lemma_trans(r, coeff(r, w, t), r.add_s(r.sub_s(at, bt), bt), at);
    }
}

/// Subtraction of polynomials respects their equality.
pub proof fn lemma_poly_sub_congruent<R: Ring>(r: &R, a1: Seq<R::M>, a2: Seq<R::M>, b1: Seq<R::M>, b2: Seq<R::M>)
    requires
        ring_laws(r),
        all_members(r, a1),
        all_members(r, a2),
        all_members(r, b1),
        all_members(r, b2),
        same_coefficients(r, a1, a2),
        same_coefficients(r, b1, b2),
    ensures
        same_coefficients(r, poly_sub(r, a1, b1), poly_sub(r, a2, b2)),
{
    lemma_ring_parts(r);
    let s1 = poly_sub(r, a1, b1);
    let s2 = poly_sub(r, a2, b2);
    lemma_add_sub_members(r, a1, b1);
    lemma_add_sub_members(r, a2, b2);
    assert forall|t: int| 0 <= t < max_len(s1.len(), s2.len()) implies #[trigger] r.eqv(coeff(r, s1, t), coeff(r, s2, t)) by {
        lemma_poly_sub_coeff(r, a1, b1, t);
        lemma_poly_sub_coeff(r, a2, b2, t);
        lemma_coeff_member(r, a1, t);
        lemma_coeff_member(r, a2, t);
        lemma_coeff_member(r, b1, t);
        lemma_coeff_member(r, b2, t);
        lemma_coeff_member(r, s1, t);
        lemma_coeff_member(r, s2, t);
        assert(r.eqv(coeff(r, a1, t), coeff(r, a2, t))) by {
            if t >= max_len(a1.len(), a2.len()) {
                lemma_refl(r, r.zero_s());
            }
        }
        assert(r.eqv(coeff(r, b1, t), coeff(r, b2, t))) by {
            if t >= max_len(b1.len(), b2.len()) {
                lemma_refl(r, r.zero_s());
            }
        }
        crate::laws::lemma_sub_step(r, coeff(r, s1, t), coeff(r, a1, t), coeff(r, b1, t), coeff(r, a2, t), coeff(r, b2, t));
        lemma_sym(r, coeff(r, s2, t), r.sub_s(coeff(r, a2, t), coeff(r, b2, t)));
        lemma_trans(r, coeff(r, s1, t), r.sub_s(coeff(r, a2, t), coeff(r, b2, t)), coeff(r, s2, t));
    }
}

proof fn lemma_poly_equivalence<R: Ring + DecidableEq>(h: &Rc<PolynomialRing<R>>)
    requires
        ring_laws(&(**h).coeff_ring()),
    ensures
        equivalence(h),
{
    reveal(equivalence);
    let r = (**h).coeff_ring();
    lemma_ring_parts(&r);
    assert forall|a: Seq<R::M>| #[trigger] h.member(a) implies h.eqv(a, a) by {
        lemma_same_refl(&r, a);
    }
    assert forall|a: Seq<R::M>, b: Seq<R::M>| h.member(a) && h.member(b) && #[trigger] h.eqv(a, b) implies h.eqv(b, a) by {
        lemma_same_sym(&r, a, b);
    }
    assert forall|a: Seq<R::M>, b: Seq<R::M>, c: Seq<R::M>|
        h.member(a) && h.member(b) && h.member(c) && #[trigger] h.eqv(a, b) && #[trigger] h.eqv(b, c) implies h.eqv(a, c) by {
        lemma_same_trans(&r, a, b, c);
    }
}

proof fn lemma_poly_group<R: Ring + DecidableEq>(h: &Rc<PolynomialRing<R>>)
    requires
        ring_laws(&(**h).coeff_ring()),
    ensures
        group_laws(h),
{
    reveal(group_laws);
    reveal(additive_laws);
    let r = (**h).coeff_ring();
    lemma_ring_parts(&r);
    lemma_poly_equivalence(h);
    assert(h.member(h.zero_s()));
    assert forall|a: Seq<R::M>, b: Seq<R::M>| h.member(a) && h.member(b) implies #[trigger] h.member(h.add_s(a, b)) by {
        lemma_add_sub_members(&r, a, b);
    }
    assert forall|a: Seq<R::M>, b: Seq<R::M>| h.member(a) && h.member(b) implies #[trigger] h.member(h.sub_s(a, b)) by {
        lemma_add_sub_members(&r, a, b);
    }
    assert forall|a1: Seq<R::M>, a2: Seq<R::M>, b1: Seq<R::M>, b2: Seq<R::M>|
        h.member(a1) && h.member(a2) && h.member(b1) && h.member(b2) && h.eqv(a1, a2) && h.eqv(b1, b2)
        implies #[trigger] h.eqv(h.add_s(a1, b1), h.add_s(a2, b2)) by {
        crate::polynomials::lemma_poly_add_congruent(&r, a1, a2, b1, b2);
    }
    assert forall|a1: Seq<R::M>, a2: Seq<R::M>, b1: Seq<R::M>, b2: Seq<R::M>|
        h.member(a1) && h.member(a2) && h.member(b1) && h.member(b2) && h.eqv(a1, a2) && h.eqv(b1, b2)
        implies #[trigger] h.eqv(h.sub_s(a1, b1), h.sub_s(a2, b2)) by {
        lemma_poly_sub_congruent(&r, a1, a2, b1, b2);
    }
    assert forall|a: Seq<R::M>, b: Seq<R::M>, c: Seq<R::M>| h.member(a) && h.member(b) && h.member(c) implies h.eqv(
        #[trigger] h.add_s(h.add_s(a, b), c),
        h.add_s(a, h.add_s(b, c)),
    ) by {
        lemma_poly_add_laws(&r, a, b, c);
    }
    assert forall|a: Seq<R::M>, b: Seq<R::M>| h.member(a) && h.member(b) implies h.eqv(#[trigger] h.add_s(a, b), h.add_s(b, a)) by {
        lemma_poly_add_laws(&r, a, b, b);
    }
    assert forall|a: Seq<R::M>| h.member(a) implies h.eqv(#[trigger] h.add_s(h.zero_s(), a), a) by {
        lemma_poly_add_laws(&r, a, a, a);
    }
    assert forall|a: Seq<R::M>, b: Seq<R::M>| h.member(a) && h.member(b) implies h.eqv(#[trigger] h.add_s(h.sub_s(a, b), b), a) by {
        lemma_poly_add_laws(&r, a, b, b);
    }
    assert(additive_laws(h));
}

proof fn lemma_poly_monoid<R: Ring + DecidableEq>(h: &Rc<PolynomialRing<R>>)
    requires
        ring_laws(&(**h).coeff_ring()),
    ensures
        monoid_laws(h),
{
    reveal(monoid_laws);
    reveal(semigroup_laws);
    let r = (**h).coeff_ring();
    lemma_ring_parts(&r);
    lemma_poly_equivalence(h);
    assert forall|a: Seq<R::M>, b: Seq<R::M>| h.member(a) && h.member(b) implies #[trigger] h.member(h.mul_s(a, b)) by {
        lemma_mul_members(&r, a, b);
    }
    assert forall|a1: Seq<R::M>, a2: Seq<R::M>, b1: Seq<R::M>, b2: Seq<R::M>|
        h.member(a1) && h.member(a2) && h.member(b1) && h.member(b2) && h.eqv(a1, a2) && h.eqv(b1, b2)
        implies #[trigger] h.eqv(h.mul_s(a1, b1), h.mul_s(a2, b2)) by {
        crate::polynomials::lemma_poly_mul_congruent(&r, a1, a2, b1, b2);
    }
    assert forall|a: Seq<R::M>, b: Seq<R::M>, c: Seq<R::M>| h.member(a) && h.member(b) && h.member(c) implies h.eqv(
        #[trigger] h.mul_s(h.mul_s(a, b), c),
        h.mul_s(a, h.mul_s(b, c)),
    ) by {
        lemma_poly_mul_assoc(&r, a, b, c);
    }
    assert(semigroup_laws(h));
    assert(h.member(h.one_s()));
    assert forall|a: Seq<R::M>| h.member(a) implies h.eqv(#[trigger] h.mul_s(h.one_s(), a), a) by {
        lemma_poly_mul_one(&r, a);
    }
    assert forall|a: Seq<R::M>| h.member(a) implies h.eqv(#[trigger] h.mul_s(a, h.one_s()), a) by {
        lemma_poly_mul_one(&r, a);
    }
}

/// `R[x]` is a ring whenever `R` is, and a commutative one whenever `R` is
/// commutative: the polynomial operations obey every law of `ring_laws` under
/// coefficient-wise equality.
pub proof fn lemma_polynomial_ring<R: Ring + DecidableEq>(h: &Rc<PolynomialRing<R>>)
    requires
        ring_laws(&(**h).coeff_ring()),
    ensures
        ring_laws(h),
        commutative_laws(&(**h).coeff_ring()) ==> commutative_laws(h),
{
    let r = (**h).coeff_ring();
    lemma_ring_parts(&r);
    lemma_poly_monoid(h);
    lemma_poly_group(h);
    assert(ring_laws(h)) by {
        reveal(ring_laws);
        assert forall|a: Seq<R::M>, b: Seq<R::M>, c: Seq<R::M>| h.member(a) && h.member(b) && h.member(c) implies h.eqv(
            #[trigger] h.mul_s(a, h.add_s(b, c)),
            h.add_s(h.mul_s(a, b), h.mul_s(a, c)),
        ) by {
            lemma_poly_distrib_left(&r, a, b, c);
        }
        assert forall|a: Seq<R::M>, b: Seq<R::M>, c: Seq<R::M>| h.member(a) && h.member(b) && h.member(c) implies h.eqv(
            #[trigger] h.mul_s(h.add_s(a, b), c),
            h.add_s(h.mul_s(a, c), h.mul_s(b, c)),
        ) by {
            lemma_poly_distrib_right(&r, a, b, c);
        }
    }
    if commutative_laws(&r) {
        reveal(commutative_laws);
        assert forall|a: Seq<R::M>, b: Seq<R::M>| h.member(a) && h.member(b) implies h.eqv(#[trigger] h.mul_s(a, b), h.mul_s(b, a)) by {
            lemma_poly_mul_comm(&r, a, b);
        }
    }
}

/// What the trimmed length says: no coefficient from it on is nonzero, and the one
/// just below it is.
pub proof fn lemma_trim_len_facts<R: Ring>(r: &R, s: Seq<R::M>)
    requires
        ring_laws(r),
        all_members(r, s),
    ensures
        trim_len(r, s) <= s.len(),
        forall|i: int| trim_len(r, s) <= i ==> r.eqv(#[trigger] coeff(r, s, i), r.zero_s()),
        trim_len(r, s) > 0 ==> !r.eqv(s[trim_len(r, s) - 1], r.zero_s()),
    decreases s.len(),
{
    lemma_ring_parts(r);
    if s.len() > 0 && r.eqv(s[s.len() - 1], r.zero_s()) {
        let d = s.drop_last();
        assert(all_members(r, d));
        lemma_trim_len_facts(r, d);
        assert forall|i: int| trim_len(r, s) <= i implies r.eqv(#[trigger] coeff(r, s, i), r.zero_s()) by {
            if i < s.len() - 1 {
                assert(coeff(r, s, i) == coeff(r, d, i));
            } else if i >= s.len() {
                lemma_refl(r, r.zero_s());
            }
        }
    } else {
        assert forall|i: int| trim_len(r, s) <= i implies r.eqv(#[trigger] coeff(r, s, i), r.zero_s()) by {
            lemma_refl(r, r.zero_s());
        }
    }
}

/// Equal polynomials have the same trimmed length.
pub proof fn lemma_trim_len_same<R: Ring>(r: &R, a: Seq<R::M>, b: Seq<R::M>)
    requires
        ring_laws(r),
        all_members(r, a),
        all_members(r, b),
        same_coefficients(r, a, b),
    ensures
        trim_len(r, a) == trim_len(r, b),
{
    lemma_ring_parts(r);
    lemma_trim_len_facts(r, a);
    lemma_trim_len_facts(r, b);
    let (ta, tb) = (trim_len(r, a), trim_len(r, b));
    if ta < tb {
        let i = tb - 1;
        assert(r.eqv(coeff(r, a, i), coeff(r, b, i)));
        assert(r.eqv(coeff(r, a, i), r.zero_s()));
        lemma_coeff_member(r, a, i);
        lemma_sym(r, coeff(r, a, i), coeff(r, b, i));
        lemma_trans(r, coeff(r, b, i), coeff(r, a, i), r.zero_s());
    } else if tb < ta {
        let i = ta - 1;
        assert(r.eqv(coeff(r, a, i), coeff(r, b, i)));
        assert(r.eqv(coeff(r, b, i), r.zero_s()));
        lemma_coeff_member(r, b, i);
        lemma_trans(r, coeff(r, a, i), coeff(r, b, i), r.zero_s());
    }
}

/// A polynomial is zero exactly when its trimmed length is zero.
pub proof fn lemma_trim_len_zero<R: Ring>(r: &R, a: Seq<R::M>)
    requires
        ring_laws(r),
        all_members(r, a),
    ensures
        (trim_len(r, a) == 0) == same_coefficients(r, a, Seq::<R::M>::empty()),
{
    lemma_ring_parts(r);
    lemma_trim_len_facts(r, a);
    let e = Seq::<R::M>::empty();
    if trim_len(r, a) == 0 {
        assert forall|i: int| 0 <= i < max_len(a.len(), e.len()) implies #[trigger] r.eqv(coeff(r, a, i), coeff(r, e, i)) by {
            assert(r.eqv(coeff(r, a, i), r.zero_s()));
        }
    }
    if same_coefficients(r, a, e) {
        lemma_trim_len_same(r, a, e);
    }
}

/// In a field, a product of nonzero elements is nonzero.
pub proof fn lemma_no_zero_divisors<F: Field>(f: &F, x: F::M, y: F::M)
    requires
        field_laws(f),
        complete_field(f),
        f.member(x),
        f.member(y),
        !f.eqv(x, f.zero_s()),
        !f.eqv(y, f.zero_s()),
    ensures
        !f.eqv(f.mul_s(x, y), f.zero_s()),
{
    lemma_field_parts(f);
    lemma_ring_parts(f);
    crate::laws::lemma_invertible(f, x);
    assert(f.invertible(x));
    let z = choose|z: F::M| f.member(z) && f.eqv(f.mul_s(x, z), f.one_s());
    assert(f.member(z) && f.eqv(f.mul_s(x, z), f.one_s()));
    if f.eqv(f.mul_s(x, y), f.zero_s()) {
        let (one, zero) = (f.one_s(), f.zero_s());
        lemma_mul_closed(f, x, y);
        lemma_mul_closed(f, x, z);
        lemma_mul_closed(f, z, x);
        lemma_mul_closed(f, f.mul_s(z, x), y);
        lemma_mul_closed(f, z, f.mul_s(x, y));
        lemma_mul_closed(f, z, zero);
        lemma_mul_closed(f, one, y);
        // y ~ 1·y ~ (z·x)·y ~ z·(x·y) ~ z·0 ~ 0
        lemma_mul_one(f, y);
        lemma_sym(f, f.mul_s(one, y), y);
        lemma_mul_comm(f, z, x);
        lemma_trans(f, f.mul_s(z, x), f.mul_s(x, z), one);
        lemma_sym(f, f.mul_s(z, x), one);
        lemma_refl(f, y);
        lemma_mul_congruent(f, one, f.mul_s(z, x), y, y);
        lemma_mul_assoc(f, z, x, y);
        lemma_refl(f, z);
        lemma_mul_congruent(f, z, z, f.mul_s(x, y), zero);
        lemma_mul_zero(f, z);
        lemma_trans(f, y, f.mul_s(one, y), f.mul_s(f.mul_s(z, x), y));
        lemma_trans(f, y, f.mul_s(f.mul_s(z, x), y), f.mul_s(z, f.mul_s(x, y)));
        lemma_trans(f, y, f.mul_s(z, f.mul_s(x, y)), f.mul_s(z, zero));
        lemma_trans(f, y, f.mul_s(z, zero), zero);
    }
}

/// Over a field, the degree of a product is the sum of the degrees: the product of
/// the leading coefficients survives.
pub proof fn lemma_product_norm<F: Field>(f: &F, k: Seq<F::M>, e: Seq<F::M>)
    requires
        field_laws(f),
        complete_field(f),
        all_members(f, k),
        all_members(f, e),
        trim_len(f, k) > 0,
        trim_len(f, e) > 0,
    ensures
        trim_len(f, poly_mul(f, k, e)) >= trim_len(f, k) + trim_len(f, e) - 1,
{
    lemma_field_parts(f);
    lemma_ring_parts(f);
    lemma_trim_len_facts(f, k);
    lemma_trim_len_facts(f, e);
    let (nk, ne) = (trim_len(f, k), trim_len(f, e));
    let t = nk + ne - 2;
    let m = (nk - 1) as nat;
    let z = f.zero_s();
    let p = poly_mul(f, k, e);
    let g = product_term(f, k, e, t);
    lemma_mul_members(f, k, e);
    lemma_product_coeff(f, k, e, t, (t + 1) as nat);
    assert forall|i: int| 0 <= i < t + 1 implies #[trigger] f.member(g(i)) by {
        lemma_term_member(f, k, e, t, i);
    }
    // Terms before the leading one of k: e has nothing that high.
    assert forall|i: int| 0 <= i < m implies f.eqv(#[trigger] g(i), z) by {
        assert(f.eqv(coeff(f, e, t - i), z));
        lemma_coeff_member(f, k, i);
        lemma_coeff_member(f, e, t - i);
        lemma_refl(f, coeff(f, k, i));
        lemma_mul_congruent(f, coeff(f, k, i), coeff(f, k, i), coeff(f, e, t - i), z);
        lemma_mul_zero(f, coeff(f, k, i));
        lemma_mul_closed(f, coeff(f, k, i), z);
        lemma_trans(f, g(i), f.mul_s(coeff(f, k, i), z), z);
    }
    lemma_sum_zero(f, g, m);
    lemma_sum_split(f, g, m, ne as nat);
    assert(m + ne == t + 1);
    let tail = |q: int| g(m + q);
    assert forall|q: int| 0 <= q < ne implies #[trigger] f.member(tail(q)) by {
        lemma_term_member(f, k, e, t, m + q);
    }
    lemma_sum_first(f, tail, ne as nat);
    let rest = |q: int| tail(1 + q);
    // Terms after the leading one of k: k has nothing that high.
    assert forall|q: int| 0 <= q < ne - 1 implies #[trigger] f.member(rest(q)) by {
        lemma_term_member(f, k, e, t, m + (1 + q));
    }
    assert forall|q: int| 0 <= q < ne - 1 implies f.eqv(#[trigger] rest(q), z) by {
        let i = m + (1 + q);
        assert(f.eqv(coeff(f, k, i), z));
        lemma_coeff_member(f, k, i);
        lemma_coeff_member(f, e, t - i);
        lemma_refl(f, coeff(f, e, t - i));
        lemma_mul_congruent(f, coeff(f, k, i), z, coeff(f, e, t - i), coeff(f, e, t - i));
        lemma_zero_mul(f, coeff(f, e, t - i));
        lemma_mul_closed(f, z, coeff(f, e, t - i));
        lemma_trans(f, rest(q), f.mul_s(z, coeff(f, e, t - i)), z);
    }
    lemma_sum_zero(f, rest, (ne - 1) as nat);
    // So the coefficient of x^t is the product of the leading coefficients.
    let lead = g(m as int);
    assert(tail(0) == lead);
    assert(lead == f.mul_s(k[nk - 1], e[ne - 1]));
    lemma_no_zero_divisors(f, k[nk - 1], e[ne - 1]);
    let sm = crate::sums::sum_of(f, g, m);
    let st = crate::sums::sum_of(f, tail, ne as nat);
    let sr = crate::sums::sum_of(f, rest, (ne - 1) as nat);
    lemma_sum_member(f, g, m);
    lemma_sum_member(f, tail, ne as nat);
    lemma_sum_member(f, rest, (ne - 1) as nat);
    lemma_sum_member(f, g, (t + 1) as nat);
    lemma_refl(f, lead);
    lemma_add_congruent(f, lead, lead, sr, z);
    lemma_add_zero(f, lead);
    lemma_add_closed(f, lead, sr);
    lemma_add_closed(f, lead, z);
    lemma_trans(f, st, f.add_s(lead, sr), f.add_s(lead, z));
    lemma_trans(f, st, f.add_s(lead, z), lead);
    lemma_add_congruent(f, sm, z, st, lead);
    lemma_add_closed(f, sm, st);
    lemma_add_closed(f, z, lead);
    lemma_add_zero(f, lead);
    lemma_trans(f, crate::sums::sum_of(f, g, (t + 1) as nat), f.add_s(sm, st), f.add_s(z, lead));
    lemma_trans(f, crate::sums::sum_of(f, g, (t + 1) as nat), f.add_s(z, lead), lead);
    lemma_coeff_member(f, p, t);
    lemma_trans(f, coeff(f, p, t), crate::sums::sum_of(f, g, (t + 1) as nat), lead);
    lemma_trim_len_facts(f, p);
    if trim_len(f, p) <= t {
        assert(f.eqv(coeff(f, p, t), z));
        lemma_sym(f, coeff(f, p, t), lead);
        lemma_trans(f, lead, coeff(f, p, t), z);
    }
}

/// A constant times a polynomial scales every coefficient, on either side.
pub proof fn lemma_constant_mul<R: Ring>(r: &R, y: R::M, v: Seq<R::M>, t: int)
    requires
        ring_laws(r),
        r.member(y),
        all_members(r, v),
        t >= 0,
    ensures
        r.eqv(coeff(r, poly_mul(r, seq![y], v), t), r.mul_s(y, coeff(r, v, t))),
        r.eqv(coeff(r, poly_mul(r, v, seq![y]), t), r.mul_s(coeff(r, v, t), y)),
{
    lemma_ring_parts(r);
    let c = seq![y];
    let z = r.zero_s();
    let kk = (t + 1) as nat;
    let tt = t as nat;
    assert(all_members(r, c));
    let vt = coeff(r, v, t);
    lemma_coeff_member(r, v, t);
    lemma_mul_closed(r, y, vt);
    lemma_mul_closed(r, vt, y);
    // c · v
    let f = product_term(r, c, v, t);
    let rest = |q: int| f(1 + q);
    lemma_product_coeff(r, c, v, t, kk);
    assert forall|i: int| 0 <= i < kk implies #[trigger] r.member(f(i)) by {
        lemma_term_member(r, c, v, t, i);
    }
    lemma_sum_first(r, f, kk);
    assert forall|q: int| 0 <= q < t implies #[trigger] r.member(rest(q)) by {
        lemma_term_member(r, c, v, t, 1 + q);
    }
    assert forall|q: int| 0 <= q < t implies r.eqv(#[trigger] rest(q), z) by {
        assert(coeff(r, c, 1 + q) == z);
        lemma_coeff_member(r, v, t - (1 + q));
        lemma_zero_mul(r, coeff(r, v, t - (1 + q)));
    }
    lemma_sum_zero(r, rest, tt);
    assert(f(0) == r.mul_s(y, vt));
    lemma_sum_member(r, rest, tt);
    lemma_refl(r, f(0));
    lemma_add_congruent(r, f(0), f(0), crate::sums::sum_of(r, rest, tt), z);
    lemma_add_zero(r, f(0));
    lemma_add_closed(r, f(0), crate::sums::sum_of(r, rest, tt));
    lemma_add_closed(r, f(0), z);
    lemma_sum_member(r, f, kk);
    lemma_mul_members(r, c, v);
    lemma_coeff_member(r, poly_mul(r, c, v), t);
    lemma_trans(r, coeff(r, poly_mul(r, c, v), t), crate::sums::sum_of(r, f, kk), r.add_s(f(0), crate::sums::sum_of(r, rest, tt)));
    lemma_trans(r, coeff(r, poly_mul(r, c, v), t), r.add_s(f(0), crate::sums::sum_of(r, rest, tt)), r.add_s(f(0), z));
    lemma_trans(r, coeff(r, poly_mul(r, c, v), t), r.add_s(f(0), z), f(0));
    // v · c
    let g = product_term(r, v, c, t);
    lemma_product_coeff(r, v, c, t, kk);
    assert forall|i: int| 0 <= i < kk implies #[trigger] r.member(g(i)) by {
        lemma_term_member(r, v, c, t, i);
    }
    assert forall|i: int| 0 <= i < tt implies r.eqv(#[trigger] g(i), z) by {
        assert(coeff(r, c, t - i) == z);
        lemma_coeff_member(r, v, i);
        lemma_mul_zero(r, coeff(r, v, i));
    }
    lemma_sum_zero(r, g, tt);
    assert(g(t) == r.mul_s(vt, y));
    assert(crate::sums::sum_of(r, g, kk) == r.add_s(crate::sums::sum_of(r, g, tt), g(t)));
    lemma_sum_member(r, g, tt);
    lemma_refl(r, g(t));
    lemma_add_congruent(r, crate::sums::sum_of(r, g, tt), z, g(t), g(t));
    lemma_add_zero(r, g(t));
    lemma_add_closed(r, crate::sums::sum_of(r, g, tt), g(t));
    lemma_add_closed(r, z, g(t));
    lemma_sum_member(r, g, kk);
    lemma_mul_members(r, v, c);
    lemma_coeff_member(r, poly_mul(r, v, c), t);
    lemma_trans(r, coeff(r, poly_mul(r, v, c), t), crate::sums::sum_of(r, g, kk), r.add_s(z, g(t)));
    lemma_trans(r, coeff(r, poly_mul(r, v, c), t), r.add_s(z, g(t)), g(t));
}

/// A polynomial equal to a nonzero constant `c` has an invertible constant term,
/// equal to `c`, and no other nonzero coefficient.
proof fn lemma_lead_inverse<F: Field>(f: &F, v: Seq<F::M>, c: F::M)
    requires
        field_laws(f),
        complete_field(f),
        all_members(f, v),
        f.member(c),
        !f.eqv(c, f.zero_s()),
        same_coefficients(f, v, seq![c]),
    ensures
        f.eqv(coeff(f, v, 0), c),
        f.member(inverse_s(f, coeff(f, v, 0))),
        f.eqv(f.mul_s(coeff(f, v, 0), inverse_s(f, coeff(f, v, 0))), f.one_s()),
        forall|i: int| 1 <= i ==> f.eqv(#[trigger] coeff(f, v, i), f.zero_s()),
{
    lemma_field_parts(f);
    lemma_ring_parts(f);
    let c0 = coeff(f, v, 0);
    assert(f.eqv(c0, coeff(f, seq![c], 0)));
    lemma_coeff_member(f, v, 0);
    if f.eqv(c0, f.zero_s()) {
        lemma_sym(f, c0, c);
        lemma_trans(f, c, c0, f.zero_s());
    }
    crate::laws::lemma_invertible(f, c0);
    assert(has_inverse(f, c0));
    assert forall|i: int| 1 <= i implies f.eqv(#[trigger] coeff(f, v, i), f.zero_s()) by {
        if i < max_len(v.len(), 1) {
            assert(f.eqv(coeff(f, v, i), coeff(f, seq![c], i)));
        } else {
            lemma_refl(f, f.zero_s());
        }
    }
}

/// The unit part of a polynomial is a nonzero constant.
proof fn lemma_unit_part_constant<F: Field>(h: &Rc<PolynomialRing<F>>, x: Seq<F::M>)
    requires
        field_laws(&(**h).coeff_ring()),
        h.member(x),
    ensures
        ({
            let f = (**h).coeff_ring();
            let n = trim_len(&f, x);
            let c = if n == 0 { f.one_s() } else { x[n - 1] };
            &&& h.unit_part_s(x) == seq![c]
            &&& f.member(c)
            &&& !f.eqv(c, f.zero_s())
        }),
{
    let f = (**h).coeff_ring();
    lemma_field_parts(&f);
    lemma_ring_parts(&f);
    lemma_trim_len_facts(&f, x);
    crate::laws::lemma_invertible(&f, f.one_s());
}

proof fn lemma_unit_part_inverse<F: Field>(h: &Rc<PolynomialRing<F>>, x: Seq<F::M>, v: Seq<F::M>)
    requires
        field_laws(&(**h).coeff_ring()),
        complete_field(&(**h).coeff_ring()),
        h.member(x),
        h.member(v),
        h.eqv(v, h.unit_part_s(x)),
    ensures
        h.member(h.unit_inverse_s(v)),
        h.eqv(h.mul_s(h.unit_inverse_s(v), v), h.one_s()),
{
    let f = (**h).coeff_ring();
    lemma_field_parts(&f);
    lemma_ring_parts(&f);
    lemma_unit_part_constant(h, x);
    let n = trim_len(&f, x);
    let c = if n == 0 { f.one_s() } else { x[n - 1] };
    lemma_lead_inverse(&f, v, c);
    let c0 = coeff(&f, v, 0);
    let y = inverse_s(&f, c0);
    assert(h.unit_inverse_s(v) == seq![y]);
    let p = poly_mul(&f, seq![y], v);
    let one = seq![f.one_s()];
    lemma_mul_members(&f, seq![y], v);
    assert forall|t: int| 0 <= t < max_len(p.len(), one.len()) implies #[trigger] f.eqv(coeff(&f, p, t), coeff(&f, one, t)) by {
        lemma_constant_mul(&f, y, v, t);
        let vt = coeff(&f, v, t);
        lemma_coeff_member(&f, v, t);
        lemma_coeff_member(&f, p, t);
        lemma_mul_closed(&f, y, vt);
        if t == 0 {
            lemma_mul_comm(&f, y, c0);
            lemma_mul_closed(&f, c0, y);
            lemma_trans(&f, coeff(&f, p, t), f.mul_s(y, c0), f.mul_s(c0, y));
            lemma_trans(&f, coeff(&f, p, t), f.mul_s(c0, y), f.one_s());
        } else {
            lemma_refl(&f, y);
            lemma_mul_congruent(&f, y, y, vt, f.zero_s());
            lemma_mul_zero(&f, y);
            lemma_mul_closed(&f, y, f.zero_s());
            lemma_trans(&f, coeff(&f, p, t), f.mul_s(y, vt), f.mul_s(y, f.zero_s()));
            lemma_trans(&f, coeff(&f, p, t), f.mul_s(y, f.zero_s()), f.zero_s());
        }
    }
}

/// Over a field, dividing a polynomial by its leading coefficient leaves a monic
/// polynomial (or zero, whose unit part is one by convention).
proof fn lemma_poly_normal_form<F: Field>(
    h: &Rc<PolynomialRing<F>>,
    x: Seq<F::M>,
    v: Seq<F::M>,
    i: Seq<F::M>,
    w: Seq<F::M>,
)
    requires
        field_laws(&(**h).coeff_ring()),
        complete_field(&(**h).coeff_ring()),
        h.member(x),
        h.member(v),
        h.member(i),
        h.member(w),
        h.eqv(v, h.unit_part_s(x)),
        h.eqv(i, h.unit_inverse_s(v)),
        h.eqv(w, h.mul_s(x, i)),
    ensures
        h.eqv(h.unit_part_s(w), h.one_s()),
{
    let f = (**h).coeff_ring();
    let z = f.zero_s();
    let one = f.one_s();
    lemma_field_parts(&f);
    lemma_ring_parts(&f);
    crate::laws::lemma_invertible(&f, one);
    lemma_unit_part_constant(h, x);
    let n = trim_len(&f, x);
    let c = if n == 0 { one } else { x[n - 1] };
    lemma_lead_inverse(&f, v, c);
    let c0 = coeff(&f, v, 0);
    let y = inverse_s(&f, c0);
    assert(h.unit_inverse_s(v) == seq![y]);
    let yy = seq![y];
    assert(all_members(&f, yy));
    // w ~ x · i ~ x · [y]
    lemma_same_refl(&f, x);
    crate::polynomials::lemma_poly_mul_congruent(&f, x, x, i, yy);
    lemma_mul_members(&f, x, i);
    lemma_mul_members(&f, x, yy);
    let p = poly_mul(&f, x, yy);
    lemma_same_trans(&f, w, poly_mul(&f, x, i), p);
    // so each coefficient of w is that of x times y
    assert forall|t: int| t >= 0 implies f.eqv(#[trigger] coeff(&f, w, t), f.mul_s(coeff(&f, x, t), y)) by {
        lemma_constant_mul(&f, y, x, t);
        lemma_coeff_member(&f, w, t);
        lemma_coeff_member(&f, p, t);
        lemma_coeff_member(&f, x, t);
        lemma_mul_closed(&f, coeff(&f, x, t), y);
        if t >= max_len(w.len(), p.len()) {
            lemma_refl(&f, z);
        }
        assert(f.eqv(coeff(&f, w, t), coeff(&f, p, t)));
        lemma_trans(&f, coeff(&f, w, t), coeff(&f, p, t), f.mul_s(coeff(&f, x, t), y));
    }
    lemma_trim_len_facts(&f, x);
    lemma_trim_len_facts(&f, w);
    // where x has a zero coefficient, so has w
    assert forall|t: int| t >= n implies f.eqv(#[trigger] coeff(&f, w, t), z) by {
        let xt = coeff(&f, x, t);
        lemma_coeff_member(&f, x, t);
        lemma_coeff_member(&f, w, t);
        assert(f.eqv(xt, z));
        lemma_refl(&f, y);
        lemma_mul_congruent(&f, xt, z, y, y);
        lemma_zero_mul(&f, y);
        lemma_mul_closed(&f, xt, y);
        lemma_mul_closed(&f, z, y);
        lemma_trans(&f, coeff(&f, w, t), f.mul_s(xt, y), f.mul_s(z, y));
        lemma_trans(&f, coeff(&f, w, t), f.mul_s(z, y), z);
    }
    let tw = trim_len(&f, w);
    lemma_unit_part_constant(h, w);
    if tw > n {
        assert(f.eqv(coeff(&f, w, tw - 1), z));
        assert(coeff(&f, w, tw - 1) == w[tw - 1]);
    }
    if n == 0 {
        assert(tw == 0);
        assert(h.unit_part_s(w) == seq![one]);
        lemma_same_refl(&f, seq![one]);
    } else {
        // the coefficient at n - 1 is c · y ~ c0 · y ~ 1
        let wn = coeff(&f, w, n - 1);
        lemma_coeff_member(&f, w, n - 1);
        assert(coeff(&f, x, n - 1) == c);
        lemma_sym(&f, c0, c);
        lemma_refl(&f, y);
        lemma_mul_congruent(&f, c, c0, y, y);
        lemma_mul_closed(&f, c, y);
        lemma_mul_closed(&f, c0, y);
        lemma_trans(&f, wn, f.mul_s(c, y), f.mul_s(c0, y));
        lemma_trans(&f, wn, f.mul_s(c0, y), one);
        if tw < n {
            assert(f.eqv(coeff(&f, w, n - 1), z));
            lemma_sym(&f, wn, one);
            lemma_trans(&f, one, wn, z);
        }
        assert(tw == n);
        assert(wn == w[n - 1]);
        assert(h.unit_part_s(w) == seq![wn]);
        assert forall|t: int| 0 <= t < max_len(1, 1) implies #[trigger] f.eqv(coeff(&f, seq![wn], t), coeff(&f, seq![one], t)) by {
        }
    }
}

proof fn lemma_unit_inverse_right<F: Field>(h: &Rc<PolynomialRing<F>>, u: Seq<F::M>, c: Seq<F::M>, v: Seq<F::M>)
    requires
        field_laws(&(**h).coeff_ring()),
        complete_field(&(**h).coeff_ring()),
        h.member(u),
        h.member(c),
        h.member(v),
        h.eqv(h.mul_s(u, c), h.one_s()),
        h.eqv(v, h.unit_part_s(u)),
    ensures
        h.eqv(h.mul_s(u, h.unit_inverse_s(v)), h.one_s()),
{
    let f = (**h).coeff_ring();
    let z = f.zero_s();
    lemma_field_parts(&f);
    lemma_ring_parts(&f);
    let one = seq![f.one_s()];
    let e = Seq::<F::M>::empty();
    crate::laws::lemma_invertible(&f, f.one_s());
    assert(trim_len(&f, one) == 1);
    let uc = poly_mul(&f, u, c);
    lemma_mul_members(&f, u, c);
    lemma_trim_len_same(&f, uc, one);
    // Neither factor is zero, else the product would be.
    lemma_trim_len_zero(&f, u);
    lemma_trim_len_zero(&f, c);
    lemma_same_refl(&f, u);
    lemma_same_refl(&f, c);
    if trim_len(&f, u) == 0 {
        crate::polynomials::lemma_poly_mul_congruent(&f, u, e, c, c);
        lemma_trim_len_same(&f, uc, poly_mul(&f, e, c));
    }
    if trim_len(&f, c) == 0 {
        crate::polynomials::lemma_poly_mul_congruent(&f, u, u, c, e);
        lemma_trim_len_same(&f, uc, poly_mul(&f, u, e));
    }
    // So u is a constant.
    lemma_product_norm(&f, u, c);
    assert(trim_len(&f, u) == 1);
    lemma_unit_part_constant(h, u);
    lemma_trim_len_facts(&f, u);
    let u0 = u[0];
    lemma_lead_inverse(&f, v, u0);
    let c0 = coeff(&f, v, 0);
    let y = inverse_s(&f, c0);
    assert(h.unit_inverse_s(v) == seq![y]);
    let p = poly_mul(&f, u, seq![y]);
    lemma_mul_members(&f, u, seq![y]);
    assert forall|t: int| 0 <= t < max_len(p.len(), one.len()) implies #[trigger] f.eqv(coeff(&f, p, t), coeff(&f, one, t)) by {
        lemma_constant_mul(&f, y, u, t);
        let ut = coeff(&f, u, t);
        lemma_coeff_member(&f, u, t);
        lemma_coeff_member(&f, p, t);
        lemma_mul_closed(&f, ut, y);
        lemma_refl(&f, y);
        if t == 0 {
            lemma_coeff_member(&f, v, 0);
            lemma_sym(&f, c0, u0);
            lemma_mul_congruent(&f, u0, c0, y, y);
            lemma_mul_closed(&f, c0, y);
            lemma_trans(&f, coeff(&f, p, t), f.mul_s(u0, y), f.mul_s(c0, y));
            lemma_trans(&f, coeff(&f, p, t), f.mul_s(c0, y), f.one_s());
        } else {
            lemma_mul_congruent(&f, ut, z, y, y);
            lemma_zero_mul(&f, y);
            lemma_mul_closed(&f, z, y);
            lemma_trans(&f, coeff(&f, p, t), f.mul_s(ut, y), f.mul_s(z, y));
            lemma_trans(&f, coeff(&f, p, t), f.mul_s(z, y), z);
        }
    }
}

/// `F[x]` is a Euclidean domain whenever `F` is a field: a commutative ring whose
/// long division satisfies `a = q · d + r`, whose degree does not drop under
/// multiplication by a nonzero polynomial, and whose leading coefficients can be
/// divided out to leave monic polynomials.
pub proof fn lemma_polynomial_euclidean<F: Field>(h: &Rc<PolynomialRing<F>>)
    requires
        field_laws(&(**h).coeff_ring()),
        complete_field(&(**h).coeff_ring()),
    ensures
        euclidean_laws(h),
{
    let f = (**h).coeff_ring();
    lemma_field_parts(&f);
    lemma_ring_parts(&f);
    lemma_polynomial_ring(h);
    reveal(euclidean_laws);
    assert forall|a: Seq<F::M>, b: Seq<F::M>| h.member(a) && h.member(b) && #[trigger] h.eqv(a, b) implies h.norm(a) == h.norm(b) by {
        lemma_trim_len_same(&f, a, b);
    }
    assert forall|k: Seq<F::M>, e: Seq<F::M>|
        h.member(k) && h.member(e) && !h.eqv(k, h.zero_s()) && !h.eqv(e, h.zero_s())
        implies h.norm(#[trigger] h.mul_s(k, e)) >= h.norm(e) by {
        lemma_trim_len_zero(&f, k);
        lemma_trim_len_zero(&f, e);
        lemma_product_norm(&f, k, e);
    }
    assert forall|e: Seq<F::M>| h.member(e) && #[trigger] h.divisor_ok(e) implies !h.eqv(e, h.zero_s()) by {
        lemma_trim_len_zero(&f, e);
    }
    assert forall|x: Seq<F::M>, v: Seq<F::M>| h.member(x) && h.member(v) && #[trigger] h.eqv(v, h.unit_part_s(x)) implies {
        &&& h.member(h.unit_inverse_s(v))
        &&& h.eqv(h.mul_s(h.unit_inverse_s(v), v), h.one_s())
    } by {
        lemma_unit_part_inverse(h, x, v);
    }
    assert forall|u: Seq<F::M>, c: Seq<F::M>, v: Seq<F::M>|
        h.member(u) && h.member(c) && h.member(v) && #[trigger] h.eqv(h.mul_s(u, c), h.one_s())
            && #[trigger] h.eqv(v, h.unit_part_s(u)) implies h.eqv(h.mul_s(u, h.unit_inverse_s(v)), h.one_s()) by {
        lemma_unit_inverse_right(h, u, c, v);
    }
    assert forall|x: Seq<F::M>, v: Seq<F::M>, i: Seq<F::M>, w: Seq<F::M>|
        #![trigger h.eqv(v, h.unit_part_s(x)), h.eqv(i, h.unit_inverse_s(v)), h.eqv(w, h.mul_s(x, i))]
        h.member(x) && h.member(v) && h.member(i) && h.member(w) && h.eqv(v, h.unit_part_s(x)) && h.eqv(
            i,
            h.unit_inverse_s(v),
        ) && h.eqv(w, h.mul_s(x, i)) implies h.eqv(h.unit_part_s(w), h.one_s()) by {
        lemma_poly_normal_form(h, x, v, i, w);
    }
}

/// `rem` less `c · x^k · d`: one step of long division.
pub open spec fn shifted_sub<R: Ring>(r: &R, rem: Seq<R::M>, d: Seq<R::M>, k: int, c: R::M) -> Seq<R::M> {
    Seq::new(
        rem.len(),
        |t: int|
            if k <= t < k + d.len() {
                r.sub_s(rem[t], r.mul_s(c, d[t - k]))
            } else {
                rem[t]
            },
    )
}

/// `q` with `c` added to its coefficient of `x^k`.
pub open spec fn added_at<R: Ring>(r: &R, q: Seq<R::M>, k: int, c: R::M) -> Seq<R::M> {
    Seq::new(
        max_len(q.len(), (k + 1) as nat),
        |i: int|
            if i == k {
                r.add_s(coeff(r, q, k), c)
            } else {
                coeff(r, q, i)
            },
    )
}

/// Long division of `a` by `d` carried on from a quotient `q` and remainder `rem`
/// with `a ~ q · d + rem`, down to a remainder shorter than `d`. The leading
/// coefficient of `d` has the inverse `inv`.
proof fn lemma_long_division<F: Field>(
    f: &F,
    a: Seq<F::M>,
    d: Seq<F::M>,
    inv: F::M,
    q: Seq<F::M>,
    rem: Seq<F::M>,
) -> (res: (Seq<F::M>, Seq<F::M>))
    requires
        field_laws(f),
        all_members(f, a),
        all_members(f, d),
        all_members(f, q),
        all_members(f, rem),
        d.len() >= 1,
        f.member(inv),
        f.eqv(f.mul_s(d[d.len() - 1], inv), f.one_s()),
        division_invariant(f, a, d, q, rem),
    ensures
        all_members(f, res.0),
        all_members(f, res.1),
        division_invariant(f, a, d, res.0, res.1),
        res.1.len() < d.len(),
    decreases rem.len(),
{
    if rem.len() < d.len() {
        (q, rem)
    } else {
        lemma_field_parts(f);
        lemma_ring_parts(f);
        let top = rem.len() - 1;
        let deg = d.len() - 1;
        let k = top - deg;
        let c = f.mul_s(rem[top], inv);
        let r1 = shifted_sub(f, rem, d, k, c);
        let q1 = added_at(f, q, k, c);
        let r3 = r1.drop_last();
        lemma_mul_closed(f, rem[top], inv);
        assert forall|t: int| 0 <= t < r1.len() implies #[trigger] f.member(r1[t]) by {
            if k <= t < k + d.len() {
                lemma_mul_closed(f, c, d[t - k]);
                lemma_sub_closed(f, rem[t], f.mul_s(c, d[t - k]));
            }
        }
        assert forall|i: int| 0 <= i < q1.len() implies #[trigger] f.member(q1[i]) by {
            lemma_coeff_member(f, q, i);
            if i == k {
                lemma_add_closed(f, coeff(f, q, k), c);
            }
        }
        assert forall|t: int| 0 <= t < r3.len() implies #[trigger] f.member(r3[t]) by {
            assert(f.member(r1[t]));
        }
        // the leading coefficient cancels
        lemma_refl(f, c);
        crate::polynomials::lemma_cancel_lead(f, rem[top], inv, d[deg], c);
        lemma_mul_closed(f, c, d[deg]);
        lemma_refl(f, rem[top]);
        crate::laws::lemma_sub_congruent(f, rem[top], rem[top], f.mul_s(c, d[deg]), rem[top]);
        lemma_sub_self(f, rem[top]);
        lemma_sub_closed(f, rem[top], f.mul_s(c, d[deg]));
        lemma_sub_closed(f, rem[top], rem[top]);
        assert(r1[top] == f.sub_s(rem[top], f.mul_s(c, d[deg])));
        lemma_trans(f, r1[top], f.sub_s(rem[top], rem[top]), f.zero_s());
        assert forall|t: int| 0 <= t < r1.len() implies (if k <= t < k + d.len() {
            f.eqv(#[trigger] r1[t], f.sub_s(rem[t], f.mul_s(c, d[t - k])))
        } else {
            r1[t] == rem[t]
        }) by {
            if k <= t < k + d.len() {
                lemma_refl(f, r1[t]);
            }
        }
        assert forall|i: int| 0 <= i < q1.len() && i != k implies f.eqv(#[trigger] coeff(f, q1, i), coeff(f, q, i)) by {
            lemma_coeff_member(f, q, i);
            lemma_refl(f, coeff(f, q, i));
        }
        assert(coeff(f, q1, k) == f.add_s(coeff(f, q, k), c));
        lemma_coeff_member(f, q, k);
        lemma_add_closed(f, coeff(f, q, k), c);
        lemma_refl(f, coeff(f, q1, k));
        assert forall|t: int| r3.len() <= t < r1.len() implies f.eqv(#[trigger] r1[t], f.zero_s()) by {
            assert(t == top);
        }
        crate::polynomials::lemma_division_step(f, a, d, q, rem, q1, r1, r3, c, k);
        lemma_long_division(f, a, d, inv, q1, r3)
    }
}

/// From `a ~ q · d + r` coefficient by coefficient, the same as polynomials.
proof fn lemma_invariant_equation<R: Ring>(r: &R, a: Seq<R::M>, d: Seq<R::M>, q: Seq<R::M>, rem: Seq<R::M>)
    requires
        ring_laws(r),
        all_members(r, a),
        all_members(r, d),
        all_members(r, q),
        all_members(r, rem),
        division_invariant(r, a, d, q, rem),
    ensures
        same_coefficients(r, a, poly_add(r, poly_mul(r, q, d), rem)),
        all_members(r, poly_mul(r, q, d)),
{
    lemma_ring_parts(r);
    let x = poly_mul(r, q, d);
    let sum = poly_add(r, x, rem);
    assert forall|i: int| 0 <= i < x.len() implies #[trigger] r.member(x[i]) by {
        lemma_conv_member(r, q, d, i, q.len());
    }
    assert forall|i: int| 0 <= i < sum.len() implies #[trigger] r.member(sum[i]) by {
        lemma_coeff_member(r, x, i);
        lemma_coeff_member(r, rem, i);
        lemma_add_closed(r, coeff(r, x, i), coeff(r, rem, i));
    }
    assert forall|t: int| 0 <= t < max_len(a.len(), sum.len()) implies #[trigger] r.eqv(
        coeff(r, a, t),
        coeff(r, sum, t),
    ) by {
        lemma_poly_add_coeff(r, x, rem, t);
        lemma_mul_coeff(r, q, d, t);
        lemma_coeff_member(r, a, t);
        lemma_coeff_member(r, x, t);
        lemma_coeff_member(r, rem, t);
        lemma_coeff_member(r, sum, t);
        lemma_add_closed(r, coeff(r, x, t), coeff(r, rem, t));
        assert(r.eqv(coeff(r, a, t), r.add_s(conv(r, q, d, t, q.len()), coeff(r, rem, t))));
        lemma_sym(r, coeff(r, sum, t), r.add_s(coeff(r, x, t), coeff(r, rem, t)));
        lemma_trans(r, coeff(r, a, t), r.add_s(coeff(r, x, t), coeff(r, rem, t)), coeff(r, sum, t));
    }
}

/// Over a field in which every nonzero element has an inverse, any polynomial can
/// be divided by any nonzero one, leaving a remainder of lower degree.
pub proof fn lemma_polynomial_division_exists<F: Field>(h: &Rc<PolynomialRing<F>>)
    requires
        field_laws(&(**h).coeff_ring()),
        complete_field(&(**h).coeff_ring()),
    ensures
        division_exists(h),
{
    let f = (**h).coeff_ring();
    lemma_field_parts(&f);
    lemma_ring_parts(&f);
    lemma_polynomial_ring(h);
    lemma_ring_parts(h);
    assert forall|a: Seq<F::M>, e: Seq<F::M>| h.member(a) && h.member(e) && !h.eqv(e, h.zero_s()) implies #[trigger] has_division(
        h,
        a,
        e,
    ) by {
        let tl = trim_len(&f, e);
        lemma_trim_len_zero(&f, e);
        lemma_trim_len_facts(&f, e);
        let d = e.subrange(0, tl as int);
        assert(all_members(&f, d));
        assert forall|t: int| 0 <= t < max_len(d.len(), e.len()) implies #[trigger] f.eqv(coeff(&f, d, t), coeff(&f, e, t)) by {
            lemma_coeff_member(&f, e, t);
            if t < tl {
                lemma_refl(&f, e[t]);
            } else {
                assert(f.eqv(coeff(&f, e, t), f.zero_s()));
                lemma_sym(&f, coeff(&f, e, t), f.zero_s());
            }
        }
        assert(h.eqv(d, e));
        // the leading coefficient of d has an inverse
        let lead = d[tl - 1];
        assert(lead == e[tl - 1]);
        assert(f.invertible(lead));
        crate::laws::lemma_invertible(&f, lead);
        let inv = choose|y: F::M| f.member(y) && f.eqv(f.mul_s(lead, y), f.one_s());
        crate::polynomials::lemma_add_zero_left_all(&f, a, d);
        let (q, r) = lemma_long_division(&f, a, d, inv, Seq::empty(), a);
        lemma_invariant_equation(&f, a, d, q, r);
        // a ~ q · d + r ~ q · e + r
        lemma_refl(h, q);
        lemma_refl(h, r);
        crate::laws::lemma_mul_congruent(h, q, q, d, e);
        crate::laws::lemma_mul_closed(h, q, d);
        crate::laws::lemma_mul_closed(h, q, e);
        lemma_add_congruent(h, h.mul_s(q, d), h.mul_s(q, e), r, r);
        lemma_add_closed(h, h.mul_s(q, d), r);
        lemma_add_closed(h, h.mul_s(q, e), r);
        lemma_trans(h, a, h.add_s(h.mul_s(q, d), r), h.add_s(h.mul_s(q, e), r));
        lemma_trim_len_facts(&f, r);
        assert(h.quotient_remainder(a, e, q, r));
        assert(h.norm(r) < h.norm(e));
    }
}

/// `F[x] / (m)` is a field in which every nonzero element has an inverse when every
/// nonzero element of `F` has one and `m` is irreducible over `F`: the construction
/// of the finite fields `F_{p^k}` from `F_p`.
pub proof fn lemma_polynomial_quotient_field<F: Field>(qh: &Rc<QuotientRing<Rc<PolynomialRing<F>>>>)
    requires
        qh.wf(),
        field_laws(&(*(**qh).base()).coeff_ring()),
        complete_field(&(*(**qh).base()).coeff_ring()),
        irreducible(&(**qh).base(), (**qh).modulus_model()),
    ensures
        field_laws(qh),
        complete_field(qh),
{
    let h = (**qh).base();
    lemma_polynomial_euclidean(&h);
    lemma_polynomial_division_exists(&h);
    lemma_quotient_complete(qh);
}

} // verus!
