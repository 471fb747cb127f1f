//! The discrete Fourier transform, and the identity the radix-2 transform rests on:
//! a transform of length `2n` is the transform of the even-indexed entries plus a
//! twiddle factor times the transform of the odd-indexed ones.

use crate::fft::two_to;
use crate::laws::{
    lemma_add_closed, lemma_add_comm, lemma_add_congruent, lemma_mul_assoc,
    lemma_mul_closed, lemma_mul_congruent, lemma_mul_one, lemma_mul_sub,
    lemma_mul_zero, lemma_refl, lemma_ring_parts, lemma_sub_add, lemma_sub_closed,
    lemma_sub_congruent, lemma_sub_unique, lemma_sym, lemma_trans,
    lemma_zero_mul, multiple, ring_laws,
};
use crate::polynomials::all_members;
use crate::pow::{
    lemma_power_add, lemma_power_congruent, lemma_power_member, lemma_power_mul,
    lemma_power_of_one, power,
};
use crate::structures::{AdditiveGroup, CommutativeMonoid, Monoid, Ring, Semigroup};
use crate::sums::{
    flip, lemma_double_sum_swap, lemma_sum_congruent, lemma_sum_even_odd, lemma_sum_member,
    lemma_sum_mul_left, lemma_sum_mul_right, lemma_sum_single, lemma_sum_split, row_sums, sum_of,
};
use vstd::prelude::*;

verus! {

/// `0 - 1`.
pub open spec fn minus_one<R: Ring>(r: &R) -> R::M {
    r.sub_s(r.zero_s(), r.one_s())
}

/// The term `x[c + g·m] · w^(m·t)`.
pub open spec fn strided_term<R: Ring>(r: &R, x: Seq<R::M>, c: int, g: int, w: R::M, t: nat) -> spec_fn(int) -> R::M {
    |m: int| r.mul_s(x[c + g * m], power(r, w, (m * t) as nat))
}

/// `sum_{m < len} x[c + g·m] · w^(m·t)`: the transform, with root `w`, of the `len`
/// entries of `x` at `c, c + g, c + 2g, ...`, taken at `t`.
pub open spec fn strided_dft<R: Ring>(r: &R, x: Seq<R::M>, c: int, g: int, len: nat, w: R::M, t: nat) -> R::M {
    sum_of(r, strided_term(r, x, c, g, w, t), len)
}

/// The discrete Fourier transform of `a` with root `w`, at `k`:
/// `sum_{j < |a|} a_j · w^(j·k)`.
pub open spec fn dft<R: Ring>(r: &R, a: Seq<R::M>, w: R::M, k: nat) -> R::M {
    strided_dft(r, a, 0, 1, a.len(), w, k)
}

/// The entries `c, c + g, ..., c + (count - 1)·g` all lie inside `x`.
pub open spec fn stride_inside<M>(x: Seq<M>, c: int, g: int, count: nat) -> bool {
    forall|m: int| 0 <= m < count ==> 0 <= #[trigger] (c + g * m) < x.len()
}

/// `b · (0 - d) ~ 0 - b · d`.
pub proof fn lemma_mul_negated<R: Ring>(r: &R, b: R::M, d: R::M)
    requires
        ring_laws(r),
        r.member(b),
        r.member(d),
    ensures
        r.eqv(r.mul_s(b, r.sub_s(r.zero_s(), d)), r.sub_s(r.zero_s(), r.mul_s(b, d))),
{
    lemma_ring_parts(r);
    let z = r.zero_s();
    lemma_mul_sub(r, b, z, d);
    lemma_mul_zero(r, b);
    lemma_mul_closed(r, b, z);
    lemma_mul_closed(r, b, d);
    lemma_refl(r, r.mul_s(b, d));
    lemma_sub_congruent(r, r.mul_s(b, z), z, r.mul_s(b, d), r.mul_s(b, d));
    lemma_sub_closed(r, z, d);
    lemma_mul_closed(r, b, r.sub_s(z, d));
    lemma_sub_closed(r, r.mul_s(b, z), r.mul_s(b, d));
    lemma_sub_closed(r, z, r.mul_s(b, d));
    lemma_trans(r, r.mul_s(b, r.sub_s(z, d)), r.sub_s(r.mul_s(b, z), r.mul_s(b, d)), r.sub_s(z, r.mul_s(b, d)));
}

/// `a + (0 - e) ~ a - e`.
pub proof fn lemma_add_negated<R: Ring>(r: &R, a: R::M, e: R::M)
    requires
        ring_laws(r),
        r.member(a),
        r.member(e),
    ensures
        r.eqv(r.add_s(a, r.sub_s(r.zero_s(), e)), r.sub_s(a, e)),
{
    lemma_ring_parts(r);
    let z = r.zero_s();
    let ne = r.sub_s(z, e);
    let x = r.add_s(a, ne);
    lemma_sub_closed(r, z, e);
    lemma_add_closed(r, a, ne);
    // (a + (0 - e)) + e ~ a + ((0 - e) + e) ~ a + 0 ~ a
    crate::laws::lemma_add_assoc(r, a, ne, e);
    lemma_sub_add(r, z, e);
    lemma_refl(r, a);
    lemma_add_closed(r, ne, e);
    lemma_add_congruent(r, a, a, r.add_s(ne, e), z);
    crate::laws::lemma_add_zero(r, a);
    lemma_add_closed(r, x, e);
    lemma_add_closed(r, ne, e);
    lemma_add_closed(r, a, r.add_s(ne, e));
    lemma_add_closed(r, a, z);
    lemma_trans(r, r.add_s(x, e), r.add_s(a, r.add_s(ne, e)), r.add_s(a, z));
    lemma_trans(r, r.add_s(x, e), r.add_s(a, z), a);
    lemma_sub_unique(r, x, a, e);
}

/// `(0 - 1)·(0 - 1) ~ 1`.
pub proof fn lemma_minus_one_squared<R: Ring>(r: &R)
    requires
        ring_laws(r),
    ensures
        r.eqv(r.mul_s(minus_one(r), minus_one(r)), r.one_s()),
{
    lemma_ring_parts(r);
    let (z, one) = (r.zero_s(), r.one_s());
    let m = minus_one(r);
    lemma_sub_closed(r, z, one);
    // m · (0 - 1) ~ 0 - m · 1 ~ 0 - m ~ 1
    lemma_mul_negated(r, m, one);
    lemma_mul_one(r, m);
    lemma_mul_closed(r, m, one);
    lemma_refl(r, z);
    lemma_sub_congruent(r, z, z, r.mul_s(m, one), m);
    // 0 - (0 - 1) ~ 1, as 1 + (0 - 1) ~ 0
    lemma_add_comm(r, one, m);
    lemma_sub_add(r, z, one);
    lemma_add_closed(r, one, m);
    lemma_add_closed(r, m, one);
    lemma_trans(r, r.add_s(one, m), r.add_s(m, one), z);
    lemma_sub_unique(r, one, z, m);
    lemma_sub_closed(r, z, m);
    lemma_sym(r, one, r.sub_s(z, m));
    lemma_mul_closed(r, m, m);
    lemma_sub_closed(r, z, r.mul_s(m, one));
    lemma_trans(r, r.mul_s(m, m), r.sub_s(z, r.mul_s(m, one)), r.sub_s(z, m));
    lemma_trans(r, r.mul_s(m, m), r.sub_s(z, m), one);
}

/// The terms of a strided transform are members.
pub proof fn lemma_strided_member<R: Ring>(r: &R, x: Seq<R::M>, c: int, g: int, len: nat, w: R::M, t: nat)
    requires
        ring_laws(r),
        all_members(r, x),
        r.member(w),
        stride_inside(x, c, g, len),
    ensures
        forall|m: int| 0 <= m < len ==> #[trigger] r.member(strided_term(r, x, c, g, w, t)(m)),
        r.member(strided_dft(r, x, c, g, len, w, t)),
{
    lemma_ring_parts(r);
    let f = strided_term(r, x, c, g, w, t);
    assert forall|m: int| 0 <= m < len implies #[trigger] r.member(f(m)) by {
        assert(0 <= c + g * m < x.len());
        assert(r.member(x[c + g * m]));
        lemma_power_member(r, w, (m * t) as nat);
        lemma_mul_closed(r, x[c + g * m], power(r, w, (m * t) as nat));
    }
    lemma_sum_member(r, f, len);
}

/// Transforms with equal roots are equal.
pub proof fn lemma_strided_root<R: Ring>(r: &R, x: Seq<R::M>, c: int, g: int, len: nat, w1: R::M, w2: R::M, t: nat)
    requires
        ring_laws(r),
        all_members(r, x),
        r.member(w1),
        r.member(w2),
        r.eqv(w1, w2),
        stride_inside(x, c, g, len),
    ensures
        r.eqv(strided_dft(r, x, c, g, len, w1, t), strided_dft(r, x, c, g, len, w2, t)),
{
    lemma_ring_parts(r);
    let f1 = strided_term(r, x, c, g, w1, t);
    let f2 = strided_term(r, x, c, g, w2, t);
    lemma_strided_member(r, x, c, g, len, w1, t);
    lemma_strided_member(r, x, c, g, len, w2, t);
    assert forall|m: int| 0 <= m < len implies r.eqv(#[trigger] f1(m), f2(m)) by {
        assert(0 <= c + g * m < x.len());
        assert(r.member(x[c + g * m]));
        lemma_refl(r, x[c + g * m]);
        lemma_power_congruent(r, w1, w2, (m * t) as nat);
        lemma_power_member(r, w1, (m * t) as nat);
        lemma_power_member(r, w2, (m * t) as nat);
        lemma_mul_congruent(r, x[c + g * m], x[c + g * m], power(r, w1, (m * t) as nat), power(r, w2, (m * t) as nat));
    }
    lemma_sum_congruent(r, f1, f2, len);
}

/// A transform of length `2·len` splits into the transforms of its even and odd
/// entries, with root `w²`: `X_t ~ E_t + O_t · w^t`.
pub proof fn lemma_split_transform<R: Ring>(r: &R, x: Seq<R::M>, c: int, g: int, len: nat, w: R::M, t: nat)
    requires
        ring_laws(r),
        all_members(r, x),
        r.member(w),
        stride_inside(x, c, g, 2 * len),
    ensures
        stride_inside(x, c, 2 * g, len),
        stride_inside(x, c + g, 2 * g, len),
        r.eqv(
            strided_dft(r, x, c, g, 2 * len, w, t),
            r.add_s(
                strided_dft(r, x, c, 2 * g, len, power(r, w, 2), t),
                r.mul_s(strided_dft(r, x, c + g, 2 * g, len, power(r, w, 2), t), power(r, w, t)),
            ),
        ),
{
    lemma_ring_parts(r);
    let w2 = power(r, w, 2);
    let p = power(r, w, t);
    lemma_power_member(r, w, 2);
    lemma_power_member(r, w, t);
    let f = strided_term(r, x, c, g, w, t);
    let e = strided_term(r, x, c, 2 * g, w2, t);
    let o = strided_term(r, x, c + g, 2 * g, w2, t);
    let fe = |m: int| f(2 * m);
    let fo = |m: int| f(2 * m + 1);
    let op = |m: int| r.mul_s(o(m), p);
    assert forall|m: int| 0 <= m < len implies 0 <= #[trigger] (c + (2 * g) * m) < x.len() by {
        assert(c + (2 * g) * m == c + g * (2 * m)) by (nonlinear_arith);
        assert(0 <= c + g * (2 * m) < x.len());
    }
    assert forall|m: int| 0 <= m < len implies 0 <= #[trigger] ((c + g) + (2 * g) * m) < x.len() by {
        assert((c + g) + (2 * g) * m == c + g * (2 * m + 1)) by (nonlinear_arith);
        assert(0 <= c + g * (2 * m + 1) < x.len());
    }
    lemma_strided_member(r, x, c, g, 2 * len, w, t);
    lemma_strided_member(r, x, c, 2 * g, len, w2, t);
    lemma_strided_member(r, x, c + g, 2 * g, len, w2, t);
    lemma_sum_even_odd(r, f, len);
    assert forall|m: int| 0 <= m < len implies #[trigger] r.member(fe(m)) by {
        assert(r.member(f(2 * m)));
    }
    assert forall|m: int| 0 <= m < len implies #[trigger] r.member(fo(m)) by {
        assert(r.member(f(2 * m + 1)));
    }
    assert forall|m: int| 0 <= m < len implies #[trigger] r.member(op(m)) by {
        lemma_mul_closed(r, o(m), p);
    }
    // even terms: x[c + g·2m] · w^(2m·t) ~ x[c + 2g·m] · (w²)^(m·t)
    assert forall|m: int| 0 <= m < len implies r.eqv(#[trigger] fe(m), e(m)) by {
        let mt = (m * t) as nat;
        assert(c + g * (2 * m) == c + (2 * g) * m) by (nonlinear_arith);
        assert((2 * m) * t == 2 * (m * t)) by (nonlinear_arith);
        assert(0 <= m * t) by (nonlinear_arith)
            requires
                0 <= m,
        ;
        let xi = x[c + (2 * g) * m];
        assert(r.member(xi));
        lemma_power_mul(r, w, 2, mt);
        lemma_power_member(r, w, 2 * mt);
        lemma_power_member(r, w2, mt);
        lemma_refl(r, xi);
        lemma_mul_congruent(r, xi, xi, power(r, w, 2 * mt), power(r, w2, mt));
    }
    // odd terms: x[c + g·(2m+1)] · w^((2m+1)·t) ~ (x[c + g + 2g·m] · (w²)^(m·t)) · w^t
    assert forall|m: int| 0 <= m < len implies r.eqv(#[trigger] fo(m), op(m)) by {
        let mt = (m * t) as nat;
        assert(c + g * (2 * m + 1) == (c + g) + (2 * g) * m) by (nonlinear_arith);
        assert((2 * m + 1) * t == 2 * (m * t) + t) by (nonlinear_arith);
        assert(0 <= m * t) by (nonlinear_arith)
            requires
                0 <= m,
        ;
        let xi = x[(c + g) + (2 * g) * m];
        assert(r.member(xi));
        let a = power(r, w, 2 * mt);
        let b = power(r, w2, mt);
        lemma_power_member(r, w, 2 * mt);
        lemma_power_member(r, w2, mt);
        lemma_power_member(r, w, 2 * mt + t);
        lemma_power_add(r, w, 2 * mt, t);
        lemma_power_mul(r, w, 2, mt);
        lemma_refl(r, p);
        lemma_mul_congruent(r, a, b, p, p);
        lemma_mul_closed(r, a, p);
        lemma_mul_closed(r, b, p);
        lemma_sym(r, r.mul_s(a, p), power(r, w, 2 * mt + t));
        lemma_trans(r, power(r, w, 2 * mt + t), r.mul_s(a, p), r.mul_s(b, p));
        lemma_refl(r, xi);
        lemma_mul_congruent(r, xi, xi, power(r, w, 2 * mt + t), r.mul_s(b, p));
        lemma_mul_assoc(r, xi, b, p);
        lemma_mul_closed(r, xi, b);
        lemma_mul_closed(r, xi, r.mul_s(b, p));
        lemma_mul_closed(r, r.mul_s(xi, b), p);
        lemma_mul_closed(r, xi, power(r, w, 2 * mt + t));
        lemma_sym(r, r.mul_s(r.mul_s(xi, b), p), r.mul_s(xi, r.mul_s(b, p)));
        lemma_trans(r, fo(m), r.mul_s(xi, r.mul_s(b, p)), op(m));
    }
    lemma_sum_congruent(r, fe, e, len);
    lemma_sum_congruent(r, fo, op, len);
    lemma_sum_mul_right(r, o, p, len);
    let se = sum_of(r, fe, len);
    let so = sum_of(r, fo, len);
    let ee = sum_of(r, e, len);
    let oo = sum_of(r, o, len);
    lemma_sum_member(r, fe, len);
    lemma_sum_member(r, fo, len);
    lemma_sum_member(r, op, len);
    lemma_mul_closed(r, oo, p);
    lemma_sym(r, r.mul_s(oo, p), sum_of(r, op, len));
    lemma_trans(r, so, sum_of(r, op, len), r.mul_s(oo, p));
    lemma_add_congruent(r, se, ee, so, r.mul_s(oo, p));
    lemma_add_closed(r, se, so);
    lemma_add_closed(r, ee, r.mul_s(oo, p));
    lemma_trans(r, sum_of(r, f, 2 * len), r.add_s(se, so), r.add_s(ee, r.mul_s(oo, p)));
}

/// When `w^len ~ -1`, shifting by `len` leaves the half-length transforms (with root
/// `w²`) unchanged and negates the twiddle factor.
pub proof fn lemma_half_turn<R: Ring>(r: &R, x: Seq<R::M>, c: int, g: int, len: nat, w: R::M, t: nat)
    requires
        ring_laws(r),
        all_members(r, x),
        r.member(w),
        stride_inside(x, c, g, len),
        r.eqv(power(r, w, len), minus_one(r)),
    ensures
        r.eqv(
            strided_dft(r, x, c, g, len, power(r, w, 2), t + len),
            strided_dft(r, x, c, g, len, power(r, w, 2), t),
        ),
        r.eqv(power(r, w, t + len), r.sub_s(r.zero_s(), power(r, w, t))),
{
    lemma_ring_parts(r);
    let one = r.one_s();
    let m1 = minus_one(r);
    let w2 = power(r, w, 2);
    lemma_power_member(r, w, 2);
    lemma_power_member(r, w, len);
    lemma_power_member(r, w, t);
    lemma_sub_closed(r, r.zero_s(), one);
    // (w²)^len ~ w^(2·len) ~ (w^len)² ~ (-1)² ~ 1
    let wl = power(r, w, len);
    lemma_power_mul(r, w, 2, len);
    lemma_power_mul(r, w, len, 2);
    assert(2 * len == len * 2);
    lemma_power_congruent(r, wl, m1, 2);
    assert(power(r, m1, 0) == one);
    assert(power(r, m1, 1) == r.mul_s(one, m1));
    assert(power(r, m1, 2) == r.mul_s(r.mul_s(one, m1), m1));
    lemma_mul_one(r, m1);
    lemma_refl(r, m1);
    lemma_mul_closed(r, one, m1);
    lemma_mul_congruent(r, r.mul_s(one, m1), m1, m1, m1);
    lemma_minus_one_squared(r);
    lemma_mul_closed(r, m1, m1);
    lemma_power_member(r, w, 2 * len);
    lemma_power_member(r, w2, len);
    lemma_power_member(r, wl, 2);
    lemma_power_member(r, m1, 2);
    lemma_sym(r, power(r, w, 2 * len), power(r, w2, len));
    lemma_trans(r, power(r, w2, len), power(r, w, 2 * len), power(r, wl, 2));
    lemma_trans(r, power(r, w2, len), power(r, wl, 2), power(r, m1, 2));
    lemma_trans(r, power(r, w2, len), power(r, m1, 2), r.mul_s(m1, m1));
    lemma_trans(r, power(r, w2, len), r.mul_s(m1, m1), one);
    let wl2 = power(r, w2, len);
    // so (w²)^(m·(t + len)) ~ (w²)^(m·t)
    let f1 = strided_term(r, x, c, g, w2, t + len);
    let f0 = strided_term(r, x, c, g, w2, t);
    lemma_strided_member(r, x, c, g, len, w2, t + len);
    lemma_strided_member(r, x, c, g, len, w2, t);
    assert forall|m: int| 0 <= m < len implies r.eqv(#[trigger] f1(m), f0(m)) by {
        let mm = m as nat;
        let mt = (m * t) as nat;
        assert(0 <= m * t) by (nonlinear_arith)
            requires
                0 <= m,
        ;
        assert(m * (t + len) == m * t + len * m) by (nonlinear_arith);
        let a = power(r, w2, mt);
        let b = power(r, w2, len * mm);
        lemma_power_member(r, w2, mt);
        lemma_power_member(r, w2, len * mm);
        lemma_power_member(r, w2, mt + len * mm);
        lemma_power_add(r, w2, mt, len * mm);
        lemma_power_mul(r, w2, len, mm);
        lemma_power_congruent(r, wl2, one, mm);
        lemma_power_of_one(r, mm);
        lemma_power_member(r, wl2, mm);
        lemma_power_member(r, one, mm);
        lemma_trans(r, b, power(r, wl2, mm), power(r, one, mm));
        lemma_trans(r, b, power(r, one, mm), one);
        lemma_refl(r, a);
        lemma_mul_congruent(r, a, a, b, one);
        lemma_mul_one(r, a);
        lemma_mul_closed(r, a, b);
        lemma_mul_closed(r, a, one);
        lemma_sym(r, r.mul_s(a, b), power(r, w2, mt + len * mm));
        lemma_trans(r, power(r, w2, mt + len * mm), r.mul_s(a, b), r.mul_s(a, one));
        lemma_trans(r, power(r, w2, mt + len * mm), r.mul_s(a, one), a);
        let xi = x[c + g * m];
        assert(0 <= c + g * m < x.len());
        assert(r.member(xi));
        lemma_refl(r, xi);
        lemma_mul_congruent(r, xi, xi, power(r, w2, mt + len * mm), a);
    }
    lemma_sum_congruent(r, f1, f0, len);
    // w^(t + len) ~ w^t · w^len ~ w^t · (-1) ~ 0 - w^t
    let p = power(r, w, t);
    lemma_power_add(r, w, t, len);
    lemma_power_member(r, w, t + len);
    lemma_refl(r, p);
    lemma_mul_congruent(r, p, p, wl, m1);
    lemma_mul_negated(r, p, one);
    lemma_mul_one(r, p);
    lemma_mul_closed(r, p, one);
    lemma_refl(r, r.zero_s());
    lemma_sub_congruent(r, r.zero_s(), r.zero_s(), r.mul_s(p, one), p);
    lemma_mul_closed(r, p, wl);
    lemma_mul_closed(r, p, m1);
    lemma_sub_closed(r, r.zero_s(), r.mul_s(p, one));
    lemma_sub_closed(r, r.zero_s(), p);
    lemma_sym(r, r.mul_s(p, wl), power(r, w, t + len));
    lemma_trans(r, power(r, w, t + len), r.mul_s(p, wl), r.mul_s(p, m1));
    lemma_trans(r, power(r, w, t + len), r.mul_s(p, m1), r.sub_s(r.zero_s(), r.mul_s(p, one)));
    lemma_trans(r, power(r, w, t + len), r.sub_s(r.zero_s(), r.mul_s(p, one)), r.sub_s(r.zero_s(), p));
}

/// The butterfly: with `w^len ~ -1`, a transform of length `2·len` at `t` and at
/// `t + len` is `E + O·w^t` and `E - O·w^t`, where `E` and `O` are the transforms of
/// the even and odd entries with root `w²`.
pub proof fn lemma_butterfly<R: Ring>(r: &R, x: Seq<R::M>, c: int, g: int, len: nat, w: R::M, t: nat)
    requires
        ring_laws(r),
        all_members(r, x),
        r.member(w),
        stride_inside(x, c, g, 2 * len),
        r.eqv(power(r, w, len), minus_one(r)),
    ensures
        stride_inside(x, c, 2 * g, len),
        stride_inside(x, c + g, 2 * g, len),
        r.eqv(
            strided_dft(r, x, c, g, 2 * len, w, t),
            r.add_s(
                strided_dft(r, x, c, 2 * g, len, power(r, w, 2), t),
                r.mul_s(strided_dft(r, x, c + g, 2 * g, len, power(r, w, 2), t), power(r, w, t)),
            ),
        ),
        r.eqv(
            strided_dft(r, x, c, g, 2 * len, w, t + len),
            r.sub_s(
                strided_dft(r, x, c, 2 * g, len, power(r, w, 2), t),
                r.mul_s(strided_dft(r, x, c + g, 2 * g, len, power(r, w, 2), t), power(r, w, t)),
            ),
        ),
{
    lemma_ring_parts(r);
    let w2 = power(r, w, 2);
    lemma_power_member(r, w, 2);
    lemma_split_transform(r, x, c, g, len, w, t);
    lemma_split_transform(r, x, c, g, len, w, t + len);
    lemma_half_turn(r, x, c, 2 * g, len, w, t);
    lemma_half_turn(r, x, c + g, 2 * g, len, w, t);
    let e0 = strided_dft(r, x, c, 2 * g, len, w2, t);
    let o0 = strided_dft(r, x, c + g, 2 * g, len, w2, t);
    let e1 = strided_dft(r, x, c, 2 * g, len, w2, t + len);
    let o1 = strided_dft(r, x, c + g, 2 * g, len, w2, t + len);
    let p0 = power(r, w, t);
    let p1 = power(r, w, t + len);
    let z = r.zero_s();
    lemma_strided_member(r, x, c, 2 * g, len, w2, t);
    lemma_strided_member(r, x, c + g, 2 * g, len, w2, t);
    lemma_strided_member(r, x, c, 2 * g, len, w2, t + len);
    lemma_strided_member(r, x, c + g, 2 * g, len, w2, t + len);
    lemma_strided_member(r, x, c, g, 2 * len, w, t + len);
    lemma_power_member(r, w, t);
    lemma_power_member(r, w, t + len);
    lemma_sub_closed(r, z, p0);
    // o1 · p1 ~ o0 · (0 - p0) ~ 0 - o0 · p0
    lemma_mul_congruent(r, o1, o0, p1, r.sub_s(z, p0));
    lemma_mul_negated(r, o0, p0);
    lemma_mul_closed(r, o1, p1);
    lemma_mul_closed(r, o0, r.sub_s(z, p0));
    lemma_mul_closed(r, o0, p0);
    lemma_sub_closed(r, z, r.mul_s(o0, p0));
    lemma_trans(r, r.mul_s(o1, p1), r.mul_s(o0, r.sub_s(z, p0)), r.sub_s(z, r.mul_s(o0, p0)));
    // e1 + o1 · p1 ~ e0 + (0 - o0 · p0) ~ e0 - o0 · p0
    lemma_add_congruent(r, e1, e0, r.mul_s(o1, p1), r.sub_s(z, r.mul_s(o0, p0)));
    lemma_add_negated(r, e0, r.mul_s(o0, p0));
    lemma_add_closed(r, e1, r.mul_s(o1, p1));
    lemma_add_closed(r, e0, r.sub_s(z, r.mul_s(o0, p0)));
    lemma_sub_closed(r, e0, r.mul_s(o0, p0));
    let s1 = strided_dft(r, x, c, g, 2 * len, w, t + len);
    lemma_trans(r, s1, r.add_s(e1, r.mul_s(o1, p1)), r.add_s(e0, r.sub_s(z, r.mul_s(o0, p0))));
    lemma_trans(r, s1, r.add_s(e0, r.sub_s(z, r.mul_s(o0, p0))), r.sub_s(e0, r.mul_s(o0, p0)));
}

/// A chain of equivalent members: the first is equivalent to the last.
proof fn lemma_chain<R: Ring>(r: &R, xs: Seq<R::M>)
    requires
        ring_laws(r),
        xs.len() >= 1,
        forall|i: int| 0 <= i < xs.len() ==> #[trigger] r.member(xs[i]),
        forall|i: int| #![trigger xs[i]] 0 <= i < xs.len() - 1 ==> r.eqv(xs[i], xs[i + 1]),
    ensures
        r.eqv(xs[0], xs[xs.len() - 1]),
    decreases xs.len(),
{
    lemma_ring_parts(r);
    if xs.len() == 1 {
        lemma_refl(r, xs[0]);
    } else {
        let ys = xs.drop_last();
        assert forall|i: int| 0 <= i < ys.len() implies #[trigger] r.member(ys[i]) by {
            assert(r.member(xs[i]));
        }
        assert forall|i: int| #![trigger ys[i]] 0 <= i < ys.len() - 1 implies r.eqv(ys[i], ys[i + 1]) by {
            assert(r.eqv(xs[i], xs[i + 1]));
        }
        lemma_chain(r, ys);
        let n = xs.len() - 1;
        assert(r.eqv(xs[n - 1], xs[n]));
        lemma_trans(r, xs[0], xs[n - 1], xs[n]);
    }
}

/// An element commuting with `b` commutes with every power of `b`.
pub proof fn lemma_commute_power<R: Ring>(r: &R, a: R::M, b: R::M, k: nat)
    requires
        ring_laws(r),
        r.member(a),
        r.member(b),
        r.eqv(r.mul_s(a, b), r.mul_s(b, a)),
    ensures
        r.eqv(r.mul_s(a, power(r, b, k)), r.mul_s(power(r, b, k), a)),
    decreases k,
{
    lemma_ring_parts(r);
    let one = r.one_s();
    if k == 0 {
        lemma_mul_one(r, a);
        lemma_mul_closed(r, a, one);
        lemma_mul_closed(r, one, a);
        lemma_sym(r, r.mul_s(one, a), a);
        lemma_trans(r, r.mul_s(a, one), a, r.mul_s(one, a));
    } else {
        let k1 = (k - 1) as nat;
        lemma_commute_power(r, a, b, k1);
        let p = power(r, b, k1);
        lemma_power_member(r, b, k1);
        lemma_mul_closed(r, a, p);
        lemma_mul_closed(r, p, a);
        lemma_mul_closed(r, p, b);
        lemma_mul_closed(r, a, b);
        lemma_mul_closed(r, b, a);
        lemma_mul_closed(r, a, r.mul_s(p, b));
        lemma_mul_closed(r, r.mul_s(a, p), b);
        lemma_mul_closed(r, r.mul_s(p, a), b);
        lemma_mul_closed(r, p, r.mul_s(a, b));
        lemma_mul_closed(r, p, r.mul_s(b, a));
        lemma_mul_closed(r, r.mul_s(p, b), a);
        // a(pb) ~ (ap)b ~ (pa)b ~ p(ab) ~ p(ba) ~ (pb)a
        lemma_mul_assoc(r, a, p, b);
        lemma_sym(r, r.mul_s(r.mul_s(a, p), b), r.mul_s(a, r.mul_s(p, b)));
        lemma_refl(r, b);
        lemma_mul_congruent(r, r.mul_s(a, p), r.mul_s(p, a), b, b);
        lemma_mul_assoc(r, p, a, b);
        lemma_refl(r, p);
        lemma_mul_congruent(r, p, p, r.mul_s(a, b), r.mul_s(b, a));
        lemma_mul_assoc(r, p, b, a);
        lemma_sym(r, r.mul_s(r.mul_s(p, b), a), r.mul_s(p, r.mul_s(b, a)));
        lemma_chain(r, seq![
            r.mul_s(a, r.mul_s(p, b)),
            r.mul_s(r.mul_s(a, p), b),
            r.mul_s(r.mul_s(p, a), b),
            r.mul_s(p, r.mul_s(a, b)),
            r.mul_s(p, r.mul_s(b, a)),
            r.mul_s(r.mul_s(p, b), a),
        ]);
    }
}

/// Powers of two commuting elements commute.
pub proof fn lemma_powers_commute<R: Ring>(r: &R, a: R::M, b: R::M, j: nat, k: nat)
    requires
        ring_laws(r),
        r.member(a),
        r.member(b),
        r.eqv(r.mul_s(a, b), r.mul_s(b, a)),
    ensures
        r.eqv(r.mul_s(power(r, a, j), power(r, b, k)), r.mul_s(power(r, b, k), power(r, a, j))),
{
    lemma_ring_parts(r);
    lemma_commute_power(r, a, b, k);
    let bk = power(r, b, k);
    lemma_power_member(r, b, k);
    lemma_mul_closed(r, a, bk);
    lemma_mul_closed(r, bk, a);
    lemma_sym(r, r.mul_s(a, bk), r.mul_s(bk, a));
    lemma_commute_power(r, bk, a, j);
    let aj = power(r, a, j);
    lemma_power_member(r, a, j);
    lemma_mul_closed(r, aj, bk);
    lemma_mul_closed(r, bk, aj);
    lemma_sym(r, r.mul_s(bk, aj), r.mul_s(aj, bk));
}

/// `(a·b)^k ~ a^k · b^k` when `a` and `b` commute (for `k == 0` always).
pub proof fn lemma_power_product<R: Ring>(r: &R, a: R::M, b: R::M, k: nat)
    requires
        ring_laws(r),
        r.member(a),
        r.member(b),
        k > 0 ==> r.eqv(r.mul_s(a, b), r.mul_s(b, a)),
    ensures
        r.eqv(power(r, r.mul_s(a, b), k), r.mul_s(power(r, a, k), power(r, b, k))),
    decreases k,
{
    lemma_ring_parts(r);
    let one = r.one_s();
    lemma_mul_closed(r, a, b);
    if k == 0 {
        lemma_mul_one(r, one);
        lemma_mul_closed(r, one, one);
        lemma_sym(r, r.mul_s(one, one), one);
    } else {
        let k1 = (k - 1) as nat;
        lemma_power_product(r, a, b, k1);
        let pa = power(r, a, k1);
        let pb = power(r, b, k1);
        let ab = r.mul_s(a, b);
        lemma_power_member(r, a, k1);
        lemma_power_member(r, b, k1);
        lemma_power_member(r, ab, k1);
        lemma_commute_power(r, a, b, k1);
        lemma_mul_closed(r, pa, pb);
        lemma_mul_closed(r, pb, a);
        lemma_mul_closed(r, a, pb);
        lemma_mul_closed(r, pb, ab);
        lemma_mul_closed(r, r.mul_s(pb, a), b);
        lemma_mul_closed(r, r.mul_s(a, pb), b);
        lemma_mul_closed(r, pb, b);
        lemma_mul_closed(r, a, r.mul_s(pb, b));
        lemma_mul_closed(r, pa, a);
        lemma_mul_closed(r, power(r, ab, k1), ab);
        lemma_mul_closed(r, r.mul_s(pa, pb), ab);
        lemma_mul_closed(r, pa, r.mul_s(pb, ab));
        lemma_mul_closed(r, pa, r.mul_s(r.mul_s(pb, a), b));
        lemma_mul_closed(r, pa, r.mul_s(r.mul_s(a, pb), b));
        lemma_mul_closed(r, pa, r.mul_s(a, r.mul_s(pb, b)));
        lemma_mul_closed(r, r.mul_s(pa, a), r.mul_s(pb, b));
        // (ab)^k ~ (pa pb)(ab) ~ pa (pb (ab)) ~ pa ((pb a) b) ~ pa ((a pb) b)
        //        ~ pa (a (pb b)) ~ (pa a)(pb b)
        lemma_refl(r, ab);
        lemma_mul_congruent(r, power(r, ab, k1), r.mul_s(pa, pb), ab, ab);
        lemma_mul_assoc(r, pa, pb, ab);
        lemma_mul_assoc(r, pb, a, b);
        lemma_sym(r, r.mul_s(r.mul_s(pb, a), b), r.mul_s(pb, ab));
        lemma_refl(r, pa);
        lemma_mul_congruent(r, pa, pa, r.mul_s(pb, ab), r.mul_s(r.mul_s(pb, a), b));
        lemma_refl(r, b);
        lemma_sym(r, r.mul_s(a, pb), r.mul_s(pb, a));
        lemma_mul_congruent(r, r.mul_s(pb, a), r.mul_s(a, pb), b, b);
        lemma_mul_congruent(r, pa, pa, r.mul_s(r.mul_s(pb, a), b), r.mul_s(r.mul_s(a, pb), b));
        lemma_mul_assoc(r, a, pb, b);
        lemma_mul_congruent(r, pa, pa, r.mul_s(r.mul_s(a, pb), b), r.mul_s(a, r.mul_s(pb, b)));
        lemma_mul_assoc(r, pa, a, r.mul_s(pb, b));
        lemma_sym(r, r.mul_s(r.mul_s(pa, a), r.mul_s(pb, b)), r.mul_s(pa, r.mul_s(a, r.mul_s(pb, b))));
        lemma_chain(r, seq![
            power(r, ab, k),
            r.mul_s(r.mul_s(pa, pb), ab),
            r.mul_s(pa, r.mul_s(pb, ab)),
            r.mul_s(pa, r.mul_s(r.mul_s(pb, a), b)),
            r.mul_s(pa, r.mul_s(r.mul_s(a, pb), b)),
            r.mul_s(pa, r.mul_s(a, r.mul_s(pb, b))),
            r.mul_s(r.mul_s(pa, a), r.mul_s(pb, b)),
        ]);
    }
}

/// `(-1)^d` is `1` for even `d` and `-1` for odd `d`.
pub proof fn lemma_minus_one_power<R: Ring>(r: &R, d: nat)
    requires
        ring_laws(r),
    ensures
        r.eqv(power(r, minus_one(r), d), if d % 2 == 0 { r.one_s() } else { minus_one(r) }),
    decreases d,
{
    lemma_ring_parts(r);
    let m1 = minus_one(r);
    let one = r.one_s();
    lemma_sub_closed(r, r.zero_s(), one);
    if d == 0 {
        lemma_refl(r, one);
    } else {
        let d1 = (d - 1) as nat;
        lemma_minus_one_power(r, d1);
        let prev = power(r, m1, d1);
        lemma_power_member(r, m1, d1);
        lemma_refl(r, m1);
        if d1 % 2 == 0 {
            lemma_mul_congruent(r, prev, one, m1, m1);
            lemma_mul_one(r, m1);
            lemma_mul_closed(r, prev, m1);
            lemma_mul_closed(r, one, m1);
            lemma_trans(r, power(r, m1, d), r.mul_s(one, m1), m1);
        } else {
            lemma_mul_congruent(r, prev, m1, m1, m1);
            lemma_minus_one_squared(r);
            lemma_mul_closed(r, prev, m1);
            lemma_mul_closed(r, m1, m1);
            lemma_trans(r, power(r, m1, d), r.mul_s(m1, m1), one);
        }
    }
}

/// The powers `z^k`, as terms of a sum.
pub open spec fn powers_of<R: Ring>(r: &R, z: R::M) -> spec_fn(int) -> R::M {
    |k: int| power(r, z, k as nat)
}

/// `1 + 1 + ... + 1`, `n` times, is the image of `n`.
pub proof fn lemma_sum_of_ones<R: Ring>(r: &R, n: nat)
    ensures
        sum_of(r, |k: int| r.one_s(), n) == multiple(r, r.one_s(), n),
    decreases n,
{
    if n > 0 {
        lemma_sum_of_ones(r, (n - 1) as nat);
    }
}

/// `sum_{k < n} (w^d)^k ~ 0` for `0 < d < n`, when `n` is a power of two and
/// `w^(n/2) ~ -1`: the powers of a nontrivial root of unity add up to zero.
pub proof fn lemma_geometric<R: Ring>(r: &R, w: R::M, kexp: nat, d: nat)
    requires
        ring_laws(r),
        r.member(w),
        kexp >= 1,
        0 < d < two_to(kexp),
        r.eqv(power(r, w, two_to(kexp) / 2), minus_one(r)),
    ensures
        r.eqv(sum_of(r, powers_of(r, power(r, w, d)), two_to(kexp)), r.zero_s()),
    decreases kexp,
{
    lemma_ring_parts(r);
    let n = two_to(kexp);
    let h = two_to((kexp - 1) as nat);
    assert(n == 2 * h);
    assert(n / 2 == h);
    let z = power(r, w, d);
    let one = r.one_s();
    let zero = r.zero_s();
    let m1 = minus_one(r);
    lemma_sub_closed(r, zero, one);
    lemma_power_member(r, w, d);
    let g = powers_of(r, z);
    assert forall|k: int| 0 <= k < n implies #[trigger] r.member(g(k)) by {
        lemma_power_member(r, z, k as nat);
    }
    // sum over n = (sum over h) + sum over h of z^(h + q)
    lemma_sum_split(r, g, h, h);
    let tail = |q: int| g(h + q);
    let zh = power(r, z, h);
    lemma_power_member(r, z, h);
    let sc = |q: int| r.mul_s(zh, g(q));
    assert forall|q: int| 0 <= q < h implies #[trigger] r.member(tail(q)) by {
        lemma_power_member(r, z, (h + q) as nat);
    }
    assert forall|q: int| 0 <= q < h implies #[trigger] r.member(sc(q)) by {
        lemma_power_member(r, z, q as nat);
        lemma_mul_closed(r, zh, g(q));
    }
    assert forall|q: int| 0 <= q < h implies r.eqv(#[trigger] tail(q), sc(q)) by {
        lemma_power_add(r, z, h, q as nat);
        lemma_power_member(r, z, q as nat);
        lemma_power_member(r, z, h + q as nat);
        lemma_mul_closed(r, zh, g(q));
        lemma_sym(r, r.mul_s(zh, g(q)), power(r, z, h + q as nat));
    }
    lemma_sum_congruent(r, tail, sc, h);
    lemma_sum_mul_left(r, zh, g, h);
    let s0 = sum_of(r, g, h);
    lemma_sum_member(r, g, h);
    lemma_sum_member(r, tail, h);
    lemma_sum_member(r, sc, h);
    lemma_mul_closed(r, zh, s0);
    // total ~ s0 + zh · s0 ~ (1 + zh) · s0
    lemma_sym(r, r.mul_s(zh, s0), sum_of(r, sc, h));
    lemma_trans(r, sum_of(r, tail, h), sum_of(r, sc, h), r.mul_s(zh, s0));
    lemma_refl(r, s0);
    lemma_add_congruent(r, s0, s0, sum_of(r, tail, h), r.mul_s(zh, s0));
    lemma_add_closed(r, s0, sum_of(r, tail, h));
    lemma_add_closed(r, s0, r.mul_s(zh, s0));
    lemma_sum_member(r, g, n);
    lemma_trans(r, sum_of(r, g, n), r.add_s(s0, sum_of(r, tail, h)), r.add_s(s0, r.mul_s(zh, s0)));
    crate::laws::lemma_distrib(r, one, zh, s0);
    lemma_mul_one(r, s0);
    lemma_mul_closed(r, one, s0);
    lemma_add_closed(r, one, zh);
    lemma_mul_closed(r, r.add_s(one, zh), s0);
    lemma_add_closed(r, r.mul_s(one, s0), r.mul_s(zh, s0));
    lemma_refl(r, r.mul_s(zh, s0));
    lemma_add_congruent(r, r.mul_s(one, s0), s0, r.mul_s(zh, s0), r.mul_s(zh, s0));
    lemma_trans(r, r.mul_s(r.add_s(one, zh), s0), r.add_s(r.mul_s(one, s0), r.mul_s(zh, s0)), r.add_s(s0, r.mul_s(zh, s0)));
    lemma_sym(r, r.mul_s(r.add_s(one, zh), s0), r.add_s(s0, r.mul_s(zh, s0)));
    lemma_trans(r, sum_of(r, g, n), r.add_s(s0, r.mul_s(zh, s0)), r.mul_s(r.add_s(one, zh), s0));
    // zh = (w^d)^h ~ w^(d·h) ~ (w^h)^d ~ (-1)^d
    lemma_power_mul(r, w, d, h);
    lemma_power_mul(r, w, h, d);
    assert(d * h == h * d);
    lemma_power_member(r, w, h);
    lemma_power_member(r, w, d * h);
    lemma_power_congruent(r, power(r, w, h), m1, d);
    lemma_minus_one_power(r, d);
    lemma_power_member(r, power(r, w, h), d);
    lemma_power_member(r, m1, d);
    lemma_sym(r, power(r, w, d * h), zh);
    lemma_trans(r, zh, power(r, w, d * h), power(r, power(r, w, h), d));
    lemma_trans(r, zh, power(r, power(r, w, h), d), power(r, m1, d));
    if d % 2 == 1 {
        // 1 + (-1) ~ 0, so the whole sum is 0 · s0 ~ 0
        lemma_trans(r, zh, power(r, m1, d), m1);
        lemma_refl(r, one);
        lemma_add_congruent(r, one, one, zh, m1);
        lemma_add_negated(r, one, one);
        crate::laws::lemma_sub_self(r, one);
        lemma_add_closed(r, one, m1);
        lemma_sub_closed(r, one, one);
        lemma_trans(r, r.add_s(one, zh), r.add_s(one, m1), r.sub_s(one, one));
        lemma_trans(r, r.add_s(one, zh), r.sub_s(one, one), zero);
        lemma_mul_congruent(r, r.add_s(one, zh), zero, s0, s0);
        lemma_zero_mul(r, s0);
        lemma_mul_closed(r, zero, s0);
        lemma_trans(r, r.mul_s(r.add_s(one, zh), s0), r.mul_s(zero, s0), zero);
        lemma_trans(r, sum_of(r, g, n), r.mul_s(r.add_s(one, zh), s0), zero);
    } else {
        // d = 2e: the first half is the sum for the root w², of half the order
        let e = d / 2;
        assert(d == 2 * e);
        assert(kexp >= 2) by {
            if kexp == 1 {
                assert(two_to(1) == 2 * two_to(0));
            }
        }
        let w2 = power(r, w, 2);
        lemma_power_member(r, w, 2);
        let hk = (kexp - 1) as nat;
        assert(two_to(hk) == 2 * two_to((hk - 1) as nat));
        assert(two_to(hk) / 2 == two_to((hk - 1) as nat));
        let q4 = two_to((hk - 1) as nat);
        lemma_power_mul(r, w, 2, q4);
        assert(2 * q4 == h);
        lemma_power_member(r, w2, q4);
        lemma_sym(r, power(r, w, h), power(r, w2, q4));
        lemma_trans(r, power(r, w2, q4), power(r, w, h), m1);
        lemma_geometric(r, w2, hk, e);
        // (w²)^e ~ w^(2e) = z, so the sums agree
        lemma_power_mul(r, w, 2, e);
        lemma_power_member(r, w2, e);
        let g2 = powers_of(r, power(r, w2, e));
        assert forall|k: int| 0 <= k < h implies #[trigger] r.member(g2(k)) by {
            lemma_power_member(r, power(r, w2, e), k as nat);
        }
        assert forall|k: int| 0 <= k < h implies r.eqv(#[trigger] g(k), g2(k)) by {
            lemma_power_congruent(r, z, power(r, w2, e), k as nat);
        }
        lemma_sum_congruent(r, g, g2, h);
        lemma_sum_member(r, g2, h);
        lemma_trans(r, s0, sum_of(r, g2, h), zero);
        lemma_refl(r, r.add_s(one, zh));
        lemma_mul_congruent(r, r.add_s(one, zh), r.add_s(one, zh), s0, zero);
        lemma_mul_zero(r, r.add_s(one, zh));
        lemma_mul_closed(r, r.add_s(one, zh), zero);
        lemma_trans(r, r.mul_s(r.add_s(one, zh), s0), r.mul_s(r.add_s(one, zh), zero), zero);
        lemma_trans(r, sum_of(r, g, n), r.mul_s(r.add_s(one, zh), s0), zero);
    }
}

/// The terms `w^(j·k) · wi^(k·l)` of the sum that decides what the inverse transform
/// gives back at `l` from the entry at `j`.
pub open spec fn kernel_term<R: Ring>(r: &R, w: R::M, wi: R::M, j: int, l: int) -> spec_fn(int) -> R::M {
    |k: int| r.mul_s(power(r, w, (j * k) as nat), power(r, wi, (k * l) as nat))
}

/// `x` with `m · x ~ 1` is `-1` when `m` is.
proof fn lemma_inverse_of_minus_one<R: Ring>(r: &R, x: R::M)
    requires
        ring_laws(r),
        r.member(x),
        r.eqv(r.mul_s(minus_one(r), x), r.one_s()),
    ensures
        r.eqv(x, minus_one(r)),
{
    lemma_ring_parts(r);
    let m1 = minus_one(r);
    let one = r.one_s();
    lemma_sub_closed(r, r.zero_s(), one);
    // x ~ 1·x ~ (m1·m1)·x ~ m1·(m1·x) ~ m1·1 ~ m1
    lemma_mul_one(r, x);
    lemma_minus_one_squared(r);
    lemma_mul_closed(r, m1, m1);
    lemma_refl(r, x);
    lemma_mul_congruent(r, r.mul_s(m1, m1), one, x, x);
    lemma_mul_assoc(r, m1, m1, x);
    lemma_mul_closed(r, m1, x);
    lemma_refl(r, m1);
    lemma_mul_congruent(r, m1, m1, r.mul_s(m1, x), one);
    lemma_mul_one(r, m1);
    lemma_mul_closed(r, one, x);
    lemma_mul_closed(r, r.mul_s(m1, m1), x);
    lemma_mul_closed(r, m1, r.mul_s(m1, x));
    lemma_mul_closed(r, m1, one);
    lemma_sym(r, r.mul_s(one, x), x);
    lemma_sym(r, r.mul_s(r.mul_s(m1, m1), x), r.mul_s(one, x));
    lemma_trans(r, x, r.mul_s(one, x), r.mul_s(r.mul_s(m1, m1), x));
    lemma_trans(r, x, r.mul_s(r.mul_s(m1, m1), x), r.mul_s(m1, r.mul_s(m1, x)));
    lemma_trans(r, x, r.mul_s(m1, r.mul_s(m1, x)), r.mul_s(m1, one));
    lemma_trans(r, x, r.mul_s(m1, one), m1);
}

/// With `w · wi ~ 1`: `w^j · wi^l ~ w^(j - l)` when `j >= l`, and `~ wi^(l - j)`
/// otherwise.
proof fn lemma_root_ratio<R: Ring>(r: &R, w: R::M, wi: R::M, j: nat, l: nat)
    requires
        ring_laws(r),
        (j > 0 || l > 0) ==> r.eqv(r.mul_s(w, wi), r.mul_s(wi, w)),
        r.member(w),
        r.member(wi),
        r.eqv(r.mul_s(w, wi), r.one_s()),
    ensures
        r.eqv(
            r.mul_s(power(r, w, j), power(r, wi, l)),
            if j >= l { power(r, w, (j - l) as nat) } else { power(r, wi, (l - j) as nat) },
        ),
{
    lemma_ring_parts(r);
    let one = r.one_s();
    let m = if j >= l { l } else { j };
    let (x, y, base, d) = if j >= l {
        (w, wi, w, (j - l) as nat)
    } else {
        (wi, w, wi, (l - j) as nat)
    };
    // the common part (w · wi)^m ~ 1
    lemma_power_product(r, w, wi, m);
    lemma_mul_closed(r, w, wi);
    lemma_power_congruent(r, r.mul_s(w, wi), one, m);
    crate::pow::lemma_power_of_one(r, m);
    lemma_mul_closed(r, w, wi);
    lemma_power_member(r, r.mul_s(w, wi), m);
    lemma_power_member(r, one, m);
    lemma_power_member(r, w, m);
    lemma_power_member(r, wi, m);
    lemma_mul_closed(r, power(r, w, m), power(r, wi, m));
    lemma_sym(r, power(r, r.mul_s(w, wi), m), r.mul_s(power(r, w, m), power(r, wi, m)));
    lemma_trans(r, r.mul_s(power(r, w, m), power(r, wi, m)), power(r, r.mul_s(w, wi), m), power(r, one, m));
    lemma_trans(r, r.mul_s(power(r, w, m), power(r, wi, m)), power(r, one, m), one);
    let c = r.mul_s(power(r, w, m), power(r, wi, m));
    lemma_power_member(r, base, d);
    let pd = power(r, base, d);
    lemma_power_add(r, base, d, m);
    lemma_power_member(r, base, d + m);
    lemma_power_member(r, base, m);
    lemma_mul_closed(r, pd, power(r, base, m));
    lemma_mul_closed(r, pd, c);
    lemma_mul_closed(r, pd, one);
    lemma_refl(r, pd);
    lemma_mul_congruent(r, pd, pd, c, one);
    lemma_mul_one(r, pd);
    if j >= l {
        // w^j · wi^l ~ (w^d · w^l) · wi^l ~ w^d · (w^l · wi^l) ~ w^d · 1 ~ w^d
        assert(d + m == j);
        let pl = power(r, wi, l);
        lemma_refl(r, pl);
        lemma_sym(r, r.mul_s(pd, power(r, w, m)), power(r, w, j));
        lemma_mul_congruent(r, power(r, w, j), r.mul_s(pd, power(r, w, m)), pl, pl);
        lemma_mul_assoc(r, pd, power(r, w, m), pl);
        lemma_mul_closed(r, power(r, w, j), pl);
        lemma_mul_closed(r, r.mul_s(pd, power(r, w, m)), pl);
        lemma_trans(r, r.mul_s(power(r, w, j), pl), r.mul_s(r.mul_s(pd, power(r, w, m)), pl), r.mul_s(pd, c));
        lemma_trans(r, r.mul_s(power(r, w, j), pl), r.mul_s(pd, c), r.mul_s(pd, one));
        lemma_trans(r, r.mul_s(power(r, w, j), pl), r.mul_s(pd, one), pd);
    } else {
        // w^j · wi^l ~ w^j · (wi^d · wi^j) ~ (wi^d · wi^j) · w^j ~ wi^d · (wi^j · w^j) ~ wi^d
        assert(d + m == l);
        let pj = power(r, w, j);
        let q = r.mul_s(pd, power(r, wi, m));
        lemma_refl(r, pj);
        lemma_sym(r, q, power(r, wi, l));
        lemma_mul_congruent(r, pj, pj, power(r, wi, l), q);
        // pj · q ~ q · pj: through wi^l, whose powers commute with those of w
        lemma_powers_commute(r, w, wi, j, l);
        lemma_mul_closed(r, power(r, wi, l), pj);
        lemma_mul_congruent(r, power(r, wi, l), q, pj, pj);
        lemma_mul_closed(r, pj, q);
        lemma_mul_closed(r, q, pj);
        lemma_mul_closed(r, pj, power(r, wi, l));
        lemma_sym(r, r.mul_s(pj, power(r, wi, l)), r.mul_s(pj, q));
        lemma_trans(r, r.mul_s(pj, q), r.mul_s(pj, power(r, wi, l)), r.mul_s(power(r, wi, l), pj));
        lemma_trans(r, r.mul_s(pj, q), r.mul_s(power(r, wi, l), pj), r.mul_s(q, pj));
        lemma_mul_assoc(r, pd, power(r, wi, m), pj);
        lemma_powers_commute(r, w, wi, j, m);
        lemma_mul_closed(r, pj, power(r, wi, m));
        lemma_mul_closed(r, power(r, wi, m), pj);
        lemma_sym(r, r.mul_s(pj, power(r, wi, m)), r.mul_s(power(r, wi, m), pj));
        lemma_mul_closed(r, power(r, wi, m), pj);
        lemma_mul_congruent(r, pd, pd, r.mul_s(power(r, wi, m), pj), c);
        lemma_mul_closed(r, pj, power(r, wi, l));
        lemma_mul_closed(r, pj, q);
        lemma_mul_closed(r, q, pj);
        lemma_mul_closed(r, pd, r.mul_s(power(r, wi, m), pj));
        lemma_trans(r, r.mul_s(pj, power(r, wi, l)), r.mul_s(pj, q), r.mul_s(q, pj));
        lemma_trans(r, r.mul_s(pj, power(r, wi, l)), r.mul_s(q, pj), r.mul_s(pd, r.mul_s(power(r, wi, m), pj)));
        lemma_trans(r, r.mul_s(pj, power(r, wi, l)), r.mul_s(pd, r.mul_s(power(r, wi, m), pj)), r.mul_s(pd, c));
        lemma_trans(r, r.mul_s(pj, power(r, wi, l)), r.mul_s(pd, c), r.mul_s(pd, one));
        lemma_trans(r, r.mul_s(pj, power(r, wi, l)), r.mul_s(pd, one), pd);
    }
}

/// `sum_{k < n} w^(j·k) · wi^(k·l)` is `n` when `j == l` and `0` otherwise.
proof fn lemma_kernel<R: Ring>(r: &R, w: R::M, wi: R::M, kexp: nat, j: nat, l: nat)
    requires
        ring_laws(r),
        (j > 0 || l > 0) ==> r.eqv(r.mul_s(w, wi), r.mul_s(wi, w)),
        r.member(w),
        r.member(wi),
        r.eqv(r.mul_s(w, wi), r.one_s()),
        j < two_to(kexp),
        l < two_to(kexp),
        kexp >= 1 ==> r.eqv(power(r, w, two_to(kexp) / 2), minus_one(r)),
        kexp >= 1 ==> r.eqv(power(r, wi, two_to(kexp) / 2), minus_one(r)),
    ensures
        r.eqv(
            sum_of(r, kernel_term(r, w, wi, j as int, l as int), two_to(kexp)),
            if j == l { multiple(r, r.one_s(), two_to(kexp)) } else { r.zero_s() },
        ),
{
    lemma_ring_parts(r);
    let n = two_to(kexp);
    let one = r.one_s();
    let f = kernel_term(r, w, wi, j as int, l as int);
    let (base, d) = if j >= l { (w, (j - l) as nat) } else { (wi, (l - j) as nat) };
    let root = power(r, base, d);
    lemma_root_ratio(r, w, wi, j, l);
    lemma_power_member(r, base, d);
    lemma_power_member(r, w, j);
    lemma_power_member(r, wi, l);
    let c = r.mul_s(power(r, w, j), power(r, wi, l));
    lemma_mul_closed(r, power(r, w, j), power(r, wi, l));
    let g = powers_of(r, root);
    assert forall|k: int| 0 <= k < n implies #[trigger] r.member(f(k)) by {
        lemma_power_member(r, w, (j * k) as nat);
        lemma_power_member(r, wi, (k * l) as nat);
        lemma_mul_closed(r, power(r, w, (j * k) as nat), power(r, wi, (k * l) as nat));
    }
    assert forall|k: int| 0 <= k < n implies #[trigger] r.member(g(k)) by {
        lemma_power_member(r, root, k as nat);
    }
    assert forall|k: int| 0 <= k < n implies r.eqv(#[trigger] f(k), g(k)) by {
        let kn = k as nat;
        assert((j * k) as nat == j * kn && (k * l) as nat == l * kn) by (nonlinear_arith)
            requires
                0 <= k,
                kn == k,
        ;
        lemma_power_mul(r, w, j, kn);
        lemma_power_mul(r, wi, l, kn);
        lemma_power_member(r, w, j * kn);
        lemma_power_member(r, wi, l * kn);
        lemma_power_member(r, power(r, w, j), kn);
        lemma_power_member(r, power(r, wi, l), kn);
        lemma_mul_congruent(r, power(r, w, j * kn), power(r, power(r, w, j), kn), power(r, wi, l * kn), power(r, power(r, wi, l), kn));
        if j > 0 || l > 0 {
            lemma_powers_commute(r, w, wi, j, l);
        } else {
            lemma_mul_closed(r, r.one_s(), r.one_s());
            lemma_refl(r, r.mul_s(r.one_s(), r.one_s()));
        }
        lemma_power_product(r, power(r, w, j), power(r, wi, l), kn);
        lemma_power_member(r, c, kn);
        lemma_mul_closed(r, power(r, power(r, w, j), kn), power(r, power(r, wi, l), kn));
        lemma_sym(r, power(r, c, kn), r.mul_s(power(r, power(r, w, j), kn), power(r, power(r, wi, l), kn)));
        lemma_power_congruent(r, c, root, kn);
        lemma_power_member(r, root, kn);
        lemma_trans(r, f(k), r.mul_s(power(r, power(r, w, j), kn), power(r, power(r, wi, l), kn)), power(r, c, kn));
        lemma_trans(r, f(k), power(r, c, kn), power(r, root, kn));
    }
    lemma_sum_congruent(r, f, g, n);
    lemma_sum_member(r, f, n);
    lemma_sum_member(r, g, n);
    if j == l {
        // every term is 1^k ~ 1
        let ones = |k: int| one;
        assert(root == power(r, base, 0));
        assert forall|k: int| 0 <= k < n implies r.eqv(#[trigger] g(k), ones(k)) by {
            crate::pow::lemma_power_of_one(r, k as nat);
        }
        assert forall|k: int| 0 <= k < n implies #[trigger] r.member(ones(k)) by {
        }
        lemma_sum_congruent(r, g, ones, n);
        lemma_sum_of_ones(r, n);
        lemma_sum_member(r, ones, n);
        lemma_trans(r, sum_of(r, f, n), sum_of(r, g, n), sum_of(r, ones, n));
    } else {
        assert(kexp >= 1) by {
            if kexp == 0 {
                assert(n == 1);
            }
        }
        lemma_geometric(r, base, kexp, d);
        lemma_trans(r, sum_of(r, f, n), sum_of(r, g, n), r.zero_s());
    }
}

/// All the transforms `dft(a, w, k)` for `k < |a|`.
pub open spec fn dft_all<R: Ring>(r: &R, a: Seq<R::M>, w: R::M) -> Seq<R::M> {
    Seq::new(a.len(), |k: int| dft(r, a, w, k as nat))
}

/// A right inverse `wi` of a half turn `w` (`w^h ~ -1`, `h >= 1`) is also a left
/// inverse, so `w` and `wi` commute: `w^(2h) ~ 1` makes `w^(2h-1)` an inverse on
/// both sides, and `wi` is equivalent to it.
pub proof fn lemma_inverse_commutes<R: Ring>(r: &R, w: R::M, wi: R::M, h: nat)
    requires
        ring_laws(r),
        r.member(w),
        r.member(wi),
        h >= 1,
        r.eqv(r.mul_s(w, wi), r.one_s()),
        r.eqv(power(r, w, h), minus_one(r)),
    ensures
        r.eqv(r.mul_s(wi, w), r.one_s()),
        r.eqv(r.mul_s(w, wi), r.mul_s(wi, w)),
{
    lemma_ring_parts(r);
    let one = r.one_s();
    let m1 = minus_one(r);
    lemma_sub_closed(r, r.zero_s(), one);
    let n = 2 * h;
    // w^n ~ w^h · w^h ~ (-1)(-1) ~ 1
    lemma_power_add(r, w, h, h);
    lemma_power_member(r, w, h);
    lemma_power_member(r, w, n);
    lemma_mul_closed(r, power(r, w, h), power(r, w, h));
    lemma_mul_closed(r, m1, m1);
    lemma_mul_congruent(r, power(r, w, h), m1, power(r, w, h), m1);
    lemma_minus_one_squared(r);
    lemma_sym(r, r.mul_s(power(r, w, h), power(r, w, h)), power(r, w, n));
    lemma_chain(r, seq![power(r, w, n), r.mul_s(power(r, w, h), power(r, w, h)), r.mul_s(m1, m1), one]);
    // u = w^(n-1) has u · w = w^n ~ 1, and wi ~ u
    let u = power(r, w, (n - 1) as nat);
    lemma_power_member(r, w, (n - 1) as nat);
    assert(power(r, w, n) == r.mul_s(u, w));
    lemma_mul_closed(r, u, w);
    lemma_mul_closed(r, one, wi);
    lemma_mul_closed(r, r.mul_s(u, w), wi);
    lemma_mul_closed(r, w, wi);
    lemma_mul_closed(r, u, r.mul_s(w, wi));
    lemma_mul_closed(r, u, one);
    lemma_mul_one(r, wi);
    lemma_mul_one(r, u);
    lemma_sym(r, r.mul_s(one, wi), wi);
    lemma_refl(r, wi);
    lemma_sym(r, r.mul_s(u, w), one);
    lemma_mul_congruent(r, one, r.mul_s(u, w), wi, wi);
    lemma_mul_assoc(r, u, w, wi);
    lemma_refl(r, u);
    lemma_mul_congruent(r, u, u, r.mul_s(w, wi), one);
    lemma_chain(r, seq![wi, r.mul_s(one, wi), r.mul_s(r.mul_s(u, w), wi), r.mul_s(u, r.mul_s(w, wi)), r.mul_s(u, one), u]);
    // wi · w ~ u · w ~ 1
    lemma_refl(r, w);
    lemma_mul_closed(r, wi, w);
    lemma_mul_congruent(r, wi, u, w, w);
    lemma_trans(r, r.mul_s(wi, w), r.mul_s(u, w), one);
    lemma_sym(r, r.mul_s(wi, w), one);
    lemma_trans(r, r.mul_s(w, wi), one, r.mul_s(wi, w));
}

/// The transform with the inverse root, scaled by the inverse of the length, undoes
/// the transform: over any ring, when `w · wi ~ 1`, `n · ni ~ 1`, the
/// length `n` is a power of two and `w^(n/2) ~ -1`. The inverse root then also has
/// `wi^(n/2) ~ -1`, which is what the inverse transform asks of it.
pub proof fn lemma_dft_inverts<R: Ring>(r: &R, a: Seq<R::M>, w: R::M, wi: R::M, ni: R::M)
    requires
        ring_laws(r),
        all_members(r, a),
        r.member(w),
        r.member(wi),
        r.member(ni),
        crate::fft::power_of_two(a.len()),
        r.eqv(r.mul_s(w, wi), r.one_s()),
        r.eqv(r.mul_s(multiple(r, r.one_s(), a.len()), ni), r.one_s()),
        a.len() >= 2 ==> r.eqv(power(r, w, a.len() / 2), minus_one(r)),
    ensures
        a.len() >= 2 ==> r.eqv(power(r, wi, a.len() / 2), minus_one(r)),
        forall|l: int| 0 <= l < a.len() ==> #[trigger] r.eqv(
            r.mul_s(dft(r, dft_all(r, a, w), wi, l as nat), ni),
            a[l],
        ),
{
    lemma_ring_parts(r);
    let n = a.len();
    let kexp = crate::fft::log2(n);
    assert(two_to(kexp) == n);
    let one = r.one_s();
    let zero = r.zero_s();
    let m1 = minus_one(r);
    lemma_sub_closed(r, zero, one);
    // the inverse root is also a half turn
    if n >= 2 {
        let h = n / 2;
        lemma_inverse_commutes(r, w, wi, h);
        lemma_power_product(r, w, wi, h);
        lemma_mul_closed(r, w, wi);
        lemma_power_congruent(r, r.mul_s(w, wi), one, h);
        crate::pow::lemma_power_of_one(r, h);
        lemma_mul_closed(r, w, wi);
        lemma_power_member(r, w, h);
        lemma_power_member(r, wi, h);
        lemma_power_member(r, r.mul_s(w, wi), h);
        lemma_power_member(r, one, h);
        lemma_mul_closed(r, power(r, w, h), power(r, wi, h));
        lemma_sym(r, power(r, r.mul_s(w, wi), h), r.mul_s(power(r, w, h), power(r, wi, h)));
        lemma_trans(r, r.mul_s(power(r, w, h), power(r, wi, h)), power(r, r.mul_s(w, wi), h), power(r, one, h));
        lemma_trans(r, r.mul_s(power(r, w, h), power(r, wi, h)), power(r, one, h), one);
        lemma_refl(r, power(r, wi, h));
        lemma_mul_congruent(r, power(r, w, h), m1, power(r, wi, h), power(r, wi, h));
        lemma_mul_closed(r, m1, power(r, wi, h));
        lemma_sym(r, r.mul_s(power(r, w, h), power(r, wi, h)), r.mul_s(m1, power(r, wi, h)));
        lemma_trans(r, r.mul_s(m1, power(r, wi, h)), r.mul_s(power(r, w, h), power(r, wi, h)), one);
        lemma_inverse_of_minus_one(r, power(r, wi, h));
    }
    assert(kexp >= 1 ==> n >= 2) by {
        if kexp >= 1 {
            assert(two_to(kexp) == 2 * two_to((kexp - 1) as nat));
            crate::fft::lemma_two_to_monotone(0, (kexp - 1) as nat);
        }
    }
    let big_a = dft_all(r, a, w);
    let nn = multiple(r, one, n);
    crate::laws::lemma_multiple_member(r, one, n);
    assert forall|k: int| 0 <= k < n implies #[trigger] r.member(big_a[k]) by {
        lemma_stride_all(a);
        lemma_strided_member(r, a, 0, 1, n, w, k as nat);
    }
    assert forall|l: int| 0 <= l < n implies #[trigger] r.eqv(r.mul_s(dft(r, big_a, wi, l as nat), ni), a[l]) by {
        let ln = l as nat;
        // F(k, j) = (a_j · w^(j·k)) · wi^(k·l)
        let ff = |k: int, j: int| r.mul_s(r.mul_s(a[j], power(r, w, (j * k) as nat)), power(r, wi, (k * l) as nat));
        let outer = strided_term(r, big_a, 0, 1, wi, ln);
        let rows = row_sums(r, ff, n);
        assert forall|k: int, j: int| 0 <= k < n && 0 <= j < n implies #[trigger] r.member(ff(k, j)) by {
            lemma_power_member(r, w, (j * k) as nat);
            lemma_power_member(r, wi, (k * l) as nat);
            lemma_mul_closed(r, a[j], power(r, w, (j * k) as nat));
            lemma_mul_closed(r, r.mul_s(a[j], power(r, w, (j * k) as nat)), power(r, wi, (k * l) as nat));
        }
        assert forall|k: int| 0 <= k < n implies #[trigger] r.member(outer(k)) by {
            lemma_power_member(r, wi, (k * ln) as nat);
            lemma_mul_closed(r, big_a[k], power(r, wi, (k * ln) as nat));
        }
        assert forall|k: int| 0 <= k < n implies #[trigger] r.member(rows(k)) by {
            let fk = |j: int| ff(k, j);
            assert forall|j: int| 0 <= j < n implies #[trigger] r.member(fk(j)) by {
                assert(r.member(ff(k, j)));
            }
            lemma_sum_member(r, fk, n);
        }
        // each outer term: A_k · wi^(k·l) ~ sum_j F(k, j)
        assert forall|k: int| 0 <= k < n implies r.eqv(#[trigger] outer(k), rows(k)) by {
            let inner = strided_term(r, a, 0, 1, w, k as nat);
            let pk = power(r, wi, (k * ln) as nat);
            lemma_stride_all(a);
            lemma_strided_member(r, a, 0, 1, n, w, k as nat);
            lemma_power_member(r, wi, (k * ln) as nat);
            assert(big_a[0 + 1 * k] == big_a[k]);
            assert(big_a[k] == sum_of(r, inner, n));
            lemma_sum_mul_right(r, inner, pk, n);
            assert((|j: int| r.mul_s(inner(j), pk)) =~= (|j: int| ff(k, j)));
        }
        lemma_sum_congruent(r, outer, rows, n);
        lemma_double_sum_swap(r, ff, n, n);
        // for each j: sum_k F(k, j) ~ a_j · kernel
        let cols = row_sums(r, flip(ff), n);
        let dl = |j: int| r.mul_s(a[j], if j == l { nn } else { zero });
        assert forall|j: int| 0 <= j < n implies #[trigger] r.member(cols(j)) by {
            let fj = |k: int| flip(ff)(j, k);
            assert forall|k: int| 0 <= k < n implies #[trigger] r.member(fj(k)) by {
                assert(r.member(ff(k, j)));
            }
            lemma_sum_member(r, fj, n);
        }
        assert forall|j: int| 0 <= j < n implies #[trigger] r.member(dl(j)) by {
            lemma_mul_closed(r, a[j], if j == l { nn } else { zero });
        }
        assert forall|j: int| 0 <= j < n implies r.eqv(#[trigger] cols(j), dl(j)) by {
            let kt = kernel_term(r, w, wi, j, l);
            let fj = |k: int| flip(ff)(j, k);
            let aj = |k: int| r.mul_s(a[j], kt(k));
            assert forall|k: int| 0 <= k < n implies #[trigger] r.member(fj(k)) by {
                assert(r.member(ff(k, j)));
            }
            assert forall|k: int| 0 <= k < n implies #[trigger] r.member(aj(k)) by {
                lemma_power_member(r, w, (j * k) as nat);
                lemma_power_member(r, wi, (k * l) as nat);
                lemma_mul_closed(r, power(r, w, (j * k) as nat), power(r, wi, (k * l) as nat));
                lemma_mul_closed(r, a[j], kt(k));
            }
            assert forall|k: int| 0 <= k < n implies r.eqv(#[trigger] fj(k), aj(k)) by {
                lemma_power_member(r, w, (j * k) as nat);
                lemma_power_member(r, wi, (k * l) as nat);
                lemma_mul_assoc(r, a[j], power(r, w, (j * k) as nat), power(r, wi, (k * l) as nat));
            }
            lemma_sum_congruent(r, fj, aj, n);
            assert forall|k: int| 0 <= k < n implies #[trigger] r.member(kt(k)) by {
                lemma_power_member(r, w, (j * k) as nat);
                lemma_power_member(r, wi, (k * l) as nat);
                lemma_mul_closed(r, power(r, w, (j * k) as nat), power(r, wi, (k * l) as nat));
            }
            lemma_sum_mul_left(r, a[j], kt, n);
            if n >= 2 {
                lemma_inverse_commutes(r, w, wi, n / 2);
            }
            lemma_kernel(r, w, wi, kexp, j as nat, ln);
            assert(kt == kernel_term(r, w, wi, (j as nat) as int, (ln) as int));
            let ks = sum_of(r, kt, n);
            let target = if j == l { nn } else { zero };
            lemma_sum_member(r, kt, n);
            lemma_refl(r, a[j]);
            lemma_mul_congruent(r, a[j], a[j], ks, target);
            lemma_sum_member(r, fj, n);
            lemma_sum_member(r, aj, n);
            lemma_mul_closed(r, a[j], ks);
            lemma_sym(r, r.mul_s(a[j], ks), sum_of(r, aj, n));
            lemma_trans(r, cols(j), sum_of(r, aj, n), r.mul_s(a[j], ks));
            lemma_trans(r, cols(j), r.mul_s(a[j], ks), dl(j));
        }
        lemma_sum_congruent(r, cols, dl, n);
        assert forall|j: int| 0 <= j < n && j != l implies r.eqv(#[trigger] dl(j), zero) by {
            lemma_mul_zero(r, a[j]);
        }
        lemma_sum_single(r, dl, n, l);
        // chain: dft(A, wi, l) ~ a_l · n, and (a_l · n) · ni ~ a_l
        let t = dft(r, big_a, wi, ln);
        assert(t == sum_of(r, outer, n));
        lemma_sum_member(r, outer, n);
        lemma_sum_member(r, rows, n);
        lemma_sum_member(r, cols, n);
        lemma_sum_member(r, dl, n);
        assert(crate::sums::double_sum(r, ff, n, n) == sum_of(r, rows, n));
        assert(crate::sums::double_sum(r, flip(ff), n, n) == sum_of(r, cols, n));
        lemma_trans(r, t, sum_of(r, rows, n), sum_of(r, cols, n));
        lemma_trans(r, t, sum_of(r, cols, n), sum_of(r, dl, n));
        lemma_trans(r, t, sum_of(r, dl, n), dl(l));
        let al = a[l];
        lemma_refl(r, ni);
        lemma_mul_congruent(r, t, r.mul_s(al, nn), ni, ni);
        lemma_mul_assoc(r, al, nn, ni);
        lemma_refl(r, al);
        lemma_mul_closed(r, nn, ni);
        lemma_mul_congruent(r, al, al, r.mul_s(nn, ni), one);
        lemma_mul_one(r, al);
        lemma_mul_closed(r, al, nn);
        lemma_mul_closed(r, nn, ni);
        lemma_mul_closed(r, t, ni);
        lemma_mul_closed(r, r.mul_s(al, nn), ni);
        lemma_mul_closed(r, al, r.mul_s(nn, ni));
        lemma_mul_closed(r, al, one);
        lemma_trans(r, r.mul_s(t, ni), r.mul_s(r.mul_s(al, nn), ni), r.mul_s(al, r.mul_s(nn, ni)));
        lemma_trans(r, r.mul_s(t, ni), r.mul_s(al, r.mul_s(nn, ni)), r.mul_s(al, one));
        lemma_trans(r, r.mul_s(t, ni), r.mul_s(al, one), al);
    }
}

/// Every index of `a` is inside it, read with stride one from zero.
proof fn lemma_stride_all<M>(a: Seq<M>)
    ensures
        stride_inside(a, 0, 1, a.len()),
{
}

/// The transform of equivalent sequences is equivalent.
proof fn lemma_dft_congruent<R: Ring>(r: &R, x: Seq<R::M>, y: Seq<R::M>, w: R::M, k: nat)
    requires
        ring_laws(r),
        all_members(r, x),
        all_members(r, y),
        r.member(w),
        x.len() == y.len(),
        forall|i: int| 0 <= i < x.len() ==> #[trigger] r.eqv(x[i], y[i]),
    ensures
        r.eqv(dft(r, x, w, k), dft(r, y, w, k)),
        r.member(dft(r, x, w, k)),
        r.member(dft(r, y, w, k)),
{
    lemma_ring_parts(r);
    assert(stride_inside(x, 0, 1, x.len()));
    assert(stride_inside(y, 0, 1, y.len()));
    lemma_strided_member(r, x, 0, 1, x.len(), w, k);
    lemma_strided_member(r, y, 0, 1, y.len(), w, k);
    let f = strided_term(r, x, 0, 1, w, k);
    let g = strided_term(r, y, 0, 1, w, k);
    assert forall|m: int| 0 <= m < x.len() implies r.eqv(#[trigger] f(m), g(m)) by {
        assert(0 + 1 * m == m);
        lemma_power_member(r, w, (m * k) as nat);
        lemma_refl(r, power(r, w, (m * k) as nat));
        lemma_mul_congruent(r, x[m], y[m], power(r, w, (m * k) as nat), power(r, w, (m * k) as nat));
    }
    lemma_sum_congruent(r, f, g, x.len());
}

/// Transforming with `w` and then with the inverse root, scaling by the inverse of
/// the length, gives back what was transformed: `b` holds the transform of `a` (as
/// `fft` leaves it) and `c` the scaled transform of `b` with `wi` (as `inverse_fft`
/// leaves it), so `c ~ a`. The conditions are those of `lemma_dft_inverts`.
pub proof fn lemma_transform_round_trip<R: Ring>(
    r: &R,
    a: Seq<R::M>,
    b: Seq<R::M>,
    c: Seq<R::M>,
    w: R::M,
    wi: R::M,
    ni: R::M,
)
    requires
        ring_laws(r),
                all_members(r, a),
        all_members(r, b),
        all_members(r, c),
        r.member(w),
        r.member(wi),
        r.member(ni),
        crate::fft::power_of_two(a.len()),
        r.eqv(r.mul_s(w, wi), r.one_s()),
        r.eqv(r.mul_s(multiple(r, r.one_s(), a.len()), ni), r.one_s()),
        a.len() >= 2 ==> r.eqv(power(r, w, a.len() / 2), minus_one(r)),
        b.len() == a.len(),
        c.len() == a.len(),
        forall|k: int| 0 <= k < a.len() ==> #[trigger] r.eqv(b[k], dft(r, a, w, k as nat)),
        forall|l: int| 0 <= l < a.len() ==> #[trigger] r.eqv(c[l], r.mul_s(dft(r, b, wi, l as nat), ni)),
    ensures
        forall|l: int| 0 <= l < a.len() ==> #[trigger] r.eqv(c[l], a[l]),
{
    lemma_ring_parts(r);
    lemma_dft_inverts(r, a, w, wi, ni);
    let t = dft_all(r, a, w);
    assert(stride_inside(a, 0, 1, a.len()));
    assert forall|k: int| 0 <= k < t.len() implies #[trigger] r.member(t[k]) by {
        lemma_strided_member(r, a, 0, 1, a.len(), w, k as nat);
    }
    assert forall|k: int| 0 <= k < b.len() implies #[trigger] r.eqv(b[k], t[k]) by {
        assert(r.eqv(b[k], dft(r, a, w, k as nat)));
    }
    assert forall|l: int| 0 <= l < a.len() implies #[trigger] r.eqv(c[l], a[l]) by {
        lemma_dft_congruent(r, b, t, wi, l as nat);
        lemma_refl(r, ni);
        lemma_mul_congruent(r, dft(r, b, wi, l as nat), dft(r, t, wi, l as nat), ni, ni);
        lemma_mul_closed(r, dft(r, b, wi, l as nat), ni);
        lemma_mul_closed(r, dft(r, t, wi, l as nat), ni);
        assert(r.eqv(r.mul_s(dft(r, t, wi, l as nat), ni), a[l]));
        assert(r.eqv(c[l], r.mul_s(dft(r, b, wi, l as nat), ni)));
        lemma_trans(r, c[l], r.mul_s(dft(r, b, wi, l as nat), ni), r.mul_s(dft(r, t, wi, l as nat), ni));
        lemma_trans(r, c[l], r.mul_s(dft(r, t, wi, l as nat), ni), a[l]);
    }
}

} // verus!
