//! The value of a polynomial at a point, as the sum of its terms `s[i] · x^i`, and
//! how that value behaves under the operations that build Lagrange bases: sums,
//! scaling, and multiplying by a linear factor `X + c`.

use crate::laws::{
    commutative_laws, lemma_add_closed, lemma_add_congruent, lemma_add_swap_middle,
    lemma_add_swap_right, lemma_add_zero, lemma_distrib, lemma_mul_assoc, lemma_mul_closed,
    lemma_mul_comm, lemma_mul_congruent, lemma_mul_one, lemma_mul_zero, lemma_refl,
    lemma_ring_parts, lemma_sym, lemma_trans, lemma_zero_mul, ring_laws,
};
use crate::polynomials::{
    all_members, coeff, conv, horner, lemma_coeff_member, max_len, poly_add, poly_mul,
    same_coefficients,
};
use crate::pow::{lemma_power_member, power};
use crate::structures::{AdditiveGroup, CommutativeMonoid, Domain, Monoid, Ring, Semigroup};
use vstd::prelude::*;

verus! {

/// `sum_{i < k} s[i] · x^i`, added up in increasing `i` from zero; a missing
/// coefficient counts as zero.
pub open spec fn power_sum<R: Ring>(r: &R, s: Seq<R::M>, x: R::M, k: nat) -> R::M
    decreases k,
{
    if k == 0 {
        r.zero_s()
    } else {
        r.add_s(
            power_sum(r, s, x, (k - 1) as nat),
            r.mul_s(coeff(r, s, k - 1), power(r, x, (k - 1) as nat)),
        )
    }
}

/// `s` moved up one degree: the coefficients of `X · s`.
pub open spec fn shifted<R: Ring>(r: &R, s: Seq<R::M>) -> Seq<R::M> {
    Seq::new(s.len() + 1, |i: int| coeff(r, s, i - 1))
}

/// Every coefficient of `p` multiplied by `c` on the right.
pub open spec fn scaled<R: Ring>(r: &R, p: Seq<R::M>, c: R::M) -> Seq<R::M> {
    Seq::new(p.len(), |i: int| r.mul_s(p[i], c))
}

/// One term `s[i] · x^i` is a member.
proof fn lemma_term_member<R: Ring>(r: &R, s: Seq<R::M>, x: R::M, i: int)
    requires
        ring_laws(r),
        all_members(r, s),
        r.member(x),
        i >= 0,
    ensures
        r.member(coeff(r, s, i)),
        r.member(power(r, x, i as nat)),
        r.member(r.mul_s(coeff(r, s, i), power(r, x, i as nat))),
{
    lemma_ring_parts(r);
    lemma_coeff_member(r, s, i);
    lemma_power_member(r, x, i as nat);
    lemma_mul_closed(r, coeff(r, s, i), power(r, x, i as nat));
}

/// A power sum of members is a member.
pub proof fn lemma_power_sum_member<R: Ring>(r: &R, s: Seq<R::M>, x: R::M, k: nat)
    requires
        ring_laws(r),
        all_members(r, s),
        r.member(x),
    ensures
        r.member(power_sum(r, s, x, k)),
    decreases k,
{
    lemma_ring_parts(r);
    if k > 0 {
        lemma_power_sum_member(r, s, x, (k - 1) as nat);
        lemma_term_member(r, s, x, k - 1);
        lemma_add_closed(
            r,
            power_sum(r, s, x, (k - 1) as nat),
            r.mul_s(coeff(r, s, k - 1), power(r, x, (k - 1) as nat)),
        );
    }
}

/// Equal coefficients below `k` give equal power sums.
pub proof fn lemma_power_sum_congruent<R: Ring>(r: &R, a: Seq<R::M>, b: Seq<R::M>, x: R::M, k: nat)
    requires
        ring_laws(r),
        all_members(r, a),
        all_members(r, b),
        r.member(x),
        forall|i: int| 0 <= i < k ==> #[trigger] r.eqv(coeff(r, a, i), coeff(r, b, i)),
    ensures
        r.eqv(power_sum(r, a, x, k), power_sum(r, b, x, k)),
    decreases k,
{
    lemma_ring_parts(r);
    if k == 0 {
        lemma_refl(r, r.zero_s());
    } else {
        let i = k - 1;
        let p = power(r, x, i as nat);
        lemma_power_sum_congruent(r, a, b, x, (k - 1) as nat);
        lemma_power_sum_member(r, a, x, (k - 1) as nat);
        lemma_power_sum_member(r, b, x, (k - 1) as nat);
        lemma_term_member(r, a, x, i);
        lemma_term_member(r, b, x, i);
        lemma_refl(r, p);
        assert(r.eqv(coeff(r, a, i), coeff(r, b, i)));
        lemma_mul_congruent(r, coeff(r, a, i), coeff(r, b, i), p, p);
        lemma_add_congruent(
            r,
            power_sum(r, a, x, (k - 1) as nat),
            power_sum(r, b, x, (k - 1) as nat),
            r.mul_s(coeff(r, a, i), p),
            r.mul_s(coeff(r, b, i), p),
        );
    }
}

/// Terms past the last coefficient add nothing.
pub proof fn lemma_power_sum_tail<R: Ring>(r: &R, s: Seq<R::M>, x: R::M, k: nat)
    requires
        ring_laws(r),
        all_members(r, s),
        r.member(x),
        s.len() <= k,
    ensures
        r.eqv(power_sum(r, s, x, k), power_sum(r, s, x, s.len())),
    decreases k,
{
    lemma_ring_parts(r);
    lemma_power_sum_member(r, s, x, k);
    if k == s.len() {
        lemma_refl(r, power_sum(r, s, x, k));
    } else {
        let prev = power_sum(r, s, x, (k - 1) as nat);
        let p = power(r, x, (k - 1) as nat);
        let z = r.zero_s();
        lemma_power_sum_tail(r, s, x, (k - 1) as nat);
        lemma_power_sum_member(r, s, x, (k - 1) as nat);
        lemma_power_sum_member(r, s, x, s.len());
        lemma_term_member(r, s, x, k - 1);
        assert(coeff(r, s, k - 1) == z);
        lemma_zero_mul(r, p);
        lemma_refl(r, prev);
        lemma_add_congruent(r, prev, prev, r.mul_s(z, p), z);
        lemma_add_zero(r, prev);
        lemma_add_closed(r, prev, z);
        lemma_trans(r, power_sum(r, s, x, k), r.add_s(prev, z), prev);
        lemma_trans(r, power_sum(r, s, x, k), prev, power_sum(r, s, x, s.len()));
    }
}

/// The power sum of a sum is the sum of the power sums.
pub proof fn lemma_power_sum_add<R: Ring>(r: &R, a: Seq<R::M>, b: Seq<R::M>, x: R::M, k: nat)
    requires
        ring_laws(r),
        all_members(r, a),
        all_members(r, b),
        r.member(x),
    ensures
        r.eqv(power_sum(r, poly_add(r, a, b), x, k), r.add_s(power_sum(r, a, x, k), power_sum(r, b, x, k))),
        all_members(r, poly_add(r, a, b)),
    decreases k,
{
    lemma_ring_parts(r);
    let s = poly_add(r, a, b);
    assert forall|i: int| 0 <= i < s.len() implies #[trigger] r.member(s[i]) by {
        lemma_coeff_member(r, a, i);
        lemma_coeff_member(r, b, i);
        lemma_add_closed(r, coeff(r, a, i), coeff(r, b, i));
    }
    if k == 0 {
        lemma_add_zero(r, r.zero_s());
        lemma_add_closed(r, r.zero_s(), r.zero_s());
        lemma_sym(r, r.add_s(r.zero_s(), r.zero_s()), r.zero_s());
    } else {
        let i = k - 1;
        let p = power(r, x, i as nat);
        let z = r.zero_s();
        let sa = power_sum(r, a, x, (k - 1) as nat);
        let sb = power_sum(r, b, x, (k - 1) as nat);
        let ss = power_sum(r, s, x, (k - 1) as nat);
        let ta = r.mul_s(coeff(r, a, i), p);
        let tb = r.mul_s(coeff(r, b, i), p);
        let ts = r.mul_s(coeff(r, s, i), p);
        lemma_power_sum_add(r, a, b, x, (k - 1) as nat);
        lemma_power_sum_member(r, a, x, (k - 1) as nat);
        lemma_power_sum_member(r, b, x, (k - 1) as nat);
        lemma_power_sum_member(r, s, x, (k - 1) as nat);
        lemma_term_member(r, a, x, i);
        lemma_term_member(r, b, x, i);
        lemma_term_member(r, s, x, i);
        lemma_add_closed(r, sa, sb);
        lemma_add_closed(r, ta, tb);
        // the new term splits: ts ~ ta + tb
        if i < max_len(a.len(), b.len()) {
            lemma_distrib(r, coeff(r, a, i), coeff(r, b, i), p);
        } else {
            lemma_zero_mul(r, p);
            lemma_add_congruent(r, ta, z, tb, z);
            lemma_add_zero(r, z);
            lemma_add_closed(r, z, z);
            lemma_trans(r, r.add_s(ta, tb), r.add_s(z, z), z);
            lemma_sym(r, r.add_s(ta, tb), z);
            lemma_trans(r, ts, z, r.add_s(ta, tb));
        }
        lemma_add_congruent(r, ss, r.add_s(sa, sb), ts, r.add_s(ta, tb));
        lemma_add_swap_middle(r, sa, sb, ta, tb);
        lemma_add_closed(r, ss, ts);
        lemma_add_closed(r, r.add_s(sa, sb), r.add_s(ta, tb));
        lemma_add_closed(r, sa, ta);
        lemma_add_closed(r, sb, tb);
        lemma_add_closed(r, r.add_s(sa, ta), r.add_s(sb, tb));
        lemma_trans(
            r,
            r.add_s(ss, ts),
            r.add_s(r.add_s(sa, sb), r.add_s(ta, tb)),
            r.add_s(r.add_s(sa, ta), r.add_s(sb, tb)),
        );
    }
}

/// Moving up one degree multiplies the value by `x`.
pub proof fn lemma_power_sum_shift<R: Ring>(r: &R, p: Seq<R::M>, x: R::M, k: nat)
    requires
        ring_laws(r),
        all_members(r, p),
        r.member(x),
    ensures
        r.eqv(power_sum(r, shifted(r, p), x, k + 1), r.mul_s(power_sum(r, p, x, k), x)),
        all_members(r, shifted(r, p)),
    decreases k,
{
    lemma_ring_parts(r);
    let sh = shifted(r, p);
    let z = r.zero_s();
    assert forall|i: int| 0 <= i < sh.len() implies #[trigger] r.member(sh[i]) by {
        lemma_coeff_member(r, p, i - 1);
    }
    assert forall|i: int| i >= 0 implies #[trigger] coeff(r, sh, i) == coeff(r, p, i - 1) by {
    }
    if k == 0 {
        let one = r.one_s();
        assert(coeff(r, sh, 0) == z);
        assert(power(r, x, 0) == one);
        lemma_zero_mul(r, one);
        lemma_refl(r, z);
        lemma_mul_closed(r, z, one);
        lemma_power_sum_member(r, sh, x, 1);
        assert(power_sum(r, sh, x, 0) == z);
        lemma_add_congruent(r, z, z, r.mul_s(z, one), z);
        lemma_add_zero(r, z);
        lemma_mul_closed(r, z, one);
        lemma_add_closed(r, z, r.mul_s(z, one));
        lemma_add_closed(r, z, z);
        lemma_trans(r, power_sum(r, sh, x, 1), r.add_s(z, z), z);
        lemma_zero_mul(r, x);
        lemma_mul_closed(r, z, x);
        lemma_sym(r, r.mul_s(z, x), z);
        lemma_trans(r, power_sum(r, sh, x, 1), z, r.mul_s(z, x));
    } else {
        let c = coeff(r, p, k - 1);
        let q = power(r, x, (k - 1) as nat);
        let sp = power_sum(r, p, x, (k - 1) as nat);
        let ssh = power_sum(r, sh, x, k);
        lemma_power_sum_shift(r, p, x, (k - 1) as nat);
        assert(coeff(r, sh, k as int) == c);
        assert(power(r, x, k) == r.mul_s(q, x));
        lemma_power_sum_member(r, p, x, (k - 1) as nat);
        lemma_power_sum_member(r, sh, x, k);
        lemma_term_member(r, p, x, k - 1);
        lemma_mul_closed(r, q, x);
        lemma_mul_closed(r, c, r.mul_s(q, x));
        lemma_mul_closed(r, r.mul_s(c, q), x);
        lemma_mul_closed(r, sp, x);
        // c · (q · x) ~ (c · q) · x
        lemma_mul_assoc(r, c, q, x);
        lemma_sym(r, r.mul_s(r.mul_s(c, q), x), r.mul_s(c, r.mul_s(q, x)));
        lemma_add_congruent(r, ssh, r.mul_s(sp, x), r.mul_s(c, r.mul_s(q, x)), r.mul_s(r.mul_s(c, q), x));
        // sp · x + (c · q) · x ~ (sp + c · q) · x
        lemma_distrib(r, sp, r.mul_s(c, q), x);
        lemma_add_closed(r, sp, r.mul_s(c, q));
        lemma_mul_closed(r, r.add_s(sp, r.mul_s(c, q)), x);
        lemma_add_closed(r, r.mul_s(sp, x), r.mul_s(r.mul_s(c, q), x));
        lemma_add_closed(r, ssh, r.mul_s(c, r.mul_s(q, x)));
        lemma_sym(r, r.mul_s(r.add_s(sp, r.mul_s(c, q)), x), r.add_s(r.mul_s(sp, x), r.mul_s(r.mul_s(c, q), x)));
        lemma_trans(
            r,
            r.add_s(ssh, r.mul_s(c, r.mul_s(q, x))),
            r.add_s(r.mul_s(sp, x), r.mul_s(r.mul_s(c, q), x)),
            r.mul_s(r.add_s(sp, r.mul_s(c, q)), x),
        );
    }
}

/// Power sums of two lists that agree past the constant term differ by their constant
/// terms, when the second list's constant term is zero.
proof fn lemma_power_sum_constant<R: Ring>(r: &R, a: Seq<R::M>, b: Seq<R::M>, x: R::M, k: nat)
    requires
        ring_laws(r),
        all_members(r, a),
        all_members(r, b),
        r.member(x),
        k >= 1,
        r.eqv(coeff(r, b, 0), r.zero_s()),
        forall|i: int| 1 <= i < k ==> #[trigger] r.eqv(coeff(r, a, i), coeff(r, b, i)),
    ensures
        r.eqv(power_sum(r, a, x, k), r.add_s(power_sum(r, b, x, k), coeff(r, a, 0))),
    decreases k,
{
    lemma_ring_parts(r);
    let z = r.zero_s();
    let a0 = coeff(r, a, 0);
    lemma_coeff_member(r, a, 0);
    lemma_coeff_member(r, b, 0);
    if k == 1 {
        let one = r.one_s();
        let b0 = coeff(r, b, 0);
        assert(power(r, x, 0) == one);
        assert(power_sum(r, a, x, 0) == z);
        assert(power_sum(r, b, x, 0) == z);
        assert(power_sum(r, a, x, 1) == r.add_s(z, r.mul_s(a0, one)));
        assert(power_sum(r, b, x, 1) == r.add_s(z, r.mul_s(b0, one)));
        lemma_mul_one(r, a0);
        lemma_mul_one(r, b0);
        lemma_mul_closed(r, a0, one);
        lemma_mul_closed(r, b0, one);
        lemma_add_zero(r, r.mul_s(a0, one));
        lemma_add_closed(r, z, r.mul_s(a0, one));
        lemma_trans(r, r.add_s(z, r.mul_s(a0, one)), r.mul_s(a0, one), a0);
        // the b side is zero
        lemma_trans(r, r.mul_s(b0, one), b0, z);
        lemma_refl(r, z);
        lemma_add_congruent(r, z, z, r.mul_s(b0, one), z);
        lemma_add_zero(r, z);
        lemma_add_closed(r, z, r.mul_s(b0, one));
        lemma_add_closed(r, z, z);
        lemma_trans(r, r.add_s(z, r.mul_s(b0, one)), r.add_s(z, z), z);
        lemma_refl(r, a0);
        lemma_add_congruent(r, r.add_s(z, r.mul_s(b0, one)), z, a0, a0);
        lemma_add_closed(r, r.add_s(z, r.mul_s(b0, one)), a0);
        lemma_add_closed(r, z, a0);
        lemma_add_zero(r, a0);
        lemma_trans(r, r.add_s(r.add_s(z, r.mul_s(b0, one)), a0), r.add_s(z, a0), a0);
        lemma_sym(r, r.add_s(r.add_s(z, r.mul_s(b0, one)), a0), a0);
        lemma_trans(r, power_sum(r, a, x, 1), a0, r.add_s(power_sum(r, b, x, 1), a0));
    } else {
        let i = k - 1;
        let p = power(r, x, i as nat);
        let sa = power_sum(r, a, x, (k - 1) as nat);
        let sb = power_sum(r, b, x, (k - 1) as nat);
        let ta = r.mul_s(coeff(r, a, i), p);
        let tb = r.mul_s(coeff(r, b, i), p);
        lemma_power_sum_constant(r, a, b, x, (k - 1) as nat);
        lemma_power_sum_member(r, a, x, (k - 1) as nat);
        lemma_power_sum_member(r, b, x, (k - 1) as nat);
        lemma_term_member(r, a, x, i);
        lemma_term_member(r, b, x, i);
        lemma_refl(r, p);
        assert(r.eqv(coeff(r, a, i), coeff(r, b, i)));
        lemma_mul_congruent(r, coeff(r, a, i), coeff(r, b, i), p, p);
        lemma_add_closed(r, sb, a0);
        lemma_add_congruent(r, sa, r.add_s(sb, a0), ta, tb);
        lemma_add_swap_right(r, sb, a0, tb);
        lemma_add_closed(r, sa, ta);
        lemma_add_closed(r, r.add_s(sb, a0), tb);
        lemma_add_closed(r, sb, tb);
        lemma_add_closed(r, r.add_s(sb, tb), a0);
        lemma_trans(r, r.add_s(sa, ta), r.add_s(r.add_s(sb, a0), tb), r.add_s(r.add_s(sb, tb), a0));
    }
}

/// Horner's rule computes the power sum.
pub proof fn lemma_horner_power_sum<R: Ring>(r: &R, s: Seq<R::M>, x: R::M)
    requires
        ring_laws(r),
        all_members(r, s),
        r.member(x),
    ensures
        r.eqv(horner(r, s, x), power_sum(r, s, x, s.len())),
    decreases s.len(),
{
    lemma_ring_parts(r);
    if s.len() == 0 {
        lemma_refl(r, r.zero_s());
    } else {
        let n = s.len();
        let t = s.subrange(1, n as int);
        let sh = shifted(r, t);
        assert(all_members(r, t));
        lemma_horner_power_sum(r, t, x);
        crate::polynomials::lemma_horner_member(r, t, x);
        lemma_power_sum_member(r, t, x, (n - 1) as nat);
        lemma_power_sum_shift(r, t, x, (n - 1) as nat);
        lemma_power_sum_member(r, sh, x, n);
        lemma_power_sum_member(r, s, x, n);
        let ht = horner(r, t, x);
        let st = power_sum(r, t, x, (n - 1) as nat);
        lemma_refl(r, x);
        lemma_refl(r, s[0]);
        lemma_mul_congruent(r, ht, st, x, x);
        lemma_mul_closed(r, ht, x);
        lemma_mul_closed(r, st, x);
        lemma_sym(r, power_sum(r, sh, x, n), r.mul_s(st, x));
        lemma_trans(r, r.mul_s(ht, x), r.mul_s(st, x), power_sum(r, sh, x, n));
        lemma_add_congruent(r, r.mul_s(ht, x), power_sum(r, sh, x, n), s[0], s[0]);
        // the power sum of s splits off its constant term
        assert(coeff(r, sh, 0) == r.zero_s());
        lemma_refl(r, r.zero_s());
        assert forall|i: int| 1 <= i < n implies #[trigger] r.eqv(coeff(r, s, i), coeff(r, sh, i)) by {
            assert(coeff(r, sh, i) == t[i - 1]);
            lemma_refl(r, s[i]);
        }
        lemma_power_sum_constant(r, s, sh, x, n);
        assert(coeff(r, s, 0) == s[0]);
        lemma_add_closed(r, r.mul_s(ht, x), s[0]);
        lemma_add_closed(r, power_sum(r, sh, x, n), s[0]);
        lemma_sym(r, power_sum(r, s, x, n), r.add_s(power_sum(r, sh, x, n), s[0]));
        lemma_trans(r, horner(r, s, x), r.add_s(power_sum(r, sh, x, n), s[0]), power_sum(r, s, x, n));
    }
}

/// Scaling every coefficient by `y` scales the value by `y`, in a commutative ring.
pub proof fn lemma_power_sum_scaled<R: Ring>(r: &R, a: Seq<R::M>, y: R::M, x: R::M, k: nat)
    requires
        ring_laws(r),
        commutative_laws(r),
        all_members(r, a),
        r.member(y),
        r.member(x),
    ensures
        r.eqv(power_sum(r, scaled(r, a, y), x, k), r.mul_s(power_sum(r, a, x, k), y)),
        all_members(r, scaled(r, a, y)),
    decreases k,
{
    lemma_ring_parts(r);
    let sc = scaled(r, a, y);
    let z = r.zero_s();
    assert forall|i: int| 0 <= i < sc.len() implies #[trigger] r.member(sc[i]) by {
        lemma_mul_closed(r, a[i], y);
    }
    if k == 0 {
        lemma_zero_mul(r, y);
        lemma_mul_closed(r, z, y);
        lemma_sym(r, r.mul_s(z, y), z);
    } else {
        let i = k - 1;
        let p = power(r, x, i as nat);
        let c = coeff(r, a, i);
        let s1 = power_sum(r, sc, x, (k - 1) as nat);
        let s2 = power_sum(r, a, x, (k - 1) as nat);
        lemma_power_sum_scaled(r, a, y, x, (k - 1) as nat);
        lemma_power_sum_member(r, sc, x, (k - 1) as nat);
        lemma_power_sum_member(r, a, x, (k - 1) as nat);
        lemma_term_member(r, a, x, i);
        lemma_term_member(r, sc, x, i);
        let tsc = r.mul_s(coeff(r, sc, i), p);
        let ta = r.mul_s(c, p);
        lemma_mul_closed(r, ta, y);
        // tsc ~ ta · y
        if i < a.len() {
            assert(coeff(r, sc, i) == r.mul_s(c, y));
            lemma_mul_assoc(r, c, y, p);
            lemma_mul_comm(r, y, p);
            lemma_refl(r, c);
            lemma_mul_closed(r, y, p);
            lemma_mul_closed(r, p, y);
            lemma_mul_congruent(r, c, c, r.mul_s(y, p), r.mul_s(p, y));
            lemma_mul_assoc(r, c, p, y);
            lemma_mul_closed(r, c, r.mul_s(y, p));
            lemma_mul_closed(r, c, r.mul_s(p, y));
            lemma_sym(r, r.mul_s(ta, y), r.mul_s(c, r.mul_s(p, y)));
            lemma_trans(r, tsc, r.mul_s(c, r.mul_s(y, p)), r.mul_s(c, r.mul_s(p, y)));
            lemma_trans(r, tsc, r.mul_s(c, r.mul_s(p, y)), r.mul_s(ta, y));
        } else {
            assert(coeff(r, sc, i) == z);
            assert(c == z);
            lemma_zero_mul(r, p);
            lemma_refl(r, y);
            lemma_mul_congruent(r, ta, z, y, y);
            lemma_zero_mul(r, y);
            lemma_mul_closed(r, z, y);
            lemma_trans(r, r.mul_s(ta, y), r.mul_s(z, y), z);
            lemma_sym(r, r.mul_s(ta, y), z);
            lemma_trans(r, tsc, z, r.mul_s(ta, y));
        }
        lemma_mul_closed(r, s2, y);
        lemma_add_congruent(r, s1, r.mul_s(s2, y), tsc, r.mul_s(ta, y));
        lemma_distrib(r, s2, ta, y);
        lemma_add_closed(r, s2, ta);
        lemma_mul_closed(r, r.add_s(s2, ta), y);
        lemma_add_closed(r, r.mul_s(s2, y), r.mul_s(ta, y));
        lemma_add_closed(r, s1, tsc);
        lemma_sym(r, r.mul_s(r.add_s(s2, ta), y), r.add_s(r.mul_s(s2, y), r.mul_s(ta, y)));
        lemma_trans(r, r.add_s(s1, tsc), r.add_s(r.mul_s(s2, y), r.mul_s(ta, y)), r.mul_s(r.add_s(s2, ta), y));
    }
}

/// The partial sums of the product with the linear factor `c0 + X`: the coefficient
/// of `X^i` gathers `p[i-1] · 1` and `p[i] · c0`, for the indices below `t`.
proof fn lemma_conv_linear<R: Ring>(r: &R, p: Seq<R::M>, c0: R::M, i: int, t: nat)
    requires
        ring_laws(r),
        all_members(r, p),
        r.member(c0),
        t <= p.len(),
    ensures
        r.eqv(
            conv(r, p, seq![c0, r.one_s()], i, t),
            r.add_s(
                (if 0 <= i - 1 < t { coeff(r, p, i - 1) } else { r.zero_s() }),
                (if 0 <= i < t { r.mul_s(coeff(r, p, i), c0) } else { r.zero_s() }),
            ),
        ),
        r.member(conv(r, p, seq![c0, r.one_s()], i, t)),
    decreases t,
{
    lemma_ring_parts(r);
    let f = seq![c0, r.one_s()];
    let z = r.zero_s();
    let g1 = if 0 <= i - 1 < t { coeff(r, p, i - 1) } else { z };
    let g2 = if 0 <= i < t { r.mul_s(coeff(r, p, i), c0) } else { z };
    lemma_coeff_member(r, p, i - 1);
    lemma_coeff_member(r, p, i);
    lemma_mul_closed(r, coeff(r, p, i), c0);
    lemma_add_closed(r, g1, g2);
    assert(all_members(r, f));
    crate::polynomials::lemma_conv_member(r, p, f, i, t);
    if t == 0 {
        lemma_add_zero(r, z);
        lemma_sym(r, r.add_s(z, z), z);
    } else {
        let j = t - 1;
        let prev = conv(r, p, f, i, (t - 1) as nat);
        let h1 = if 0 <= i - 1 < t - 1 { coeff(r, p, i - 1) } else { z };
        let h2 = if 0 <= i < t - 1 { r.mul_s(coeff(r, p, i), c0) } else { z };
        lemma_conv_linear(r, p, c0, i, (t - 1) as nat);
        lemma_add_closed(r, h1, h2);
        lemma_coeff_member(r, p, j);
        if i - j == 1 {
            // the new term is p[i-1] · 1
            let term = r.mul_s(coeff(r, p, j), r.one_s());
            assert(f[i - j] == r.one_s());
            assert(conv(r, p, f, i, t) == r.add_s(prev, term));
            assert(h1 == z && h2 == z && g2 == z && g1 == coeff(r, p, j));
            lemma_mul_one(r, coeff(r, p, j));
            lemma_mul_closed(r, coeff(r, p, j), r.one_s());
            lemma_add_zero(r, z);
            lemma_add_closed(r, z, z);
            lemma_trans(r, prev, r.add_s(z, z), z);
            lemma_add_congruent(r, prev, z, term, coeff(r, p, j));
            lemma_add_zero(r, coeff(r, p, j));
            lemma_add_closed(r, prev, term);
            lemma_add_closed(r, z, coeff(r, p, j));
            lemma_trans(r, r.add_s(prev, term), r.add_s(z, coeff(r, p, j)), coeff(r, p, j));
            lemma_add_closed(r, coeff(r, p, j), z);
            lemma_sym(r, r.add_s(coeff(r, p, j), z), coeff(r, p, j));
            lemma_trans(r, r.add_s(prev, term), coeff(r, p, j), r.add_s(coeff(r, p, j), z));
        } else if i - j == 0 {
            // the new term is p[i] · c0
            let term = r.mul_s(coeff(r, p, j), c0);
            assert(f[i - j] == c0);
            assert(conv(r, p, f, i, t) == r.add_s(prev, term));
            assert(h1 == g1 && h2 == z && g2 == term);
            lemma_add_zero(r, h1);
            lemma_trans(r, prev, r.add_s(h1, z), h1);
            lemma_refl(r, term);
            lemma_add_congruent(r, prev, h1, term, term);
        } else {
            assert(conv(r, p, f, i, t) == prev);
            assert(h1 == g1 && h2 == g2);
        }
    }
}

/// Multiplying by the linear factor `c0 + X` multiplies the value by `x + c0`, in a
/// commutative ring.
pub proof fn lemma_power_sum_linear_factor<R: Ring>(r: &R, p: Seq<R::M>, c0: R::M, x: R::M, k: nat)
    requires
        ring_laws(r),
        commutative_laws(r),
        all_members(r, p),
        p.len() > 0,
        r.member(c0),
        r.member(x),
        p.len() + 1 <= k,
    ensures
        r.eqv(
            power_sum(r, poly_mul(r, p, seq![c0, r.one_s()]), x, k),
            r.mul_s(power_sum(r, p, x, k), r.add_s(x, c0)),
        ),
        all_members(r, poly_mul(r, p, seq![c0, r.one_s()])),
{
    lemma_ring_parts(r);
    let f = seq![c0, r.one_s()];
    let q = poly_mul(r, p, f);
    let sh = shifted(r, p);
    let sc = scaled(r, p, c0);
    let s = poly_add(r, sh, sc);
    let z = r.zero_s();
    let n = p.len();
    lemma_power_sum_shift(r, p, x, (k - 1) as nat);
    lemma_power_sum_scaled(r, p, c0, x, k);
    lemma_power_sum_add(r, sh, sc, x, k);
    assert forall|i: int| 0 <= i < q.len() implies #[trigger] r.member(q[i]) by {
        lemma_conv_linear(r, p, c0, i, n);
    }
    // q and sh + sc have the same coefficients
    assert forall|i: int| 0 <= i < k implies #[trigger] r.eqv(coeff(r, q, i), coeff(r, s, i)) by {
        lemma_coeff_member(r, p, i - 1);
        lemma_coeff_member(r, p, i);
        if i < n + 1 {
            lemma_conv_linear(r, p, c0, i, n);
            assert(coeff(r, q, i) == conv(r, p, f, i, n));
            assert(coeff(r, sh, i) == coeff(r, p, i - 1));
            if i < n {
                assert(coeff(r, sc, i) == r.mul_s(coeff(r, p, i), c0));
            } else {
                assert(coeff(r, sc, i) == z);
            }
            assert(coeff(r, s, i) == r.add_s(coeff(r, sh, i), coeff(r, sc, i)));
        } else {
            assert(coeff(r, q, i) == z);
            assert(coeff(r, s, i) == z);
            lemma_refl(r, z);
        }
    }
    lemma_power_sum_congruent(r, q, s, x, k);
    let sp = power_sum(r, p, x, k);
    let sp1 = power_sum(r, p, x, (k - 1) as nat);
    lemma_power_sum_member(r, p, x, k);
    lemma_power_sum_member(r, p, x, (k - 1) as nat);
    lemma_power_sum_member(r, sh, x, k);
    lemma_power_sum_member(r, sc, x, k);
    lemma_power_sum_member(r, q, x, k);
    lemma_power_sum_member(r, s, x, k);
    // sp1 ~ sp: the terms past p's end add nothing
    lemma_power_sum_tail(r, p, x, (k - 1) as nat);
    lemma_power_sum_tail(r, p, x, k);
    lemma_power_sum_member(r, p, x, n);
    lemma_sym(r, sp, power_sum(r, p, x, n));
    lemma_trans(r, sp1, power_sum(r, p, x, n), sp);
    lemma_refl(r, x);
    lemma_mul_congruent(r, sp1, sp, x, x);
    lemma_mul_closed(r, sp1, x);
    lemma_mul_closed(r, sp, x);
    lemma_trans(r, power_sum(r, sh, x, k), r.mul_s(sp1, x), r.mul_s(sp, x));
    // value: q ~ sh + sc ~ sp·x + sp·c0 ~ sp·(x + c0)
    lemma_mul_closed(r, sp, c0);
    lemma_add_congruent(r, power_sum(r, sh, x, k), r.mul_s(sp, x), power_sum(r, sc, x, k), r.mul_s(sp, c0));
    lemma_add_closed(r, power_sum(r, sh, x, k), power_sum(r, sc, x, k));
    lemma_add_closed(r, r.mul_s(sp, x), r.mul_s(sp, c0));
    lemma_trans(
        r,
        power_sum(r, s, x, k),
        r.add_s(power_sum(r, sh, x, k), power_sum(r, sc, x, k)),
        r.add_s(r.mul_s(sp, x), r.mul_s(sp, c0)),
    );
    lemma_distrib(r, sp, x, c0);
    lemma_add_closed(r, x, c0);
    lemma_mul_closed(r, sp, r.add_s(x, c0));
    lemma_sym(r, r.mul_s(sp, r.add_s(x, c0)), r.add_s(r.mul_s(sp, x), r.mul_s(sp, c0)));
    lemma_trans(r, power_sum(r, s, x, k), r.add_s(r.mul_s(sp, x), r.mul_s(sp, c0)), r.mul_s(sp, r.add_s(x, c0)));
    lemma_trans(r, power_sum(r, q, x, k), power_sum(r, s, x, k), r.mul_s(sp, r.add_s(x, c0)));
}

/// Polynomials with the same coefficients take the same value everywhere.
pub proof fn lemma_horner_congruent<R: Ring>(r: &R, a: Seq<R::M>, b: Seq<R::M>, x: R::M)
    requires
        ring_laws(r),
        all_members(r, a),
        all_members(r, b),
        r.member(x),
        same_coefficients(r, a, b),
    ensures
        r.eqv(horner(r, a, x), horner(r, b, x)),
{
    lemma_ring_parts(r);
    let k = max_len(a.len(), b.len());
    lemma_horner_power_sum(r, a, x);
    lemma_horner_power_sum(r, b, x);
    crate::polynomials::lemma_horner_member(r, a, x);
    crate::polynomials::lemma_horner_member(r, b, x);
    lemma_power_sum_tail(r, a, x, k);
    lemma_power_sum_tail(r, b, x, k);
    assert forall|i: int| 0 <= i < k implies #[trigger] r.eqv(coeff(r, a, i), coeff(r, b, i)) by {
    }
    lemma_power_sum_congruent(r, a, b, x, k);
    lemma_power_sum_member(r, a, x, k);
    lemma_power_sum_member(r, b, x, k);
    lemma_power_sum_member(r, a, x, a.len());
    lemma_power_sum_member(r, b, x, b.len());
    lemma_sym(r, power_sum(r, a, x, k), power_sum(r, a, x, a.len()));
    lemma_trans(r, horner(r, a, x), power_sum(r, a, x, a.len()), power_sum(r, a, x, k));
    lemma_trans(r, horner(r, a, x), power_sum(r, a, x, k), power_sum(r, b, x, k));
    lemma_trans(r, horner(r, a, x), power_sum(r, b, x, k), power_sum(r, b, x, b.len()));
    lemma_sym(r, horner(r, b, x), power_sum(r, b, x, b.len()));
    lemma_trans(r, horner(r, a, x), power_sum(r, b, x, b.len()), horner(r, b, x));
}

} // verus!
