//! What a constructive real's approximations promise: every approximation `a` that
//! `get_appr(p)` returns satisfies `|a · 2^p − value| < 2^p`, for each real value the
//! expression denotes.

use crate::constructive_reals::{
    ConstructiveReals, appr, bit_length, compare_fits, compare_from, doubled, fits, larger_precision, lemma_bit_length,
    msd_at, order_at, root, Term,
};
use std::cmp::Ordering;
use crate::fixed_point::{is_root, scaled};
use crate::integers::abs;
use crate::laws::{
    additive_laws, commutative_laws, equivalence, group_laws, monoid_laws, ring_laws, semigroup_laws,
};
use crate::structures::{CommutativeMonoid, Domain, Semigroup};
use vstd::arithmetic::div_mod::{lemma_fundamental_div_mod, lemma_mod_bound};
use vstd::arithmetic::power2::{lemma_pow2_pos, lemma_pow2_unfold, pow2};
use vstd::prelude::*;

verus! {

/// `2^k` for any integer `k`.
pub open spec fn pow2_real(k: int) -> real
    decreases (if k >= 0 { k } else { -k }),
{
    if k == 0 {
        1real
    } else if k > 0 {
        2real * pow2_real(k - 1)
    } else {
        pow2_real(k + 1) / 2real
    }
}

/// `r` is the non-negative square root of `y`.
pub open spec fn is_sqrt(y: real, r: real) -> bool {
    0real <= r && r * r == y
}

/// The non-negative square root of `y`, where `y` has one.
pub open spec fn sqrt_real(y: real) -> real {
    choose|r: real| is_sqrt(y, r)
}

/// `y` has a non-negative real square root.
pub open spec fn has_root(y: real) -> bool {
    exists|r: real| is_sqrt(y, r)
}

/// The real number `x` stands for.
pub open spec fn value(x: Term) -> real
    decreases x,
{
    match x {
        Term::Int(n) => n as real,
        Term::Add(a, b) => value(*a) + value(*b),
        Term::Neg(a) => 0real - value(*a),
        Term::Shift(a, c) => value(*a) * pow2_real(c),
        Term::Mul(a, b) => value(*a) * value(*b),
        Term::Sqrt(a) => sqrt_real(value(*a)),
    }
}

/// Every square root in `x` is taken of a value that has one.
pub open spec fn defined(x: Term) -> bool
    decreases x,
{
    match x {
        Term::Int(n) => true,
        Term::Add(a, b) => defined(*a) && defined(*b),
        Term::Neg(a) => defined(*a),
        Term::Shift(a, c) => defined(*a),
        Term::Mul(a, b) => defined(*a) && defined(*b),
        Term::Sqrt(a) => defined(*a) && has_root(value(*a)),
    }
}

/// `a · 2^p` is within `2^p` of `v`.
pub open spec fn within(a: int, p: int, v: real) -> bool {
    &&& (a as real - 1real) * pow2_real(p) < v
    &&& v < (a as real + 1real) * pow2_real(p)
}

/// `a` approximates `x` at precision `p`: `|a · 2^p − value(x)| < 2^p`.
pub open spec fn approximates(x: Term, p: int, a: int) -> bool {
    within(a, p, value(x))
}

proof fn lemma_pow2_real_step(k: int)
    ensures
        pow2_real(k + 1) == 2real * pow2_real(k),
        pow2_real(k) > 0real,
    decreases (if k >= 0 { k } else { -k }),
{
    if k > 0 {
        lemma_pow2_real_step(k - 1);
    } else if k < 0 {
        lemma_pow2_real_step(k + 1);
    }
}

/// `2^(a + b) = 2^a · 2^b`.
proof fn lemma_pow2_real_adds(a: int, b: int)
    ensures
        pow2_real(a + b) == pow2_real(a) * pow2_real(b),
        pow2_real(a) > 0real,
    decreases (if b >= 0 { b } else { -b }),
{
    lemma_pow2_real_step(a);
    if b > 0 {
        lemma_pow2_real_adds(a, b - 1);
        lemma_pow2_real_step(a + b - 1);
        lemma_pow2_real_step(b - 1);
        assert(pow2_real(a) * (2real * pow2_real(b - 1)) == 2real * (pow2_real(a) * pow2_real(b - 1))) by (nonlinear_arith);
    } else if b < 0 {
        lemma_pow2_real_adds(a, b + 1);
        lemma_pow2_real_step(a + b);
        lemma_pow2_real_step(b);
        assert(pow2_real(a) * (2real * pow2_real(b)) == 2real * (pow2_real(a) * pow2_real(b))) by (nonlinear_arith);
    }
}

/// For `k >= 0`, `2^k` as a real is the integer `2^k`.
proof fn lemma_pow2_real_nat(k: nat)
    ensures
        pow2_real(k as int) == pow2(k) as real,
    decreases k,
{
    if k > 0 {
        lemma_pow2_real_nat((k - 1) as nat);
        lemma_pow2_unfold(k);
    } else {
        vstd::arithmetic::power2::lemma2_to64();
    }
}

/// Rounding half up when shifting right by `k`: `r · 2^k − 2^(k-1) <= v < r · 2^k + 2^(k-1)`.
proof fn lemma_scaled_down(v: int, k: nat)
    requires
        k >= 1,
    ensures
        scaled(v, -k) * pow2(k) - pow2((k - 1) as nat) <= v,
        v < scaled(v, -k) * pow2(k) + pow2((k - 1) as nat),
        pow2(k) == 2 * pow2((k - 1) as nat),
{
    lemma_pow2_unfold(k);
    lemma_pow2_pos(k);
    let d = pow2(k) as int;
    let h = pow2((k - 1) as nat) as int;
    assert(-(-(k as int)) - 1 == k - 1);
    lemma_fundamental_div_mod(v + h, d);
    lemma_mod_bound(v + h, d);
    let q = (v + h) / d;
    assert(scaled(v, -k) == q);
    assert(q * d == d * q) by (nonlinear_arith);
}

/// Integer bounds `(r - 1) · 2^k < n < (r + 1) · 2^k` give `within(r, k, n)`.
proof fn lemma_int_within(r: int, k: nat, n: int)
    requires
        (r - 1) * pow2(k) < n,
        n < (r + 1) * pow2(k),
    ensures
        within(r, k as int, n as real),
{
    lemma_pow2_real_nat(k);
    let d = pow2(k) as int;
    assert(((r - 1) * d) as real == (r as real - 1real) * (d as real)) by (nonlinear_arith);
    assert(((r + 1) * d) as real == (r as real + 1real) * (d as real)) by (nonlinear_arith);
}

/// Scaling bounds at precision `p - c` by `2^c` gives bounds at `p`.
proof fn lemma_within_shift(r: int, p: int, c: int, u: real)
    requires
        within(r, p - c, u),
    ensures
        within(r, p, u * pow2_real(c)),
{
    lemma_pow2_real_adds(p - c, c);
    lemma_pow2_real_step(c);
    let e = pow2_real(p - c);
    let f = pow2_real(c);
    assert(e * f == pow2_real(p));
    assert((r as real - 1real) * pow2_real(p) < u * f && u * f < (r as real + 1real) * pow2_real(p)) by (nonlinear_arith)
        requires
            (r as real - 1real) * e < u,
            u < (r as real + 1real) * e,
            f > 0real,
            e * f == pow2_real(p),
    ;
}


/// Every positive integer has an integer square root.
proof fn lemma_root_exists(n: nat)
    requires
        n >= 1,
    ensures
        is_root(n as int, root(n as int)),
    decreases n,
{
    if n == 1 {
        assert(is_root(1, 1));
    } else {
        lemma_root_exists((n - 1) as nat);
        let r = root(n - 1);
        if (r + 1) * (r + 1) <= n {
            assert((r + 1 + 1) * (r + 1 + 1) > n) by (nonlinear_arith)
                requires
                    n - 1 < (r + 1) * (r + 1),
                    r >= 0,
            ;
            assert(is_root(n as int, r + 1));
        } else {
            assert(is_root(n as int, r));
        }
    }
}

/// For non-negative `t` and positive `m`, `t^2 < m^2` gives `t < m` and
/// `m^2 < t^2` gives `m < t`.
proof fn lemma_square_order(t: real, m: real)
    requires
        0real <= t,
        0real <= m,
    ensures
        t * t < m * m ==> t < m,
        m * m < t * t ==> m < t,
{
    assert(t * t < m * m ==> t < m) by (nonlinear_arith)
        requires
            0real <= t,
            0real <= m,
    ;
    assert(m * m < t * t ==> m < t) by (nonlinear_arith)
        requires
            0real <= t,
            0real <= m,
    ;
}

/// The square root case: the operand approximated at `2(p - 3)` by `o`, its root
/// rounded to precision `p`.
proof fn lemma_sqrt_within(o: int, p: int, y: real, t: real)
    requires
        within(o, 2 * (p - 3), y),
        is_sqrt(y, t),
    ensures
        within(if o <= 0 { 0 } else { scaled(root(o), -3) }, p, t),
{
    let w = p - 3;
    lemma_pow2_real_adds(w, w);
    lemma_pow2_real_adds(w, 3);
    lemma_pow2_real_step(0);
    lemma_pow2_real_step(1);
    lemma_pow2_real_step(2);
    let ww = pow2_real(w);
    assert(pow2_real(3) == 8real);
    assert(pow2_real(2 * (p - 3)) == ww * ww);
    assert(pow2_real(p) == 8real * ww) by (nonlinear_arith)
        requires
            pow2_real(w + 3) == ww * pow2_real(3),
            pow2_real(3) == 8real,
            w + 3 == p,
    ;
    if o <= 0 {
        assert(y < ww * ww) by (nonlinear_arith)
            requires
                y < (o as real + 1real) * (ww * ww),
                o <= 0,
                ww > 0real,
        ;
        lemma_square_order(t, ww);
        assert((0 as real - 1real) * pow2_real(p) < t);
        assert(t < (0 as real + 1real) * pow2_real(p));
    } else {
        lemma_root_exists(o as nat);
        let s = root(o);
        let r = scaled(s, -3);
        lemma_scaled_down(s, 3);
        vstd::arithmetic::power2::lemma2_to64();
        assert(8 * r - 4 <= s && s < 8 * r + 4);
        // above: t^2 = y < (o + 1) W^2 <= (s + 1)^2 W^2
        assert(o + 1 <= (s + 1) * (s + 1));
        assert(y < ((s + 1) as real * ww) * ((s + 1) as real * ww)) by (nonlinear_arith)
            requires
                y < (o as real + 1real) * (ww * ww),
                o + 1 <= (s + 1) * (s + 1),
                ww > 0real,
        ;
        assert(0real <= (s + 1) as real * ww) by (nonlinear_arith)
            requires
                s >= 0,
                ww > 0real,
        ;
        lemma_square_order(t, (s + 1) as real * ww);
        assert(t < (r as real + 1real) * pow2_real(p)) by (nonlinear_arith)
            requires
                t < (s + 1) as real * ww,
                s + 1 <= 8 * r + 4,
                ww > 0real,
                pow2_real(p) == 8real * ww,
        ;
        if r >= 1 {
            // below: t^2 = y > (o - 1) W^2 >= (s^2 - 1) W^2 > (s - 4)^2 W^2
            assert(s >= 4);
            assert(s * s <= o);
            assert((s - 4) * (s - 4) < s * s - 1) by (nonlinear_arith)
                requires
                    s >= 4,
            ;
            assert(((s - 4) as real * ww) * ((s - 4) as real * ww) < y) by (nonlinear_arith)
                requires
                    (o as real - 1real) * (ww * ww) < y,
                    (s - 4) * (s - 4) < s * s - 1,
                    s * s <= o,
                    ww > 0real,
            ;
            assert(0real <= (s - 4) as real * ww) by (nonlinear_arith)
                requires
                    s >= 4,
                    ww > 0real,
            ;
            lemma_square_order(t, (s - 4) as real * ww);
            assert((r as real - 1real) * pow2_real(p) < t) by (nonlinear_arith)
                requires
                    (s - 4) as real * ww < t,
                    8 * r - 8 <= s - 4,
                    ww > 0real,
                    pow2_real(p) == 8real * ww,
            ;
        } else {
            assert((r as real - 1real) * pow2_real(p) < t) by (nonlinear_arith)
                requires
                    r <= 0,
                    0real <= t,
                    pow2_real(p) == 8real * ww,
                    ww > 0real,
            ;
        }
    }
}


/// Every non-zero integer has a bit length `k`: `2^(k-1) <= |a| < 2^k`.
proof fn lemma_bit_length_exists(n: nat)
    requires
        n >= 1,
    ensures
        bit_length(n as int) >= 1,
        pow2((bit_length(n as int) - 1) as nat) <= n,
        n < pow2(bit_length(n as int)),
    decreases n,
{
    if n == 1 {
        vstd::arithmetic::power2::lemma2_to64();
        lemma_bit_length(1, 1);
    } else {
        lemma_bit_length_exists((n - 1) as nat);
        let k = bit_length(n - 1);
        lemma_pow2_unfold(k + 1);
        if n < pow2(k) {
            lemma_bit_length(n as int, k);
        } else {
            lemma_bit_length(n as int, k + 1);
        }
    }
}

/// `2^a <= 2^b` when `a <= b`.
proof fn lemma_pow2_real_le(a: int, b: int)
    requires
        a <= b,
    ensures
        pow2_real(a) <= pow2_real(b),
        0real < pow2_real(a),
{
    lemma_pow2_real_adds(a, b - a);
    lemma_pow2_real_nat((b - a) as nat);
    lemma_pow2_pos((b - a) as nat);
    let e = pow2_real(a);
    let f = pow2_real(b - a);
    assert(e <= e * f) by (nonlinear_arith)
        requires
            e > 0real,
            f >= 1real,
    ;
}

/// What an approximation `a` at precision `q` says of the size of `u`: below `2^(q+1)`
/// when `|a| <= 1`, and below `2^(q + bits(a))` otherwise, as is `|a| · 2^q`.
proof fn lemma_size(a: int, q: int, u: real)
    requires
        within(a, q, u),
    ensures
        abs(a) <= 1 ==> -pow2_real(q + 1) < u && u < pow2_real(q + 1),
        a != 0 ==> -pow2_real(q + bit_length(a)) < u && u < pow2_real(q + bit_length(a)),
        a != 0 ==> -pow2_real(q + bit_length(a)) < a as real * pow2_real(q) && a as real * pow2_real(q) < pow2_real(q + bit_length(a)),
{
    let e = pow2_real(q);
    lemma_pow2_real_step(q);
    if abs(a) <= 1 {
        assert(-pow2_real(q + 1) < u && u < pow2_real(q + 1)) by (nonlinear_arith)
            requires
                (a as real - 1real) * e < u,
                u < (a as real + 1real) * e,
                -1 <= a <= 1,
                pow2_real(q + 1) == 2real * e,
                e > 0real,
        ;
    }
    if a != 0 {
        lemma_bit_length_exists(abs(a));
        let k = bit_length(a);
        assert(bit_length(abs(a) as int) == k) by {
            lemma_bit_length(a, k);
        }
        assert(abs(a) < pow2(k));
        lemma_pow2_real_adds(q, k as int);
        lemma_pow2_real_nat(k);
        let f = pow2(k) as real;
        assert(-pow2_real(q + k) < u && u < pow2_real(q + k)) by (nonlinear_arith)
            requires
                (a as real - 1real) * e < u,
                u < (a as real + 1real) * e,
                -pow2(k) < a + 1,
                a + 1 <= pow2(k),
                -pow2(k) <= a - 1,
                a - 1 < pow2(k),
                pow2_real(q + k) == e * f,
                f == pow2(k) as real,
                e > 0real,
        ;
        assert(-pow2_real(q + k) < a as real * e && a as real * e < pow2_real(q + k)) by (nonlinear_arith)
            requires
                -pow2(k) < a,
                a < pow2(k),
                pow2_real(q + k) == e * f,
                f == pow2(k) as real,
                e > 0real,
        ;
    }
}

/// Bounds multiply: `|x| < c` and `|y| < d` give `|x y| < c d`.
proof fn lemma_bound_product(x: real, y: real, c: real, d: real)
    requires
        -c < x,
        x < c,
        -d < y,
        y < d,
    ensures
        -(c * d) < x * y,
        x * y < c * d,
{
    assert(-(c * d) < x * y && x * y < c * d) by (nonlinear_arith)
        requires
            -c < x,
            x < c,
            -d < y,
            y < d,
    ;
}

/// The error of a product of approximations: `|x - l| < a`, `|y - s| < b`, `|y| < c`
/// and `|l| < d` give `|x y - l s| < a c + d b`.
proof fn lemma_product_error(x: real, y: real, l: real, s: real, a: real, b: real, c: real, d: real)
    requires
        -a < x - l,
        x - l < a,
        -b < y - s,
        y - s < b,
        -c < y,
        y < c,
        -d < l,
        l < d,
    ensures
        -(a * c + d * b) < x * y - l * s,
        x * y - l * s < a * c + d * b,
{
    lemma_bound_product(x - l, y, a, c);
    lemma_bound_product(l, y - s, d, b);
    assert(x * y - l * s == (x - l) * y + l * (y - s)) by (nonlinear_arith);
}

/// Rounding `P · 2^e` to precision `p`: when it is within `2^(p-1)` of `z`, the
/// rounded value is within `2^p`.
proof fn lemma_scaled_within(big: int, e: int, p: int, z: real)
    requires
        big as real * pow2_real(e) - pow2_real(p - 1) < z,
        z < big as real * pow2_real(e) + pow2_real(p - 1),
    ensures
        within(scaled(big, e - p), p, z),
{
    let r = scaled(big, e - p);
    lemma_pow2_real_step(p - 1);
    let h = pow2_real(p - 1);
    if e - p >= 0 {
        let n = (e - p) as nat;
        lemma_pow2_real_nat(n);
        lemma_pow2_real_adds(n as int, p);
        assert(r as real == big as real * (pow2(n) as real)) by (nonlinear_arith)
            requires
                r == big * pow2(n),
        ;
        assert(r as real * pow2_real(p) == big as real * pow2_real(e)) by (nonlinear_arith)
            requires
                r as real == big as real * pow2_real(n as int),
                pow2_real(e) == pow2_real(n as int) * pow2_real(p),
        ;
        assert(within(r, p, z)) by (nonlinear_arith)
            requires
                r as real * pow2_real(p) - h < z,
                z < r as real * pow2_real(p) + h,
                pow2_real(p) == 2real * h,
                h > 0real,
        ;
    } else {
        let k = (p - e) as nat;
        lemma_scaled_down(big, k);
        assert(-(p - e) == e - p);
        lemma_pow2_real_nat(k);
        lemma_pow2_real_nat((k - 1) as nat);
        lemma_pow2_real_adds(k as int, e);
        lemma_pow2_real_adds(k - 1, e);
        let g = pow2_real(e);
        assert(g > 0real) by {
            lemma_pow2_real_step(e);
        }
        // r 2^k - 2^(k-1) <= big < r 2^k + 2^(k-1), times 2^e
        assert(r as real * pow2_real(p) - h <= big as real * g && big as real * g < r as real * pow2_real(p) + h) by (nonlinear_arith)
            requires
                r * pow2(k) - pow2((k - 1) as nat) <= big,
                big < r * pow2(k) + pow2((k - 1) as nat),
                pow2_real(p) == pow2(k) as real * g,
                h == pow2((k - 1) as nat) as real * g,
                g > 0real,
        ;
        assert(within(r, p, z)) by (nonlinear_arith)
            requires
                big as real * g - h < z,
                z < big as real * g + h,
                r as real * pow2_real(p) - h <= big as real * g,
                big as real * g < r as real * pow2_real(p) + h,
                pow2_real(p) == 2real * h,
                h > 0real,
        ;
    }
}

/// The product once the larger factor's leading digit is `m` and `|vl| < 2^(m+1)`:
/// the smaller factor approximated by `s` at `p - m - 3`, the larger by `l` at the
/// precision that `s` gives.
proof fn lemma_product_branch(m: int, p: int, s: int, l: int, vl: real, vs: real)
    requires
        -pow2_real(m + 1) < vl,
        vl < pow2_real(m + 1),
        within(s, p - m - 3, vs),
        s != 0 ==> within(l, larger_precision(p, p - m - 3, s), vl),
    ensures
        within(
            if s == 0 {
                0
            } else {
                scaled(l * s, larger_precision(p, p - m - 3, s) + (p - m - 3) - p)
            },
            p,
            vl * vs,
        ),
{
    let ps = p - m - 3;
    lemma_pow2_real_adds(m + 1, ps);
    lemma_pow2_real_step(p - 2);
    lemma_pow2_real_step(p - 1);
    assert(m + 1 + ps == p - 2);
    lemma_size(s, ps, vs);
    if s == 0 {
        lemma_bound_product(vl, vs, pow2_real(m + 1), pow2_real(ps + 1));
        lemma_pow2_real_le(ps + 1, ps + 1);
        assert(-pow2_real(ps + 1) < vs && vs < pow2_real(ps + 1));
        lemma_pow2_real_adds(m + 1, ps + 1);
        assert(m + 1 + (ps + 1) == p - 1);
        assert(within(0, p, vl * vs));
    } else {
        let bs = bit_length(s);
        let pl = larger_precision(p, ps, s);
        let y = s as real * pow2_real(ps);
        let x = l as real * pow2_real(pl);
        lemma_pow2_real_adds(pl, ps + bs);
        assert(pl + (ps + bs) == p - 2);
        lemma_pow2_real_step(pl);
        lemma_pow2_real_step(ps);
        // |x - vl| < 2^pl and |y - vs| < 2^ps
        assert(-pow2_real(pl) < x - vl && x - vl < pow2_real(pl)) by (nonlinear_arith)
            requires
                (l as real - 1real) * pow2_real(pl) < vl,
                vl < (l as real + 1real) * pow2_real(pl),
                x == l as real * pow2_real(pl),
        ;
        assert(-pow2_real(ps) < y - vs && y - vs < pow2_real(ps)) by (nonlinear_arith)
            requires
                (s as real - 1real) * pow2_real(ps) < vs,
                vs < (s as real + 1real) * pow2_real(ps),
                y == s as real * pow2_real(ps),
        ;
        lemma_product_error(x, y, vl, vs, pow2_real(pl), pow2_real(ps), pow2_real(ps + bs), pow2_real(m + 1));
        lemma_pow2_real_adds(pl, ps);
        let e = pl + ps;
        assert(x * y == (l * s) as real * pow2_real(e)) by (nonlinear_arith)
            requires
                x == l as real * pow2_real(pl),
                y == s as real * pow2_real(ps),
                pow2_real(e) == pow2_real(pl) * pow2_real(ps),
        ;
        assert(pow2_real(p - 1) == pow2_real(pl) * pow2_real(ps + bs) + pow2_real(m + 1) * pow2_real(ps));
        lemma_scaled_within(l * s, e, p, vl * vs);
    }
}

/// The approximation `appr(x, p)` is within `2^p` of the value of `x`.
pub proof fn lemma_appr_within(x: Term, p: int)
    requires
        fits(x, p),
        defined(x),
    ensures
        within(appr(x, p), p, value(x)),
    decreases x,
{
    let v = value(x);
    match x {
        Term::Int(n) => {
            let r = appr(x, p);
            if p <= 0 {
                let k = (-p) as nat;
                lemma_pow2_pos(k);
                assert(r == n * pow2(k));
                lemma_pow2_real_nat(k);
                lemma_pow2_real_adds(k as int, p);
                lemma_pow2_real_step(p);
                assert(pow2_real(0) == 1real);
                let e = pow2_real(p);
                assert((n * pow2(k)) as real == (n as real) * (pow2(k) as real)) by (nonlinear_arith);
                assert((r as real - 1real) * e < (n as real) && (n as real) < (r as real + 1real) * e) by (nonlinear_arith)
                    requires
                        r as real == (n as real) * pow2_real(k as int),
                        pow2_real(k as int) * e == 1real,
                        e > 0real,
                ;
            } else {
                let k = p as nat;
                lemma_scaled_down(n, k);
                lemma_pow2_pos((k - 1) as nat);
                assert((r - 1) * pow2(k) < n && n < (r + 1) * pow2(k)) by (nonlinear_arith)
                    requires
                        r * pow2(k) - pow2((k - 1) as nat) <= n,
                        n < r * pow2(k) + pow2((k - 1) as nat),
                        pow2(k) == 2 * pow2((k - 1) as nat),
                        pow2((k - 1) as nat) > 0,
                ;
                lemma_int_within(r, k, n);
            }
        },
        Term::Neg(a) => {
            lemma_appr_within(*a, p);
            let ra = appr(*a, p);
            let e = pow2_real(p);
            assert(((-ra) as real - 1real) * e == 0real - (ra as real + 1real) * e) by (nonlinear_arith);
            assert(((-ra) as real + 1real) * e == 0real - (ra as real - 1real) * e) by (nonlinear_arith);
        },
        Term::Shift(a, c) => {
            lemma_appr_within(*a, p - c);
            lemma_within_shift(appr(*a, p - c), p, c, value(*a));
        },
        Term::Add(a, b) => {
            let u = value(*a);
            let w = value(*b);
            lemma_appr_within(*a, p - 2);
            lemma_appr_within(*b, p - 2);
            let ra = appr(*a, p - 2);
            let rb = appr(*b, p - 2);
            let s = ra + rb;
            let r = appr(x, p);
            lemma_scaled_down(s, 2);
            vstd::arithmetic::power2::lemma2_to64();
            lemma_pow2_real_adds(p - 2, 2);
            lemma_pow2_real_step(0);
            lemma_pow2_real_step(1);
            let q = pow2_real(p - 2);
            assert(pow2_real(2) == 4real);
            assert(pow2_real(p) == 4real * q) by (nonlinear_arith)
                requires
                    pow2_real(p) == q * pow2_real(2),
                    pow2_real(2) == 4real,
            ;
            assert(4 * r - 2 <= s && s < 4 * r + 2);
            assert((r as real - 1real) * (4real * q) < v && v < (r as real + 1real) * (4real * q)) by (nonlinear_arith)
                requires
                    (ra as real - 1real) * q < u,
                    u < (ra as real + 1real) * q,
                    (rb as real - 1real) * q < w,
                    w < (rb as real + 1real) * q,
                    v == u + w,
                    4 * r - 4 <= ra + rb - 2,
                    ra + rb + 2 <= 4 * r + 4,
                    q > 0real,
            ;
        },
        Term::Sqrt(a) => {
            lemma_appr_within(*a, 2 * (p - 3));
            lemma_sqrt_within(appr(*a, 2 * (p - 3)), p, value(*a), v);
        },
        Term::Mul(a, b) => {
            let q = p / 2 - 2;
            let va = value(*a);
            let vb = value(*b);
            lemma_appr_within(*a, q);
            let ra = appr(*a, q);
            lemma_size(ra, q, va);
            match msd_at(q, ra) {
                Some(m) => {
                    assert(m + 1 == q + bit_length(ra));
                    let ps = p - m - 3;
                    lemma_appr_within(*b, ps);
                    let sb = appr(*b, ps);
                    let pl = larger_precision(p, ps, sb);
                    if sb != 0 {
                        lemma_appr_within(*a, pl);
                    }
                    lemma_product_branch(m, p, sb, appr(*a, pl), va, vb);
                },
                None => {
                    lemma_appr_within(*b, q);
                    let rb = appr(*b, q);
                    lemma_size(rb, q, vb);
                    match msd_at(q, rb) {
                        Some(m) => {
                            assert(m + 1 == q + bit_length(rb));
                            let ps = p - m - 3;
                            lemma_appr_within(*a, ps);
                            let sa = appr(*a, ps);
                            let pl = larger_precision(p, ps, sa);
                            if sa != 0 {
                                lemma_appr_within(*b, pl);
                            }
                            lemma_product_branch(m, p, sa, appr(*b, pl), vb, va);
                            assert(vb * va == va * vb) by (nonlinear_arith);
                        },
                        None => {
                            let c = pow2_real(q + 1);
                            lemma_bound_product(va, vb, c, c);
                            lemma_pow2_real_adds(q + 1, q + 1);
                            lemma_pow2_real_le(2 * q + 2, p);
                            lemma_pow2_real_step(p);
                            assert(2 * q + 2 <= p);
                            let big = pow2_real(p);
                            assert(c * c <= big);
                            assert((0 as real - 1real) * big == -big);
                            assert((0 as real + 1real) * big == big);
                            assert(within(0, p, va * vb));
                        },
                    }
                },
            }
        },
    }
}

/// A sign read off an approximation at precision `q` is the sign of the value: a
/// positive approximation means a positive value, a negative one a negative value.
pub proof fn lemma_sign_correct(x: Term, q: int)
    requires
        fits(x, q),
        defined(x),
    ensures
        appr(x, q) > 0 ==> value(x) > 0real,
        appr(x, q) < 0 ==> value(x) < 0real,
{
    lemma_appr_within(x, q);
    lemma_pow2_real_step(q);
    let a = appr(x, q);
    let e = pow2_real(q);
    assert(a > 0 ==> (a as real - 1real) * e >= 0real) by (nonlinear_arith)
        requires
            e > 0real,
    ;
    assert(a < 0 ==> (a as real + 1real) * e <= 0real) by (nonlinear_arith)
        requires
            e > 0real,
    ;
}

/// Approximations at one precision more than one apart order the values they
/// approximate.
proof fn lemma_gap(u: int, v: int, q: int, xv: real, yv: real)
    requires
        within(u, q, xv),
        within(v, q, yv),
    ensures
        u > v + 1 ==> xv > yv,
        u < v - 1 ==> xv < yv,
{
    lemma_pow2_real_step(q);
    let e = pow2_real(q);
    assert(u > v + 1 ==> (u as real - 1real) * e >= (v as real + 1real) * e) by (nonlinear_arith)
        requires
            e > 0real,
    ;
    assert(u < v - 1 ==> (u as real + 1real) * e <= (v as real - 1real) * e) by (nonlinear_arith)
        requires
            e > 0real,
    ;
}

/// An order decided at precision `q` is the order of the values.
pub proof fn lemma_order_correct(x: Term, y: Term, q: int)
    requires
        fits(x, q),
        fits(y, q),
        defined(x),
        defined(y),
    ensures
        order_at(x, y, q) == Some(Ordering::Greater) ==> value(x) > value(y),
        order_at(x, y, q) == Some(Ordering::Less) ==> value(x) < value(y),
{
    lemma_appr_within(x, q);
    lemma_appr_within(y, q);
    lemma_gap(appr(x, q), appr(y, q), q, value(x), value(y));
}

/// What `compare` decides is the order of the values.
pub proof fn lemma_compare_correct(x: Term, y: Term, a: i32, min: i32)
    requires
        compare_fits(x, y, a, min),
        defined(x),
        defined(y),
    ensures
        compare_from(x, y, a, min) == Some(Ordering::Greater) ==> value(x) > value(y),
        compare_from(x, y, a, min) == Some(Ordering::Less) ==> value(x) < value(y),
    decreases a - i32::MIN,
{
    lemma_order_correct(x, y, a - 1);
    if order_at(x, y, a - 1) is None && !(a <= min || a <= i32::MIN || a >= 0) {
        lemma_compare_correct(x, y, doubled(a), min);
    }
}

/// The constructive reals form a commutative ring: their values obey the ring laws
/// under the operations that build expressions.
pub proof fn lemma_constructive_ring(d: &ConstructiveReals)
    ensures
        ring_laws(d),
        commutative_laws(d),
{
    reveal(equivalence);
    reveal(additive_laws);
    reveal(group_laws);
    reveal(semigroup_laws);
    reveal(monoid_laws);
    reveal(ring_laws);
    reveal(commutative_laws);
    assert forall|a: real, b: real, c: real| d.eqv(#[trigger] d.mul_s(d.mul_s(a, b), c), d.mul_s(a, d.mul_s(b, c))) by {
        assert((a * b) * c == a * (b * c)) by (nonlinear_arith);
    }
    assert forall|a: real, b: real| d.eqv(#[trigger] d.mul_s(a, b), d.mul_s(b, a)) by {
        assert(a * b == b * a) by (nonlinear_arith);
    }
    assert forall|a: real, b: real, c: real| d.eqv(#[trigger] d.mul_s(a, d.add_s(b, c)), d.add_s(d.mul_s(a, b), d.mul_s(a, c))) by {
        assert(a * (b + c) == a * b + a * c) by (nonlinear_arith);
    }
    assert forall|a: real, b: real, c: real| d.eqv(#[trigger] d.mul_s(d.add_s(a, b), c), d.add_s(d.mul_s(a, c), d.mul_s(b, c))) by {
        assert((a + b) * c == a * c + b * c) by (nonlinear_arith);
    }
}

/// The precisions `compare` tries, in order: `-20 · 2^k`, stopping at the smallest
/// 32-bit integer.
pub open spec fn compare_precision(k: nat) -> int {
    if -20 * pow2(k) < i32::MIN {
        i32::MIN as int
    } else {
        -20 * pow2(k)
    }
}

/// Doubling a tried precision gives the next one.
proof fn lemma_next_precision(k: nat)
    ensures
        compare_precision(k) < 0,
        i32::MIN <= compare_precision(k),
        doubled(compare_precision(k) as i32) as int == compare_precision(k + 1),
{
    lemma_pow2_pos(k);
    lemma_pow2_unfold(k + 1);
}

/// Once `compare` has reached the `j0`-th precision, it answers unless every
/// precision up to the `k`-th leaves the order open or the bound stops it first.
proof fn lemma_compare_reaches(x: Term, y: Term, a: i32, min: i32, j0: nat, k: nat)
    requires
        a == compare_precision(j0),
        j0 <= k,
        forall|j: nat| j0 <= j < k ==> compare_precision(j) > min,
        order_at(x, y, compare_precision(k) - 1) is Some,
    ensures
        compare_from(x, y, a, min) is Some,
        compare_from(x, y, a, min) != Some(Ordering::Equal),
    decreases k - j0,
{
    lemma_next_precision(j0);
    if order_at(x, y, a - 1) is None {
        assert(j0 < k);
        assert(compare_precision(j0) > min);
        lemma_compare_reaches(x, y, doubled(a), min, j0 + 1, k);
    }
}

/// Approximations at `q` of values at least `3 · 2^q` apart are more than one apart.
proof fn lemma_gap_decides(u: int, v: int, q: int, xv: real, yv: real)
    requires
        within(u, q, xv),
        within(v, q, yv),
        xv - yv >= 3real * pow2_real(q),
    ensures
        u > v + 1,
{
    lemma_pow2_real_step(q);
    let e = pow2_real(q);
    assert((u - v) as real * e > 1real * e) by (nonlinear_arith)
        requires
            xv < (u as real + 1real) * e,
            (v as real - 1real) * e < yv,
            xv - yv >= 3real * e,
    ;
    assert((u - v) as real > 1real) by (nonlinear_arith)
        requires
            (u - v) as real * e > 1real * e,
            e > 0real,
    ;
}

/// `compare_at` is complete: at precision `q`, values at least `3 · 2^q` apart are
/// ordered, and with their order.
pub proof fn lemma_order_complete(x: Term, y: Term, q: int)
    requires
        fits(x, q),
        fits(y, q),
        defined(x),
        defined(y),
    ensures
        value(x) - value(y) >= 3real * pow2_real(q) ==> order_at(x, y, q) == Some(Ordering::Greater),
        value(y) - value(x) >= 3real * pow2_real(q) ==> order_at(x, y, q) == Some(Ordering::Less),
{
    lemma_appr_within(x, q);
    lemma_appr_within(y, q);
    if value(x) - value(y) >= 3real * pow2_real(q) {
        lemma_gap_decides(appr(x, q), appr(y, q), q, value(x), value(y));
    }
    if value(y) - value(x) >= 3real * pow2_real(q) {
        lemma_gap_decides(appr(y, q), appr(x, q), q, value(y), value(x));
    }
}

/// `sign_at` is complete: at precision `q`, a value of at least `2^q` is seen as
/// positive and one of at most `-2^q` as negative.
pub proof fn lemma_sign_complete(x: Term, q: int)
    requires
        fits(x, q),
        defined(x),
    ensures
        value(x) >= pow2_real(q) ==> appr(x, q) > 0,
        value(x) <= 0real - pow2_real(q) ==> appr(x, q) < 0,
{
    lemma_appr_within(x, q);
    lemma_pow2_real_step(q);
    let a = appr(x, q);
    let e = pow2_real(q);
    let v = value(x);
    assert(v >= e ==> a as real > 0real) by (nonlinear_arith)
        requires
            v < (a as real + 1real) * e,
            e > 0real,
    ;
    assert(v <= 0real - e ==> (a as real) < 0real) by (nonlinear_arith)
        requires
            (a as real - 1real) * e < v,
            e > 0real,
    ;
}

/// `compare` is complete down to its bound: when the values differ by at least
/// `3 · 2^(a-1)` at a precision `a` it reaches, that is the `k`-th one with every
/// earlier one above `min_precision`, it answers, and with the order of the values.
pub proof fn lemma_compare_complete(x: Term, y: Term, min: i32, k: nat)
    requires
        compare_fits(x, y, -20i32, min),
        defined(x),
        defined(y),
        fits(x, compare_precision(k) - 1),
        fits(y, compare_precision(k) - 1),
        forall|j: nat| j < k ==> compare_precision(j) > min,
    ensures
        value(x) - value(y) >= 3real * pow2_real(compare_precision(k) - 1) ==> compare_from(
            x,
            y,
            -20i32,
            min,
        ) == Some(Ordering::Greater),
        value(y) - value(x) >= 3real * pow2_real(compare_precision(k) - 1) ==> compare_from(
            x,
            y,
            -20i32,
            min,
        ) == Some(Ordering::Less),
{
    let q = compare_precision(k) - 1;
    lemma_order_complete(x, y, q);
    lemma_compare_correct(x, y, -20i32, min);
    lemma_pow2_real_step(q);
    vstd::arithmetic::power2::lemma2_to64();
    if value(x) - value(y) >= 3real * pow2_real(q) || value(y) - value(x) >= 3real * pow2_real(q) {
        lemma_compare_reaches(x, y, -20i32, min, 0, k);
    }
}

} // verus!
