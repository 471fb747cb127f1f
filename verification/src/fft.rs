//! Radix-2 fast Fourier transform over any ring with a root of unity.

use crate::fourier::{
    dft, lemma_butterfly, lemma_strided_member, lemma_strided_root, minus_one, stride_inside,
    strided_dft, strided_term,
};
use crate::integers::Integer;
use crate::laws::{
    lemma_add_congruent, lemma_add_step, lemma_mul_closed, lemma_mul_congruent, lemma_mul_step,
    lemma_refl, lemma_ring_parts, lemma_sub_step, lemma_sym, lemma_trans, ring_laws,
};
use crate::polynomials::{all_members, all_valid, models};
use crate::pow::{lemma_power_congruent, lemma_power_member, lemma_power_mul, pow, power};
use crate::structures::{AdditiveGroup, CommutativeMonoid, Domain, Monoid, Ring, Semigroup};
use vstd::prelude::*;

verus! {

/// `2^k`.
pub open spec fn two_to(k: nat) -> nat
    decreases k,
{
    if k == 0 {
        1
    } else {
        2 * two_to((k - 1) as nat)
    }
}

/// `n` is a power of two.
pub open spec fn power_of_two(n: nat) -> bool {
    exists|k: nat| two_to(k) == n
}

/// The exponent `k` with `2^k == n`, for a power of two `n`.
pub open spec fn log2(n: nat) -> nat {
    choose|k: nat| two_to(k) == n
}

/// The low `k` bits of `i`, in reverse order.
pub open spec fn reversed(i: nat, k: nat) -> nat
    decreases k,
{
    if k == 0 {
        0
    } else {
        (i % 2) * two_to((k - 1) as nat) + reversed(i / 2, (k - 1) as nat)
    }
}

/// `k < 2^k`, and `2^a <= 2^b` (twice over when `a < b`) for `a <= b`.
pub proof fn lemma_two_to_monotone(a: nat, b: nat)
    requires
        a <= b,
    ensures
        a < two_to(a),
        two_to(a) <= two_to(b),
        a < b ==> 2 * two_to(a) <= two_to(b),
    decreases b,
{
    if a < b {
        lemma_two_to_monotone(a, (b - 1) as nat);
    } else if a > 0 {
        lemma_two_to_monotone((a - 1) as nat, (a - 1) as nat);
    }
}

/// `2^a · 2^b == 2^(a + b)`.
proof fn lemma_two_to_adds(a: nat, b: nat)
    ensures
        two_to(a) * two_to(b) == two_to(a + b),
    decreases b,
{
    if b > 0 {
        let b1 = (b - 1) as nat;
        lemma_two_to_adds(a, b1);
        let x = two_to(a);
        let y = two_to(b1);
        assert(two_to(b) == 2 * y);
        assert(two_to(a + b) == 2 * two_to(a + b1));
        assert(x * (2 * y) == 2 * (x * y)) by (nonlinear_arith);
        assert(x * two_to(b) == two_to(a + b));
    } else {
        assert(two_to(a) * 1 == two_to(a));
        assert(a + b == a);
    }
}

/// Two exponents with the same power are equal.
proof fn lemma_two_to_injective(a: nat, b: nat)
    requires
        two_to(a) == two_to(b),
    ensures
        a == b,
{
    if a < b {
        lemma_two_to_monotone(a, b);
    } else if b < a {
        lemma_two_to_monotone(b, a);
    }
}

/// A reversed index stays below `2^k`.
proof fn lemma_reversed_bound(i: nat, k: nat)
    ensures
        reversed(i, k) < two_to(k),
    decreases k,
{
    if k > 0 {
        lemma_reversed_bound(i / 2, (k - 1) as nat);
        if i % 2 == 0 {
            assert((i % 2) * two_to((k - 1) as nat) == 0);
        } else {
            assert(i % 2 == 1);
            assert((i % 2) * two_to((k - 1) as nat) == two_to((k - 1) as nat));
        }
    }
}

/// The top bit moves to the bottom: `rev(i + b·2^k, k + 1) == 2·rev(i, k) + b`.
proof fn lemma_reversed_top(i: nat, b: nat, k: nat)
    requires
        i < two_to(k),
        b <= 1,
    ensures
        reversed(i + b * two_to(k), k + 1) == 2 * reversed(i, k) + b,
    decreases k,
{
    if k == 0 {
        assert(i == 0);
        assert(b * two_to(k) == b);
    } else {
        let t = two_to((k - 1) as nat);
        let q = i / 2;
        let c = i % 2;
        assert(i == 2 * q + c);
        let x = b * t;
        assert(b * two_to(k) == 2 * x) by (nonlinear_arith)
            requires
                two_to(k) == 2 * t,
                x == b * t,
        ;
        let m = i + b * two_to(k);
        assert(m == 2 * (q + x) + c);
        assert(m / 2 == q + x);
        assert(m % 2 == c);
        assert(q < t);
        lemma_reversed_top(q, b, (k - 1) as nat);
        assert(reversed(m, k + 1) == c * two_to(k) + reversed(q + x, k));
        assert(c * two_to(k) == 2 * (c * t)) by (nonlinear_arith)
            requires
                two_to(k) == 2 * t,
        ;
    }
}

/// Reversing the low `k` bits twice gives back every index below `2^k`.
proof fn lemma_reversed_involution(i: nat, k: nat)
    requires
        i < two_to(k),
    ensures
        reversed(reversed(i, k), k) == i,
    decreases k,
{
    if k > 0 {
        let t = two_to((k - 1) as nat);
        let q = i / 2;
        let c = i % 2;
        assert(q < t);
        lemma_reversed_involution(q, (k - 1) as nat);
        lemma_reversed_bound(q, (k - 1) as nat);
        let r = reversed(q, (k - 1) as nat);
        lemma_reversed_top(r, c, (k - 1) as nat);
        assert(reversed(i, k) == c * t + r);
        assert(r + c * t == c * t + r);
    }
}

/// `rev(i, k)`: the low `k` bits of `i` in reverse order.
fn reverse_index(i: usize, k: usize) -> (r: usize)
    requires
        two_to(k as nat) <= usize::MAX,
    ensures
        r == reversed(i as nat, k as nat),
{
    let mut r: usize = 0;
    let mut x: usize = i;
    let mut t: usize = 0;
    while t < k
        invariant
            t <= k,
            two_to(k as nat) <= usize::MAX,
            r < two_to(t as nat),
            reversed(i as nat, k as nat) == r * two_to((k - t) as nat) + reversed(x as nat, (k - t) as nat),
        decreases k - t,
    {
        let ghost p = two_to((k - t - 1) as nat);
        let ghost c = x % 2;
        proof {
            lemma_two_to_monotone((t + 1) as nat, k as nat);
            assert(r * (2 * p) + (c * p) == (2 * r + c) * p) by (nonlinear_arith);
        }
        r = 2 * r + x % 2;
        x = x / 2;
        t = t + 1;
    }
    assert(two_to(0) == 1);
    assert(r * 1 == r);
    r
}

/// The exponent of a power of two, found by doubling.
fn exponent_of(n: usize) -> (bits: usize)
    requires
        power_of_two(n as nat),
    ensures
        two_to(bits as nat) == n,
        bits == log2(n as nat),
{
    let ghost k = log2(n as nat);
    proof {
        lemma_two_to_monotone(0, k);
    }
    let mut bits: usize = 0;
    let mut m: usize = 1;
    while m < n
        invariant
            two_to(k) == n,
            m == two_to(bits as nat),
            m <= n,
            bits <= k,
        decreases n - m,
    {
        proof {
            if bits >= k {
                lemma_two_to_monotone(k, bits as nat);
            }
            lemma_two_to_monotone(bits as nat, k);
        }
        m = m * 2;
        bits = bits + 1;
    }
    proof {
        lemma_two_to_injective(bits as nat, k);
    }
    bits
}

/// Swaps two elements of a slice.
pub assume_specification<X>[ <[X]>::swap ](s: &mut [X], a: usize, b: usize)
    requires
        a < old(s)@.len(),
        b < old(s)@.len(),
    ensures
        final(s)@ == old(s)@.update(a as int, old(s)@[b as int]).update(b as int, old(s)@[a as int]),
;

/// Reorders `values` so index `i` holds what was at `i` with its bits reversed. The
/// length must be a power of two.
pub fn bit_reverse<T>(values: &mut [T])
    requires
        power_of_two(old(values)@.len()),
    ensures
        final(values)@.len() == old(values)@.len(),
        forall|i: int|
            0 <= i < old(values)@.len() ==> #[trigger] final(values)@[i] == old(values)@[reversed(
                i as nat,
                log2(old(values)@.len()),
            ) as int],
{
    let ghost original = values@;
    let n = values.len();
    let bits = exponent_of(n);
    let ghost k = bits as nat;
    for i in 0..n
        invariant
            n == values@.len(),
            n == original.len(),
            two_to(k) == n,
            k == bits,
            forall|p: int|
                0 <= p < n ==> #[trigger] values@[p] == original[(if p < i || reversed(p as nat, k) < i {
                    reversed(p as nat, k) as int
                } else {
                    p
                })],
    {
        let r = reverse_index(i, bits);
        proof {
            lemma_reversed_bound(i as nat, k);
            lemma_reversed_involution(i as nat, k);
        }
        let ghost before = values@;
        if i < r {
            values.swap(i, r);
        }
        proof {
            assert forall|p: int| 0 <= p < n implies #[trigger] values@[p] == original[(if p < i + 1
                || reversed(p as nat, k) < i + 1 {
                reversed(p as nat, k) as int
            } else {
                p
            })] by {
                lemma_reversed_bound(p as nat, k);
                lemma_reversed_involution(p as nat, k);
                assert(before[p] == original[(if p < i || reversed(p as nat, k) < i {
                    reversed(p as nat, k) as int
                } else {
                    p
                })]);
                if i < r {
                    assert(before[i as int] == original[i as int]);
                    assert(before[r as int] == original[r as int]);
                }
            }
        }
    }
}

/// Entry `j` of the block at `start` has had its butterfly: the pair at `start + j`
/// and `start + half + j` became `u + v·w^j` and `u - v·w^j`, where `u` and `v` were
/// the entries there before.
pub open spec fn butterfly_done<R: Ring>(r: &R, before: Seq<R::E>, after: Seq<R::E>, start: int, half: int, w: R::M, j: int) -> bool {
    let u = r.model(before[start + j]);
    let v = r.model(before[start + half + j]);
    let p = power(r, w, j as nat);
    &&& r.eqv(r.model(after[start + j]), r.add_s(u, r.mul_s(v, p)))
    &&& r.eqv(r.model(after[start + half + j]), r.sub_s(u, r.mul_s(v, p)))
}

/// One pass of butterflies over `blocks` consecutive blocks of `2·half` entries each,
/// with twiddle factors the powers of `step`.
fn butterflies<R: Ring>(ring: &R, values: &mut [R::E], half: usize, blocks: usize, step: &R::E)
    requires
        ring.wf(),
        ring.valid(*step),
        all_valid(ring, old(values)@),
        half >= 1,
        blocks >= 1,
        blocks * (2 * half) == old(values)@.len(),
    ensures
        final(values)@.len() == old(values)@.len(),
        all_valid(ring, final(values)@),
        ring_laws(ring) ==> forall|b: int, j: int|
            0 <= b < blocks && 0 <= j < half ==> #[trigger] butterfly_done(
                ring,
                old(values)@,
                final(values)@,
                b * (2 * half),
                half as int,
                ring.model(*step),
                j,
            ),
{
    let ghost orig = values@;
    let ghost laws = ring_laws(ring);
    let ghost sm = ring.model(*step);
    let n = values.len();
    assert(2 * half <= n) by (nonlinear_arith)
        requires
            blocks >= 1,
            blocks * (2 * half) == n,
            half >= 1,
    ;
    let len = 2 * half;
    proof {
        if laws {
            lemma_ring_parts(ring);
            ring.lemma_valid_member(*step);
        }
    }
    let mut b: usize = 0;
    while b < blocks
        invariant
            ring.wf(),
            ring.valid(*step),
            laws == ring_laws(ring),
            laws ==> ring.member(sm),
            sm == ring.model(*step),
            values@.len() == n,
            orig.len() == n,
            blocks * len == n,
            len == 2 * half,
            half >= 1,
            b <= blocks,
            all_valid(ring, values@),
            forall|p: int| b * len <= p < n ==> #[trigger] values@[p] == orig[p],
            laws ==> forall|bb: int, j: int|
                0 <= bb < b && 0 <= j < half ==> #[trigger] butterfly_done(ring, orig, values@, bb * len, half as int, sm, j),
        decreases blocks - b,
    {
        assert(b * len + len <= n && b * len + len == (b + 1) * len) by (nonlinear_arith)
            requires
                b < blocks,
                blocks * len == n,
                len > 0,
        ;
        let start = b * len;
        let ghost at_start = values@;
        let mut w = ring.identity();
        proof {
            if laws {
                lemma_ring_parts(ring);
                assert(power(ring, sm, 0) == ring.one_s());
            }
        }
        let mut j: usize = 0;
        while j < half
            invariant
                ring.wf(),
                ring.valid(*step),
                ring.valid(w),
                laws == ring_laws(ring),
                laws ==> ring.member(sm),
                sm == ring.model(*step),
                laws ==> ring.eqv(ring.model(w), power(ring, sm, j as nat)),
                values@.len() == n,
                at_start.len() == n,
                start + len <= n,
                len == 2 * half,
                j <= half,
                all_valid(ring, values@),
                forall|p: int| 0 <= p < n && (p < start || p >= start + len) ==> #[trigger] values@[p] == at_start[p],
                forall|q: int| j <= q < half ==> #[trigger] values@[start + q] == at_start[start + q],
                forall|q: int| j <= q < half ==> #[trigger] values@[start + half + q] == at_start[start + half + q],
                laws ==> forall|q: int| 0 <= q < j ==> #[trigger] butterfly_done(ring, at_start, values@, start as int, half as int, sm, q),
            decreases half - j,
        {
            assert(ring.valid(values@[start + j]));
            assert(ring.valid(values@[start + j + half]));
            let u = ring.copy(&values[start + j]);
            let v = ring.mul(&values[start + j + half], &w);
            let low = ring.add(&u, &v);
            let high = ring.sub(&u, &v);
            let ghost before = values@;
            values[start + j] = low;
            values[start + j + half] = high;
            let next = ring.mul(&w, step);
            proof {
                if laws {
                    lemma_ring_parts(ring);
                    let mu = ring.model(at_start[start + j]);
                    let mv = ring.model(at_start[start + half + j]);
                    let pw = power(ring, sm, j as nat);
                    ring.lemma_valid_member(u);
                    ring.lemma_valid_member(v);
                    ring.lemma_valid_member(w);
                    ring.lemma_valid_member(low);
                    ring.lemma_valid_member(high);
                    ring.lemma_valid_member(next);
                    ring.lemma_valid_member(at_start[start + half + j]);
                    lemma_power_member(ring, sm, j as nat);
                    assert(before[start + j + half] == at_start[start + half + j]);
                    lemma_refl(ring, mv);
                    lemma_mul_step(ring, ring.model(v), mv, ring.model(w), mv, pw);
                    lemma_refl(ring, mu);
                    lemma_mul_closed(ring, mv, pw);
                    lemma_add_step(ring, ring.model(low), ring.model(u), ring.model(v), mu, ring.mul_s(mv, pw));
                    lemma_sub_step(ring, ring.model(high), ring.model(u), ring.model(v), mu, ring.mul_s(mv, pw));
                    lemma_refl(ring, sm);
                    lemma_mul_step(ring, ring.model(next), ring.model(w), sm, pw, sm);
                    assert(power(ring, sm, (j + 1) as nat) == ring.mul_s(pw, sm));
                    assert forall|q: int| 0 <= q < j + 1 implies #[trigger] butterfly_done(ring, at_start, values@, start as int, half as int, sm, q) by {
                        if q < j {
                            assert(butterfly_done(ring, at_start, before, start as int, half as int, sm, q));
                        } else {
                            assert(start + half + q == start + j + half);
                        }
                    }
                }
            }
            w = next;
            j = j + 1;
        }
        proof {
            assert forall|p: int| (b + 1) * len <= p < n implies #[trigger] values@[p] == orig[p] by {
                assert(values@[p] == at_start[p]);
            }
            if laws {
                assert forall|bb: int, q: int| 0 <= bb < b + 1 && 0 <= q < half implies #[trigger] butterfly_done(
                    ring, orig, values@, bb * len, half as int, sm, q) by {
                    if bb < b {
                        assert(bb * len + len <= b * len) by (nonlinear_arith)
                            requires
                                bb < b,
                                len > 0,
                        ;
                        assert(butterfly_done(ring, orig, at_start, bb * len, half as int, sm, q));
                        assert(values@[bb * len + q] == at_start[bb * len + q]);
                        assert(values@[bb * len + half + q] == at_start[bb * len + half + q]);
                    } else {
                        assert(butterfly_done(ring, at_start, values@, start as int, half as int, sm, q));
                        assert(at_start[start + q] == orig[start + q]);
                        assert(at_start[start + half + q] == orig[start + half + q]);
                    }
                }
            }
        }
        b = b + 1;
    }
}

/// After the pass that builds blocks of `len` entries, block `b` holds at `t` the
/// transform, with root `w^gs`, of the entries of `x` at `c, c + gs, c + 2·gs, ...`,
/// where `c` is `b` with its `k - s` bits reversed and `gs` the number of blocks.
pub open spec fn stage_ok<R: Ring>(r: &R, x: Seq<R::M>, vals: Seq<R::E>, k: nat, s: nat, len: nat, gs: nat, w: R::M, b: int, t: int) -> bool {
    r.eqv(
        r.model(vals[b * len + t]),
        strided_dft(r, x, reversed(b as nat, (k - s) as nat) as int, gs as int, len, power(r, w, gs), t as nat),
    )
}

/// Bit reversal of `2·b` and `2·b + 1` with one more bit.
proof fn lemma_reversed_double(b: nat, j: nat)
    ensures
        reversed(2 * b, j + 1) == reversed(b, j),
        reversed(2 * b + 1, j + 1) == two_to(j) + reversed(b, j),
{
    assert((2 * b) % 2 == 0 && (2 * b) / 2 == b);
    assert((2 * b + 1) % 2 == 1 && (2 * b + 1) / 2 == b);
}

/// The entries at `c, c + g, ...` for `len` steps lie inside a sequence of `g · len`
/// entries when `c < g`.
proof fn lemma_stride_fits<M>(x: Seq<M>, c: int, g: int, len: nat)
    requires
        0 <= c < g,
        x.len() == g * len,
    ensures
        stride_inside(x, c, g, len),
{
    assert forall|m: int| 0 <= m < len implies 0 <= #[trigger] (c + g * m) < x.len() by {
        assert(0 <= g * m && g * m + g <= g * len) by (nonlinear_arith)
            requires
                0 <= m < len,
                0 < g,
        ;
    }
}

/// One pass of butterflies takes the blocks of `len` entries to blocks of `2·len`.
proof fn lemma_next_stage<R: Ring>(
    ring: &R,
    x: Seq<R::M>,
    before: Seq<R::E>,
    after: Seq<R::E>,
    w: R::M,
    sm: R::M,
    k: nat,
    s: nat,
    len: nat,
    gs: nat,
)
    requires
        ring_laws(ring),
        ring.wf(),
        all_members(ring, x),
        all_valid(ring, before),
        all_valid(ring, after),
        ring.member(w),
        ring.member(sm),
        s < k,
        two_to(k) == x.len(),
        before.len() == x.len(),
        after.len() == x.len(),
        len == two_to(s),
        gs == two_to((k - s) as nat),
        ring.eqv(sm, power(ring, w, gs / 2)),
        ring.eqv(power(ring, w, x.len() / 2), minus_one(ring)),
        forall|b: int, t: int| 0 <= b < gs && 0 <= t < len ==> #[trigger] stage_ok(ring, x, before, k, s, len, gs, w, b, t),
        forall|b: int, j: int| 0 <= b < gs / 2 && 0 <= j < len ==> #[trigger] butterfly_done(ring, before, after, b * (2 * len), len as int, sm, j),
    ensures
        forall|b: int, t: int| 0 <= b < gs / 2 && 0 <= t < 2 * len ==> #[trigger] stage_ok(ring, x, after, k, s + 1, 2 * len, gs / 2, w, b, t),
{
    lemma_ring_parts(ring);
    let n = x.len();
    let kk = (k - s) as nat;
    let j1 = (kk - 1) as nat;
    let h = two_to(j1);
    assert(gs == 2 * h);
    assert(gs / 2 == h);
    assert(s + 1 == (s + 1) as nat);
    assert(two_to(s + 1) == 2 * len);
    assert(((k - (s + 1)) as nat) == j1);
    lemma_two_to_adds(s, kk);
    assert(s + kk == k);
    assert(len * gs == n);
    assert(h * (2 * len) == n) by (nonlinear_arith)
        requires
            len * gs == n,
            gs == 2 * h,
    ;
    assert(n / 2 == h * len) by (nonlinear_arith)
        requires
            h * (2 * len) == n,
    ;
    let ww = power(ring, w, h);
    lemma_power_member(ring, w, h);
    lemma_power_member(ring, w, gs);
    lemma_power_member(ring, ww, 2);
    // The new root to the power len is -1.
    lemma_power_mul(ring, w, h, len);
    lemma_power_member(ring, w, h * len);
    lemma_power_member(ring, ww, len);
    lemma_sym(ring, power(ring, w, h * len), power(ring, ww, len));
    lemma_ring_parts(ring);
    crate::laws::lemma_sub_closed(ring, ring.zero_s(), ring.one_s());
    lemma_trans(ring, power(ring, ww, len), power(ring, w, h * len), minus_one(ring));
    // The old root is the square of the new one.
    lemma_power_mul(ring, w, h, 2);
    assert(h * 2 == gs);
    assert forall|b: int, t: int| 0 <= b < h && 0 <= t < 2 * len implies #[trigger] stage_ok(ring, x, after, k, s + 1, 2 * len, h, w, b, t) by {
        let bn = b as nat;
        lemma_reversed_double(bn, j1);
        lemma_reversed_bound(bn, j1);
        let c = reversed(bn, j1) as int;
        assert(reversed(2 * bn, kk) == c);
        assert(reversed(2 * bn + 1, kk) == h + c);
        lemma_stride_fits(x, c, h as int, 2 * len);
        assert(2 * (h as int) == gs as int);
        let tt = if t < len { t } else { t - len };
        let ttn = tt as nat;
        lemma_butterfly(ring, x, c, h as int, len, ww, ttn);
        assert(b * (2 * len) + tt == (2 * b) * len + tt) by (nonlinear_arith);
        assert(b * (2 * len) + len + tt == (2 * b + 1) * len + tt) by (nonlinear_arith);
        assert(0 <= 2 * b && 2 * b + 1 < gs);
        assert(stage_ok(ring, x, before, k, s, len, gs, w, 2 * b, tt));
        assert(stage_ok(ring, x, before, k, s, len, gs, w, 2 * b + 1, tt));
        assert(butterfly_done(ring, before, after, b * (2 * len), len as int, sm, tt));
        let root_old = power(ring, w, gs);
        let root_sq = power(ring, ww, 2);
        let e_old = strided_dft(ring, x, c, gs as int, len, root_old, ttn);
        let o_old = strided_dft(ring, x, h + c, gs as int, len, root_old, ttn);
        let e = strided_dft(ring, x, c, 2 * (h as int), len, root_sq, ttn);
        let o = strided_dft(ring, x, c + h, 2 * (h as int), len, root_sq, ttn);
        lemma_strided_root(ring, x, c, gs as int, len, root_old, root_sq, ttn);
        lemma_strided_root(ring, x, h + c, gs as int, len, root_old, root_sq, ttn);
        assert(h + c == c + h);
        lemma_strided_member(ring, x, c, gs as int, len, root_old, ttn);
        lemma_strided_member(ring, x, c + h, gs as int, len, root_old, ttn);
        lemma_strided_member(ring, x, c, gs as int, len, root_sq, ttn);
        lemma_strided_member(ring, x, c + h, gs as int, len, root_sq, ttn);
        let pu = (2 * b) * len + tt;
        let pv = (2 * b + 1) * len + tt;
        assert((2 * b + 1) * len + len == (b + 1) * (2 * len)) by (nonlinear_arith);
        assert((b + 1) * (2 * len) <= h * (2 * len)) by (nonlinear_arith)
            requires
                b + 1 <= h,
        ;
        assert(0 <= (2 * b) * len && (2 * b) * len + len == (2 * b + 1) * len) by (nonlinear_arith)
            requires
                0 <= b,
        ;
        assert(0 <= pu < n && 0 <= pv < n);
        assert(ring.valid(before[pu]));
        assert(ring.valid(before[pv]));
        ring.lemma_valid_member(before[pu]);
        ring.lemma_valid_member(before[pv]);
        let mu = ring.model(before[pu]);
        let mv = ring.model(before[pv]);
        lemma_trans(ring, mu, e_old, e);
        lemma_trans(ring, mv, o_old, o);
        // the twiddle factor
        lemma_power_congruent(ring, sm, ww, ttn);
        let p = power(ring, sm, ttn);
        let q = power(ring, ww, ttn);
        lemma_power_member(ring, sm, ttn);
        lemma_power_member(ring, ww, ttn);
        lemma_mul_congruent(ring, mv, o, p, q);
        lemma_mul_closed(ring, mv, p);
        lemma_mul_closed(ring, o, q);
        let target = strided_dft(ring, x, c, h as int, 2 * len, ww, t as nat);
        assert(b * (2 * len) + t < n) by (nonlinear_arith)
            requires
                0 <= b < h,
                0 <= t < 2 * len,
                h * (2 * len) == n,
        ;
        assert(0 <= b * (2 * len)) by (nonlinear_arith)
            requires
                0 <= b,
        ;
        assert(ring.valid(after[b * (2 * len) + t]));
        ring.lemma_valid_member(after[b * (2 * len) + t]);
        lemma_strided_member(ring, x, c, h as int, 2 * len, ww, t as nat);
        if t < len {
            let got = ring.model(after[b * (2 * len) + t]);
            lemma_add_congruent(ring, mu, e, ring.mul_s(mv, p), ring.mul_s(o, q));
            crate::laws::lemma_add_closed(ring, mu, ring.mul_s(mv, p));
            crate::laws::lemma_add_closed(ring, e, ring.mul_s(o, q));
            lemma_sym(ring, target, ring.add_s(e, ring.mul_s(o, q)));
            lemma_trans(ring, got, ring.add_s(mu, ring.mul_s(mv, p)), ring.add_s(e, ring.mul_s(o, q)));
            lemma_trans(ring, got, ring.add_s(e, ring.mul_s(o, q)), target);
        } else {
            assert(t as nat == ttn + len);
            assert(b * (2 * len) + t == b * (2 * len) + len + tt);
            let got = ring.model(after[b * (2 * len) + t]);
            crate::laws::lemma_sub_congruent(ring, mu, e, ring.mul_s(mv, p), ring.mul_s(o, q));
            crate::laws::lemma_sub_closed(ring, mu, ring.mul_s(mv, p));
            crate::laws::lemma_sub_closed(ring, e, ring.mul_s(o, q));
            lemma_sym(ring, target, ring.sub_s(e, ring.mul_s(o, q)));
            lemma_trans(ring, got, ring.sub_s(mu, ring.mul_s(mv, p)), ring.sub_s(e, ring.mul_s(o, q)));
            lemma_trans(ring, got, ring.sub_s(e, ring.mul_s(o, q)), target);
        }
    }
}

/// Transforms `values` in place, where `omega` is a primitive `values.len()`-th root
/// of unity. The length must be a power of two.
///
/// Whether such an `omega` exists is the caller's problem; nothing here can check it,
/// since a ring need not have a decidable equality. The result is the discrete
/// Fourier transform whenever the entries form a ring and `omega` to the power
/// `n / 2` is `-1`, which a primitive root of even order is in a field.
pub fn fft<R: Ring>(ring: &R, values: &mut [R::E], omega: &R::E)
    requires
        ring.wf(),
        ring.valid(*omega),
        all_valid(ring, old(values)@),
        power_of_two(old(values)@.len()),
        old(values)@.len() <= i64::MAX,
    ensures
        final(values)@.len() == old(values)@.len(),
        all_valid(ring, final(values)@),
        old(values)@.len() <= 1 ==> final(values)@ == old(values)@,
        ring_laws(ring) && (old(values)@.len() >= 2 ==> ring.eqv(
            power(ring, ring.model(*omega), old(values)@.len() / 2),
            minus_one(ring),
        )) ==> forall|k: int| 0 <= k < old(values)@.len() ==> #[trigger] ring.eqv(
            ring.model(final(values)@[k]),
            dft(ring, models(ring, old(values)@), ring.model(*omega), k as nat),
        ),
{
    let n = values.len();
    let ghost orig = values@;
    let ghost x = models(ring, orig);
    let ghost w = ring.model(*omega);
    let ghost laws = ring_laws(ring) && (n >= 2 ==> ring.eqv(power(ring, w, (n as nat) / 2), minus_one(ring)));
    proof {
        if ring_laws(ring) {
            lemma_ring_parts(ring);
            ring.lemma_valid_member(*omega);
            assert forall|i: int| 0 <= i < x.len() implies #[trigger] ring.member(x[i]) by {
                assert(ring.valid(orig[i]));
                ring.lemma_valid_member(orig[i]);
            }
        }
    }
    if n <= 1 {
        proof {
            if laws && n == 1 {
                let f = strided_term(ring, x, 0, 1, w, 0);
                assert(crate::sums::sum_of(ring, f, 0) == ring.zero_s());
                assert(f(0) == ring.mul_s(x[0], ring.one_s()));
                crate::laws::lemma_mul_one(ring, x[0]);
                crate::laws::lemma_mul_closed(ring, x[0], ring.one_s());
                crate::laws::lemma_add_zero(ring, f(0));
                crate::laws::lemma_add_closed(ring, ring.zero_s(), f(0));
                lemma_sym(ring, ring.add_s(ring.zero_s(), f(0)), f(0));
                lemma_sym(ring, f(0), x[0]);
                lemma_trans(ring, x[0], f(0), ring.add_s(ring.zero_s(), f(0)));
                assert(dft(ring, x, w, 0) == ring.add_s(ring.zero_s(), f(0)));
            }
        }
        return;
    }
    let ghost k = log2(n as nat);
    bit_reverse(values);
    proof {
        assert forall|i: int| 0 <= i < n implies #[trigger] ring.valid(values@[i]) by {
            lemma_reversed_bound(i as nat, k);
            assert(values@[i] == orig[reversed(i as nat, k) as int]);
        }
        if laws {
            // Blocks of one entry: each is its own transform.
            assert forall|b: int, t: int| 0 <= b < n && 0 <= t < 1 implies #[trigger] stage_ok(ring, x, values@, k, 0, 1, n as nat, w, b, t) by {
                lemma_reversed_bound(b as nat, k);
                let c = reversed(b as nat, k) as int;
                let root = power(ring, w, n as nat);
                let f = strided_term(ring, x, c, n as int, root, 0);
                assert(b * 1 + t == b);
                assert(values@[b] == orig[c]);
                assert(x[c] == ring.model(orig[c]));
                assert(c + (n as int) * 0 == c);
                assert(f(0) == ring.mul_s(x[c], ring.one_s()));
                assert(crate::sums::sum_of(ring, f, 0) == ring.zero_s());
                assert(ring.member(x[c]));
                crate::laws::lemma_mul_one(ring, x[c]);
                crate::laws::lemma_mul_closed(ring, x[c], ring.one_s());
                crate::laws::lemma_add_zero(ring, f(0));
                crate::laws::lemma_add_closed(ring, ring.zero_s(), f(0));
                lemma_sym(ring, ring.add_s(ring.zero_s(), f(0)), f(0));
                lemma_sym(ring, f(0), x[c]);
                lemma_trans(ring, x[c], f(0), ring.add_s(ring.zero_s(), f(0)));
                assert((k - 0) as nat == k);
            }
        }
    }
    let mut len: usize = 1;
    let ghost mut s: nat = 0;
    let ghost mut gs: nat = n as nat;
    while len < n
        invariant
            ring.wf(),
            ring.valid(*omega),
            w == ring.model(*omega),
            laws == (ring_laws(ring) && (n >= 2 ==> ring.eqv(power(ring, w, (n as nat) / 2), minus_one(ring)))),
            laws ==> ring.member(w),
            laws ==> all_members(ring, x),
            x == models(ring, orig),
            orig.len() == n,
            n >= 2,
            values@.len() == n,
            two_to(k) == n,
            n <= i64::MAX,
            len == two_to(s),
            gs == two_to((k - s) as nat),
            s <= k,
            all_valid(ring, values@),
            laws ==> forall|b: int, t: int| 0 <= b < gs && 0 <= t < len ==> #[trigger] stage_ok(ring, x, values@, k, s, len as nat, gs, w, b, t),
        decreases k - s,
    {
        proof {
            if s >= k {
                lemma_two_to_monotone(k, s);
            }
            lemma_two_to_monotone(s, k);
        }
        let half = len;
        len = len * 2;
        let ghost s0 = s;
        let ghost gs0 = gs;
        proof {
            s = s + 1;
            assert(two_to(s) == 2 * two_to((s - 1) as nat));
            lemma_two_to_adds(s, (k - s) as nat);
            let bb = two_to((k - s) as nat);
            assert(n == bb * len) by (nonlinear_arith)
                requires
                    n == len * bb,
            ;
            vstd::arithmetic::div_mod::lemma_div_by_multiple(bb as int, len as int);
            assert(gs0 == 2 * bb);
            gs = bb;
        }
        let blocks = n / len;
        assert(blocks * len == n);
        let step = pow(ring, omega, &Integer::from_i64(blocks as i64));
        let ghost before = values@;
        butterflies(ring, values, half, blocks, &step);
        proof {
            if laws {
                lemma_ring_parts(ring);
                ring.lemma_valid_member(step);
                assert(gs0 / 2 == blocks);
                assert(ring.eqv(ring.model(step), power(ring, w, gs0 / 2)));
                lemma_next_stage(ring, x, before, values@, w, ring.model(step), k, s0, half as nat, gs0);
            }
        }
    }
    proof {
        if laws {
            assert(s == k) by {
                if s < k {
                    lemma_two_to_monotone(s, k);
                }
            }
            assert(gs == 1);
            assert forall|t: int| 0 <= t < n implies #[trigger] ring.eqv(
                ring.model(values@[t]),
                dft(ring, x, w, t as nat),
            ) by {
                assert(stage_ok(ring, x, values@, k, s, len as nat, gs, w, 0, t));
                assert(0 * len + t == t);
                assert(reversed(0, 0) == 0);
                lemma_stride_fits(x, 0, 1, n as nat);
                crate::pow::lemma_power_first(ring, w);
                lemma_power_member(ring, w, 1);
                lemma_strided_root(ring, x, 0, 1, n as nat, power(ring, w, 1), w, t as nat);
                ring.lemma_valid_member(values@[t]);
                lemma_strided_member(ring, x, 0, 1, n as nat, power(ring, w, 1), t as nat);
                lemma_strided_member(ring, x, 0, 1, n as nat, w, t as nat);
                lemma_trans(ring, ring.model(values@[t]), strided_dft(ring, x, 0, 1, n as nat, power(ring, w, 1), t as nat), dft(ring, x, w, t as nat));
            }
        }
    }
}

/// The inverse of `fft`, given `omega_inv` and `n_inv`.
///
/// Undoing the transform runs it backwards and divides by the length, so both inverses
/// have to exist: an assumption the caller carries, since a ring need not supply them.
/// Over a field, obtain them with `Field::invert`.
pub fn inverse_fft<R: Ring>(ring: &R, values: &mut [R::E], omega_inv: &R::E, n_inv: &R::E)
    requires
        ring.wf(),
        ring.valid(*omega_inv),
        ring.valid(*n_inv),
        all_valid(ring, old(values)@),
        power_of_two(old(values)@.len()),
        old(values)@.len() <= i64::MAX,
    ensures
        final(values)@.len() == old(values)@.len(),
        all_valid(ring, final(values)@),
        ring_laws(ring) && (old(values)@.len() >= 2 ==> ring.eqv(
            power(ring, ring.model(*omega_inv), old(values)@.len() / 2),
            minus_one(ring),
        )) ==> forall|k: int| 0 <= k < old(values)@.len() ==> #[trigger] ring.eqv(
            ring.model(final(values)@[k]),
            ring.mul_s(dft(ring, models(ring, old(values)@), ring.model(*omega_inv), k as nat), ring.model(*n_inv)),
        ),
{
    let ghost orig = values@;
    fft(ring, values, omega_inv);
    let ghost transformed = values@;
    let n = values.len();
    for i in 0..n
        invariant
            ring.wf(),
            ring.valid(*n_inv),
            values@.len() == n,
            transformed.len() == n,
            all_valid(ring, values@),
            all_valid(ring, transformed),
            forall|p: int| i <= p < n ==> #[trigger] values@[p] == transformed[p],
            ring_laws(ring) ==> forall|p: int| 0 <= p < i ==> #[trigger] ring.eqv(
                ring.model(values@[p]),
                ring.mul_s(ring.model(transformed[p]), ring.model(*n_inv)),
            ),
    {
        let scaled = ring.mul(&values[i], n_inv);
        values[i] = scaled;
        proof {
            if ring_laws(ring) {
                lemma_ring_parts(ring);
            }
        }
    }
    proof {
        if ring_laws(ring) && (n >= 2 ==> ring.eqv(power(ring, ring.model(*omega_inv), (n as nat) / 2), minus_one(ring))) {
            lemma_ring_parts(ring);
            ring.lemma_valid_member(*n_inv);
            let ni = ring.model(*n_inv);
            lemma_refl(ring, ni);
            assert forall|k: int| 0 <= k < n implies #[trigger] ring.eqv(
                ring.model(values@[k]),
                ring.mul_s(dft(ring, models(ring, orig), ring.model(*omega_inv), k as nat), ni),
            ) by {
                let d = dft(ring, models(ring, orig), ring.model(*omega_inv), k as nat);
                let tk = ring.model(transformed[k]);
                assert(ring.eqv(tk, d));
                ring.lemma_valid_member(transformed[k]);
                ring.lemma_valid_member(values@[k]);
                ring.lemma_valid_member(*omega_inv);
                lemma_dft_member(ring, orig, ring.model(*omega_inv), k as nat);
                lemma_mul_step(ring, ring.model(values@[k]), tk, ni, d, ni);
            }
        }
    }
}

/// A transform of well-formed entries is a member.
proof fn lemma_dft_member<R: Ring>(ring: &R, v: Seq<R::E>, w: R::M, k: nat)
    requires
        ring_laws(ring),
        ring.wf(),
        all_valid(ring, v),
        ring.member(w),
    ensures
        ring.member(dft(ring, models(ring, v), w, k)),
{
    let x = models(ring, v);
    assert forall|i: int| 0 <= i < x.len() implies #[trigger] ring.member(x[i]) by {
        assert(ring.valid(v[i]));
        ring.lemma_valid_member(v[i]);
    }
    lemma_stride_fits(x, 0, 1, x.len());
    lemma_strided_member(ring, x, 0, 1, x.len(), w, k);
}

} // verus!
