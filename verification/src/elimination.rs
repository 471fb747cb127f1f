//! Row operations on an augmented matrix `[L | R]`, and why Gauss-Jordan elimination
//! keeps `L = R · A`: every row operation acts on both halves alike.

use crate::laws::{
    commutative_laws, lemma_add_closed, lemma_add_congruent, lemma_add_zero, lemma_distrib,
    lemma_mul_assoc, lemma_mul_closed, lemma_mul_comm, lemma_mul_congruent, lemma_mul_one,
    lemma_mul_zero, lemma_refl, lemma_ring_parts, lemma_sub_closed, lemma_sub_congruent,
    lemma_sym, lemma_trans, lemma_zero_mul, ring_laws,
};
use crate::structures::{AdditiveGroup, CommutativeMonoid, Domain, Monoid, Ring, Semigroup};
use vstd::prelude::*;

verus! {

/// `sum_{k < t} row[n + k] · a[k][c]`: the right half of an augmented row times
/// column `c` of `a`, added up in increasing `k` from zero.
pub open spec fn right_times<R: Ring>(r: &R, row: Seq<R::M>, a: Seq<Seq<R::M>>, c: int, n: nat, t: nat) -> R::M
    decreases t,
{
    if t == 0 {
        r.zero_s()
    } else {
        r.add_s(right_times(r, row, a, c, n, (t - 1) as nat), r.mul_s(row[n + t - 1], a[t - 1][c]))
    }
}

/// The left half of the augmented row is its right half times `a`.
pub open spec fn row_tracks<R: Ring>(r: &R, row: Seq<R::M>, a: Seq<Seq<R::M>>, n: nat) -> bool {
    forall|c: int| 0 <= c < n ==> #[trigger] r.eqv(row[c], right_times(r, row, a, c, n, n))
}

/// The augmented row has `2n` member entries, and `a` is an `n × n` grid of members.
pub open spec fn augmented_ok<R: Ring>(r: &R, row: Seq<R::M>, a: Seq<Seq<R::M>>, n: nat) -> bool {
    &&& row.len() == n + n
    &&& forall|k: int| 0 <= k < n + n ==> #[trigger] r.member(row[k])
    &&& forall|i: int, j: int| 0 <= i < n && 0 <= j < n ==> #[trigger] r.member(a[i][j])
}

/// Partial products are members.
pub proof fn lemma_right_times_member<R: Ring>(r: &R, row: Seq<R::M>, a: Seq<Seq<R::M>>, c: int, n: nat, t: nat)
    requires
        ring_laws(r),
        augmented_ok(r, row, a, n),
        0 <= c < n,
        t <= n,
    ensures
        r.member(right_times(r, row, a, c, n, t)),
    decreases t,
{
    lemma_ring_parts(r);
    if t > 0 {
        lemma_right_times_member(r, row, a, c, n, (t - 1) as nat);
        assert(r.member(row[n + t - 1]));
        assert(r.member(a[t - 1][c]));
        lemma_mul_closed(r, row[n + t - 1], a[t - 1][c]);
        lemma_add_closed(r, right_times(r, row, a, c, n, (t - 1) as nat), r.mul_s(row[n + t - 1], a[t - 1][c]));
    }
}

/// Rows that agree on their right halves give equal products.
pub proof fn lemma_right_times_congruent<R: Ring>(
    r: &R,
    x: Seq<R::M>,
    z: Seq<R::M>,
    a: Seq<Seq<R::M>>,
    c: int,
    n: nat,
    t: nat,
)
    requires
        ring_laws(r),
        augmented_ok(r, x, a, n),
        augmented_ok(r, z, a, n),
        0 <= c < n,
        t <= n,
        forall|k: int| 0 <= k < n ==> #[trigger] r.eqv(z[n + k], x[n + k]),
    ensures
        r.eqv(right_times(r, z, a, c, n, t), right_times(r, x, a, c, n, t)),
    decreases t,
{
    lemma_ring_parts(r);
    if t == 0 {
        lemma_refl(r, r.zero_s());
    } else {
        let k = t - 1;
        lemma_right_times_congruent(r, x, z, a, c, n, (t - 1) as nat);
        lemma_right_times_member(r, x, a, c, n, (t - 1) as nat);
        lemma_right_times_member(r, z, a, c, n, (t - 1) as nat);
        assert(r.eqv(z[n + k], x[n + k]));
        assert(r.member(x[n + k]) && r.member(z[n + k]) && r.member(a[k][c]));
        lemma_refl(r, a[k][c]);
        lemma_mul_congruent(r, z[n + k], x[n + k], a[k][c], a[k][c]);
        lemma_mul_closed(r, z[n + k], a[k][c]);
        lemma_mul_closed(r, x[n + k], a[k][c]);
        lemma_add_congruent(
            r,
            right_times(r, z, a, c, n, (t - 1) as nat),
            right_times(r, x, a, c, n, (t - 1) as nat),
            r.mul_s(z[n + k], a[k][c]),
            r.mul_s(x[n + k], a[k][c]),
        );
    }
}

/// A row replaced by `x - f · y` on its right half multiplies out to
/// `x · a - f · (y · a)`.
pub proof fn lemma_right_times_combination<R: Ring>(
    r: &R,
    x: Seq<R::M>,
    y: Seq<R::M>,
    z: Seq<R::M>,
    f: R::M,
    a: Seq<Seq<R::M>>,
    c: int,
    n: nat,
    t: nat,
)
    requires
        ring_laws(r),
        augmented_ok(r, x, a, n),
        augmented_ok(r, y, a, n),
        augmented_ok(r, z, a, n),
        r.member(f),
        0 <= c < n,
        t <= n,
        forall|k: int| 0 <= k < n ==> #[trigger] r.eqv(z[n + k], r.sub_s(x[n + k], r.mul_s(f, y[n + k]))),
    ensures
        r.eqv(
            right_times(r, z, a, c, n, t),
            r.sub_s(right_times(r, x, a, c, n, t), r.mul_s(f, right_times(r, y, a, c, n, t))),
        ),
    decreases t,
{
    lemma_ring_parts(r);
    let zero = r.zero_s();
    if t == 0 {
        lemma_mul_zero(r, f);
        lemma_mul_closed(r, f, zero);
        lemma_refl(r, zero);
        lemma_sub_congruent(r, zero, zero, r.mul_s(f, zero), zero);
        crate::laws::lemma_sub_self(r, zero);
        lemma_sub_closed(r, zero, r.mul_s(f, zero));
        lemma_sub_closed(r, zero, zero);
        lemma_trans(r, r.sub_s(zero, r.mul_s(f, zero)), r.sub_s(zero, zero), zero);
        lemma_sym(r, r.sub_s(zero, r.mul_s(f, zero)), zero);
    } else {
        let k = t - 1;
        let xs = right_times(r, x, a, c, n, (t - 1) as nat);
        let ys = right_times(r, y, a, c, n, (t - 1) as nat);
        let zs = right_times(r, z, a, c, n, (t - 1) as nat);
        let ak = a[k][c];
        let xk = x[n + k];
        let yk = y[n + k];
        let zk = z[n + k];
        lemma_right_times_combination(r, x, y, z, f, a, c, n, (t - 1) as nat);
        lemma_right_times_member(r, x, a, c, n, (t - 1) as nat);
        lemma_right_times_member(r, y, a, c, n, (t - 1) as nat);
        lemma_right_times_member(r, z, a, c, n, (t - 1) as nat);
        assert(r.member(xk) && r.member(yk) && r.member(zk) && r.member(ak));
        assert(r.eqv(zk, r.sub_s(xk, r.mul_s(f, yk))));
        // zk · ak ~ xk · ak - f · (yk · ak)
        lemma_mul_closed(r, f, yk);
        lemma_sub_closed(r, xk, r.mul_s(f, yk));
        lemma_refl(r, ak);
        lemma_mul_congruent(r, zk, r.sub_s(xk, r.mul_s(f, yk)), ak, ak);
        crate::laws::lemma_sub_mul(r, xk, r.mul_s(f, yk), ak);
        lemma_mul_assoc(r, f, yk, ak);
        lemma_mul_closed(r, xk, ak);
        lemma_mul_closed(r, yk, ak);
        lemma_mul_closed(r, r.mul_s(f, yk), ak);
        lemma_mul_closed(r, f, r.mul_s(yk, ak));
        lemma_refl(r, r.mul_s(xk, ak));
        lemma_sub_congruent(r, r.mul_s(xk, ak), r.mul_s(xk, ak), r.mul_s(r.mul_s(f, yk), ak), r.mul_s(f, r.mul_s(yk, ak)));
        lemma_mul_closed(r, zk, ak);
        lemma_mul_closed(r, r.sub_s(xk, r.mul_s(f, yk)), ak);
        lemma_sub_closed(r, r.mul_s(xk, ak), r.mul_s(r.mul_s(f, yk), ak));
        lemma_sub_closed(r, r.mul_s(xk, ak), r.mul_s(f, r.mul_s(yk, ak)));
        let term = r.sub_s(r.mul_s(xk, ak), r.mul_s(f, r.mul_s(yk, ak)));
        lemma_trans(r, r.mul_s(zk, ak), r.mul_s(r.sub_s(xk, r.mul_s(f, yk)), ak), r.sub_s(r.mul_s(xk, ak), r.mul_s(r.mul_s(f, yk), ak)));
        lemma_trans(r, r.mul_s(zk, ak), r.sub_s(r.mul_s(xk, ak), r.mul_s(r.mul_s(f, yk), ak)), term);
        // zs + zk·ak ~ (xs - f·ys) + (xk·ak - f·(yk·ak)) ~ (xs + xk·ak) - (f·ys + f·(yk·ak))
        lemma_mul_closed(r, f, ys);
        lemma_sub_closed(r, xs, r.mul_s(f, ys));
        lemma_add_congruent(r, zs, r.sub_s(xs, r.mul_s(f, ys)), r.mul_s(zk, ak), term);
        crate::laws::lemma_sub_add_sub(r, xs, r.mul_s(f, ys), r.mul_s(xk, ak), r.mul_s(f, r.mul_s(yk, ak)));
        // f·ys + f·(yk·ak) ~ f·(ys + yk·ak)
        lemma_distrib(r, f, ys, r.mul_s(yk, ak));
        lemma_add_closed(r, ys, r.mul_s(yk, ak));
        lemma_mul_closed(r, f, r.add_s(ys, r.mul_s(yk, ak)));
        lemma_add_closed(r, r.mul_s(f, ys), r.mul_s(f, r.mul_s(yk, ak)));
        lemma_sym(r, r.mul_s(f, r.add_s(ys, r.mul_s(yk, ak))), r.add_s(r.mul_s(f, ys), r.mul_s(f, r.mul_s(yk, ak))));
        lemma_add_closed(r, xs, r.mul_s(xk, ak));
        lemma_refl(r, r.add_s(xs, r.mul_s(xk, ak)));
        lemma_sub_congruent(
            r,
            r.add_s(xs, r.mul_s(xk, ak)),
            r.add_s(xs, r.mul_s(xk, ak)),
            r.add_s(r.mul_s(f, ys), r.mul_s(f, r.mul_s(yk, ak))),
            r.mul_s(f, r.add_s(ys, r.mul_s(yk, ak))),
        );
        lemma_add_closed(r, zs, r.mul_s(zk, ak));
        lemma_add_closed(r, r.sub_s(xs, r.mul_s(f, ys)), term);
        lemma_sub_closed(r, r.add_s(xs, r.mul_s(xk, ak)), r.add_s(r.mul_s(f, ys), r.mul_s(f, r.mul_s(yk, ak))));
        lemma_sub_closed(r, r.add_s(xs, r.mul_s(xk, ak)), r.mul_s(f, r.add_s(ys, r.mul_s(yk, ak))));
        lemma_trans(
            r,
            r.add_s(zs, r.mul_s(zk, ak)),
            r.add_s(r.sub_s(xs, r.mul_s(f, ys)), term),
            r.sub_s(r.add_s(xs, r.mul_s(xk, ak)), r.add_s(r.mul_s(f, ys), r.mul_s(f, r.mul_s(yk, ak)))),
        );
        lemma_trans(
            r,
            r.add_s(zs, r.mul_s(zk, ak)),
            r.sub_s(r.add_s(xs, r.mul_s(xk, ak)), r.add_s(r.mul_s(f, ys), r.mul_s(f, r.mul_s(yk, ak)))),
            r.sub_s(r.add_s(xs, r.mul_s(xk, ak)), r.mul_s(f, r.add_s(ys, r.mul_s(yk, ak)))),
        );
    }
}

/// A row scaled by `s` on its right half multiplies out to `(x · a) · s`, in a
/// commutative ring.
pub proof fn lemma_right_times_scaled<R: Ring>(
    r: &R,
    x: Seq<R::M>,
    z: Seq<R::M>,
    s: R::M,
    a: Seq<Seq<R::M>>,
    c: int,
    n: nat,
    t: nat,
)
    requires
        ring_laws(r),
        commutative_laws(r),
        augmented_ok(r, x, a, n),
        augmented_ok(r, z, a, n),
        r.member(s),
        0 <= c < n,
        t <= n,
        forall|k: int| 0 <= k < n ==> #[trigger] r.eqv(z[n + k], r.mul_s(x[n + k], s)),
    ensures
        r.eqv(right_times(r, z, a, c, n, t), r.mul_s(right_times(r, x, a, c, n, t), s)),
    decreases t,
{
    lemma_ring_parts(r);
    let zero = r.zero_s();
    if t == 0 {
        lemma_zero_mul(r, s);
        lemma_mul_closed(r, zero, s);
        lemma_sym(r, r.mul_s(zero, s), zero);
    } else {
        let k = t - 1;
        let xs = right_times(r, x, a, c, n, (t - 1) as nat);
        let zs = right_times(r, z, a, c, n, (t - 1) as nat);
        let ak = a[k][c];
        let xk = x[n + k];
        let zk = z[n + k];
        lemma_right_times_scaled(r, x, z, s, a, c, n, (t - 1) as nat);
        lemma_right_times_member(r, x, a, c, n, (t - 1) as nat);
        lemma_right_times_member(r, z, a, c, n, (t - 1) as nat);
        assert(r.member(xk) && r.member(zk) && r.member(ak));
        assert(r.eqv(zk, r.mul_s(xk, s)));
        // zk · ak ~ (xk · s) · ak ~ xk · (s · ak) ~ xk · (ak · s) ~ (xk · ak) · s
        lemma_mul_closed(r, xk, s);
        lemma_refl(r, ak);
        lemma_mul_congruent(r, zk, r.mul_s(xk, s), ak, ak);
        lemma_mul_assoc(r, xk, s, ak);
        lemma_mul_comm(r, s, ak);
        lemma_mul_closed(r, s, ak);
        lemma_mul_closed(r, ak, s);
        lemma_refl(r, xk);
        lemma_mul_congruent(r, xk, xk, r.mul_s(s, ak), r.mul_s(ak, s));
        lemma_mul_assoc(r, xk, ak, s);
        lemma_mul_closed(r, xk, ak);
        lemma_mul_closed(r, r.mul_s(xk, ak), s);
        lemma_mul_closed(r, xk, r.mul_s(s, ak));
        lemma_mul_closed(r, xk, r.mul_s(ak, s));
        lemma_mul_closed(r, r.mul_s(xk, s), ak);
        lemma_mul_closed(r, zk, ak);
        lemma_sym(r, r.mul_s(r.mul_s(xk, ak), s), r.mul_s(xk, r.mul_s(ak, s)));
        lemma_trans(r, r.mul_s(zk, ak), r.mul_s(r.mul_s(xk, s), ak), r.mul_s(xk, r.mul_s(s, ak)));
        lemma_trans(r, r.mul_s(zk, ak), r.mul_s(xk, r.mul_s(s, ak)), r.mul_s(xk, r.mul_s(ak, s)));
        lemma_trans(r, r.mul_s(zk, ak), r.mul_s(xk, r.mul_s(ak, s)), r.mul_s(r.mul_s(xk, ak), s));
        // zs + zk·ak ~ xs·s + (xk·ak)·s ~ (xs + xk·ak)·s
        lemma_mul_closed(r, xs, s);
        lemma_add_congruent(r, zs, r.mul_s(xs, s), r.mul_s(zk, ak), r.mul_s(r.mul_s(xk, ak), s));
        lemma_distrib(r, xs, r.mul_s(xk, ak), s);
        lemma_add_closed(r, xs, r.mul_s(xk, ak));
        lemma_mul_closed(r, r.add_s(xs, r.mul_s(xk, ak)), s);
        lemma_add_closed(r, r.mul_s(xs, s), r.mul_s(r.mul_s(xk, ak), s));
        lemma_add_closed(r, zs, r.mul_s(zk, ak));
        lemma_sym(r, r.mul_s(r.add_s(xs, r.mul_s(xk, ak)), s), r.add_s(r.mul_s(xs, s), r.mul_s(r.mul_s(xk, ak), s)));
        lemma_trans(
            r,
            r.add_s(zs, r.mul_s(zk, ak)),
            r.add_s(r.mul_s(xs, s), r.mul_s(r.mul_s(xk, ak), s)),
            r.mul_s(r.add_s(xs, r.mul_s(xk, ak)), s),
        );
    }
}

/// Entry `(i, k)` of the identity: one on the diagonal, zero elsewhere.
pub open spec fn delta<R: Ring>(r: &R, i: int, k: int) -> R::M {
    if i == k {
        r.one_s()
    } else {
        r.zero_s()
    }
}

/// A right half that is row `i` of the identity picks out row `i` of `a`.
pub proof fn lemma_right_times_unit<R: Ring>(r: &R, row: Seq<R::M>, a: Seq<Seq<R::M>>, i: int, c: int, n: nat, t: nat)
    requires
        ring_laws(r),
        augmented_ok(r, row, a, n),
        0 <= i < n,
        0 <= c < n,
        t <= n,
        forall|k: int| 0 <= k < n ==> #[trigger] r.eqv(row[n + k], delta(r, i, k)),
    ensures
        r.eqv(right_times(r, row, a, c, n, t), if i < t { a[i][c] } else { r.zero_s() }),
    decreases t,
{
    lemma_ring_parts(r);
    let zero = r.zero_s();
    if t == 0 {
        lemma_refl(r, zero);
    } else {
        let k = t - 1;
        let prev = right_times(r, row, a, c, n, (t - 1) as nat);
        let target_prev = if i < t - 1 { a[i][c] } else { zero };
        let ak = a[k][c];
        lemma_right_times_unit(r, row, a, i, c, n, (t - 1) as nat);
        lemma_right_times_member(r, row, a, c, n, (t - 1) as nat);
        assert(r.member(row[n + k]) && r.member(ak));
        assert(r.member(a[i][c]));
        lemma_refl(r, ak);
        lemma_mul_closed(r, row[n + k], ak);
        assert(r.eqv(row[n + k], delta(r, i, k)));
        if k == i {
            // the term is 1 · a[i][c]
            lemma_mul_congruent(r, row[n + k], r.one_s(), ak, ak);
            lemma_mul_one(r, ak);
            lemma_mul_closed(r, r.one_s(), ak);
            lemma_trans(r, r.mul_s(row[n + k], ak), r.mul_s(r.one_s(), ak), ak);
            lemma_add_congruent(r, prev, zero, r.mul_s(row[n + k], ak), ak);
            lemma_add_zero(r, ak);
            lemma_add_closed(r, prev, r.mul_s(row[n + k], ak));
            lemma_add_closed(r, zero, ak);
            lemma_trans(r, r.add_s(prev, r.mul_s(row[n + k], ak)), r.add_s(zero, ak), ak);
        } else {
            // the term is 0 · a[k][c]
            lemma_mul_congruent(r, row[n + k], zero, ak, ak);
            lemma_zero_mul(r, ak);
            lemma_mul_closed(r, zero, ak);
            lemma_trans(r, r.mul_s(row[n + k], ak), r.mul_s(zero, ak), zero);
            lemma_add_congruent(r, prev, target_prev, r.mul_s(row[n + k], ak), zero);
            lemma_add_zero(r, target_prev);
            lemma_add_closed(r, prev, r.mul_s(row[n + k], ak));
            lemma_add_closed(r, target_prev, zero);
            lemma_trans(r, r.add_s(prev, r.mul_s(row[n + k], ak)), r.add_s(target_prev, zero), target_prev);
        }
    }
}

/// `x - 0 ~ x`.
pub proof fn lemma_sub_zero<R: Ring>(r: &R, x: R::M)
    requires
        ring_laws(r),
        r.member(x),
    ensures
        r.eqv(r.sub_s(x, r.zero_s()), x),
{
    lemma_ring_parts(r);
    crate::laws::lemma_group_additive(r);
    lemma_add_zero(r, x);
    crate::laws::lemma_sub_unique(r, x, x, r.zero_s());
    lemma_sub_closed(r, x, r.zero_s());
    lemma_sym(r, x, r.sub_s(x, r.zero_s()));
}

/// A row replaced by `x - f · y`, with `x` and `y` tracking, tracks.
pub proof fn lemma_combination_tracks<R: Ring>(
    r: &R,
    x: Seq<R::M>,
    y: Seq<R::M>,
    z: Seq<R::M>,
    f: R::M,
    a: Seq<Seq<R::M>>,
    n: nat,
)
    requires
        ring_laws(r),
        augmented_ok(r, x, a, n),
        augmented_ok(r, y, a, n),
        augmented_ok(r, z, a, n),
        r.member(f),
        row_tracks(r, x, a, n),
        row_tracks(r, y, a, n),
        forall|k: int| 0 <= k < n + n ==> #[trigger] r.eqv(z[k], r.sub_s(x[k], r.mul_s(f, y[k]))),
    ensures
        row_tracks(r, z, a, n),
{
    lemma_ring_parts(r);
    assert forall|k: int| 0 <= k < n implies #[trigger] r.eqv(z[n + k], r.sub_s(x[n + k], r.mul_s(f, y[n + k]))) by {
        assert(r.eqv(z[n + k], r.sub_s(x[n + k], r.mul_s(f, y[n + k]))));
    }
    assert forall|c: int| 0 <= c < n implies #[trigger] r.eqv(z[c], right_times(r, z, a, c, n, n)) by {
        let xs = right_times(r, x, a, c, n, n);
        let ys = right_times(r, y, a, c, n, n);
        let zs = right_times(r, z, a, c, n, n);
        lemma_right_times_combination(r, x, y, z, f, a, c, n, n);
        lemma_right_times_member(r, x, a, c, n, n);
        lemma_right_times_member(r, y, a, c, n, n);
        lemma_right_times_member(r, z, a, c, n, n);
        assert(r.eqv(z[c], r.sub_s(x[c], r.mul_s(f, y[c]))));
        assert(r.eqv(x[c], xs));
        assert(r.eqv(y[c], ys));
        assert(r.member(x[c]) && r.member(y[c]) && r.member(z[c]));
        lemma_refl(r, f);
        lemma_mul_congruent(r, f, f, y[c], ys);
        lemma_mul_closed(r, f, y[c]);
        lemma_mul_closed(r, f, ys);
        lemma_sub_congruent(r, x[c], xs, r.mul_s(f, y[c]), r.mul_s(f, ys));
        lemma_sub_closed(r, x[c], r.mul_s(f, y[c]));
        lemma_sub_closed(r, xs, r.mul_s(f, ys));
        lemma_trans(r, z[c], r.sub_s(x[c], r.mul_s(f, y[c])), r.sub_s(xs, r.mul_s(f, ys)));
        lemma_sym(r, zs, r.sub_s(xs, r.mul_s(f, ys)));
        lemma_trans(r, z[c], r.sub_s(xs, r.mul_s(f, ys)), zs);
    }
}

/// A tracking row scaled by `s` tracks, in a commutative ring.
pub proof fn lemma_scaled_tracks<R: Ring>(r: &R, x: Seq<R::M>, z: Seq<R::M>, s: R::M, a: Seq<Seq<R::M>>, n: nat)
    requires
        ring_laws(r),
        commutative_laws(r),
        augmented_ok(r, x, a, n),
        augmented_ok(r, z, a, n),
        r.member(s),
        row_tracks(r, x, a, n),
        forall|k: int| 0 <= k < n + n ==> #[trigger] r.eqv(z[k], r.mul_s(x[k], s)),
    ensures
        row_tracks(r, z, a, n),
{
    lemma_ring_parts(r);
    assert forall|k: int| 0 <= k < n implies #[trigger] r.eqv(z[n + k], r.mul_s(x[n + k], s)) by {
        assert(r.eqv(z[n + k], r.mul_s(x[n + k], s)));
    }
    assert forall|c: int| 0 <= c < n implies #[trigger] r.eqv(z[c], right_times(r, z, a, c, n, n)) by {
        let xs = right_times(r, x, a, c, n, n);
        let zs = right_times(r, z, a, c, n, n);
        lemma_right_times_scaled(r, x, z, s, a, c, n, n);
        lemma_right_times_member(r, x, a, c, n, n);
        lemma_right_times_member(r, z, a, c, n, n);
        assert(r.eqv(z[c], r.mul_s(x[c], s)));
        assert(r.eqv(x[c], xs));
        assert(r.member(x[c]) && r.member(z[c]));
        lemma_refl(r, s);
        lemma_mul_congruent(r, x[c], xs, s, s);
        lemma_mul_closed(r, x[c], s);
        lemma_mul_closed(r, xs, s);
        lemma_trans(r, z[c], r.mul_s(x[c], s), r.mul_s(xs, s));
        lemma_sym(r, zs, r.mul_s(xs, s));
        lemma_trans(r, z[c], r.mul_s(xs, s), zs);
    }
}

/// Row `i` of `[a | I]` tracks.
pub proof fn lemma_initial_tracks<R: Ring>(r: &R, row: Seq<R::M>, a: Seq<Seq<R::M>>, i: int, n: nat)
    requires
        ring_laws(r),
        augmented_ok(r, row, a, n),
        0 <= i < n,
        forall|c: int| 0 <= c < n ==> #[trigger] row[c] == a[i][c],
        forall|k: int| 0 <= k < n ==> #[trigger] r.eqv(row[n + k], delta(r, i, k)),
    ensures
        row_tracks(r, row, a, n),
{
    lemma_ring_parts(r);
    assert forall|c: int| 0 <= c < n implies #[trigger] r.eqv(row[c], right_times(r, row, a, c, n, n)) by {
        lemma_right_times_unit(r, row, a, i, c, n, n);
        lemma_right_times_member(r, row, a, c, n, n);
        assert(row[c] == a[i][c]);
        assert(r.member(a[i][c]));
        lemma_sym(r, right_times(r, row, a, c, n, n), a[i][c]);
    }
}

} // verus!
