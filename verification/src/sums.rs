//! Finite sums in a ring, and the rules for moving them around: congruence,
//! splitting, reindexing, exchanging two sums, and pulling a factor out.
//!
//! Every rule holds up to the ring's equality, for rings that obey `ring_laws`.

use crate::laws::{
    lemma_add_assoc, lemma_add_closed, lemma_add_comm, lemma_add_congruent, lemma_add_swap_middle,
    lemma_add_swap_right,
    lemma_add_zero, lemma_distrib, lemma_mul_closed, lemma_mul_congruent, lemma_mul_zero,
    lemma_refl, lemma_ring_parts, lemma_sym, lemma_trans, lemma_zero_mul, ring_laws,
};
use crate::structures::Ring;
use vstd::prelude::*;

verus! {

/// `f(0) + f(1) + ... + f(n - 1)`, added from the left; the empty sum is zero.
pub open spec fn sum_of<R: Ring>(r: &R, f: spec_fn(int) -> R::M, n: nat) -> R::M
    decreases n,
{
    if n == 0 {
        r.zero_s()
    } else {
        r.add_s(sum_of(r, f, (n - 1) as nat), f(n - 1))
    }
}

/// `f(0), ..., f(n - 1)` are members.
pub open spec fn members_upto<R: Ring>(r: &R, f: spec_fn(int) -> R::M, n: nat) -> bool {
    forall|i: int| 0 <= i < n ==> #[trigger] r.member(f(i))
}

/// A sum of members is a member.
pub proof fn lemma_sum_member<R: Ring>(r: &R, f: spec_fn(int) -> R::M, n: nat)
    requires
        ring_laws(r),
        members_upto(r, f, n),
    ensures
        r.member(sum_of(r, f, n)),
    decreases n,
{
    lemma_ring_parts(r);
    if n > 0 {
        lemma_sum_member(r, f, (n - 1) as nat);
        assert(r.member(f(n - 1)));
        lemma_add_closed(r, sum_of(r, f, (n - 1) as nat), f(n - 1));
    }
}

/// Sums of equal terms are equal.
pub proof fn lemma_sum_congruent<R: Ring>(r: &R, f: spec_fn(int) -> R::M, g: spec_fn(int) -> R::M, n: nat)
    requires
        ring_laws(r),
        members_upto(r, f, n),
        members_upto(r, g, n),
        forall|i: int| 0 <= i < n ==> r.eqv(#[trigger] f(i), g(i)),
    ensures
        r.eqv(sum_of(r, f, n), sum_of(r, g, n)),
    decreases n,
{
    lemma_ring_parts(r);
    if n == 0 {
        lemma_refl(r, r.zero_s());
    } else {
        lemma_sum_congruent(r, f, g, (n - 1) as nat);
        lemma_sum_member(r, f, (n - 1) as nat);
        lemma_sum_member(r, g, (n - 1) as nat);
        assert(r.member(f(n - 1)));
        assert(r.member(g(n - 1)));
        assert(r.eqv(f(n - 1), g(n - 1)));
        lemma_add_congruent(r, sum_of(r, f, (n - 1) as nat), sum_of(r, g, (n - 1) as nat), f(n - 1), g(n - 1));
    }
}

/// A sum of zeros is zero.
pub proof fn lemma_sum_zero<R: Ring>(r: &R, f: spec_fn(int) -> R::M, n: nat)
    requires
        ring_laws(r),
        members_upto(r, f, n),
        forall|i: int| 0 <= i < n ==> r.eqv(#[trigger] f(i), r.zero_s()),
    ensures
        r.eqv(sum_of(r, f, n), r.zero_s()),
    decreases n,
{
    lemma_ring_parts(r);
    if n == 0 {
        lemma_refl(r, r.zero_s());
    } else {
        let z = r.zero_s();
        let p = sum_of(r, f, (n - 1) as nat);
        lemma_sum_zero(r, f, (n - 1) as nat);
        lemma_sum_member(r, f, (n - 1) as nat);
        assert(r.member(f(n - 1)));
        assert(r.eqv(f(n - 1), z));
        lemma_add_congruent(r, p, z, f(n - 1), z);
        lemma_add_zero(r, z);
        lemma_add_closed(r, p, f(n - 1));
        lemma_add_closed(r, z, z);
        lemma_trans(r, r.add_s(p, f(n - 1)), r.add_s(z, z), z);
    }
}

/// The sum of pointwise sums is the sum of the two sums.
pub proof fn lemma_sum_add<R: Ring>(r: &R, f: spec_fn(int) -> R::M, g: spec_fn(int) -> R::M, n: nat)
    requires
        ring_laws(r),
        members_upto(r, f, n),
        members_upto(r, g, n),
    ensures
        r.eqv(sum_of(r, |i: int| r.add_s(f(i), g(i)), n), r.add_s(sum_of(r, f, n), sum_of(r, g, n))),
    decreases n,
{
    lemma_ring_parts(r);
    let h = |i: int| r.add_s(f(i), g(i));
    if n == 0 {
        lemma_add_zero(r, r.zero_s());
        lemma_add_closed(r, r.zero_s(), r.zero_s());
        lemma_sym(r, r.add_s(r.zero_s(), r.zero_s()), r.zero_s());
    } else {
        let m = (n - 1) as nat;
        lemma_sum_add(r, f, g, m);
        let sf = sum_of(r, f, m);
        let sg = sum_of(r, g, m);
        let sh = sum_of(r, h, m);
        let x = f(n - 1);
        let y = g(n - 1);
        assert(r.member(x));
        assert(r.member(y));
        assert forall|i: int| 0 <= i < m implies #[trigger] r.member(h(i)) by {
            assert(r.member(f(i)));
            assert(r.member(g(i)));
            lemma_add_closed(r, f(i), g(i));
        }
        lemma_sum_member(r, f, m);
        lemma_sum_member(r, g, m);
        lemma_sum_member(r, h, m);
        lemma_add_closed(r, x, y);
        lemma_add_closed(r, sf, sg);
        lemma_add_closed(r, sf, x);
        lemma_add_closed(r, sg, y);
        assert(sum_of(r, h, n) == r.add_s(sh, r.add_s(x, y)));
        lemma_refl(r, r.add_s(x, y));
        lemma_add_congruent(r, sh, r.add_s(sf, sg), r.add_s(x, y), r.add_s(x, y));
        lemma_add_swap_middle(r, sf, sg, x, y);
        lemma_add_closed(r, sh, r.add_s(x, y));
        lemma_add_closed(r, r.add_s(sf, sg), r.add_s(x, y));
        lemma_add_closed(r, r.add_s(sf, x), r.add_s(sg, y));
        lemma_trans(
            r,
            sum_of(r, h, n),
            r.add_s(r.add_s(sf, sg), r.add_s(x, y)),
            r.add_s(r.add_s(sf, x), r.add_s(sg, y)),
        );
    }
}

/// A factor on the left goes into every term.
pub proof fn lemma_sum_mul_left<R: Ring>(r: &R, c: R::M, f: spec_fn(int) -> R::M, n: nat)
    requires
        ring_laws(r),
        r.member(c),
        members_upto(r, f, n),
    ensures
        r.eqv(r.mul_s(c, sum_of(r, f, n)), sum_of(r, |i: int| r.mul_s(c, f(i)), n)),
    decreases n,
{
    lemma_ring_parts(r);
    let h = |i: int| r.mul_s(c, f(i));
    if n == 0 {
        lemma_mul_zero(r, c);
    } else {
        let m = (n - 1) as nat;
        lemma_sum_mul_left(r, c, f, m);
        let sf = sum_of(r, f, m);
        let sh = sum_of(r, h, m);
        let x = f(n - 1);
        assert(r.member(x));
        assert forall|i: int| 0 <= i < m implies #[trigger] r.member(h(i)) by {
            assert(r.member(f(i)));
            lemma_mul_closed(r, c, f(i));
        }
        lemma_sum_member(r, f, m);
        lemma_sum_member(r, h, m);
        lemma_mul_closed(r, c, sf);
        lemma_mul_closed(r, c, x);
        lemma_distrib(r, c, sf, x);
        lemma_refl(r, r.mul_s(c, x));
        lemma_add_congruent(r, r.mul_s(c, sf), sh, r.mul_s(c, x), r.mul_s(c, x));
        lemma_add_closed(r, sf, x);
        lemma_mul_closed(r, c, r.add_s(sf, x));
        lemma_add_closed(r, r.mul_s(c, sf), r.mul_s(c, x));
        lemma_add_closed(r, sh, r.mul_s(c, x));
        assert(sum_of(r, h, n) == r.add_s(sh, r.mul_s(c, x)));
        lemma_trans(
            r,
            r.mul_s(c, r.add_s(sf, x)),
            r.add_s(r.mul_s(c, sf), r.mul_s(c, x)),
            r.add_s(sh, r.mul_s(c, x)),
        );
    }
}

/// A factor on the right goes into every term.
pub proof fn lemma_sum_mul_right<R: Ring>(r: &R, f: spec_fn(int) -> R::M, c: R::M, n: nat)
    requires
        ring_laws(r),
        r.member(c),
        members_upto(r, f, n),
    ensures
        r.eqv(r.mul_s(sum_of(r, f, n), c), sum_of(r, |i: int| r.mul_s(f(i), c), n)),
    decreases n,
{
    lemma_ring_parts(r);
    let h = |i: int| r.mul_s(f(i), c);
    if n == 0 {
        lemma_zero_mul(r, c);
    } else {
        let m = (n - 1) as nat;
        lemma_sum_mul_right(r, f, c, m);
        let sf = sum_of(r, f, m);
        let sh = sum_of(r, h, m);
        let x = f(n - 1);
        assert(r.member(x));
        assert forall|i: int| 0 <= i < m implies #[trigger] r.member(h(i)) by {
            assert(r.member(f(i)));
            lemma_mul_closed(r, f(i), c);
        }
        lemma_sum_member(r, f, m);
        lemma_sum_member(r, h, m);
        lemma_mul_closed(r, sf, c);
        lemma_mul_closed(r, x, c);
        lemma_distrib(r, sf, x, c);
        lemma_refl(r, r.mul_s(x, c));
        lemma_add_congruent(r, r.mul_s(sf, c), sh, r.mul_s(x, c), r.mul_s(x, c));
        lemma_add_closed(r, sf, x);
        lemma_mul_closed(r, r.add_s(sf, x), c);
        lemma_add_closed(r, r.mul_s(sf, c), r.mul_s(x, c));
        lemma_add_closed(r, sh, r.mul_s(x, c));
        assert(sum_of(r, h, n) == r.add_s(sh, r.mul_s(x, c)));
        lemma_trans(
            r,
            r.mul_s(r.add_s(sf, x), c),
            r.add_s(r.mul_s(sf, c), r.mul_s(x, c)),
            r.add_s(sh, r.mul_s(x, c)),
        );
    }
}

/// The sum over `m + l` terms is the sum of the first `m` plus the sum of the rest.
pub proof fn lemma_sum_split<R: Ring>(r: &R, f: spec_fn(int) -> R::M, m: nat, l: nat)
    requires
        ring_laws(r),
        members_upto(r, f, m + l),
    ensures
        r.eqv(sum_of(r, f, m + l), r.add_s(sum_of(r, f, m), sum_of(r, |q: int| f(m + q), l))),
    decreases l,
{
    lemma_ring_parts(r);
    let g = |q: int| f(m + q);
    assert forall|i: int| 0 <= i < m implies #[trigger] r.member(f(i)) by {
    }
    lemma_sum_member(r, f, m);
    let sm = sum_of(r, f, m);
    if l == 0 {
        lemma_add_zero(r, sm);
        lemma_add_closed(r, sm, r.zero_s());
        lemma_sym(r, r.add_s(sm, r.zero_s()), sm);
    } else {
        let k = (l - 1) as nat;
        lemma_sum_split(r, f, m, k);
        assert forall|q: int| 0 <= q < l implies #[trigger] r.member(g(q)) by {
            assert(r.member(f(m + q)));
        }
        assert forall|i: int| 0 <= i < m + k implies #[trigger] r.member(f(i)) by {
        }
        lemma_sum_member(r, f, m + k);
        lemma_sum_member(r, g, k);
        let p = sum_of(r, f, m + k);
        let t = sum_of(r, g, k);
        let x = f((m + k) as int);
        assert(r.member(x));
        assert(sum_of(r, f, m + l) == r.add_s(p, x));
        assert(sum_of(r, g, l) == r.add_s(t, g(k as int)));
        lemma_refl(r, x);
        lemma_add_closed(r, sm, t);
        lemma_add_congruent(r, p, r.add_s(sm, t), x, x);
        lemma_add_assoc(r, sm, t, x);
        lemma_add_closed(r, p, x);
        lemma_add_closed(r, r.add_s(sm, t), x);
        lemma_add_closed(r, t, x);
        lemma_add_closed(r, sm, r.add_s(t, x));
        lemma_trans(r, r.add_s(p, x), r.add_s(r.add_s(sm, t), x), r.add_s(sm, r.add_s(t, x)));
    }
}

/// Zero terms past `m` do not change a sum.
pub proof fn lemma_sum_extend<R: Ring>(r: &R, f: spec_fn(int) -> R::M, m: nat, n: nat)
    requires
        ring_laws(r),
        m <= n,
        members_upto(r, f, n),
        forall|i: int| m <= i < n ==> r.eqv(#[trigger] f(i), r.zero_s()),
    ensures
        r.eqv(sum_of(r, f, n), sum_of(r, f, m)),
    decreases n,
{
    lemma_ring_parts(r);
    if n == m {
        lemma_sum_member(r, f, n);
        lemma_refl(r, sum_of(r, f, n));
    } else {
        let k = (n - 1) as nat;
        assert forall|i: int| 0 <= i < k implies #[trigger] r.member(f(i)) by {
        }
        lemma_sum_extend(r, f, m, k);
        lemma_sum_member(r, f, k);
        assert forall|i: int| 0 <= i < m implies #[trigger] r.member(f(i)) by {
        }
        lemma_sum_member(r, f, m);
        let p = sum_of(r, f, k);
        let x = f(k as int);
        assert(r.member(x));
        assert(r.eqv(x, r.zero_s()));
        lemma_refl(r, p);
        lemma_add_congruent(r, p, p, x, r.zero_s());
        lemma_add_zero(r, p);
        lemma_add_closed(r, p, x);
        lemma_add_closed(r, p, r.zero_s());
        lemma_trans(r, r.add_s(p, x), r.add_s(p, r.zero_s()), p);
        lemma_trans(r, r.add_s(p, x), p, sum_of(r, f, m));
    }
}

/// Reindexing: when the terms below `i` and the terms from `n` to `i + n` are zero,
/// the sum of the first `n` terms is the sum of `n` terms starting at `i`.
pub proof fn lemma_sum_shift<R: Ring>(r: &R, f: spec_fn(int) -> R::M, i: nat, n: nat)
    requires
        ring_laws(r),
        members_upto(r, f, i + n),
        forall|j: int| 0 <= j < i ==> r.eqv(#[trigger] f(j), r.zero_s()),
        forall|j: int| n <= j < i + n ==> r.eqv(#[trigger] f(j), r.zero_s()),
    ensures
        r.eqv(sum_of(r, f, n), sum_of(r, |q: int| f(i + q), n)),
{
    lemma_ring_parts(r);
    let g = |q: int| f(i + q);
    let z = r.zero_s();
    lemma_sum_split(r, f, i, n);
    assert forall|j: int| 0 <= j < i implies #[trigger] r.member(f(j)) by {
    }
    assert forall|j: int| 0 <= j < n implies #[trigger] r.member(f(j)) by {
    }
    assert forall|q: int| 0 <= q < n implies #[trigger] r.member(g(q)) by {
        assert(r.member(f(i + q)));
    }
    lemma_sum_zero(r, f, i);
    lemma_sum_extend(r, f, n, i + n);
    lemma_sum_member(r, f, i);
    lemma_sum_member(r, f, n);
    lemma_sum_member(r, f, i + n);
    lemma_sum_member(r, g, n);
    let t = sum_of(r, g, n);
    lemma_refl(r, t);
    lemma_add_congruent(r, sum_of(r, f, i), z, t, t);
    lemma_add_zero(r, t);
    lemma_add_closed(r, sum_of(r, f, i), t);
    lemma_add_closed(r, z, t);
    lemma_trans(r, sum_of(r, f, i + n), r.add_s(sum_of(r, f, i), t), r.add_s(z, t));
    lemma_trans(r, sum_of(r, f, i + n), r.add_s(z, t), t);
    lemma_sym(r, sum_of(r, f, i + n), sum_of(r, f, n));
    lemma_trans(r, sum_of(r, f, n), sum_of(r, f, i + n), t);
}

/// A nonempty sum is its first term plus the sum of the others.
pub proof fn lemma_sum_first<R: Ring>(r: &R, f: spec_fn(int) -> R::M, n: nat)
    requires
        ring_laws(r),
        n >= 1,
        members_upto(r, f, n),
    ensures
        r.eqv(sum_of(r, f, n), r.add_s(f(0), sum_of(r, |q: int| f(1 + q), (n - 1) as nat))),
{
    lemma_ring_parts(r);
    let g = |q: int| f(1 + q);
    let k = (n - 1) as nat;
    lemma_sum_split(r, f, 1, k);
    assert(r.member(f(0)));
    assert forall|q: int| 0 <= q < k implies #[trigger] r.member(g(q)) by {
        assert(r.member(f(1 + q)));
    }
    lemma_sum_member(r, g, k);
    let t = sum_of(r, g, k);
    assert(sum_of(r, f, 0) == r.zero_s());
    assert(sum_of(r, f, 1) == r.add_s(r.zero_s(), f(0)));
    lemma_add_zero(r, f(0));
    lemma_refl(r, t);
    lemma_add_closed(r, r.zero_s(), f(0));
    lemma_add_congruent(r, sum_of(r, f, 1), f(0), t, t);
    lemma_sum_member(r, f, n);
    lemma_add_closed(r, sum_of(r, f, 1), t);
    lemma_add_closed(r, f(0), t);
    lemma_trans(r, sum_of(r, f, n), r.add_s(sum_of(r, f, 1), t), r.add_s(f(0), t));
}

/// A sum read backwards is the same sum.
pub proof fn lemma_sum_reverse<R: Ring>(r: &R, f: spec_fn(int) -> R::M, n: nat)
    requires
        ring_laws(r),
        members_upto(r, f, n),
    ensures
        r.eqv(sum_of(r, f, n), sum_of(r, |i: int| f(n - 1 - i), n)),
    decreases n,
{
    lemma_ring_parts(r);
    let b = |i: int| f(n - 1 - i);
    if n == 0 {
        lemma_refl(r, r.zero_s());
    } else {
        let k = (n - 1) as nat;
        assert forall|i: int| 0 <= i < k implies #[trigger] r.member(f(i)) by {
        }
        lemma_sum_reverse(r, f, k);
        let c = |i: int| f(k - 1 - i);
        assert forall|i: int| 0 <= i < n implies #[trigger] r.member(b(i)) by {
            assert(r.member(f(n - 1 - i)));
        }
        lemma_sum_first(r, b, n);
        assert((|q: int| b(1 + q)) =~= c);
        assert forall|i: int| 0 <= i < k implies #[trigger] r.member(c(i)) by {
            assert(r.member(f(k - 1 - i)));
        }
        lemma_sum_member(r, f, k);
        lemma_sum_member(r, c, k);
        let p = sum_of(r, f, k);
        let q = sum_of(r, c, k);
        let x = f(k as int);
        assert(r.member(x));
        assert(b(0) == x);
        // p + x ~ q + x ~ x + q ~ sum of b
        lemma_refl(r, x);
        lemma_add_congruent(r, p, q, x, x);
        lemma_add_comm(r, q, x);
        lemma_add_closed(r, p, x);
        lemma_add_closed(r, q, x);
        lemma_add_closed(r, x, q);
        lemma_sum_member(r, b, n);
        lemma_trans(r, r.add_s(p, x), r.add_s(q, x), r.add_s(x, q));
        lemma_sym(r, sum_of(r, b, n), r.add_s(x, q));
        lemma_trans(r, r.add_s(p, x), r.add_s(x, q), sum_of(r, b, n));
    }
}

/// Two sums over a rectangle can be taken in either order.
pub proof fn lemma_sum_swap<R: Ring>(r: &R, f: spec_fn(int, int) -> R::M, m: nat, n: nat)
    requires
        ring_laws(r),
        forall|i: int, j: int| 0 <= i < m && 0 <= j < n ==> #[trigger] r.member(f(i, j)),
    ensures
        r.eqv(
            sum_of(r, |i: int| sum_of(r, |j: int| f(i, j), n), m),
            sum_of(r, |j: int| sum_of(r, |i: int| f(i, j), m), n),
        ),
    decreases m,
{
    lemma_ring_parts(r);
    let rows = |i: int| sum_of(r, |j: int| f(i, j), n);
    let cols = |j: int| sum_of(r, |i: int| f(i, j), m);
    if m == 0 {
        assert forall|j: int| 0 <= j < n implies r.eqv(#[trigger] cols(j), r.zero_s()) by {
            lemma_refl(r, r.zero_s());
        }
        assert forall|j: int| 0 <= j < n implies #[trigger] r.member(cols(j)) by {
        }
        lemma_sum_zero(r, cols, n);
        lemma_sum_member(r, cols, n);
        lemma_sym(r, sum_of(r, cols, n), r.zero_s());
    } else {
        let k = (m - 1) as nat;
        lemma_sum_swap(r, f, k, n);
        let rows_k = |i: int| sum_of(r, |j: int| f(i, j), n);
        let cols_k = |j: int| sum_of(r, |i: int| f(i, j), k);
        let last = |j: int| f(k as int, j);
        assert forall|i: int| 0 <= i < m implies #[trigger] r.member(rows(i)) by {
            let fi = |j: int| f(i, j);
            assert forall|j: int| 0 <= j < n implies #[trigger] r.member(fi(j)) by {
                assert(r.member(f(i, j)));
            }
            lemma_sum_member(r, fi, n);
        }
        assert forall|j: int| 0 <= j < n implies #[trigger] r.member(cols_k(j)) by {
            let fj = |i: int| f(i, j);
            assert forall|i: int| 0 <= i < k implies #[trigger] r.member(fj(i)) by {
                assert(r.member(f(i, j)));
            }
            lemma_sum_member(r, fj, k);
        }
        assert forall|j: int| 0 <= j < n implies #[trigger] r.member(last(j)) by {
            assert(r.member(f(k as int, j)));
        }
        assert forall|j: int| 0 <= j < n implies #[trigger] r.member(cols(j)) by {
            assert(cols(j) == r.add_s(cols_k(j), last(j)));
            lemma_add_closed(r, cols_k(j), last(j));
        }
        assert forall|i: int| 0 <= i < k implies #[trigger] r.member(rows_k(i)) by {
            assert(rows_k(i) == rows(i));
        }
        lemma_sum_member(r, rows, k);
        lemma_sum_member(r, cols_k, n);
        lemma_sum_member(r, last, n);
        lemma_sum_member(r, cols, n);
        // sum over m rows = (sum over k rows) + last row
        let a = sum_of(r, rows, k);
        let b = sum_of(r, cols_k, n);
        let l = sum_of(r, last, n);
        assert(sum_of(r, rows, k) == sum_of(r, rows_k, k)) by {
            assert(rows =~= rows_k);
        }
        assert(rows(k as int) == l) by {
            assert((|j: int| f(k as int, j)) =~= last);
        }
        assert(sum_of(r, rows, m) == r.add_s(a, l));
        lemma_refl(r, l);
        lemma_add_congruent(r, a, b, l, l);
        // (sum of cols_k) + (sum of last) ~ sum of (cols_k + last) = sum of cols
        lemma_sum_add(r, cols_k, last, n);
        let both = |j: int| r.add_s(cols_k(j), last(j));
        assert(both =~= cols);
        lemma_sum_member(r, both, n);
        lemma_add_closed(r, a, l);
        lemma_add_closed(r, b, l);
        lemma_sym(r, sum_of(r, both, n), r.add_s(b, l));
        lemma_trans(r, r.add_s(a, l), r.add_s(b, l), sum_of(r, cols, n));
    }
}

/// The sums of the rows of `f`, each over `n` terms.
pub open spec fn row_sums<R: Ring>(r: &R, f: spec_fn(int, int) -> R::M, n: nat) -> spec_fn(int) -> R::M {
    |i: int| sum_of(r, |j: int| f(i, j), n)
}

/// `sum_{i < m} sum_{j < n} f(i, j)`.
pub open spec fn double_sum<R: Ring>(r: &R, f: spec_fn(int, int) -> R::M, m: nat, n: nat) -> R::M {
    sum_of(r, row_sums(r, f, n), m)
}

/// `f` with its two arguments exchanged.
pub open spec fn flip<M>(f: spec_fn(int, int) -> M) -> spec_fn(int, int) -> M {
    |j: int, i: int| f(i, j)
}

/// `sum_{i < m} sum_{j < n} f(i, j) ~ sum_{j < n} sum_{i < m} f(i, j)`.
pub proof fn lemma_double_sum_swap<R: Ring>(r: &R, f: spec_fn(int, int) -> R::M, m: nat, n: nat)
    requires
        ring_laws(r),
        forall|i: int, j: int| 0 <= i < m && 0 <= j < n ==> #[trigger] r.member(f(i, j)),
    ensures
        r.eqv(double_sum(r, f, m, n), double_sum(r, flip(f), n, m)),
{
    lemma_sum_swap(r, f, m, n);
    assert(row_sums(r, f, n) =~= (|i: int| sum_of(r, |j: int| f(i, j), n)));
    assert forall|j: int| #[trigger] row_sums(r, flip(f), m)(j) == (|j: int| sum_of(r, |i: int| f(i, j), m))(j) by {
        assert((|i: int| flip(f)(j, i)) =~= (|i: int| f(i, j)));
    }
    assert(row_sums(r, flip(f), m) =~= (|j: int| sum_of(r, |i: int| f(i, j), m)));
}

/// A sum whose only nonzero term is at `i` is that term.
pub proof fn lemma_sum_single<R: Ring>(r: &R, f: spec_fn(int) -> R::M, n: nat, i: int)
    requires
        ring_laws(r),
        0 <= i < n,
        members_upto(r, f, n),
        forall|k: int| 0 <= k < n && k != i ==> r.eqv(#[trigger] f(k), r.zero_s()),
    ensures
        r.eqv(sum_of(r, f, n), f(i)),
{
    lemma_ring_parts(r);
    let z = r.zero_s();
    let m = i as nat;
    let l = (n - i) as nat;
    let g = |q: int| f(m + q);
    lemma_sum_split(r, f, m, l);
    assert forall|k: int| 0 <= k < m implies #[trigger] r.member(f(k)) by {
    }
    assert forall|k: int| 0 <= k < m implies r.eqv(#[trigger] f(k), z) by {
    }
    lemma_sum_zero(r, f, m);
    assert forall|q: int| 0 <= q < l implies #[trigger] r.member(g(q)) by {
        assert(r.member(f(m + q)));
    }
    lemma_sum_first(r, g, l);
    let h = |q: int| g(1 + q);
    assert forall|q: int| 0 <= q < l - 1 implies #[trigger] r.member(h(q)) by {
        assert(r.member(f(m + (1 + q))));
    }
    assert forall|q: int| 0 <= q < l - 1 implies r.eqv(#[trigger] h(q), z) by {
        assert(r.eqv(f(m + (1 + q)), z));
    }
    lemma_sum_zero(r, h, (l - 1) as nat);
    let x = f(i);
    assert(g(0) == x);
    assert(r.member(x));
    let sm = sum_of(r, f, m);
    let sg = sum_of(r, g, l);
    let sh = sum_of(r, h, (l - 1) as nat);
    lemma_sum_member(r, f, m);
    lemma_sum_member(r, g, l);
    lemma_sum_member(r, h, (l - 1) as nat);
    lemma_sum_member(r, f, n);
    lemma_refl(r, x);
    lemma_add_congruent(r, x, x, sh, z);
    lemma_add_zero(r, x);
    lemma_add_closed(r, x, sh);
    lemma_add_closed(r, x, z);
    lemma_trans(r, sg, r.add_s(x, sh), r.add_s(x, z));
    lemma_trans(r, sg, r.add_s(x, z), x);
    lemma_add_congruent(r, sm, z, sg, x);
    lemma_add_closed(r, sm, sg);
    lemma_add_closed(r, z, x);
    assert(m + l == n);
    lemma_trans(r, sum_of(r, f, n), r.add_s(sm, sg), r.add_s(z, x));
    lemma_trans(r, sum_of(r, f, n), r.add_s(z, x), x);
}

/// A sum over `2·n` terms is the sum of the even-indexed terms plus the sum of the
/// odd-indexed ones.
pub proof fn lemma_sum_even_odd<R: Ring>(r: &R, f: spec_fn(int) -> R::M, n: nat)
    requires
        ring_laws(r),
        members_upto(r, f, 2 * n),
    ensures
        r.eqv(sum_of(r, f, 2 * n), r.add_s(sum_of(r, |m: int| f(2 * m), n), sum_of(r, |m: int| f(2 * m + 1), n))),
    decreases n,
{
    lemma_ring_parts(r);
    let fe = |m: int| f(2 * m);
    let fo = |m: int| f(2 * m + 1);
    if n == 0 {
        lemma_add_zero(r, r.zero_s());
        lemma_add_closed(r, r.zero_s(), r.zero_s());
        lemma_sym(r, r.add_s(r.zero_s(), r.zero_s()), r.zero_s());
    } else {
        let k = (n - 1) as nat;
        assert forall|i: int| 0 <= i < 2 * k implies #[trigger] r.member(f(i)) by {
        }
        lemma_sum_even_odd(r, f, k);
        assert forall|m: int| 0 <= m < n implies #[trigger] r.member(fe(m)) by {
            assert(r.member(f(2 * m)));
        }
        assert forall|m: int| 0 <= m < n implies #[trigger] r.member(fo(m)) by {
            assert(r.member(f(2 * m + 1)));
        }
        let a = f(2 * (k as int));
        let b = f(2 * (k as int) + 1);
        assert(r.member(a));
        assert(r.member(b));
        let s = sum_of(r, f, 2 * k);
        let e = sum_of(r, fe, k);
        let o = sum_of(r, fo, k);
        assert(sum_of(r, f, 2 * k + 1) == r.add_s(s, a));
        assert(sum_of(r, f, 2 * n) == r.add_s(r.add_s(s, a), b));
        assert(sum_of(r, fe, n) == r.add_s(e, a));
        assert(sum_of(r, fo, n) == r.add_s(o, b));
        assert forall|i: int| 0 <= i < 2 * k implies #[trigger] r.member(f(i)) by {
        }
        lemma_sum_member(r, f, 2 * k);
        lemma_sum_member(r, fe, k);
        lemma_sum_member(r, fo, k);
        lemma_add_closed(r, e, o);
        lemma_add_closed(r, s, a);
        lemma_add_closed(r, a, b);
        lemma_add_closed(r, e, a);
        lemma_add_closed(r, o, b);
        // ((s + a) + b) ~ s + (a + b) ~ (e + o) + (a + b) ~ (e + a) + (o + b)
        lemma_add_assoc(r, s, a, b);
        lemma_refl(r, r.add_s(a, b));
        lemma_add_congruent(r, s, r.add_s(e, o), r.add_s(a, b), r.add_s(a, b));
        lemma_add_swap_middle(r, e, o, a, b);
        lemma_add_closed(r, r.add_s(s, a), b);
        lemma_add_closed(r, s, r.add_s(a, b));
        lemma_add_closed(r, r.add_s(e, o), r.add_s(a, b));
        lemma_add_closed(r, r.add_s(e, a), r.add_s(o, b));
        lemma_trans(r, r.add_s(r.add_s(s, a), b), r.add_s(s, r.add_s(a, b)), r.add_s(r.add_s(e, o), r.add_s(a, b)));
        lemma_trans(r, r.add_s(r.add_s(s, a), b), r.add_s(r.add_s(e, o), r.add_s(a, b)), r.add_s(r.add_s(e, a), r.add_s(o, b)));
    }
}

/// Changing one term of a sum changes the sum by the difference.
pub proof fn lemma_sum_change_one<R: Ring>(r: &R, f: spec_fn(int) -> R::M, g: spec_fn(int) -> R::M, n: nat, p: int)
    requires
        ring_laws(r),
        0 <= p < n,
        members_upto(r, f, n),
        members_upto(r, g, n),
        forall|k: int| 0 <= k < n && k != p ==> r.eqv(#[trigger] f(k), g(k)),
    ensures
        r.eqv(sum_of(r, f, n), r.add_s(sum_of(r, g, n), r.sub_s(f(p), g(p)))),
    decreases n,
{
    lemma_ring_parts(r);
    let k = (n - 1) as nat;
    assert(r.member(f(p)) && r.member(g(p)));
    let d = r.sub_s(f(p), g(p));
    crate::laws::lemma_sub_closed(r, f(p), g(p));
    assert forall|i: int| 0 <= i < k implies #[trigger] r.member(f(i)) by {
    }
    assert forall|i: int| 0 <= i < k implies #[trigger] r.member(g(i)) by {
    }
    lemma_sum_member(r, f, k);
    lemma_sum_member(r, g, k);
    let sf = sum_of(r, f, k);
    let sg = sum_of(r, g, k);
    let x = f(k as int);
    let y = g(k as int);
    assert(r.member(x) && r.member(y));
    lemma_add_closed(r, sf, x);
    lemma_add_closed(r, sg, y);
    lemma_add_closed(r, r.add_s(sg, y), d);
    if p == k {
        // the changed term is the last one
        assert forall|i: int| 0 <= i < k implies r.eqv(#[trigger] f(i), g(i)) by {
        }
        lemma_sum_congruent(r, f, g, k);
        // (sg + y) + d ~ sg + (y + d) ~ sg + x
        lemma_add_assoc(r, sg, y, d);
        lemma_add_comm(r, y, d);
        crate::laws::lemma_sub_add(r, x, y);
        lemma_add_closed(r, y, d);
        lemma_add_closed(r, d, y);
        lemma_trans(r, r.add_s(y, d), r.add_s(d, y), x);
        lemma_refl(r, sg);
        lemma_add_congruent(r, sg, sg, r.add_s(y, d), x);
        lemma_add_closed(r, sg, r.add_s(y, d));
        lemma_add_closed(r, sg, x);
        lemma_trans(r, r.add_s(r.add_s(sg, y), d), r.add_s(sg, r.add_s(y, d)), r.add_s(sg, x));
        lemma_refl(r, x);
        lemma_add_congruent(r, sf, sg, x, x);
        lemma_sym(r, r.add_s(r.add_s(sg, y), d), r.add_s(sg, x));
        lemma_trans(r, r.add_s(sf, x), r.add_s(sg, x), r.add_s(r.add_s(sg, y), d));
    } else {
        lemma_sum_change_one(r, f, g, k, p);
        // sf + x ~ (sg + d) + x ~ (sg + x) + d ~ (sg + y) + d
        lemma_add_closed(r, sg, d);
        lemma_refl(r, x);
        lemma_add_congruent(r, sf, r.add_s(sg, d), x, x);
        lemma_add_swap_right(r, sg, d, x);
        lemma_add_closed(r, r.add_s(sg, d), x);
        lemma_add_closed(r, sg, x);
        lemma_add_closed(r, r.add_s(sg, x), d);
        lemma_refl(r, d);
        assert(r.eqv(x, y));
        lemma_refl(r, sg);
        lemma_add_congruent(r, sg, sg, x, y);
        lemma_add_congruent(r, r.add_s(sg, x), r.add_s(sg, y), d, d);
        lemma_trans(r, r.add_s(sf, x), r.add_s(r.add_s(sg, d), x), r.add_s(r.add_s(sg, x), d));
        lemma_trans(r, r.add_s(sf, x), r.add_s(r.add_s(sg, x), d), r.add_s(r.add_s(sg, y), d));
    }
}

/// Changing two terms of a sum while keeping their total keeps the sum.
pub proof fn lemma_sum_change_two<R: Ring>(r: &R, f: spec_fn(int) -> R::M, g: spec_fn(int) -> R::M, n: nat, p: int, q: int)
    requires
        ring_laws(r),
        0 <= p < n,
        0 <= q < n,
        p != q,
        members_upto(r, f, n),
        members_upto(r, g, n),
        forall|k: int| 0 <= k < n && k != p && k != q ==> r.eqv(#[trigger] f(k), g(k)),
        r.eqv(r.add_s(f(p), f(q)), r.add_s(g(p), g(q))),
    ensures
        r.eqv(sum_of(r, f, n), sum_of(r, g, n)),
{
    lemma_ring_parts(r);
    let h = |k: int| if k == q { g(q) } else { f(k) };
    assert forall|k: int| 0 <= k < n implies #[trigger] r.member(h(k)) by {
        assert(r.member(f(k)) && r.member(g(k)));
    }
    assert forall|k: int| 0 <= k < n && k != q implies r.eqv(#[trigger] f(k), h(k)) by {
        assert(r.member(f(k)));
        lemma_refl(r, f(k));
    }
    assert forall|k: int| 0 <= k < n && k != p implies r.eqv(#[trigger] h(k), g(k)) by {
        assert(r.member(g(k)));
        if k == q {
            lemma_refl(r, g(k));
        }
    }
    lemma_sum_change_one(r, f, h, n, q);
    lemma_sum_change_one(r, h, g, n, p);
    let (fp, fq, gp, gq) = (f(p), f(q), g(p), g(q));
    assert(r.member(fp) && r.member(fq) && r.member(gp) && r.member(gq));
    let d1 = r.sub_s(fq, gq);
    let d2 = r.sub_s(fp, gp);
    crate::laws::lemma_sub_closed(r, fq, gq);
    crate::laws::lemma_sub_closed(r, fp, gp);
    lemma_sum_member(r, f, n);
    lemma_sum_member(r, g, n);
    lemma_sum_member(r, h, n);
    let sg = sum_of(r, g, n);
    let sh = sum_of(r, h, n);
    // sum f ~ sh + d1 ~ (sg + d2) + d1 ~ sg + (d2 + d1) ~ sg + 0 ~ sg
    lemma_refl(r, d1);
    lemma_add_closed(r, sg, d2);
    lemma_add_congruent(r, sh, r.add_s(sg, d2), d1, d1);
    lemma_add_assoc(r, sg, d2, d1);
    crate::laws::lemma_sub_add_sub(r, fp, gp, fq, gq);
    lemma_add_closed(r, fp, fq);
    lemma_add_closed(r, gp, gq);
    lemma_refl(r, r.add_s(gp, gq));
    crate::laws::lemma_sub_congruent(r, r.add_s(fp, fq), r.add_s(gp, gq), r.add_s(gp, gq), r.add_s(gp, gq));
    crate::laws::lemma_sub_self(r, r.add_s(gp, gq));
    lemma_add_closed(r, d2, d1);
    crate::laws::lemma_sub_closed(r, r.add_s(fp, fq), r.add_s(gp, gq));
    crate::laws::lemma_sub_closed(r, r.add_s(gp, gq), r.add_s(gp, gq));
    lemma_trans(r, r.add_s(d2, d1), r.sub_s(r.add_s(fp, fq), r.add_s(gp, gq)), r.sub_s(r.add_s(gp, gq), r.add_s(gp, gq)));
    lemma_trans(r, r.add_s(d2, d1), r.sub_s(r.add_s(gp, gq), r.add_s(gp, gq)), r.zero_s());
    lemma_refl(r, sg);
    lemma_add_congruent(r, sg, sg, r.add_s(d2, d1), r.zero_s());
    lemma_add_zero(r, sg);
    lemma_add_closed(r, sh, d1);
    lemma_add_closed(r, r.add_s(sg, d2), d1);
    lemma_add_closed(r, sg, r.add_s(d2, d1));
    lemma_add_closed(r, sg, r.zero_s());
    let sf = sum_of(r, f, n);
    lemma_trans(r, sf, r.add_s(sh, d1), r.add_s(r.add_s(sg, d2), d1));
    lemma_trans(r, sf, r.add_s(r.add_s(sg, d2), d1), r.add_s(sg, r.add_s(d2, d1)));
    lemma_trans(r, sf, r.add_s(sg, r.add_s(d2, d1)), r.add_s(sg, r.zero_s()));
    lemma_trans(r, sf, r.add_s(sg, r.zero_s()), sg);
}

} // verus!
