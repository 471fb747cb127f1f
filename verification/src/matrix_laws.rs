//! The `n × n` matrices over a ring form a ring, under entry-wise equality.
//!
//! An entry of a product is the finite sum `sum_k a[i][k] · b[k][j]`; the laws
//! follow from the rules for finite sums in `sums`. The row operations of
//! Gauss-Jordan elimination are undone by column operations, which is what makes
//! an inverse found by elimination two-sided, and a column that elimination cannot
//! clear shows that no left inverse exists.

use crate::laws::{
    additive_laws, equivalence, group_laws, lemma_add_assoc, lemma_add_closed, lemma_add_comm,
    lemma_add_congruent, lemma_add_zero, lemma_distrib, lemma_mul_assoc, lemma_mul_closed,
    lemma_mul_congruent, lemma_mul_one, lemma_mul_zero, lemma_refl, lemma_ring_parts,
    lemma_sub_add, lemma_sub_closed, lemma_sub_congruent, lemma_sym, lemma_trans, lemma_zero_mul,
    monoid_laws, ring_laws, semigroup_laws,
};
use crate::elimination::delta;
use crate::matrices::{
    dot, fill_s, grid_add, grid_eqv, grid_mul, grid_sub, identity_grid, square_members, MatrixRing,
};
use crate::structures::{
    AdditiveGroup, CommutativeMonoid, DecidableEq, Domain, Monoid, Ring, Semigroup,
};
use crate::sums::{
    double_sum, flip, lemma_double_sum_swap, lemma_sum_add, lemma_sum_congruent, lemma_sum_member,
    lemma_sum_change_two, lemma_sum_mul_left, lemma_sum_mul_right, lemma_sum_single, lemma_sum_zero,
    row_sums, sum_of,
};
use std::rc::Rc;
use vstd::prelude::*;

verus! {

/// The terms `a[i][k] · b[k][j]` of the entry `(i, j)` of `a · b`.
pub open spec fn entry_term<R: Ring>(r: &R, a: Seq<Seq<R::M>>, b: Seq<Seq<R::M>>, i: int, j: int) -> spec_fn(int) -> R::M {
    |k: int| r.mul_s(a[i][k], b[k][j])
}

/// The dot product is the plain sum of its terms.
pub proof fn lemma_dot_sum<R: Ring>(r: &R, a: Seq<Seq<R::M>>, b: Seq<Seq<R::M>>, i: int, j: int, t: nat)
    ensures
        dot(r, a, b, i, j, t) == sum_of(r, entry_term(r, a, b, i, j), t),
    decreases t,
{
    if t > 0 {
        lemma_dot_sum(r, a, b, i, j, (t - 1) as nat);
    }
}

proof fn lemma_term_members<R: Ring>(r: &R, a: Seq<Seq<R::M>>, b: Seq<Seq<R::M>>, n: nat, i: int, j: int)
    requires
        ring_laws(r),
        square_members(r, a, n),
        square_members(r, b, n),
        0 <= i < n,
        0 <= j < n,
    ensures
        forall|k: int| 0 <= k < n ==> #[trigger] r.member(entry_term(r, a, b, i, j)(k)),
        r.member(dot(r, a, b, i, j, n)),
{
    lemma_ring_parts(r);
    assert forall|k: int| 0 <= k < n implies #[trigger] r.member(entry_term(r, a, b, i, j)(k)) by {
        lemma_mul_closed(r, a[i][k], b[k][j]);
    }
    lemma_sum_member(r, entry_term(r, a, b, i, j), n);
    lemma_dot_sum(r, a, b, i, j, n);
}

/// Sums, differences and products of `n × n` members are members.
pub proof fn lemma_grid_members<R: Ring>(r: &R, a: Seq<Seq<R::M>>, b: Seq<Seq<R::M>>, n: nat)
    requires
        ring_laws(r),
        square_members(r, a, n),
        square_members(r, b, n),
    ensures
        square_members(r, grid_add(r, a, b, n, n), n),
        square_members(r, grid_sub(r, a, b, n, n), n),
        square_members(r, grid_mul(r, a, b, n, n, n), n),
{
    lemma_ring_parts(r);
    assert forall|i: int, j: int| 0 <= i < n && 0 <= j < n implies r.member(#[trigger] grid_add(r, a, b, n, n)[i][j]) by {
        lemma_add_closed(r, a[i][j], b[i][j]);
    }
    assert forall|i: int, j: int| 0 <= i < n && 0 <= j < n implies r.member(#[trigger] grid_sub(r, a, b, n, n)[i][j]) by {
        lemma_sub_closed(r, a[i][j], b[i][j]);
    }
    assert forall|i: int, j: int| 0 <= i < n && 0 <= j < n implies r.member(#[trigger] grid_mul(r, a, b, n, n, n)[i][j]) by {
        lemma_term_members(r, a, b, n, i, j);
    }
}

/// Multiplication of matrices respects entry-wise equality.
pub proof fn lemma_grid_mul_congruent<R: Ring>(
    r: &R,
    a1: Seq<Seq<R::M>>,
    a2: Seq<Seq<R::M>>,
    b1: Seq<Seq<R::M>>,
    b2: Seq<Seq<R::M>>,
    n: nat,
)
    requires
        ring_laws(r),
        square_members(r, a1, n),
        square_members(r, a2, n),
        square_members(r, b1, n),
        square_members(r, b2, n),
        forall|i: int, j: int| 0 <= i < n && 0 <= j < n ==> #[trigger] r.eqv(a1[i][j], a2[i][j]),
        forall|i: int, j: int| 0 <= i < n && 0 <= j < n ==> #[trigger] r.eqv(b1[i][j], b2[i][j]),
    ensures
        forall|i: int, j: int| 0 <= i < n && 0 <= j < n ==> #[trigger] r.eqv(
            grid_mul(r, a1, b1, n, n, n)[i][j],
            grid_mul(r, a2, b2, n, n, n)[i][j],
        ),
{
    lemma_ring_parts(r);
    assert forall|i: int, j: int| 0 <= i < n && 0 <= j < n implies #[trigger] r.eqv(
        grid_mul(r, a1, b1, n, n, n)[i][j],
        grid_mul(r, a2, b2, n, n, n)[i][j],
    ) by {
        let f = entry_term(r, a1, b1, i, j);
        let g = entry_term(r, a2, b2, i, j);
        lemma_term_members(r, a1, b1, n, i, j);
        lemma_term_members(r, a2, b2, n, i, j);
        assert forall|k: int| 0 <= k < n implies r.eqv(#[trigger] f(k), g(k)) by {
            assert(r.eqv(a1[i][k], a2[i][k]));
            assert(r.eqv(b1[k][j], b2[k][j]));
            lemma_mul_congruent(r, a1[i][k], a2[i][k], b1[k][j], b2[k][j]);
        }
        lemma_sum_congruent(r, f, g, n);
        lemma_dot_sum(r, a1, b1, i, j, n);
        lemma_dot_sum(r, a2, b2, i, j, n);
    }
}

/// Multiplication of matrices is associative.
pub proof fn lemma_grid_mul_assoc<R: Ring>(r: &R, a: Seq<Seq<R::M>>, b: Seq<Seq<R::M>>, c: Seq<Seq<R::M>>, n: nat)
    requires
        ring_laws(r),
        square_members(r, a, n),
        square_members(r, b, n),
        square_members(r, c, n),
    ensures
        forall|i: int, j: int| 0 <= i < n && 0 <= j < n ==> #[trigger] r.eqv(
            grid_mul(r, grid_mul(r, a, b, n, n, n), c, n, n, n)[i][j],
            grid_mul(r, a, grid_mul(r, b, c, n, n, n), n, n, n)[i][j],
        ),
{
    lemma_ring_parts(r);
    let ab = grid_mul(r, a, b, n, n, n);
    let bc = grid_mul(r, b, c, n, n, n);
    lemma_grid_members(r, a, b, n);
    lemma_grid_members(r, b, c, n);
    assert forall|i: int, j: int| 0 <= i < n && 0 <= j < n implies #[trigger] r.eqv(
        grid_mul(r, ab, c, n, n, n)[i][j],
        grid_mul(r, a, bc, n, n, n)[i][j],
    ) by {
        // terms (a[i][s] · b[s][t]) · c[t][j], summed over t outside and s inside
        let lt = |s: int, t: int| r.mul_s(r.mul_s(a[i][s], b[s][t]), c[t][j]);
        let g = entry_term(r, ab, c, i, j);
        let h = row_sums(r, flip(lt), n);
        lemma_dot_sum(r, ab, c, i, j, n);
        lemma_dot_sum(r, a, bc, i, j, n);
        lemma_term_members(r, ab, c, n, i, j);
        lemma_term_members(r, a, bc, n, i, j);
        assert forall|s: int, t: int| 0 <= s < n && 0 <= t < n implies #[trigger] r.member(lt(s, t)) by {
            lemma_mul_closed(r, a[i][s], b[s][t]);
            lemma_mul_closed(r, r.mul_s(a[i][s], b[s][t]), c[t][j]);
        }
        assert forall|t: int| 0 <= t < n implies #[trigger] r.member(h(t)) by {
            let f = |s: int| flip(lt)(t, s);
            assert forall|s: int| 0 <= s < n implies #[trigger] r.member(f(s)) by {
                assert(r.member(lt(s, t)));
            }
            lemma_sum_member(r, f, n);
        }
        assert forall|t: int| 0 <= t < n implies r.eqv(#[trigger] g(t), h(t)) by {
            let e = entry_term(r, a, b, i, t);
            lemma_term_members(r, a, b, n, i, t);
            lemma_dot_sum(r, a, b, i, t, n);
            assert(ab[i][t] == sum_of(r, e, n));
            lemma_sum_mul_right(r, e, c[t][j], n);
            assert((|s: int| r.mul_s(e(s), c[t][j])) =~= (|s: int| flip(lt)(t, s)));
        }
        lemma_sum_congruent(r, g, h, n);
        assert forall|t: int, s: int| 0 <= t < n && 0 <= s < n implies #[trigger] r.member(flip(lt)(t, s)) by {
            assert(r.member(lt(s, t)));
        }
        lemma_double_sum_swap(r, flip(lt), n, n);
        assert(flip(flip(lt)) =~= lt);
        let rl = row_sums(r, lt, n);
        let k = entry_term(r, a, bc, i, j);
        assert forall|s: int| 0 <= s < n implies #[trigger] r.member(rl(s)) by {
            let f = |t: int| lt(s, t);
            assert forall|t: int| 0 <= t < n implies #[trigger] r.member(f(t)) by {
                assert(r.member(lt(s, t)));
            }
            lemma_sum_member(r, f, n);
        }
        assert forall|s: int| 0 <= s < n implies r.eqv(#[trigger] rl(s), k(s)) by {
            let f = |t: int| lt(s, t);
            let e = entry_term(r, b, c, s, j);
            let ae = |t: int| r.mul_s(a[i][s], e(t));
            lemma_term_members(r, b, c, n, s, j);
            assert forall|t: int| 0 <= t < n implies #[trigger] r.member(f(t)) by {
                assert(r.member(lt(s, t)));
            }
            assert forall|t: int| 0 <= t < n implies #[trigger] r.member(ae(t)) by {
                lemma_mul_closed(r, a[i][s], e(t));
            }
            assert forall|t: int| 0 <= t < n implies r.eqv(#[trigger] f(t), ae(t)) by {
                lemma_mul_assoc(r, a[i][s], b[s][t], c[t][j]);
            }
            lemma_sum_congruent(r, f, ae, n);
            lemma_sum_mul_left(r, a[i][s], e, n);
            lemma_dot_sum(r, b, c, s, j, n);
            assert(bc[s][j] == sum_of(r, e, n));
            lemma_sum_member(r, f, n);
            lemma_sum_member(r, ae, n);
            lemma_mul_closed(r, a[i][s], sum_of(r, e, n));
            lemma_sym(r, r.mul_s(a[i][s], sum_of(r, e, n)), sum_of(r, ae, n));
            lemma_trans(r, rl(s), sum_of(r, ae, n), k(s));
        }
        lemma_sum_congruent(r, rl, k, n);
        lemma_sum_member(r, g, n);
        lemma_sum_member(r, h, n);
        lemma_sum_member(r, rl, n);
        lemma_sum_member(r, k, n);
        assert(double_sum(r, flip(lt), n, n) == sum_of(r, h, n));
        assert(double_sum(r, lt, n, n) == sum_of(r, rl, n));
        lemma_trans(r, sum_of(r, g, n), sum_of(r, h, n), sum_of(r, rl, n));
        lemma_trans(r, sum_of(r, g, n), sum_of(r, rl, n), sum_of(r, k, n));
    }
}

/// Multiplication distributes over addition on both sides.
pub proof fn lemma_grid_distrib<R: Ring>(r: &R, a: Seq<Seq<R::M>>, b: Seq<Seq<R::M>>, c: Seq<Seq<R::M>>, n: nat)
    requires
        ring_laws(r),
        square_members(r, a, n),
        square_members(r, b, n),
        square_members(r, c, n),
    ensures
        forall|i: int, j: int| 0 <= i < n && 0 <= j < n ==> #[trigger] r.eqv(
            grid_mul(r, a, grid_add(r, b, c, n, n), n, n, n)[i][j],
            grid_add(r, grid_mul(r, a, b, n, n, n), grid_mul(r, a, c, n, n, n), n, n)[i][j],
        ),
        forall|i: int, j: int| 0 <= i < n && 0 <= j < n ==> #[trigger] r.eqv(
            grid_mul(r, grid_add(r, a, b, n, n), c, n, n, n)[i][j],
            grid_add(r, grid_mul(r, a, c, n, n, n), grid_mul(r, b, c, n, n, n), n, n)[i][j],
        ),
{
    lemma_ring_parts(r);
    let bc = grid_add(r, b, c, n, n);
    let ab = grid_add(r, a, b, n, n);
    lemma_grid_members(r, b, c, n);
    lemma_grid_members(r, a, b, n);
    assert forall|i: int, j: int| 0 <= i < n && 0 <= j < n implies #[trigger] r.eqv(
        grid_mul(r, a, bc, n, n, n)[i][j],
        grid_add(r, grid_mul(r, a, b, n, n, n), grid_mul(r, a, c, n, n, n), n, n)[i][j],
    ) by {
        let f = entry_term(r, a, bc, i, j);
        let g = entry_term(r, a, b, i, j);
        let h = entry_term(r, a, c, i, j);
        let both = |k: int| r.add_s(g(k), h(k));
        lemma_term_members(r, a, bc, n, i, j);
        lemma_term_members(r, a, b, n, i, j);
        lemma_term_members(r, a, c, n, i, j);
        assert forall|k: int| 0 <= k < n implies #[trigger] r.member(both(k)) by {
            lemma_add_closed(r, g(k), h(k));
        }
        assert forall|k: int| 0 <= k < n implies r.eqv(#[trigger] f(k), both(k)) by {
            lemma_distrib(r, a[i][k], b[k][j], c[k][j]);
        }
        lemma_sum_congruent(r, f, both, n);
        lemma_sum_add(r, g, h, n);
        lemma_dot_sum(r, a, bc, i, j, n);
        lemma_dot_sum(r, a, b, i, j, n);
        lemma_dot_sum(r, a, c, i, j, n);
        lemma_sum_member(r, f, n);
        lemma_sum_member(r, both, n);
        lemma_add_closed(r, sum_of(r, g, n), sum_of(r, h, n));
        lemma_trans(r, sum_of(r, f, n), sum_of(r, both, n), r.add_s(sum_of(r, g, n), sum_of(r, h, n)));
    }
    assert forall|i: int, j: int| 0 <= i < n && 0 <= j < n implies #[trigger] r.eqv(
        grid_mul(r, ab, c, n, n, n)[i][j],
        grid_add(r, grid_mul(r, a, c, n, n, n), grid_mul(r, b, c, n, n, n), n, n)[i][j],
    ) by {
        let f = entry_term(r, ab, c, i, j);
        let g = entry_term(r, a, c, i, j);
        let h = entry_term(r, b, c, i, j);
        let both = |k: int| r.add_s(g(k), h(k));
        lemma_term_members(r, ab, c, n, i, j);
        lemma_term_members(r, a, c, n, i, j);
        lemma_term_members(r, b, c, n, i, j);
        assert forall|k: int| 0 <= k < n implies #[trigger] r.member(both(k)) by {
            lemma_add_closed(r, g(k), h(k));
        }
        assert forall|k: int| 0 <= k < n implies r.eqv(#[trigger] f(k), both(k)) by {
            lemma_distrib(r, a[i][k], b[i][k], c[k][j]);
        }
        lemma_sum_congruent(r, f, both, n);
        lemma_sum_add(r, g, h, n);
        lemma_dot_sum(r, ab, c, i, j, n);
        lemma_dot_sum(r, a, c, i, j, n);
        lemma_dot_sum(r, b, c, i, j, n);
        lemma_sum_member(r, f, n);
        lemma_sum_member(r, both, n);
        lemma_add_closed(r, sum_of(r, g, n), sum_of(r, h, n));
        lemma_trans(r, sum_of(r, f, n), sum_of(r, both, n), r.add_s(sum_of(r, g, n), sum_of(r, h, n)));
    }
}

/// The identity matrix is a two-sided identity.
pub proof fn lemma_grid_mul_one<R: Ring>(r: &R, a: Seq<Seq<R::M>>, n: nat)
    requires
        ring_laws(r),
        square_members(r, a, n),
    ensures
        ({
            let one = Seq::new(n, |i: int| Seq::new(n, |j: int| fill_s(r, true, i, j)));
            &&& square_members(r, one, n)
            &&& forall|i: int, j: int| 0 <= i < n && 0 <= j < n ==> #[trigger] r.eqv(
                grid_mul(r, one, a, n, n, n)[i][j],
                a[i][j],
            )
            &&& forall|i: int, j: int| 0 <= i < n && 0 <= j < n ==> #[trigger] r.eqv(
                grid_mul(r, a, one, n, n, n)[i][j],
                a[i][j],
            )
        }),
{
    lemma_ring_parts(r);
    let one = Seq::new(n, |i: int| Seq::new(n, |j: int| fill_s(r, true, i, j)));
    let z = r.zero_s();
    assert(square_members(r, one, n));
    assert forall|i: int, j: int| 0 <= i < n && 0 <= j < n implies #[trigger] r.eqv(
        grid_mul(r, one, a, n, n, n)[i][j],
        a[i][j],
    ) by {
        let f = entry_term(r, one, a, i, j);
        lemma_term_members(r, one, a, n, i, j);
        assert forall|k: int| 0 <= k < n && k != i implies r.eqv(#[trigger] f(k), z) by {
            lemma_zero_mul(r, a[k][j]);
        }
        lemma_sum_single(r, f, n, i);
        lemma_dot_sum(r, one, a, i, j, n);
        lemma_mul_one(r, a[i][j]);
        lemma_sum_member(r, f, n);
        lemma_trans(r, sum_of(r, f, n), f(i), a[i][j]);
    }
    assert forall|i: int, j: int| 0 <= i < n && 0 <= j < n implies #[trigger] r.eqv(
        grid_mul(r, a, one, n, n, n)[i][j],
        a[i][j],
    ) by {
        let f = entry_term(r, a, one, i, j);
        lemma_term_members(r, a, one, n, i, j);
        assert forall|k: int| 0 <= k < n && k != j implies r.eqv(#[trigger] f(k), z) by {
            lemma_mul_zero(r, a[i][k]);
        }
        lemma_sum_single(r, f, n, j);
        lemma_dot_sum(r, a, one, i, j, n);
        lemma_mul_one(r, a[i][j]);
        lemma_sum_member(r, f, n);
        lemma_trans(r, sum_of(r, f, n), f(j), a[i][j]);
    }
}

proof fn lemma_matrix_equivalence<R: Ring + DecidableEq>(h: &Rc<MatrixRing<R>>)
    requires
        ring_laws(&(**h).base_s()),
    ensures
        equivalence(h),
{
    reveal(equivalence);
    let r = (**h).base_s();
    let n = (**h).dimension_s();
    lemma_ring_parts(&r);
    assert forall|a: Seq<Seq<R::M>>| #[trigger] h.member(a) implies h.eqv(a, a) by {
        assert forall|i: int, j: int| 0 <= i < n && 0 <= j < n implies #[trigger] r.eqv(a[i][j], a[i][j]) by {
            lemma_refl(&r, a[i][j]);
        }
    }
    assert forall|a: Seq<Seq<R::M>>, b: Seq<Seq<R::M>>| h.member(a) && h.member(b) && #[trigger] h.eqv(a, b) implies h.eqv(b, a) by {
        assert forall|i: int, j: int| 0 <= i < n && 0 <= j < n implies #[trigger] r.eqv(b[i][j], a[i][j]) by {
            assert(r.eqv(a[i][j], b[i][j]));
            lemma_sym(&r, a[i][j], b[i][j]);
        }
    }
    assert forall|a: Seq<Seq<R::M>>, b: Seq<Seq<R::M>>, c: Seq<Seq<R::M>>|
        h.member(a) && h.member(b) && h.member(c) && #[trigger] h.eqv(a, b) && #[trigger] h.eqv(b, c) implies h.eqv(a, c) by {
        assert forall|i: int, j: int| 0 <= i < n && 0 <= j < n implies #[trigger] r.eqv(a[i][j], c[i][j]) by {
            assert(r.eqv(a[i][j], b[i][j]));
            assert(r.eqv(b[i][j], c[i][j]));
            lemma_trans(&r, a[i][j], b[i][j], c[i][j]);
        }
    }
}

proof fn lemma_matrix_group<R: Ring + DecidableEq>(h: &Rc<MatrixRing<R>>)
    requires
        ring_laws(&(**h).base_s()),
    ensures
        group_laws(h),
{
    reveal(group_laws);
    reveal(additive_laws);
    let r = (**h).base_s();
    let n = (**h).dimension_s();
    lemma_ring_parts(&r);
    lemma_matrix_equivalence(h);
    assert(h.member(h.zero_s()));
    assert forall|a: Seq<Seq<R::M>>, b: Seq<Seq<R::M>>| h.member(a) && h.member(b) implies #[trigger] h.member(h.add_s(a, b)) by {
        lemma_grid_members(&r, a, b, n);
    }
    assert forall|a: Seq<Seq<R::M>>, b: Seq<Seq<R::M>>| h.member(a) && h.member(b) implies #[trigger] h.member(h.sub_s(a, b)) by {
        lemma_grid_members(&r, a, b, n);
    }
    assert forall|a1: Seq<Seq<R::M>>, a2: Seq<Seq<R::M>>, b1: Seq<Seq<R::M>>, b2: Seq<Seq<R::M>>|
        h.member(a1) && h.member(a2) && h.member(b1) && h.member(b2) && h.eqv(a1, a2) && h.eqv(b1, b2)
        implies #[trigger] h.eqv(h.add_s(a1, b1), h.add_s(a2, b2)) by {
        assert forall|i: int, j: int| 0 <= i < n && 0 <= j < n implies #[trigger] r.eqv(
            h.add_s(a1, b1)[i][j],
            h.add_s(a2, b2)[i][j],
        ) by {
            assert(r.eqv(a1[i][j], a2[i][j]));
            assert(r.eqv(b1[i][j], b2[i][j]));
            lemma_add_congruent(&r, a1[i][j], a2[i][j], b1[i][j], b2[i][j]);
        }
    }
    assert forall|a1: Seq<Seq<R::M>>, a2: Seq<Seq<R::M>>, b1: Seq<Seq<R::M>>, b2: Seq<Seq<R::M>>|
        h.member(a1) && h.member(a2) && h.member(b1) && h.member(b2) && h.eqv(a1, a2) && h.eqv(b1, b2)
        implies #[trigger] h.eqv(h.sub_s(a1, b1), h.sub_s(a2, b2)) by {
        assert forall|i: int, j: int| 0 <= i < n && 0 <= j < n implies #[trigger] r.eqv(
            h.sub_s(a1, b1)[i][j],
            h.sub_s(a2, b2)[i][j],
        ) by {
            assert(r.eqv(a1[i][j], a2[i][j]));
            assert(r.eqv(b1[i][j], b2[i][j]));
            lemma_sub_congruent(&r, a1[i][j], a2[i][j], b1[i][j], b2[i][j]);
        }
    }
    assert forall|a: Seq<Seq<R::M>>, b: Seq<Seq<R::M>>, c: Seq<Seq<R::M>>| h.member(a) && h.member(b) && h.member(c) implies h.eqv(
        #[trigger] h.add_s(h.add_s(a, b), c),
        h.add_s(a, h.add_s(b, c)),
    ) by {
        assert forall|i: int, j: int| 0 <= i < n && 0 <= j < n implies #[trigger] r.eqv(
            h.add_s(h.add_s(a, b), c)[i][j],
            h.add_s(a, h.add_s(b, c))[i][j],
        ) by {
            lemma_add_assoc(&r, a[i][j], b[i][j], c[i][j]);
        }
    }
    assert forall|a: Seq<Seq<R::M>>, b: Seq<Seq<R::M>>| h.member(a) && h.member(b) implies h.eqv(#[trigger] h.add_s(a, b), h.add_s(b, a)) by {
        assert forall|i: int, j: int| 0 <= i < n && 0 <= j < n implies #[trigger] r.eqv(h.add_s(a, b)[i][j], h.add_s(b, a)[i][j]) by {
            lemma_add_comm(&r, a[i][j], b[i][j]);
        }
    }
    assert forall|a: Seq<Seq<R::M>>| h.member(a) implies h.eqv(#[trigger] h.add_s(h.zero_s(), a), a) by {
        assert forall|i: int, j: int| 0 <= i < n && 0 <= j < n implies #[trigger] r.eqv(h.add_s(h.zero_s(), a)[i][j], a[i][j]) by {
            lemma_add_zero(&r, a[i][j]);
        }
    }
    assert forall|a: Seq<Seq<R::M>>, b: Seq<Seq<R::M>>| h.member(a) && h.member(b) implies h.eqv(#[trigger] h.add_s(h.sub_s(a, b), b), a) by {
        assert forall|i: int, j: int| 0 <= i < n && 0 <= j < n implies #[trigger] r.eqv(h.add_s(h.sub_s(a, b), b)[i][j], a[i][j]) by {
            lemma_sub_add(&r, a[i][j], b[i][j]);
        }
    }
    assert(additive_laws(h));
}

proof fn lemma_matrix_monoid<R: Ring + DecidableEq>(h: &Rc<MatrixRing<R>>)
    requires
        ring_laws(&(**h).base_s()),
    ensures
        monoid_laws(h),
{
    reveal(monoid_laws);
    reveal(semigroup_laws);
    let r = (**h).base_s();
    let n = (**h).dimension_s();
    lemma_ring_parts(&r);
    lemma_matrix_equivalence(h);
    assert forall|a: Seq<Seq<R::M>>, b: Seq<Seq<R::M>>| h.member(a) && h.member(b) implies #[trigger] h.member(h.mul_s(a, b)) by {
        lemma_grid_members(&r, a, b, n);
    }
    assert forall|a1: Seq<Seq<R::M>>, a2: Seq<Seq<R::M>>, b1: Seq<Seq<R::M>>, b2: Seq<Seq<R::M>>|
        h.member(a1) && h.member(a2) && h.member(b1) && h.member(b2) && h.eqv(a1, a2) && h.eqv(b1, b2)
        implies #[trigger] h.eqv(h.mul_s(a1, b1), h.mul_s(a2, b2)) by {
        lemma_grid_mul_congruent(&r, a1, a2, b1, b2, n);
    }
    assert forall|a: Seq<Seq<R::M>>, b: Seq<Seq<R::M>>, c: Seq<Seq<R::M>>| h.member(a) && h.member(b) && h.member(c) implies h.eqv(
        #[trigger] h.mul_s(h.mul_s(a, b), c),
        h.mul_s(a, h.mul_s(b, c)),
    ) by {
        lemma_grid_mul_assoc(&r, a, b, c, n);
    }
    assert(semigroup_laws(h));
    let one = Seq::new(n, |i: int| Seq::new(n, |j: int| fill_s(&r, true, i, j)));
    assert(h.one_s() =~~= one);
    assert forall|a: Seq<Seq<R::M>>| h.member(a) implies h.eqv(#[trigger] h.mul_s(h.one_s(), a), a) by {
        lemma_grid_mul_one(&r, a, n);
    }
    assert forall|a: Seq<Seq<R::M>>| h.member(a) implies h.eqv(#[trigger] h.mul_s(a, h.one_s()), a) by {
        lemma_grid_mul_one(&r, a, n);
    }
    lemma_grid_mul_one(&r, one, n);
}

/// The `n × n` matrices over a ring form a ring: their operations obey every law of
/// `ring_laws` under entry-wise equality.
pub proof fn lemma_matrix_ring<R: Ring + DecidableEq>(h: &Rc<MatrixRing<R>>)
    requires
        ring_laws(&(**h).base_s()),
    ensures
        ring_laws(h),
{
    let r = (**h).base_s();
    let n = (**h).dimension_s();
    lemma_ring_parts(&r);
    lemma_matrix_monoid(h);
    lemma_matrix_group(h);
    reveal(ring_laws);
    assert forall|a: Seq<Seq<R::M>>, b: Seq<Seq<R::M>>, c: Seq<Seq<R::M>>| h.member(a) && h.member(b) && h.member(c) implies h.eqv(
        #[trigger] h.mul_s(a, h.add_s(b, c)),
        h.add_s(h.mul_s(a, b), h.mul_s(a, c)),
    ) by {
        lemma_grid_distrib(&r, a, b, c, n);
    }
    assert forall|a: Seq<Seq<R::M>>, b: Seq<Seq<R::M>>, c: Seq<Seq<R::M>>| h.member(a) && h.member(b) && h.member(c) implies h.eqv(
        #[trigger] h.mul_s(h.add_s(a, b), c),
        h.add_s(h.mul_s(a, c), h.mul_s(b, c)),
    ) by {
        lemma_grid_distrib(&r, a, b, c, n);
    }
}

/// The grid `s` with columns `p` and `q` exchanged.
pub open spec fn swap_columns<M>(s: Seq<Seq<M>>, n: nat, p: int, q: int) -> Seq<Seq<M>> {
    Seq::new(n, |i: int| Seq::new(n, |k: int| s[i][if k == p { q } else if k == q { p } else { k }]))
}

/// The grid `s` with column `c` multiplied by `x` on the right.
pub open spec fn scale_column<R: Ring>(r: &R, s: Seq<Seq<R::M>>, n: nat, c: int, x: R::M) -> Seq<Seq<R::M>> {
    Seq::new(n, |i: int| Seq::new(n, |k: int| if k == c { r.mul_s(s[i][k], x) } else { s[i][k] }))
}

/// The grid `s` with `f` times column `src` added to column `c`.
pub open spec fn add_column<R: Ring>(r: &R, s: Seq<Seq<R::M>>, n: nat, c: int, src: int, f: R::M) -> Seq<Seq<R::M>> {
    Seq::new(n, |i: int| Seq::new(n, |k: int| if k == c { r.add_s(s[i][c], r.mul_s(s[i][src], f)) } else { s[i][k] }))
}

/// Exchanging two columns of `s` and the same two rows of `t` keeps `s · t`.
pub proof fn lemma_swap_product<R: Ring>(r: &R, s: Seq<Seq<R::M>>, t: Seq<Seq<R::M>>, t2: Seq<Seq<R::M>>, n: nat, p: int, q: int)
    requires
        ring_laws(r),
        square_members(r, s, n),
        square_members(r, t, n),
        0 <= p < n,
        0 <= q < n,
        t2.len() == n,
        forall|k: int| 0 <= k < n ==> (#[trigger] t2[k]).len() == n,
        forall|k: int, j: int| 0 <= k < n && 0 <= j < n ==> #[trigger] t2[k][j] == t[if k == p { q } else if k == q { p } else { k }][j],
    ensures
        square_members(r, swap_columns(s, n, p, q), n),
        square_members(r, t2, n),
        forall|i: int, j: int| 0 <= i < n && 0 <= j < n ==> #[trigger] r.eqv(
            grid_mul(r, swap_columns(s, n, p, q), t2, n, n, n)[i][j],
            grid_mul(r, s, t, n, n, n)[i][j],
        ),
{
    lemma_ring_parts(r);
    let s2 = swap_columns(s, n, p, q);
    assert(square_members(r, s2, n));
    assert forall|k: int, j: int| 0 <= k < n && 0 <= j < n implies r.member(#[trigger] t2[k][j]) by {
        let kk = if k == p { q } else if k == q { p } else { k };
        assert(r.member(t[kk][j]));
    }
    assert forall|i: int, j: int| 0 <= i < n && 0 <= j < n implies #[trigger] r.eqv(
        grid_mul(r, s2, t2, n, n, n)[i][j],
        grid_mul(r, s, t, n, n, n)[i][j],
    ) by {
        let f = entry_term(r, s2, t2, i, j);
        let g = entry_term(r, s, t, i, j);
        lemma_term_members(r, s2, t2, n, i, j);
        lemma_term_members(r, s, t, n, i, j);
        lemma_dot_sum(r, s2, t2, i, j, n);
        lemma_dot_sum(r, s, t, i, j, n);
        if p == q {
            assert forall|k: int| 0 <= k < n implies r.eqv(#[trigger] f(k), g(k)) by {
                lemma_refl(r, g(k));
            }
            lemma_sum_congruent(r, f, g, n);
        } else {
            assert forall|k: int| 0 <= k < n && k != p && k != q implies r.eqv(#[trigger] f(k), g(k)) by {
                lemma_refl(r, g(k));
            }
            assert(f(p) == g(q));
            assert(f(q) == g(p));
            lemma_add_comm(r, g(q), g(p));
            crate::sums::lemma_sum_change_two(r, f, g, n, p, q);
        }
    }
}

/// Multiplying column `c` of `s` by `x` and row `c` of `t` by `y`, with `x·y ~ 1`,
/// keeps `s · t`, when multiplication commutes.
pub proof fn lemma_scale_product<R: Ring>(
    r: &R,
    s: Seq<Seq<R::M>>,
    t: Seq<Seq<R::M>>,
    t2: Seq<Seq<R::M>>,
    n: nat,
    c: int,
    x: R::M,
    y: R::M,
)
    requires
        ring_laws(r),
        crate::laws::commutative_laws(r),
        square_members(r, s, n),
        square_members(r, t, n),
        square_members(r, t2, n),
        r.member(x),
        r.member(y),
        r.eqv(r.mul_s(x, y), r.one_s()),
        0 <= c < n,
        forall|k: int, j: int| 0 <= k < n && 0 <= j < n && k != c ==> #[trigger] r.eqv(t2[k][j], t[k][j]),
        forall|j: int| 0 <= j < n ==> #[trigger] r.eqv(t2[c][j], r.mul_s(t[c][j], y)),
    ensures
        square_members(r, scale_column(r, s, n, c, x), n),
        forall|i: int, j: int| 0 <= i < n && 0 <= j < n ==> #[trigger] r.eqv(
            grid_mul(r, scale_column(r, s, n, c, x), t2, n, n, n)[i][j],
            grid_mul(r, s, t, n, n, n)[i][j],
        ),
{
    lemma_ring_parts(r);
    let s2 = scale_column(r, s, n, c, x);
    assert forall|i: int, k: int| 0 <= i < n && 0 <= k < n implies r.member(#[trigger] s2[i][k]) by {
        lemma_mul_closed(r, s[i][k], x);
    }
    assert(square_members(r, s2, n));
    assert forall|i: int, j: int| 0 <= i < n && 0 <= j < n implies #[trigger] r.eqv(
        grid_mul(r, s2, t2, n, n, n)[i][j],
        grid_mul(r, s, t, n, n, n)[i][j],
    ) by {
        let f = entry_term(r, s2, t2, i, j);
        let g = entry_term(r, s, t, i, j);
        lemma_term_members(r, s2, t2, n, i, j);
        lemma_term_members(r, s, t, n, i, j);
        lemma_dot_sum(r, s2, t2, i, j, n);
        lemma_dot_sum(r, s, t, i, j, n);
        assert forall|k: int| 0 <= k < n implies r.eqv(#[trigger] f(k), g(k)) by {
            if k == c {
                // (s·x)·t2 ~ (s·x)·(t·y) ~ (s·t)·(x·y) ~ (s·t)·1 ~ s·t
                let (a, b) = (s[i][c], t[c][j]);
                lemma_mul_closed(r, a, x);
                lemma_mul_closed(r, b, y);
                lemma_refl(r, r.mul_s(a, x));
                lemma_mul_congruent(r, r.mul_s(a, x), r.mul_s(a, x), t2[c][j], r.mul_s(b, y));
                crate::laws::lemma_mul_swap_middle(r, a, x, b, y);
                lemma_mul_closed(r, a, b);
                lemma_mul_closed(r, x, y);
                lemma_refl(r, r.mul_s(a, b));
                lemma_mul_congruent(r, r.mul_s(a, b), r.mul_s(a, b), r.mul_s(x, y), r.one_s());
                lemma_mul_one(r, r.mul_s(a, b));
                lemma_mul_closed(r, r.mul_s(a, x), r.mul_s(b, y));
                lemma_mul_closed(r, r.mul_s(a, b), r.mul_s(x, y));
                lemma_mul_closed(r, r.mul_s(a, b), r.one_s());
                lemma_trans(r, f(k), r.mul_s(r.mul_s(a, x), r.mul_s(b, y)), r.mul_s(r.mul_s(a, b), r.mul_s(x, y)));
                lemma_trans(r, f(k), r.mul_s(r.mul_s(a, b), r.mul_s(x, y)), r.mul_s(r.mul_s(a, b), r.one_s()));
                lemma_trans(r, f(k), r.mul_s(r.mul_s(a, b), r.one_s()), g(k));
            } else {
                lemma_refl(r, s[i][k]);
                lemma_mul_congruent(r, s[i][k], s[i][k], t2[k][j], t[k][j]);
            }
        }
        lemma_sum_congruent(r, f, g, n);
    }
}

/// Adding `f` times column `src` of `s` to column `c`, and taking `f` times row `c`
/// of `t` from row `src`, keeps `s · t`, when multiplication commutes.
pub proof fn lemma_add_product<R: Ring>(
    r: &R,
    s: Seq<Seq<R::M>>,
    t: Seq<Seq<R::M>>,
    t2: Seq<Seq<R::M>>,
    n: nat,
    c: int,
    src: int,
    f: R::M,
)
    requires
        ring_laws(r),
        square_members(r, s, n),
        square_members(r, t, n),
        square_members(r, t2, n),
        r.member(f),
        0 <= c < n,
        0 <= src < n,
        c != src,
        forall|k: int, j: int| 0 <= k < n && 0 <= j < n && k != src ==> #[trigger] r.eqv(t2[k][j], t[k][j]),
        forall|j: int| 0 <= j < n ==> #[trigger] r.eqv(t2[src][j], r.sub_s(t[src][j], r.mul_s(f, t[c][j]))),
    ensures
        square_members(r, add_column(r, s, n, c, src, f), n),
        forall|i: int, j: int| 0 <= i < n && 0 <= j < n ==> #[trigger] r.eqv(
            grid_mul(r, add_column(r, s, n, c, src, f), t2, n, n, n)[i][j],
            grid_mul(r, s, t, n, n, n)[i][j],
        ),
{
    lemma_ring_parts(r);
    let s2 = add_column(r, s, n, c, src, f);
    assert forall|i: int, k: int| 0 <= i < n && 0 <= k < n implies r.member(#[trigger] s2[i][k]) by {
        lemma_mul_closed(r, s[i][src], f);
        lemma_add_closed(r, s[i][c], r.mul_s(s[i][src], f));
    }
    assert(square_members(r, s2, n));
    assert forall|i: int, j: int| 0 <= i < n && 0 <= j < n implies #[trigger] r.eqv(
        grid_mul(r, s2, t2, n, n, n)[i][j],
        grid_mul(r, s, t, n, n, n)[i][j],
    ) by {
        let ff = entry_term(r, s2, t2, i, j);
        let g = entry_term(r, s, t, i, j);
        lemma_term_members(r, s2, t2, n, i, j);
        lemma_term_members(r, s, t, n, i, j);
        lemma_dot_sum(r, s2, t2, i, j, n);
        lemma_dot_sum(r, s, t, i, j, n);
        assert forall|k: int| 0 <= k < n && k != src && k != c implies r.eqv(#[trigger] ff(k), g(k)) by {
            lemma_refl(r, s[i][k]);
            lemma_mul_congruent(r, s[i][k], s[i][k], t2[k][j], t[k][j]);
        }
        // the two changed terms keep their total
        let (a, sc, tc, ts) = (s[i][src], s[i][c], t[c][j], t[src][j]);
        let b = r.mul_s(a, r.mul_s(f, tc));
        lemma_mul_closed(r, f, tc);
        lemma_mul_closed(r, a, r.mul_s(f, tc));
        lemma_mul_closed(r, a, f);
        lemma_mul_closed(r, r.mul_s(a, f), tc);
        lemma_mul_closed(r, a, ts);
        lemma_mul_closed(r, sc, tc);
        lemma_sub_closed(r, ts, r.mul_s(f, tc));
        // ff(src) ~ a·(ts - f·tc) ~ a·ts - b
        lemma_refl(r, a);
        lemma_mul_congruent(r, a, a, t2[src][j], r.sub_s(ts, r.mul_s(f, tc)));
        crate::laws::lemma_mul_sub(r, a, ts, r.mul_s(f, tc));
        lemma_mul_closed(r, a, r.sub_s(ts, r.mul_s(f, tc)));
        lemma_sub_closed(r, r.mul_s(a, ts), b);
        lemma_trans(r, ff(src), r.mul_s(a, r.sub_s(ts, r.mul_s(f, tc))), r.sub_s(r.mul_s(a, ts), b));
        // ff(c) ~ (sc + a·f)·tc ~ sc·tc + (a·f)·tc ~ sc·tc + b
        lemma_add_closed(r, sc, r.mul_s(a, f));
        lemma_refl(r, r.add_s(sc, r.mul_s(a, f)));
        lemma_mul_congruent(r, r.add_s(sc, r.mul_s(a, f)), r.add_s(sc, r.mul_s(a, f)), t2[c][j], tc);
        lemma_distrib(r, sc, r.mul_s(a, f), tc);
        lemma_mul_assoc(r, a, f, tc);
        lemma_refl(r, r.mul_s(sc, tc));
        lemma_add_congruent(r, r.mul_s(sc, tc), r.mul_s(sc, tc), r.mul_s(r.mul_s(a, f), tc), b);
        lemma_mul_closed(r, r.add_s(sc, r.mul_s(a, f)), tc);
        lemma_add_closed(r, r.mul_s(sc, tc), r.mul_s(r.mul_s(a, f), tc));
        lemma_add_closed(r, r.mul_s(sc, tc), b);
        lemma_trans(r, ff(c), r.mul_s(r.add_s(sc, r.mul_s(a, f)), tc), r.add_s(r.mul_s(sc, tc), r.mul_s(r.mul_s(a, f), tc)));
        lemma_trans(r, ff(c), r.add_s(r.mul_s(sc, tc), r.mul_s(r.mul_s(a, f), tc)), r.add_s(r.mul_s(sc, tc), b));
        // (a·ts - b) + (sc·tc + b) ~ a·ts + sc·tc
        let u = r.mul_s(a, ts);
        let v = r.mul_s(sc, tc);
        lemma_add_congruent(r, ff(src), r.sub_s(u, b), ff(c), r.add_s(v, b));
        lemma_add_comm(r, v, b);
        lemma_add_closed(r, b, v);
        lemma_refl(r, r.sub_s(u, b));
        lemma_add_congruent(r, r.sub_s(u, b), r.sub_s(u, b), r.add_s(v, b), r.add_s(b, v));
        crate::laws::lemma_add_assoc(r, r.sub_s(u, b), b, v);
        lemma_add_closed(r, r.sub_s(u, b), b);
        lemma_sub_add(r, u, b);
        lemma_refl(r, v);
        lemma_add_congruent(r, r.add_s(r.sub_s(u, b), b), u, v, v);
        lemma_add_closed(r, ff(src), ff(c));
        lemma_add_closed(r, r.sub_s(u, b), r.add_s(v, b));
        lemma_add_closed(r, r.sub_s(u, b), r.add_s(b, v));
        lemma_add_closed(r, r.add_s(r.sub_s(u, b), b), v);
        lemma_add_closed(r, u, v);
        let total = r.add_s(ff(src), ff(c));
        lemma_trans(r, total, r.add_s(r.sub_s(u, b), r.add_s(v, b)), r.add_s(r.sub_s(u, b), r.add_s(b, v)));
        lemma_sym(r, r.add_s(r.add_s(r.sub_s(u, b), b), v), r.add_s(r.sub_s(u, b), r.add_s(b, v)));
        lemma_trans(r, total, r.add_s(r.sub_s(u, b), r.add_s(b, v)), r.add_s(r.add_s(r.sub_s(u, b), b), v));
        lemma_trans(r, total, r.add_s(r.add_s(r.sub_s(u, b), b), v), r.add_s(u, v));
        assert(g(src) == u && g(c) == v);
        crate::sums::lemma_sum_change_two(r, ff, g, n, src, c);
    }
}

/// From `s · t ~ I` and `t · a ~ I`: `a · t ~ I`. (And `s ~ a`.)
pub proof fn lemma_two_sided<R: Ring>(r: &R, s: Seq<Seq<R::M>>, t: Seq<Seq<R::M>>, a: Seq<Seq<R::M>>, n: nat)
    requires
        ring_laws(r),
        square_members(r, s, n),
        square_members(r, t, n),
        square_members(r, a, n),
        forall|i: int, j: int| 0 <= i < n && 0 <= j < n ==> #[trigger] r.eqv(
            grid_mul(r, s, t, n, n, n)[i][j],
            fill_s(r, true, i, j),
        ),
        forall|i: int, j: int| 0 <= i < n && 0 <= j < n ==> #[trigger] r.eqv(
            grid_mul(r, t, a, n, n, n)[i][j],
            fill_s(r, true, i, j),
        ),
    ensures
        forall|i: int, j: int| 0 <= i < n && 0 <= j < n ==> #[trigger] r.eqv(
            grid_mul(r, a, t, n, n, n)[i][j],
            fill_s(r, true, i, j),
        ),
{
    lemma_ring_parts(r);
    let one = Seq::new(n, |i: int| Seq::new(n, |j: int| fill_s(r, true, i, j)));
    let st = grid_mul(r, s, t, n, n, n);
    let ta = grid_mul(r, t, a, n, n, n);
    let at = grid_mul(r, a, t, n, n, n);
    lemma_grid_members(r, s, t, n);
    lemma_grid_members(r, t, a, n);
    lemma_grid_members(r, a, t, n);
    lemma_grid_mul_one(r, s, n);
    lemma_grid_mul_one(r, a, n);
    assert forall|i: int, j: int| 0 <= i < n && 0 <= j < n implies #[trigger] r.eqv(ta[i][j], one[i][j]) by {
        assert(r.eqv(ta[i][j], fill_s(r, true, i, j)));
    }
    assert forall|i: int, j: int| 0 <= i < n && 0 <= j < n implies #[trigger] r.eqv(st[i][j], one[i][j]) by {
        assert(r.eqv(st[i][j], fill_s(r, true, i, j)));
    }
    // s ~ s·1 ~ s·(t·a) ~ (s·t)·a ~ 1·a ~ a
    assert forall|i: int, j: int| 0 <= i < n && 0 <= j < n implies #[trigger] r.eqv(s[i][j], s[i][j]) by {
        lemma_refl(r, s[i][j]);
    }
    assert forall|i: int, j: int| 0 <= i < n && 0 <= j < n implies #[trigger] r.eqv(a[i][j], a[i][j]) by {
        lemma_refl(r, a[i][j]);
    }
    assert forall|i: int, j: int| 0 <= i < n && 0 <= j < n implies #[trigger] r.eqv(one[i][j], ta[i][j]) by {
        assert(r.member(ta[i][j]));
        lemma_sym(r, ta[i][j], one[i][j]);
    }
    lemma_grid_mul_congruent(r, s, s, one, ta, n);
    lemma_grid_mul_assoc(r, s, t, a, n);
    lemma_grid_mul_congruent(r, st, one, a, a, n);
    assert forall|i: int, j: int| 0 <= i < n && 0 <= j < n implies #[trigger] r.eqv(s[i][j], a[i][j]) by {
        let x0 = s[i][j];
        let x1 = grid_mul(r, s, one, n, n, n)[i][j];
        let x2 = grid_mul(r, s, ta, n, n, n)[i][j];
        let x3 = grid_mul(r, st, a, n, n, n)[i][j];
        let x4 = grid_mul(r, one, a, n, n, n)[i][j];
        lemma_grid_members(r, s, one, n);
        lemma_grid_members(r, s, ta, n);
        lemma_grid_members(r, st, a, n);
        lemma_grid_members(r, one, a, n);
        assert(r.member(x1) && r.member(x2) && r.member(x3) && r.member(x4));
        lemma_sym(r, x1, x0);
        assert(r.eqv(x3, x2));
        lemma_sym(r, x3, x2);
        assert(r.eqv(x1, x2));
        lemma_trans(r, x0, x1, x2);
        lemma_trans(r, x0, x2, x3);
        lemma_trans(r, x0, x3, x4);
        lemma_trans(r, x0, x4, a[i][j]);
    }
    // a·t ~ s·t ~ 1
    assert forall|i: int, j: int| 0 <= i < n && 0 <= j < n implies #[trigger] r.eqv(a[i][j], s[i][j]) by {
        lemma_sym(r, s[i][j], a[i][j]);
    }
    assert forall|i: int, j: int| 0 <= i < n && 0 <= j < n implies #[trigger] r.eqv(t[i][j], t[i][j]) by {
        lemma_refl(r, t[i][j]);
    }
    lemma_grid_mul_congruent(r, a, s, t, t, n);
    assert forall|i: int, j: int| 0 <= i < n && 0 <= j < n implies #[trigger] r.eqv(at[i][j], fill_s(r, true, i, j)) by {
        assert(r.member(at[i][j]));
        assert(r.member(st[i][j]));
        assert(r.member(fill_s(r, true, i, j)));
        lemma_trans(r, at[i][j], st[i][j], fill_s(r, true, i, j));
    }
}

/// `s · t` is the identity, entry by entry up to equivalence.
pub open spec fn undoes<R: Ring>(r: &R, s: Seq<Seq<R::M>>, t: Seq<Seq<R::M>>, n: nat) -> bool {
    forall|i: int, j: int| 0 <= i < n && 0 <= j < n ==> #[trigger] r.eqv(
        grid_mul(r, s, t, n, n, n)[i][j],
        fill_s(r, true, i, j),
    )
}

/// Some `n × n` grid of members times `a` is the identity.
pub open spec fn has_left_inverse<R: Ring>(r: &R, a: Seq<Seq<R::M>>, n: nat) -> bool {
    exists|b: Seq<Seq<R::M>>| square_members(r, b, n) && #[trigger] undoes(r, b, a, n)
}

/// A grid equivalent to the identity is undone by the identity.
pub proof fn lemma_undoes_start<R: Ring>(r: &R, t: Seq<Seq<R::M>>, n: nat)
    requires
        ring_laws(r),
        square_members(r, t, n),
        forall|i: int, j: int| 0 <= i < n && 0 <= j < n ==> #[trigger] r.eqv(t[i][j], fill_s(r, true, i, j)),
    ensures
        square_members(r, identity_grid(r, n), n),
        undoes(r, identity_grid(r, n), t, n),
{
    lemma_ring_parts(r);
    let one = Seq::new(n, |i: int| Seq::new(n, |j: int| fill_s(r, true, i, j)));
    lemma_grid_mul_one(r, t, n);
    assert(identity_grid(r, n) =~~= one);
    lemma_grid_members(r, one, t, n);
    assert forall|i: int, j: int| 0 <= i < n && 0 <= j < n implies #[trigger] r.eqv(
        grid_mul(r, one, t, n, n, n)[i][j],
        fill_s(r, true, i, j),
    ) by {
        assert(r.member(grid_mul(r, one, t, n, n, n)[i][j]));
        assert(r.member(fill_s(r, true, i, j)));
        lemma_trans(r, grid_mul(r, one, t, n, n, n)[i][j], t[i][j], fill_s(r, true, i, j));
    }
}

/// A product equivalent to one that the identity undoes is undone too.
pub proof fn lemma_undoes_step<R: Ring>(
    r: &R,
    s: Seq<Seq<R::M>>,
    t: Seq<Seq<R::M>>,
    s2: Seq<Seq<R::M>>,
    t2: Seq<Seq<R::M>>,
    n: nat,
)
    requires
        ring_laws(r),
        square_members(r, s, n),
        square_members(r, t, n),
        square_members(r, s2, n),
        square_members(r, t2, n),
        undoes(r, s, t, n),
        forall|i: int, j: int| 0 <= i < n && 0 <= j < n ==> #[trigger] r.eqv(
            grid_mul(r, s2, t2, n, n, n)[i][j],
            grid_mul(r, s, t, n, n, n)[i][j],
        ),
    ensures
        undoes(r, s2, t2, n),
{
    lemma_ring_parts(r);
    lemma_grid_members(r, s, t, n);
    lemma_grid_members(r, s2, t2, n);
    assert forall|i: int, j: int| 0 <= i < n && 0 <= j < n implies #[trigger] r.eqv(
        grid_mul(r, s2, t2, n, n, n)[i][j],
        fill_s(r, true, i, j),
    ) by {
        assert(r.member(grid_mul(r, s2, t2, n, n, n)[i][j]));
        assert(r.member(grid_mul(r, s, t, n, n, n)[i][j]));
        assert(r.member(fill_s(r, true, i, j)));
        assert(r.eqv(grid_mul(r, s, t, n, n, n)[i][j], fill_s(r, true, i, j)));
        lemma_trans(r, grid_mul(r, s2, t2, n, n, n)[i][j], grid_mul(r, s, t, n, n, n)[i][j], fill_s(r, true, i, j));
    }
}

/// Exchanging two rows of `t` is undone by exchanging the same columns of `s`.
pub proof fn lemma_undoes_swap<R: Ring>(r: &R, s: Seq<Seq<R::M>>, t: Seq<Seq<R::M>>, t2: Seq<Seq<R::M>>, n: nat, p: int, q: int)
    requires
        ring_laws(r),
        square_members(r, s, n),
        square_members(r, t, n),
        undoes(r, s, t, n),
        0 <= p < n,
        0 <= q < n,
        t2.len() == n,
        forall|k: int| 0 <= k < n ==> (#[trigger] t2[k]).len() == n,
        forall|k: int, j: int| 0 <= k < n && 0 <= j < n ==> #[trigger] t2[k][j] == t[if k == p { q } else if k == q { p } else { k }][j],
    ensures
        square_members(r, swap_columns(s, n, p, q), n),
        square_members(r, t2, n),
        undoes(r, swap_columns(s, n, p, q), t2, n),
{
    lemma_swap_product(r, s, t, t2, n, p, q);
    lemma_undoes_step(r, s, t, swap_columns(s, n, p, q), t2, n);
}

/// Scaling a row of `t` by `y` is undone by scaling the same column of `s` by an
/// inverse `x` of `y`.
pub proof fn lemma_undoes_scale<R: Ring>(
    r: &R,
    s: Seq<Seq<R::M>>,
    t: Seq<Seq<R::M>>,
    t2: Seq<Seq<R::M>>,
    n: nat,
    c: int,
    x: R::M,
    y: R::M,
)
    requires
        ring_laws(r),
        crate::laws::commutative_laws(r),
        square_members(r, s, n),
        square_members(r, t, n),
        square_members(r, t2, n),
        undoes(r, s, t, n),
        r.member(x),
        r.member(y),
        r.eqv(r.mul_s(x, y), r.one_s()),
        0 <= c < n,
        forall|k: int, j: int| 0 <= k < n && 0 <= j < n && k != c ==> #[trigger] r.eqv(t2[k][j], t[k][j]),
        forall|j: int| 0 <= j < n ==> #[trigger] r.eqv(t2[c][j], r.mul_s(t[c][j], y)),
    ensures
        square_members(r, scale_column(r, s, n, c, x), n),
        undoes(r, scale_column(r, s, n, c, x), t2, n),
{
    lemma_scale_product(r, s, t, t2, n, c, x, y);
    lemma_undoes_step(r, s, t, scale_column(r, s, n, c, x), t2, n);
}

/// Taking `f` times row `c` of `t` from row `src` is undone by adding `f` times
/// column `src` of `s` to its column `c`.
pub proof fn lemma_undoes_add<R: Ring>(
    r: &R,
    s: Seq<Seq<R::M>>,
    t: Seq<Seq<R::M>>,
    t2: Seq<Seq<R::M>>,
    n: nat,
    c: int,
    src: int,
    f: R::M,
)
    requires
        ring_laws(r),
        square_members(r, s, n),
        square_members(r, t, n),
        square_members(r, t2, n),
        undoes(r, s, t, n),
        r.member(f),
        0 <= c < n,
        0 <= src < n,
        c != src,
        forall|k: int, j: int| 0 <= k < n && 0 <= j < n && k != src ==> #[trigger] r.eqv(t2[k][j], t[k][j]),
        forall|j: int| 0 <= j < n ==> #[trigger] r.eqv(t2[src][j], r.sub_s(t[src][j], r.mul_s(f, t[c][j]))),
    ensures
        square_members(r, add_column(r, s, n, c, src, f), n),
        undoes(r, add_column(r, s, n, c, src, f), t2, n),
{
    lemma_add_product(r, s, t, t2, n, c, src, f);
    lemma_undoes_step(r, s, t, add_column(r, s, n, c, src, f), t2, n);
}

/// The `n × n` zero grid.
pub open spec fn zero_grid<R: Ring>(r: &R, n: nat) -> Seq<Seq<R::M>> {
    Seq::new(n, |i: int| Seq::new(n, |j: int| fill_s(r, false, i, j)))
}

/// Grids equivalent entry by entry: symmetric.
pub proof fn lemma_grid_sym<R: Ring>(r: &R, x: Seq<Seq<R::M>>, y: Seq<Seq<R::M>>, n: nat)
    requires
        ring_laws(r),
        square_members(r, x, n),
        square_members(r, y, n),
        grid_eqv(r, x, y, n, n),
    ensures
        grid_eqv(r, y, x, n, n),
{
    lemma_ring_parts(r);
    assert forall|i: int, j: int| 0 <= i < n && 0 <= j < n implies #[trigger] r.eqv(y[i][j], x[i][j]) by {
        assert(r.eqv(x[i][j], y[i][j]));
        lemma_sym(r, x[i][j], y[i][j]);
    }
}

/// Grids equivalent entry by entry: transitive.
pub proof fn lemma_grid_trans<R: Ring>(r: &R, x: Seq<Seq<R::M>>, y: Seq<Seq<R::M>>, z: Seq<Seq<R::M>>, n: nat)
    requires
        ring_laws(r),
        square_members(r, x, n),
        square_members(r, y, n),
        square_members(r, z, n),
        grid_eqv(r, x, y, n, n),
        grid_eqv(r, y, z, n, n),
    ensures
        grid_eqv(r, x, z, n, n),
{
    lemma_ring_parts(r);
    assert forall|i: int, j: int| 0 <= i < n && 0 <= j < n implies #[trigger] r.eqv(x[i][j], z[i][j]) by {
        assert(r.eqv(x[i][j], y[i][j]));
        assert(r.eqv(y[i][j], z[i][j]));
        lemma_trans(r, x[i][j], y[i][j], z[i][j]);
    }
}

/// Every grid of members is equivalent to itself.
pub proof fn lemma_grid_refl<R: Ring>(r: &R, x: Seq<Seq<R::M>>, n: nat)
    requires
        ring_laws(r),
        square_members(r, x, n),
    ensures
        grid_eqv(r, x, x, n, n),
{
    lemma_ring_parts(r);
    assert forall|i: int, j: int| 0 <= i < n && 0 <= j < n implies #[trigger] r.eqv(x[i][j], x[i][j]) by {
        lemma_refl(r, x[i][j]);
    }
}

/// Multiplying by the zero grid gives the zero grid.
pub proof fn lemma_grid_mul_zero<R: Ring>(r: &R, s: Seq<Seq<R::M>>, n: nat)
    requires
        ring_laws(r),
        square_members(r, s, n),
    ensures
        square_members(r, zero_grid(r, n), n),
        grid_eqv(r, grid_mul(r, s, zero_grid(r, n), n, n, n), zero_grid(r, n), n, n),
{
    lemma_ring_parts(r);
    let z = zero_grid(r, n);
    assert(square_members(r, z, n));
    assert forall|i: int, j: int| 0 <= i < n && 0 <= j < n implies #[trigger] r.eqv(
        grid_mul(r, s, z, n, n, n)[i][j],
        z[i][j],
    ) by {
        let f = entry_term(r, s, z, i, j);
        lemma_term_members(r, s, z, n, i, j);
        assert forall|k: int| 0 <= k < n implies r.eqv(#[trigger] f(k), r.zero_s()) by {
            lemma_mul_zero(r, s[i][k]);
        }
        lemma_sum_zero(r, f, n);
        lemma_dot_sum(r, s, z, i, j, n);
    }
}

/// If `t · a ~ l`, `l · v ~ 0`, `s · t ~ 1` and `b · a ~ 1`, then `v ~ 0`: a matrix
/// with a left inverse sends no nonzero `v` to zero through an invertible change of
/// rows.
pub proof fn lemma_kernel_trivial<R: Ring>(
    r: &R,
    l: Seq<Seq<R::M>>,
    t: Seq<Seq<R::M>>,
    a: Seq<Seq<R::M>>,
    s: Seq<Seq<R::M>>,
    b: Seq<Seq<R::M>>,
    v: Seq<Seq<R::M>>,
    n: nat,
)
    requires
        ring_laws(r),
        square_members(r, l, n),
        square_members(r, t, n),
        square_members(r, a, n),
        square_members(r, s, n),
        square_members(r, b, n),
        square_members(r, v, n),
        grid_eqv(r, grid_mul(r, t, a, n, n, n), l, n, n),
        grid_eqv(r, grid_mul(r, l, v, n, n, n), zero_grid(r, n), n, n),
        undoes(r, s, t, n),
        undoes(r, b, a, n),
    ensures
        grid_eqv(r, v, zero_grid(r, n), n, n),
{
    lemma_ring_parts(r);
    let z = zero_grid(r, n);
    let one = identity_grid(r, n);
    let ta = grid_mul(r, t, a, n, n, n);
    let w = grid_mul(r, a, v, n, n, n);
    let tw = grid_mul(r, t, w, n, n, n);
    lemma_grid_mul_zero(r, s, n);
    lemma_grid_members(r, t, a, n);
    lemma_grid_members(r, a, v, n);
    lemma_grid_members(r, t, w, n);
    lemma_grid_members(r, l, v, n);
    lemma_grid_members(r, ta, v, n);
    lemma_grid_members(r, s, t, n);
    lemma_grid_members(r, s, tw, n);
    lemma_grid_members(r, s, z, n);
    lemma_grid_members(r, b, a, n);
    lemma_grid_members(r, b, w, n);
    lemma_grid_members(r, b, z, n);
    let st = grid_mul(r, s, t, n, n, n);
    let ba = grid_mul(r, b, a, n, n, n);
    lemma_grid_members(r, st, w, n);
    lemma_grid_members(r, ba, v, n);
    lemma_grid_mul_one(r, w, n);
    lemma_grid_mul_one(r, v, n);
    assert(one =~~= Seq::new(n, |i: int| Seq::new(n, |j: int| fill_s(r, true, i, j))));
    assert(square_members(r, one, n));
    lemma_grid_members(r, one, w, n);
    lemma_grid_members(r, one, v, n);
    lemma_grid_refl(r, v, n);
    lemma_grid_refl(r, w, n);
    lemma_grid_refl(r, s, n);
    lemma_grid_refl(r, b, n);
    // t · w ~ (t · a) · v ~ l · v ~ 0
    lemma_grid_sym(r, ta, l, n);
    lemma_grid_mul_congruent(r, ta, l, v, v, n);
    lemma_grid_trans(r, grid_mul(r, ta, v, n, n, n), grid_mul(r, l, v, n, n, n), z, n);
    lemma_grid_mul_assoc(r, t, a, v, n);
    lemma_grid_sym(r, grid_mul(r, ta, v, n, n, n), tw, n);
    lemma_grid_trans(r, tw, grid_mul(r, ta, v, n, n, n), z, n);
    // w ~ 1 · w ~ (s · t) · w ~ s · (t · w) ~ s · 0 ~ 0
    lemma_grid_mul_congruent(r, s, s, tw, z, n);
    lemma_grid_trans(r, grid_mul(r, s, tw, n, n, n), grid_mul(r, s, z, n, n, n), z, n);
    lemma_grid_mul_assoc(r, s, t, w, n);
    lemma_grid_trans(r, grid_mul(r, st, w, n, n, n), grid_mul(r, s, tw, n, n, n), z, n);
    assert(grid_eqv(r, st, one, n, n));
    lemma_grid_mul_congruent(r, st, one, w, w, n);
    lemma_grid_sym(r, grid_mul(r, st, w, n, n, n), grid_mul(r, one, w, n, n, n), n);
    lemma_grid_trans(r, grid_mul(r, one, w, n, n, n), grid_mul(r, st, w, n, n, n), z, n);
    lemma_grid_sym(r, grid_mul(r, one, w, n, n, n), w, n);
    lemma_grid_trans(r, w, grid_mul(r, one, w, n, n, n), z, n);
    // v ~ 1 · v ~ (b · a) · v ~ b · w ~ b · 0 ~ 0
    lemma_grid_mul_congruent(r, b, b, w, z, n);
    lemma_grid_mul_zero(r, b, n);
    lemma_grid_trans(r, grid_mul(r, b, w, n, n, n), grid_mul(r, b, z, n, n, n), z, n);
    lemma_grid_mul_assoc(r, b, a, v, n);
    lemma_grid_trans(r, grid_mul(r, ba, v, n, n, n), grid_mul(r, b, w, n, n, n), z, n);
    assert(grid_eqv(r, ba, one, n, n));
    lemma_grid_mul_congruent(r, ba, one, v, v, n);
    lemma_grid_sym(r, grid_mul(r, ba, v, n, n, n), grid_mul(r, one, v, n, n, n), n);
    lemma_grid_trans(r, grid_mul(r, one, v, n, n, n), grid_mul(r, ba, v, n, n, n), z, n);
    lemma_grid_sym(r, grid_mul(r, one, v, n, n, n), v, n);
    lemma_grid_trans(r, v, grid_mul(r, one, v, n, n, n), z, n);
}

/// Column `col` of `l` rebuilt from the columns before it, as a grid whose every
/// column is `(-l[0][col], ..., -l[col - 1][col], 1, 0, ..., 0)`.
pub open spec fn kernel_grid<R: Ring>(r: &R, l: Seq<Seq<R::M>>, n: nat, col: int) -> Seq<Seq<R::M>> {
    Seq::new(
        n,
        |k: int|
            Seq::new(
                n,
                |j: int|
                    if k < col {
                        r.sub_s(r.zero_s(), l[k][col])
                    } else if k == col {
                        r.one_s()
                    } else {
                        r.zero_s()
                    },
            ),
    )
}

/// When the columns of `l` before `col` are those of the identity and column `col`
/// is zero from the diagonal down, `l` sends `kernel_grid` to zero.
pub proof fn lemma_kernel_column<R: Ring>(r: &R, l: Seq<Seq<R::M>>, n: nat, col: int)
    requires
        ring_laws(r),
        square_members(r, l, n),
        0 <= col < n,
        forall|t: int, c: int| 0 <= t < n && 0 <= c < col ==> #[trigger] r.eqv(l[t][c], delta(r, t, c)),
        forall|t: int| col <= t < n ==> #[trigger] r.eqv(l[t][col], r.zero_s()),
    ensures
        square_members(r, kernel_grid(r, l, n, col), n),
        grid_eqv(r, grid_mul(r, l, kernel_grid(r, l, n, col), n, n, n), zero_grid(r, n), n, n),
{
    lemma_ring_parts(r);
    let v = kernel_grid(r, l, n, col);
    let z = r.zero_s();
    let one = r.one_s();
    assert forall|k: int, j: int| 0 <= k < n && 0 <= j < n implies r.member(#[trigger] v[k][j]) by {
        if k < col {
            lemma_sub_closed(r, z, l[k][col]);
        }
    }
    assert(square_members(r, v, n));
    assert forall|i: int, j: int| 0 <= i < n && 0 <= j < n implies #[trigger] r.eqv(
        grid_mul(r, l, v, n, n, n)[i][j],
        zero_grid(r, n)[i][j],
    ) by {
        let f = entry_term(r, l, v, i, j);
        lemma_term_members(r, l, v, n, i, j);
        lemma_dot_sum(r, l, v, i, j, n);
        // the terms away from `i` and `col` vanish
        assert forall|k: int| 0 <= k < n && k != col && (k != i || i >= col) implies r.eqv(#[trigger] f(k), z) by {
            assert(r.member(f(k)));
            if k < col {
                assert(r.eqv(l[i][k], delta(r, i, k)));
                assert(delta(r, i, k) == z);
                lemma_refl(r, v[k][j]);
                lemma_mul_congruent(r, l[i][k], z, v[k][j], v[k][j]);
                lemma_zero_mul(r, v[k][j]);
                lemma_mul_closed(r, z, v[k][j]);
                lemma_trans(r, f(k), r.mul_s(z, v[k][j]), z);
            } else {
                lemma_mul_zero(r, l[i][k]);
            }
        }
        if i < col {
            let x = l[i][col];
            let g = |k: int| z;
            assert forall|k: int| 0 <= k < n implies #[trigger] r.member(g(k)) by {
            }
            assert forall|k: int| 0 <= k < n implies r.eqv(#[trigger] g(k), z) by {
                lemma_refl(r, z);
            }
            // f(i) ~ 1 · (0 - x) ~ 0 - x, and f(col) = x · 1 ~ x
            assert(r.eqv(l[i][i], delta(r, i, i)));
            lemma_sub_closed(r, z, x);
            lemma_refl(r, r.sub_s(z, x));
            lemma_mul_congruent(r, l[i][i], one, r.sub_s(z, x), r.sub_s(z, x));
            lemma_mul_one(r, r.sub_s(z, x));
            lemma_mul_closed(r, one, r.sub_s(z, x));
            lemma_trans(r, f(i), r.mul_s(one, r.sub_s(z, x)), r.sub_s(z, x));
            lemma_mul_one(r, x);
            assert(r.eqv(f(col), x));
            lemma_add_congruent(r, f(i), r.sub_s(z, x), f(col), x);
            lemma_sub_add(r, z, x);
            lemma_add_closed(r, f(i), f(col));
            lemma_add_closed(r, r.sub_s(z, x), x);
            lemma_trans(r, r.add_s(f(i), f(col)), r.add_s(r.sub_s(z, x), x), z);
            lemma_add_zero(r, z);
            lemma_add_closed(r, z, z);
            lemma_sym(r, r.add_s(z, z), z);
            lemma_trans(r, r.add_s(f(i), f(col)), z, r.add_s(g(i), g(col)));
            assert forall|k: int| 0 <= k < n && k != i && k != col implies r.eqv(#[trigger] f(k), g(k)) by {
                assert(r.eqv(f(k), z));
            }
            lemma_sum_change_two(r, f, g, n, i, col);
            lemma_sum_zero(r, g, n);
            lemma_sum_member(r, f, n);
            lemma_sum_member(r, g, n);
            lemma_trans(r, sum_of(r, f, n), sum_of(r, g, n), z);
        } else {
            // here column `col` of row `i` is zero too
            assert(r.eqv(l[i][col], z));
            lemma_refl(r, one);
            lemma_mul_congruent(r, l[i][col], z, one, one);
            lemma_zero_mul(r, one);
            lemma_mul_closed(r, z, one);
            lemma_trans(r, f(col), r.mul_s(z, one), z);
            assert forall|k: int| 0 <= k < n implies r.eqv(#[trigger] f(k), z) by {
                if k != col {
                    assert(r.eqv(f(k), z));
                }
            }
            lemma_sum_zero(r, f, n);
        }
    }
}

/// The cofactor signs alternate: the `i`-th sign of the expansion is `1` for even `i`
/// and `-1` for odd `i`, that is `(-1)^i`.
pub proof fn lemma_sign_alternates<R: Ring>(r: &R, i: nat)
    requires
        ring_laws(r),
    ensures
        r.eqv(
            crate::matrices::sign_s(r, i),
            if i % 2 == 0 { r.one_s() } else { r.sub_s(r.zero_s(), r.one_s()) },
        ),
    decreases i,
{
    lemma_ring_parts(r);
    let one = r.one_s();
    let z = r.zero_s();
    let m1 = r.sub_s(z, one);
    lemma_sub_closed(r, z, one);
    if i == 0 {
        lemma_refl(r, one);
    } else {
        let p = (i - 1) as nat;
        lemma_sign_alternates(r, p);
        let sp = crate::matrices::sign_s(r, p);
        crate::matrices::lemma_sign_member(r, p);
        lemma_refl(r, z);
        if p % 2 == 0 {
            lemma_sub_congruent(r, z, z, sp, one);
        } else {
            lemma_sub_congruent(r, z, z, sp, m1);
            crate::elliptic_laws::lemma_neg_neg(r, one);
            lemma_sub_closed(r, z, sp);
            lemma_sub_closed(r, z, m1);
            lemma_trans(r, r.sub_s(z, sp), r.sub_s(z, m1), one);
        }
    }
}

/// The product of the diagonal entries `m[0][0] · m[1][1] · ... · m[n-1][n-1]`,
/// multiplied on in increasing order.
pub open spec fn diagonal_product<R: Ring>(r: &R, m: Seq<Seq<R::M>>, n: nat) -> R::M
    decreases n,
{
    if n == 0 {
        r.one_s()
    } else {
        r.mul_s(diagonal_product(r, m, (n - 1) as nat), m[n - 1][n - 1])
    }
}

/// Every entry below the diagonal is zero.
pub open spec fn upper_triangular<R: Ring>(r: &R, m: Seq<Seq<R::M>>, n: nat) -> bool {
    forall|i: int, j: int| 0 <= j < i < n ==> r.eqv(#[trigger] m[i][j], r.zero_s())
}

proof fn lemma_diagonal_member<R: Ring>(r: &R, m: Seq<Seq<R::M>>, n: nat)
    requires
        ring_laws(r),
        forall|i: int, j: int| 0 <= i < n && 0 <= j < n ==> r.member(#[trigger] m[i][j]),
    ensures
        r.member(diagonal_product(r, m, n)),
    decreases n,
{
    lemma_ring_parts(r);
    if n > 0 {
        lemma_diagonal_member(r, m, (n - 1) as nat);
        lemma_mul_closed(r, diagonal_product(r, m, (n - 1) as nat), m[n - 1][n - 1]);
    }
}

/// `m[0][0]` times the diagonal product of the minor without row and column zero is
/// the diagonal product of `m`.
proof fn lemma_diagonal_shift<R: Ring>(r: &R, m: Seq<Seq<R::M>>, n: nat, t: nat)
    requires
        ring_laws(r),
        n >= 2,
        t + 1 <= n,
        forall|i: int, j: int| 0 <= i < n && 0 <= j < n ==> r.member(#[trigger] m[i][j]),
    ensures
        r.eqv(
            r.mul_s(m[0][0], diagonal_product(r, crate::matrices::minor_s(m, n, n, 0, 0), t)),
            diagonal_product(r, m, t + 1),
        ),
    decreases t,
{
    lemma_ring_parts(r);
    let mi = crate::matrices::minor_s(m, n, n, 0, 0);
    let a = m[0][0];
    let one = r.one_s();
    if t == 0 {
        assert(diagonal_product(r, m, 0) == one);
        lemma_mul_one(r, a);
        lemma_mul_closed(r, a, one);
        lemma_mul_closed(r, one, a);
        lemma_sym(r, r.mul_s(one, a), a);
        lemma_trans(r, r.mul_s(a, one), a, r.mul_s(one, a));
    } else {
        let t1 = (t - 1) as nat;
        lemma_diagonal_shift(r, m, n, t1);
        assert forall|i: int, j: int| 0 <= i < n - 1 && 0 <= j < n - 1 implies r.member(#[trigger] mi[i][j]) by {
            assert(mi[i][j] == m[i + 1][j + 1]);
        }
        lemma_diagonal_member(r, mi, t1);
        lemma_diagonal_member(r, m, t);
        let p = diagonal_product(r, mi, t1);
        let d = m[t as int][t as int];
        assert(mi[t - 1][t - 1] == d);
        lemma_mul_closed(r, a, p);
        lemma_mul_closed(r, p, d);
        lemma_mul_closed(r, a, r.mul_s(p, d));
        lemma_mul_closed(r, r.mul_s(a, p), d);
        // a (p d) ~ (a p) d ~ diag(m, t) d
        lemma_mul_assoc(r, a, p, d);
        lemma_sym(r, r.mul_s(r.mul_s(a, p), d), r.mul_s(a, r.mul_s(p, d)));
        lemma_refl(r, d);
        lemma_mul_congruent(r, r.mul_s(a, p), diagonal_product(r, m, t), d, d);
        lemma_mul_closed(r, diagonal_product(r, m, t), d);
        lemma_trans(r, r.mul_s(a, r.mul_s(p, d)), r.mul_s(r.mul_s(a, p), d), r.mul_s(diagonal_product(r, m, t), d));
    }
}

/// Below row zero, an upper triangular grid's first column is zero, so the
/// expansion reduces to its first term.
proof fn lemma_cofactor_first<R: Ring>(r: &R, m: Seq<Seq<R::M>>, n: nat, t: nat)
    requires
        ring_laws(r),
        n >= 2,
        1 <= t <= n,
        forall|i: int, j: int| 0 <= i < n && 0 <= j < n ==> r.member(#[trigger] m[i][j]),
        upper_triangular(r, m, n),
    ensures
        r.eqv(
            crate::matrices::cofactor_sum(r, m, n, t),
            r.mul_s(
                r.mul_s(m[0][0], crate::matrices::sign_s(r, 0)),
                crate::matrices::det_s(r, crate::matrices::minor_s(m, n, n, 0, 0), (n - 1) as nat),
            ),
        ),
    decreases t,
{
    lemma_ring_parts(r);
    let z = r.zero_s();
    let mi0 = crate::matrices::minor_s(m, n, n, 0, 0);
    assert forall|i: int, j: int| 0 <= i < n - 1 && 0 <= j < n - 1 implies r.member(#[trigger] mi0[i][j]) by {
        assert(mi0[i][j] == m[i + 1][j + 1]);
    }
    crate::matrices::lemma_det_member(r, mi0, (n - 1) as nat);
    crate::matrices::lemma_sign_member(r, 0);
    lemma_mul_closed(r, m[0][0], crate::matrices::sign_s(r, 0));
    let term0 = r.mul_s(r.mul_s(m[0][0], crate::matrices::sign_s(r, 0)), crate::matrices::det_s(r, mi0, (n - 1) as nat));
    lemma_mul_closed(r, r.mul_s(m[0][0], crate::matrices::sign_s(r, 0)), crate::matrices::det_s(r, mi0, (n - 1) as nat));
    if t == 1 {
        assert(crate::matrices::cofactor_sum(r, m, n, 0) == z);
        lemma_add_zero(r, term0);
    } else {
        let t1 = (t - 1) as nat;
        let i = t - 1;
        lemma_cofactor_first(r, m, n, t1);
        let mi = crate::matrices::minor_s(m, n, n, i, 0);
        assert forall|a: int, b: int| 0 <= a < n - 1 && 0 <= b < n - 1 implies r.member(#[trigger] mi[a][b]) by {
            assert(mi[a][b] == m[crate::matrices::skip(a, i)][b + 1]);
        }
        crate::matrices::lemma_det_member(r, mi, (n - 1) as nat);
        crate::matrices::lemma_sign_member(r, i as nat);
        let sg = crate::matrices::sign_s(r, i as nat);
        let dm = crate::matrices::det_s(r, mi, (n - 1) as nat);
        // m[i][0] ~ 0, so the term is ~ 0
        assert(r.eqv(m[i][0], z));
        lemma_refl(r, sg);
        lemma_mul_congruent(r, m[i][0], z, sg, sg);
        lemma_zero_mul(r, sg);
        lemma_mul_closed(r, m[i][0], sg);
        lemma_mul_closed(r, z, sg);
        lemma_trans(r, r.mul_s(m[i][0], sg), r.mul_s(z, sg), z);
        lemma_refl(r, dm);
        lemma_mul_congruent(r, r.mul_s(m[i][0], sg), z, dm, dm);
        lemma_zero_mul(r, dm);
        lemma_mul_closed(r, r.mul_s(m[i][0], sg), dm);
        lemma_mul_closed(r, z, dm);
        let ti = r.mul_s(r.mul_s(m[i][0], sg), dm);
        lemma_trans(r, ti, r.mul_s(z, dm), z);
        let prev = crate::matrices::cofactor_sum(r, m, n, t1);
        crate::matrices::lemma_cofactor_member(r, m, n, t1);
        lemma_add_congruent(r, prev, term0, ti, z);
        lemma_add_zero(r, term0);
        lemma_add_closed(r, prev, ti);
        lemma_add_closed(r, term0, z);
        lemma_trans(r, r.add_s(prev, ti), r.add_s(term0, z), term0);
    }
}

/// The determinant of an upper triangular grid is the product of its diagonal.
pub proof fn lemma_det_upper_triangular<R: Ring>(r: &R, m: Seq<Seq<R::M>>, n: nat)
    requires
        ring_laws(r),
        n >= 1,
        forall|i: int, j: int| 0 <= i < n && 0 <= j < n ==> r.member(#[trigger] m[i][j]),
        upper_triangular(r, m, n),
    ensures
        r.eqv(crate::matrices::det_s(r, m, n), diagonal_product(r, m, n)),
    decreases n,
{
    lemma_ring_parts(r);
    let one = r.one_s();
    if n == 1 {
        assert(diagonal_product(r, m, 0) == one);
        lemma_mul_one(r, m[0][0]);
        lemma_mul_closed(r, one, m[0][0]);
        lemma_sym(r, r.mul_s(one, m[0][0]), m[0][0]);
    } else {
        let mi0 = crate::matrices::minor_s(m, n, n, 0, 0);
        let k = (n - 1) as nat;
        assert forall|i: int, j: int| 0 <= i < k && 0 <= j < k implies r.member(#[trigger] mi0[i][j]) by {
            assert(mi0[i][j] == m[i + 1][j + 1]);
        }
        assert forall|i: int, j: int| 0 <= j < i < k implies r.eqv(#[trigger] mi0[i][j], r.zero_s()) by {
            assert(mi0[i][j] == m[i + 1][j + 1]);
        }
        lemma_det_upper_triangular(r, mi0, k);
        lemma_cofactor_first(r, m, n, n);
        lemma_diagonal_shift(r, m, n, k);
        let a = m[0][0];
        let sg = crate::matrices::sign_s(r, 0);
        let dm = crate::matrices::det_s(r, mi0, k);
        let dp = diagonal_product(r, mi0, k);
        crate::matrices::lemma_det_member(r, mi0, k);
        lemma_diagonal_member(r, mi0, k);
        lemma_diagonal_member(r, m, n);
        crate::matrices::lemma_cofactor_member(r, m, n, n);
        assert(sg == one);
        lemma_mul_one(r, a);
        lemma_mul_closed(r, a, one);
        lemma_mul_closed(r, r.mul_s(a, one), dm);
        lemma_mul_closed(r, a, dm);
        lemma_mul_closed(r, a, dp);
        lemma_mul_congruent(r, r.mul_s(a, one), a, dm, dp);
        lemma_trans(
            r,
            crate::matrices::cofactor_sum(r, m, n, n),
            r.mul_s(r.mul_s(a, one), dm),
            r.mul_s(a, dp),
        );
        lemma_trans(r, crate::matrices::cofactor_sum(r, m, n, n), r.mul_s(a, dp), diagonal_product(r, m, n));
    }
}

/// `1` for even `i`, `-1` for odd `i`.
pub open spec fn alternating<R: Ring>(r: &R, i: nat) -> R::M {
    if i % 2 == 0 {
        r.one_s()
    } else {
        r.sub_s(r.zero_s(), r.one_s())
    }
}

/// The first `t` terms of the expansion along a first column that is zero except
/// in row `i`: zero before row `i` is reached, its term afterwards.
proof fn lemma_cofactor_single<R: Ring>(r: &R, m: Seq<Seq<R::M>>, n: nat, i: int, t: nat)
    requires
        ring_laws(r),
        n >= 2,
        0 <= i < n,
        t <= n,
        forall|a: int, b: int| 0 <= a < n && 0 <= b < n ==> r.member(#[trigger] m[a][b]),
        forall|k: int| 0 <= k < n && k != i ==> r.eqv(#[trigger] m[k][0], r.zero_s()),
    ensures
        r.eqv(
            crate::matrices::cofactor_sum(r, m, n, t),
            if t > i {
                r.mul_s(
                    r.mul_s(m[i][0], crate::matrices::sign_s(r, i as nat)),
                    crate::matrices::det_s(r, crate::matrices::minor_s(m, n, n, i, 0), (n - 1) as nat),
                )
            } else {
                r.zero_s()
            },
        ),
    decreases t,
{
    lemma_ring_parts(r);
    let z = r.zero_s();
    if t == 0 {
        lemma_refl(r, z);
    } else {
        let t1 = (t - 1) as nat;
        let k = t - 1;
        lemma_cofactor_single(r, m, n, i, t1);
        let mk = crate::matrices::minor_s(m, n, n, k, 0);
        assert forall|a: int, b: int| 0 <= a < n - 1 && 0 <= b < n - 1 implies r.member(#[trigger] mk[a][b]) by {
            assert(mk[a][b] == m[crate::matrices::skip(a, k)][b + 1]);
        }
        crate::matrices::lemma_det_member(r, mk, (n - 1) as nat);
        crate::matrices::lemma_sign_member(r, k as nat);
        let sg = crate::matrices::sign_s(r, k as nat);
        let dm = crate::matrices::det_s(r, mk, (n - 1) as nat);
        lemma_mul_closed(r, m[k][0], sg);
        lemma_mul_closed(r, r.mul_s(m[k][0], sg), dm);
        let tk = r.mul_s(r.mul_s(m[k][0], sg), dm);
        let prev = crate::matrices::cofactor_sum(r, m, n, t1);
        crate::matrices::lemma_cofactor_member(r, m, n, t1);
        let before = if t1 > i {
            let mi = crate::matrices::minor_s(m, n, n, i, 0);
            r.mul_s(r.mul_s(m[i][0], crate::matrices::sign_s(r, i as nat)), crate::matrices::det_s(r, mi, (n - 1) as nat))
        } else {
            z
        };
        assert(r.member(before)) by {
            let mi = crate::matrices::minor_s(m, n, n, i, 0);
            assert forall|a: int, b: int| 0 <= a < n - 1 && 0 <= b < n - 1 implies r.member(#[trigger] mi[a][b]) by {
                assert(mi[a][b] == m[crate::matrices::skip(a, i)][b + 1]);
            }
            crate::matrices::lemma_det_member(r, mi, (n - 1) as nat);
            crate::matrices::lemma_sign_member(r, i as nat);
            lemma_mul_closed(r, m[i][0], crate::matrices::sign_s(r, i as nat));
            lemma_mul_closed(r, r.mul_s(m[i][0], crate::matrices::sign_s(r, i as nat)), crate::matrices::det_s(r, mi, (n - 1) as nat));
        }
        lemma_add_closed(r, prev, tk);
        if k == i {
            // prev ~ 0, so prev + t_i ~ 0 + t_i ~ t_i
            lemma_refl(r, tk);
            lemma_add_congruent(r, prev, z, tk, tk);
            lemma_add_zero(r, tk);
            lemma_add_closed(r, z, tk);
            lemma_trans(r, r.add_s(prev, tk), r.add_s(z, tk), tk);
        } else {
            // m[k][0] ~ 0, so the new term is ~ 0
            lemma_refl(r, sg);
            lemma_mul_congruent(r, m[k][0], z, sg, sg);
            lemma_zero_mul(r, sg);
            lemma_mul_closed(r, z, sg);
            lemma_trans(r, r.mul_s(m[k][0], sg), r.mul_s(z, sg), z);
            lemma_refl(r, dm);
            lemma_mul_congruent(r, r.mul_s(m[k][0], sg), z, dm, dm);
            lemma_zero_mul(r, dm);
            lemma_mul_closed(r, z, dm);
            lemma_trans(r, tk, r.mul_s(z, dm), z);
            lemma_add_congruent(r, prev, before, tk, z);
            lemma_add_zero(r, before);
            lemma_add_closed(r, before, z);
            lemma_trans(r, r.add_s(prev, tk), r.add_s(before, z), before);
        }
    }
}

/// Expanding a determinant along a first column that is zero except in row `i`
/// leaves one term: `det(m) ~ (m[i][0] · (-1)^i) · det(minor(m, i, 0))`.
pub proof fn lemma_det_single_entry<R: Ring>(r: &R, m: Seq<Seq<R::M>>, n: nat, i: int)
    requires
        ring_laws(r),
        n >= 2,
        0 <= i < n,
        forall|a: int, b: int| 0 <= a < n && 0 <= b < n ==> r.member(#[trigger] m[a][b]),
        forall|k: int| 0 <= k < n && k != i ==> r.eqv(#[trigger] m[k][0], r.zero_s()),
    ensures
        r.eqv(
            crate::matrices::det_s(r, m, n),
            r.mul_s(
                r.mul_s(m[i][0], alternating(r, i as nat)),
                crate::matrices::det_s(r, crate::matrices::minor_s(m, n, n, i, 0), (n - 1) as nat),
            ),
        ),
{
    lemma_ring_parts(r);
    lemma_cofactor_single(r, m, n, i, n);
    lemma_sign_alternates(r, i as nat);
    let mi = crate::matrices::minor_s(m, n, n, i, 0);
    assert forall|a: int, b: int| 0 <= a < n - 1 && 0 <= b < n - 1 implies r.member(#[trigger] mi[a][b]) by {
        assert(mi[a][b] == m[crate::matrices::skip(a, i)][b + 1]);
    }
    crate::matrices::lemma_det_member(r, mi, (n - 1) as nat);
    crate::matrices::lemma_sign_member(r, i as nat);
    let sg = crate::matrices::sign_s(r, i as nat);
    let al = alternating(r, i as nat);
    lemma_sub_closed(r, r.zero_s(), r.one_s());
    assert(r.member(al));
    let dm = crate::matrices::det_s(r, mi, (n - 1) as nat);
    lemma_refl(r, m[i][0]);
    lemma_mul_congruent(r, m[i][0], m[i][0], sg, al);
    lemma_mul_closed(r, m[i][0], sg);
    lemma_mul_closed(r, m[i][0], al);
    lemma_refl(r, dm);
    lemma_mul_congruent(r, r.mul_s(m[i][0], sg), r.mul_s(m[i][0], al), dm, dm);
    lemma_mul_closed(r, r.mul_s(m[i][0], sg), dm);
    lemma_mul_closed(r, r.mul_s(m[i][0], al), dm);
    crate::matrices::lemma_cofactor_member(r, m, n, n);
    lemma_trans(r, crate::matrices::cofactor_sum(r, m, n, n), r.mul_s(r.mul_s(m[i][0], sg), dm), r.mul_s(r.mul_s(m[i][0], al), dm));
}

} // verus!
