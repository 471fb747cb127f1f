//! Multivariate polynomials `R[x_0, .., x_{n-1}]`, with the variable count fixed at
//! run time rather than in the type.
//!
//! Terms are stored sparsely, in ascending order of their exponent vectors, so a
//! polynomial in many variables costs only what its nonzero terms cost.

use crate::laws::{
    additive_laws, equivalence, group_laws, lemma_add_assoc, lemma_add_closed,
    lemma_add_congruent, lemma_add_swap_right, lemma_add_zero, lemma_group_additive,
    lemma_refl, lemma_ring_parts, lemma_sym, lemma_trans, ring_laws,
};
use crate::polynomials::{all_valid, models};
use crate::quotient::share;
use crate::integers::decimal_digits;
use crate::text::{
    append_bracketed, append_brace_close, append_decimal, append_plus, append_power_open,
    append_times_x_sub, append_zero_digit, bracketed, Render,
};
use crate::structures::{
    AdditiveGroup, CommutativeMonoid, DecidableEq, Domain, Monoid, Ring, SemiRing, Semigroup,
};
use std::rc::Rc;
use vstd::prelude::*;

verus! {

/// The exponents of one monomial, one entry per variable.
pub type Monomial = Vec<u32>;

/// How one exponent vector compares with another.
pub enum Comparison {
    Less,
    Equal,
    Greater,
}

/// `a` precedes `b` lexicographically, looking from index `i` on.
pub open spec fn lex_less_from(a: Seq<u32>, b: Seq<u32>, i: int) -> bool
    decreases a.len() - i,
{
    if i < 0 || i >= a.len() || i >= b.len() {
        false
    } else if a[i] != b[i] {
        a[i] < b[i]
    } else {
        lex_less_from(a, b, i + 1)
    }
}

/// `a` precedes `b` in lexicographic order.
pub open spec fn lex_less(a: Seq<u32>, b: Seq<u32>) -> bool {
    lex_less_from(a, b, 0)
}

/// No exponent vector precedes itself.
pub proof fn lemma_lex_irreflexive(a: Seq<u32>, i: int)
    requires
        0 <= i,
    ensures
        !lex_less_from(a, a, i),
    decreases a.len() - i,
{
    if i < a.len() {
        lemma_lex_irreflexive(a, i + 1);
    }
}

/// The lexicographic order is transitive.
pub proof fn lemma_lex_transitive(a: Seq<u32>, b: Seq<u32>, c: Seq<u32>, i: int)
    requires
        0 <= i,
        a.len() == b.len(),
        b.len() == c.len(),
        lex_less_from(a, b, i),
        lex_less_from(b, c, i),
    ensures
        lex_less_from(a, c, i),
    decreases a.len() - i,
{
    if a[i] == b[i] && b[i] == c[i] {
        lemma_lex_transitive(a, b, c, i + 1);
    }
}

/// Two exponent vectors of one length, neither before the other, are equal from `i` on.
pub proof fn lemma_lex_total(a: Seq<u32>, b: Seq<u32>, i: int)
    requires
        0 <= i,
        a.len() == b.len(),
        !lex_less_from(a, b, i),
        !lex_less_from(b, a, i),
    ensures
        forall|k: int| i <= k < a.len() ==> a[k] == b[k],
    decreases a.len() - i,
{
    if i < a.len() {
        lemma_lex_total(a, b, i + 1);
    }
}

/// Two exponent vectors of one length are equal, or one precedes the other.
pub proof fn lemma_lex_trichotomy(a: Seq<u32>, b: Seq<u32>)
    requires
        a.len() == b.len(),
    ensures
        a == b || lex_less(a, b) || lex_less(b, a),
        !(lex_less(a, b) && lex_less(b, a)),
        lex_less(a, b) ==> a != b,
{
    if !lex_less(a, b) && !lex_less(b, a) {
        lemma_lex_total(a, b, 0);
        assert(a =~= b);
    }
    if lex_less(a, b) && lex_less(b, a) {
        lemma_lex_transitive(a, b, a, 0);
        lemma_lex_irreflexive(a, 0);
    }
    lemma_lex_irreflexive(a, 0);
}

/// Compares two exponent vectors of one length lexicographically.
fn compare_monomials(a: &Vec<u32>, b: &Vec<u32>) -> (c: Comparison)
    requires
        a@.len() == b@.len(),
    ensures
        c is Less <==> lex_less(a@, b@),
        c is Equal <==> a@ == b@,
        c is Greater <==> lex_less(b@, a@),
{
    proof {
        lemma_lex_trichotomy(a@, b@);
    }
    let n = a.len();
    let mut i: usize = 0;
    while i < n
        invariant
            n == a@.len(),
            n == b@.len(),
            i <= n,
            forall|k: int| 0 <= k < i ==> a@[k] == b@[k],
            lex_less(a@, b@) == lex_less_from(a@, b@, i as int),
            lex_less(b@, a@) == lex_less_from(b@, a@, i as int),
        decreases n - i,
    {
        if a[i] < b[i] {
            return Comparison::Less;
        }
        if b[i] < a[i] {
            return Comparison::Greater;
        }
        i = i + 1;
    }
    assert(a@ =~= b@);
    Comparison::Equal
}

/// The terms are in strictly ascending order of their exponent vectors.
pub open spec fn sorted_terms<T>(s: Seq<(Seq<u32>, T)>) -> bool {
    forall|i: int, j: int| 0 <= i < j < s.len() ==> lex_less(#[trigger] s[i].0, #[trigger] s[j].0)
}

/// The models of a list of terms, each an exponent vector and a coefficient.
pub open spec fn term_models<R: Domain>(r: &R, v: Seq<(Vec<u32>, R::E)>) -> Seq<(Seq<u32>, R::M)> {
    Seq::new(v.len(), |i: int| (v[i].0@, r.model(v[i].1)))
}

/// Every term has `n` exponents and a well-formed coefficient.
pub open spec fn terms_ok<R: Domain>(r: &R, v: Seq<(Vec<u32>, R::E)>, n: nat) -> bool {
    forall|i: int| 0 <= i < v.len() ==> (#[trigger] v[i]).0@.len() == n && r.valid(v[i].1)
}

/// Every coefficient is a member of the coefficient ring.
pub open spec fn term_members<R: Domain>(r: &R, s: Seq<(Seq<u32>, R::M)>) -> bool {
    forall|i: int| 0 <= i < s.len() ==> #[trigger] r.member(s[i].1)
}

/// Every exponent vector has `n` entries.
pub open spec fn arity_ok<T>(s: Seq<(Seq<u32>, T)>, n: nat) -> bool {
    forall|i: int| 0 <= i < s.len() ==> (#[trigger] s[i]).0.len() == n
}

/// `c`, plus the coefficient of term `t` when its exponent vector is `m`.
pub open spec fn add_term<R: Ring>(r: &R, c: R::M, t: (Seq<u32>, R::M), m: Seq<u32>) -> R::M {
    if t.0 == m {
        r.add_s(c, t.1)
    } else {
        c
    }
}

/// The coefficient of the monomial `m` in the term list `s`: the sum of the
/// coefficients of its entries for `m`, added up in order from zero.
pub open spec fn coefficient_of<R: Ring>(r: &R, s: Seq<(Seq<u32>, R::M)>, m: Seq<u32>) -> R::M
    decreases s.len(),
{
    if s.len() == 0 {
        r.zero_s()
    } else {
        add_term(r, coefficient_of(r, s.drop_last(), m), s.last(), m)
    }
}

/// Two term lists give every monomial the same coefficient.
pub open spec fn same_terms<R: Ring>(r: &R, a: Seq<(Seq<u32>, R::M)>, b: Seq<(Seq<u32>, R::M)>) -> bool {
    forall|m: Seq<u32>|
        #![trigger coefficient_of(r, a, m)]
        #![trigger coefficient_of(r, b, m)]
        r.eqv(coefficient_of(r, a, m), coefficient_of(r, b, m))
}

/// Appending a term adds it to the coefficient of its monomial.
pub proof fn lemma_coefficient_push<R: Ring>(r: &R, s: Seq<(Seq<u32>, R::M)>, t: (Seq<u32>, R::M), m: Seq<u32>)
    ensures
        coefficient_of(r, s.push(t), m) == add_term(r, coefficient_of(r, s, m), t, m),
{
    assert(s.push(t).drop_last() =~= s);
}

/// Every coefficient of a list of members is a member.
pub proof fn lemma_coefficient_member<R: Ring>(r: &R, s: Seq<(Seq<u32>, R::M)>, m: Seq<u32>)
    requires
        ring_laws(r),
        term_members(r, s),
    ensures
        r.member(coefficient_of(r, s, m)),
    decreases s.len(),
{
    lemma_ring_parts(r);
    if s.len() > 0 {
        lemma_coefficient_member(r, s.drop_last(), m);
        if s.last().0 == m {
            lemma_add_closed(r, coefficient_of(r, s.drop_last(), m), s.last().1);
        }
    }
}

/// Adding a term keeps `eqv`: equal coefficients plus equal terms.
pub proof fn lemma_add_term_congruent<R: Ring>(r: &R, c1: R::M, c2: R::M, t1: (Seq<u32>, R::M), t2: (Seq<u32>, R::M), m: Seq<u32>)
    requires
        ring_laws(r),
        r.member(c1),
        r.member(c2),
        r.member(t1.1),
        r.member(t2.1),
        r.eqv(c1, c2),
        t1.0 == t2.0,
        r.eqv(t1.1, t2.1),
    ensures
        r.eqv(add_term(r, c1, t1, m), add_term(r, c2, t2, m)),
        r.member(add_term(r, c1, t1, m)),
{
    lemma_ring_parts(r);
    if t1.0 == m {
        lemma_add_congruent(r, c1, c2, t1.1, t2.1);
        lemma_add_closed(r, c1, t1.1);
    }
}

/// Two terms can be added in either order.
pub proof fn lemma_add_term_swap<R: Ring>(r: &R, c: R::M, t1: (Seq<u32>, R::M), t2: (Seq<u32>, R::M), m: Seq<u32>)
    requires
        ring_laws(r),
        r.member(c),
        r.member(t1.1),
        r.member(t2.1),
    ensures
        r.eqv(add_term(r, add_term(r, c, t1, m), t2, m), add_term(r, add_term(r, c, t2, m), t1, m)),
        r.member(add_term(r, add_term(r, c, t1, m), t2, m)),
{
    lemma_ring_parts(r);
    if t1.0 == m && t2.0 == m {
        lemma_add_swap_right(r, c, t1.1, t2.1);
        lemma_add_closed(r, c, t1.1);
        lemma_add_closed(r, r.add_s(c, t1.1), t2.1);
    } else if t1.0 == m {
        lemma_add_closed(r, c, t1.1);
        lemma_refl(r, r.add_s(c, t1.1));
    } else if t2.0 == m {
        lemma_add_closed(r, c, t2.1);
        lemma_refl(r, r.add_s(c, t2.1));
    } else {
        lemma_refl(r, c);
    }
}

/// Inserting a term anywhere gives the coefficients of appending it.
pub proof fn lemma_coefficient_insert<R: Ring>(r: &R, s: Seq<(Seq<u32>, R::M)>, p: int, t: (Seq<u32>, R::M), m: Seq<u32>)
    requires
        ring_laws(r),
        term_members(r, s),
        r.member(t.1),
        0 <= p <= s.len(),
    ensures
        r.eqv(coefficient_of(r, s.insert(p, t), m), coefficient_of(r, s.push(t), m)),
    decreases s.len(),
{
    lemma_ring_parts(r);
    lemma_refl(r, t.1);
    if p == s.len() {
        assert(s.insert(p, t) =~= s.push(t));
        lemma_coefficient_member(r, s, m);
        lemma_coefficient_push(r, s, t, m);
        lemma_refl(r, coefficient_of(r, s, m));
        lemma_add_term_congruent(r, coefficient_of(r, s, m), coefficient_of(r, s, m), t, t, m);
    } else {
        let s1 = s.drop_last();
        let l = s.last();
        assert(s.insert(p, t).drop_last() =~= s1.insert(p, t));
        assert(s.insert(p, t).last() == l);
        assert(s1.push(l) =~= s);
        lemma_coefficient_insert(r, s1, p, t, m);
        lemma_coefficient_push(r, s1, t, m);
        lemma_coefficient_push(r, s1, l, m);
        lemma_coefficient_push(r, s, t, m);
        let ins = coefficient_of(r, s1.insert(p, t), m);
        let c1 = coefficient_of(r, s1, m);
        assert(term_members(r, s1.insert(p, t)));
        lemma_coefficient_member(r, s1.insert(p, t), m);
        lemma_coefficient_member(r, s1, m);
        lemma_refl(r, c1);
        lemma_add_term_congruent(r, c1, c1, t, t, m);
        lemma_refl(r, l.1);
        // ins ~ c1 + t, so ins + l ~ (c1 + t) + l ~ (c1 + l) + t
        lemma_add_term_congruent(r, ins, add_term(r, c1, t, m), l, l, m);
        lemma_add_term_swap(r, c1, t, l, m);
        lemma_add_term_congruent(r, add_term(r, c1, t, m), add_term(r, c1, t, m), l, l, m);
        lemma_add_term_congruent(r, c1, c1, l, l, m);
        lemma_add_term_congruent(r, add_term(r, c1, l, m), add_term(r, c1, l, m), t, t, m);
        lemma_trans(
            r,
            add_term(r, ins, l, m),
            add_term(r, add_term(r, c1, t, m), l, m),
            add_term(r, add_term(r, c1, l, m), t, m),
        );
    }
}

/// Adding `x` to the coefficient of an entry gives the coefficients of appending
/// the term `(k, x)`.
pub proof fn lemma_coefficient_update<R: Ring>(r: &R, s: Seq<(Seq<u32>, R::M)>, p: int, x: R::M, m: Seq<u32>)
    requires
        ring_laws(r),
        term_members(r, s),
        r.member(x),
        0 <= p < s.len(),
    ensures
        r.eqv(
            coefficient_of(r, s.update(p, (s[p].0, r.add_s(s[p].1, x))), m),
            coefficient_of(r, s.push((s[p].0, x)), m),
        ),
    decreases s.len(),
{
    lemma_ring_parts(r);
    let k = s[p].0;
    let t = (k, x);
    let u = s.update(p, (k, r.add_s(s[p].1, x)));
    let s1 = s.drop_last();
    let l = s.last();
    assert(s1.push(l) =~= s);
    lemma_coefficient_push(r, s, t, m);
    lemma_coefficient_member(r, s1, m);
    lemma_coefficient_member(r, s, m);
    lemma_add_closed(r, s[p].1, x);
    if p == s.len() - 1 {
        assert(u.drop_last() =~= s1);
        let c1 = coefficient_of(r, s1, m);
        if k == m {
            lemma_add_assoc(r, c1, s[p].1, x);
            lemma_add_closed(r, c1, s[p].1);
            lemma_add_closed(r, r.add_s(c1, s[p].1), x);
            lemma_add_closed(r, c1, r.add_s(s[p].1, x));
            lemma_sym(r, r.add_s(r.add_s(c1, s[p].1), x), r.add_s(c1, r.add_s(s[p].1, x)));
        } else {
            lemma_refl(r, c1);
        }
    } else {
        let u1 = s1.update(p, (k, r.add_s(s[p].1, x)));
        assert(u.drop_last() =~= u1);
        assert(u.last() == l);
        lemma_coefficient_update(r, s1, p, x, m);
        lemma_coefficient_push(r, s1, t, m);
        let cu = coefficient_of(r, u1, m);
        let c1 = coefficient_of(r, s1, m);
        assert(term_members(r, u1));
        lemma_coefficient_member(r, u1, m);
        lemma_refl(r, l.1);
        lemma_refl(r, x);
        lemma_refl(r, c1);
        // cu ~ c1 + t, so cu + l ~ (c1 + t) + l ~ (c1 + l) + t
        lemma_add_term_congruent(r, c1, c1, t, t, m);
        lemma_add_term_congruent(r, cu, add_term(r, c1, t, m), l, l, m);
        lemma_add_term_swap(r, c1, t, l, m);
        lemma_add_term_congruent(r, c1, c1, l, l, m);
        lemma_add_term_congruent(r, add_term(r, c1, l, m), add_term(r, c1, l, m), t, t, m);
        lemma_trans(
            r,
            add_term(r, cu, l, m),
            add_term(r, add_term(r, c1, t, m), l, m),
            add_term(r, add_term(r, c1, l, m), t, m),
        );
    }
}

/// A term list with no entry for `m` gives it the coefficient zero.
pub proof fn lemma_coefficient_absent<R: Ring>(r: &R, s: Seq<(Seq<u32>, R::M)>, m: Seq<u32>)
    requires
        forall|i: int| 0 <= i < s.len() ==> (#[trigger] s[i]).0 != m,
    ensures
        coefficient_of(r, s, m) == r.zero_s(),
    decreases s.len(),
{
    if s.len() > 0 {
        lemma_coefficient_absent(r, s.drop_last(), m);
    }
}

/// A term list with exactly one entry for `m` gives it that entry's coefficient.
pub proof fn lemma_coefficient_single<R: Ring>(r: &R, s: Seq<(Seq<u32>, R::M)>, p: int)
    requires
        ring_laws(r),
        term_members(r, s),
        0 <= p < s.len(),
        forall|i: int| 0 <= i < s.len() && i != p ==> (#[trigger] s[i]).0 != s[p].0,
    ensures
        r.eqv(coefficient_of(r, s, s[p].0), s[p].1),
    decreases s.len(),
{
    lemma_ring_parts(r);
    let m = s[p].0;
    let s1 = s.drop_last();
    if p == s.len() - 1 {
        lemma_coefficient_absent(r, s1, m);
        lemma_add_zero(r, s[p].1);
    } else {
        assert(s1[p] == s[p]);
        lemma_coefficient_single(r, s1, p);
    }
}

/// Sorted terms have distinct exponent vectors.
pub proof fn lemma_sorted_distinct<T>(s: Seq<(Seq<u32>, T)>, i: int, j: int)
    requires
        sorted_terms(s),
        0 <= i < s.len(),
        0 <= j < s.len(),
        i != j,
    ensures
        s[i].0 != s[j].0,
{
    lemma_lex_irreflexive(s[i].0, 0);
}

/// Adds `x` to the coefficient of `mono` in a sorted term list, inserting a new term
/// where `mono` has none, so the list stays sorted.
fn insert_term<R: Ring>(ring: &R, terms: &mut Vec<(Vec<u32>, R::E)>, mono: Vec<u32>, x: R::E)
    requires
        ring.wf(),
        ring.valid(x),
        terms_ok(ring, old(terms)@, mono@.len()),
        sorted_terms(term_models(ring, old(terms)@)),
    ensures
        terms_ok(ring, final(terms)@, mono@.len()),
        sorted_terms(term_models(ring, final(terms)@)),
        ring_laws(ring) ==> same_terms(
            ring,
            term_models(ring, final(terms)@),
            term_models(ring, old(terms)@).push((mono@, ring.model(x))),
        ),
{
    let ghost before = terms@;
    let ghost n = mono@.len();
    let ghost sm = term_models(ring, before);
    let len = terms.len();
    let mut i: usize = 0;
    let mut stop = false;
    let mut equal_at = false;
    while i < len && !stop
        invariant
            len == terms@.len(),
            terms@ == before,
            sm == term_models(ring, before),
            i <= len,
            terms_ok(ring, before, n),
            n == mono@.len(),
            forall|k: int| 0 <= k < i ==> lex_less(#[trigger] before[k].0@, mono@),
            stop ==> i < len,
            equal_at ==> stop && before[i as int].0@ == mono@,
            stop && !equal_at ==> lex_less(mono@, before[i as int].0@),
        decreases len - i + (if stop { 0int } else { 1int }),
    {
        match compare_monomials(&terms[i].0, &mono) {
            Comparison::Less => {
                i = i + 1;
            },
            Comparison::Equal => {
                stop = true;
                equal_at = true;
            },
            Comparison::Greater => {
                stop = true;
            },
        }
    }
    proof {
        if ring_laws(ring) {
            lemma_ring_parts(ring);
        }
    }
    if equal_at {
        {
            let sum = ring.add(&terms[i].1, &x);
            let ghost old_c = before[i as int].1;
            terms[i] = (mono, sum);
            proof {
                assert(sm[i as int].0 == mono@);
                assert(term_models(ring, terms@) =~= sm.update(i as int, (mono@, ring.model(sum))));
                assert forall|a: int, b: int| 0 <= a < b < terms@.len() implies lex_less(
                    #[trigger] term_models(ring, terms@)[a].0,
                    #[trigger] term_models(ring, terms@)[b].0,
                ) by {
                    assert(lex_less(sm[a].0, sm[b].0));
                }
                if ring_laws(ring) {
                    assert(term_members(ring, sm)) by {
                        assert forall|k: int| 0 <= k < sm.len() implies #[trigger] ring.member(sm[k].1) by {
                            ring.lemma_valid_member(before[k].1);
                        }
                    }
                    ring.lemma_valid_member(x);
                    ring.lemma_valid_member(sum);
                    ring.lemma_valid_member(old_c);
                    let target = sm.push((mono@, ring.model(x)));
                    let mid = sm.update(i as int, (mono@, ring.add_s(sm[i as int].1, ring.model(x))));
                    assert forall|m: Seq<u32>| #![trigger coefficient_of(ring, term_models(ring, terms@), m)] #![trigger coefficient_of(ring, target, m)]
                        ring.eqv(coefficient_of(ring, term_models(ring, terms@), m), coefficient_of(ring, target, m)) by {
                        lemma_coefficient_update(ring, sm, i as int, ring.model(x), m);
                        lemma_add_closed(ring, sm[i as int].1, ring.model(x));
                        // the stored sum is only eqv to the model sum
                        lemma_coefficient_update_eqv(ring, sm, i as int, ring.model(sum), ring.add_s(sm[i as int].1, ring.model(x)), m);
                        assert(term_members(ring, mid));
                        assert(term_members(ring, term_models(ring, terms@))) by {
                            assert forall|k: int| 0 <= k < terms@.len() implies #[trigger] ring.member(term_models(ring, terms@)[k].1) by {
                                ring.lemma_valid_member(terms@[k].1);
                            }
                        }
                        assert(term_members(ring, target));
                        lemma_coefficient_member(ring, term_models(ring, terms@), m);
                        lemma_coefficient_member(ring, mid, m);
                        lemma_coefficient_member(ring, target, m);
                        lemma_trans(
                            ring,
                            coefficient_of(ring, term_models(ring, terms@), m),
                            coefficient_of(ring, mid, m),
                            coefficient_of(ring, target, m),
                        );
                    }
                }
            }
        }
    } else {
        {
            let ghost t = (mono@, ring.model(x));
            terms.insert(i, (mono, x));
            proof {
                assert(term_models(ring, terms@) =~= sm.insert(i as int, t));
                assert forall|k: int| 0 <= k < sm.len() implies (#[trigger] sm[k]).0.len() == n by {
                    assert(before[k].0@.len() == n);
                }
                assert forall|a: int, b: int| 0 <= a < b < terms@.len() implies lex_less(
                    #[trigger] term_models(ring, terms@)[a].0,
                    #[trigger] term_models(ring, terms@)[b].0,
                ) by {
                    let tm = term_models(ring, terms@);
                    if b < i {
                        assert(lex_less(sm[a].0, sm[b].0));
                    } else if b == i {
                        assert(lex_less(before[a].0@, mono@));
                    } else if a == i {
                        if b - 1 > i {
                            assert(lex_less(sm[i as int].0, sm[b - 1].0));
                            lemma_lex_transitive(t.0, sm[i as int].0, sm[b - 1].0, 0);
                        }
                    } else if a < i {
                        assert(lex_less(before[a].0@, mono@));
                        if b - 1 > i {
                            assert(lex_less(sm[i as int].0, sm[b - 1].0));
                            lemma_lex_transitive(t.0, sm[i as int].0, sm[b - 1].0, 0);
                        }
                        lemma_lex_transitive(sm[a].0, t.0, sm[b - 1].0, 0);
                    } else {
                        assert(lex_less(sm[a - 1].0, sm[b - 1].0));
                    }
                }
                if ring_laws(ring) {
                    assert(term_members(ring, sm)) by {
                        assert forall|k: int| 0 <= k < sm.len() implies #[trigger] ring.member(sm[k].1) by {
                            ring.lemma_valid_member(before[k].1);
                        }
                    }
                    ring.lemma_valid_member(x);
                    assert forall|m: Seq<u32>| #![trigger coefficient_of(ring, term_models(ring, terms@), m)] #![trigger coefficient_of(ring, sm.push(t), m)]
                        ring.eqv(coefficient_of(ring, term_models(ring, terms@), m), coefficient_of(ring, sm.push(t), m)) by {
                        lemma_coefficient_insert(ring, sm, i as int, t, m);
                    }
                }
            }
        }
    }
}

/// Replacing an entry's coefficient by an equal one keeps every coefficient.
pub proof fn lemma_coefficient_update_eqv<R: Ring>(r: &R, s: Seq<(Seq<u32>, R::M)>, p: int, a: R::M, b: R::M, m: Seq<u32>)
    requires
        ring_laws(r),
        term_members(r, s),
        r.member(a),
        r.member(b),
        r.eqv(a, b),
        0 <= p < s.len(),
    ensures
        r.eqv(coefficient_of(r, s.update(p, (s[p].0, a)), m), coefficient_of(r, s.update(p, (s[p].0, b)), m)),
    decreases s.len(),
{
    lemma_ring_parts(r);
    let k = s[p].0;
    let ua = s.update(p, (k, a));
    let ub = s.update(p, (k, b));
    let s1 = s.drop_last();
    lemma_coefficient_member(r, s1, m);
    if p == s.len() - 1 {
        assert(ua.drop_last() =~= s1);
        assert(ub.drop_last() =~= s1);
        lemma_refl(r, coefficient_of(r, s1, m));
        lemma_add_term_congruent(r, coefficient_of(r, s1, m), coefficient_of(r, s1, m), (k, a), (k, b), m);
    } else {
        assert(ua.drop_last() =~= s1.update(p, (k, a)));
        assert(ub.drop_last() =~= s1.update(p, (k, b)));
        lemma_coefficient_update_eqv(r, s1, p, a, b, m);
        assert(term_members(r, s1.update(p, (k, a))));
        assert(term_members(r, s1.update(p, (k, b))));
        lemma_coefficient_member(r, s1.update(p, (k, a)), m);
        lemma_coefficient_member(r, s1.update(p, (k, b)), m);
        lemma_refl(r, s.last().1);
        lemma_add_term_congruent(
            r,
            coefficient_of(r, s1.update(p, (k, a)), m),
            coefficient_of(r, s1.update(p, (k, b)), m),
            s.last(),
            s.last(),
            m,
        );
    }
}

/// No coefficient is zero.
pub open spec fn nonzero_terms<R: Domain>(r: &R, s: Seq<(Seq<u32>, R::M)>) -> bool
    where R: CommutativeMonoid
{
    forall|i: int| 0 <= i < s.len() ==> !r.eqv(#[trigger] s[i].1, r.zero_s())
}

/// The coefficients of well-formed terms are members.
pub proof fn lemma_terms_members<R: Ring>(r: &R, v: Seq<(Vec<u32>, R::E)>, n: nat)
    requires
        r.wf(),
        terms_ok(r, v, n),
    ensures
        term_members(r, term_models(r, v)),
        arity_ok(term_models(r, v), n),
{
    assert forall|k: int| 0 <= k < v.len() implies #[trigger] r.member(term_models(r, v)[k].1) by {
        assert(r.valid(v[k].1));
        r.lemma_valid_member(v[k].1);
    }
    assert forall|k: int| 0 <= k < v.len() implies (#[trigger] term_models(r, v)[k]).0.len() == n by {
        assert(v[k].0@.len() == n);
    }
}

/// `same_terms` is reflexive.
pub proof fn lemma_same_terms_refl<R: Ring>(r: &R, a: Seq<(Seq<u32>, R::M)>)
    requires
        ring_laws(r),
        term_members(r, a),
    ensures
        same_terms(r, a, a),
{
    assert forall|m: Seq<u32>| #![trigger coefficient_of(r, a, m)] r.eqv(coefficient_of(r, a, m), coefficient_of(r, a, m)) by {
        lemma_ring_parts(r);
        lemma_coefficient_member(r, a, m);
        lemma_refl(r, coefficient_of(r, a, m));
    }
}

/// `same_terms` is symmetric.
pub proof fn lemma_same_terms_sym<R: Ring>(r: &R, a: Seq<(Seq<u32>, R::M)>, b: Seq<(Seq<u32>, R::M)>)
    requires
        ring_laws(r),
        term_members(r, a),
        term_members(r, b),
        same_terms(r, a, b),
    ensures
        same_terms(r, b, a),
{
    assert forall|m: Seq<u32>| #![trigger coefficient_of(r, b, m)] r.eqv(coefficient_of(r, b, m), coefficient_of(r, a, m)) by {
        lemma_ring_parts(r);
        lemma_coefficient_member(r, a, m);
        lemma_coefficient_member(r, b, m);
        assert(r.eqv(coefficient_of(r, a, m), coefficient_of(r, b, m)));
        lemma_sym(r, coefficient_of(r, a, m), coefficient_of(r, b, m));
    }
}

/// `same_terms` is transitive.
pub proof fn lemma_same_terms_trans<R: Ring>(
    r: &R,
    a: Seq<(Seq<u32>, R::M)>,
    b: Seq<(Seq<u32>, R::M)>,
    c: Seq<(Seq<u32>, R::M)>,
)
    requires
        ring_laws(r),
        term_members(r, a),
        term_members(r, b),
        term_members(r, c),
        same_terms(r, a, b),
        same_terms(r, b, c),
    ensures
        same_terms(r, a, c),
{
    assert forall|m: Seq<u32>| #![trigger coefficient_of(r, a, m)] #![trigger coefficient_of(r, c, m)] r.eqv(coefficient_of(r, a, m), coefficient_of(r, c, m)) by {
        lemma_ring_parts(r);
        lemma_coefficient_member(r, a, m);
        lemma_coefficient_member(r, b, m);
        lemma_coefficient_member(r, c, m);
        assert(r.eqv(coefficient_of(r, a, m), coefficient_of(r, b, m)));
        assert(r.eqv(coefficient_of(r, b, m), coefficient_of(r, c, m)));
        lemma_trans(r, coefficient_of(r, a, m), coefficient_of(r, b, m), coefficient_of(r, c, m));
    }
}

/// Appending equal terms to lists with the same coefficients keeps them the same.
pub proof fn lemma_same_terms_push<R: Ring>(
    r: &R,
    a: Seq<(Seq<u32>, R::M)>,
    b: Seq<(Seq<u32>, R::M)>,
    t1: (Seq<u32>, R::M),
    t2: (Seq<u32>, R::M),
)
    requires
        ring_laws(r),
        term_members(r, a),
        term_members(r, b),
        r.member(t1.1),
        r.member(t2.1),
        t1.0 == t2.0,
        r.eqv(t1.1, t2.1),
        same_terms(r, a, b),
    ensures
        same_terms(r, a.push(t1), b.push(t2)),
        term_members(r, a.push(t1)),
        term_members(r, b.push(t2)),
{
    assert forall|m: Seq<u32>| #![trigger coefficient_of(r, a.push(t1), m)] #![trigger coefficient_of(r, b.push(t2), m)] r.eqv(
        coefficient_of(r, a.push(t1), m),
        coefficient_of(r, b.push(t2), m),
    ) by {
        lemma_coefficient_push(r, a, t1, m);
        lemma_coefficient_push(r, b, t2, m);
        lemma_coefficient_member(r, a, m);
        lemma_coefficient_member(r, b, m);
        assert(r.eqv(coefficient_of(r, a, m), coefficient_of(r, b, m)));
        lemma_add_term_congruent(r, coefficient_of(r, a, m), coefficient_of(r, b, m), t1, t2, m);
    }
}

/// A term whose coefficient is zero changes no coefficient.
pub proof fn lemma_add_term_zero<R: Ring>(r: &R, c: R::M, t: (Seq<u32>, R::M), m: Seq<u32>)
    requires
        ring_laws(r),
        r.member(c),
        r.member(t.1),
        r.eqv(t.1, r.zero_s()),
    ensures
        r.eqv(add_term(r, c, t, m), c),
{
    lemma_ring_parts(r);
    if t.0 == m {
        lemma_refl(r, c);
        lemma_add_congruent(r, c, c, t.1, r.zero_s());
        lemma_add_zero(r, c);
        lemma_add_closed(r, c, t.1);
        lemma_add_closed(r, c, r.zero_s());
        lemma_trans(r, r.add_s(c, t.1), r.add_s(c, r.zero_s()), c);
    } else {
        lemma_refl(r, c);
    }
}

/// A copy of an exponent vector.
fn copy_monomial(m: &Vec<u32>) -> (r: Vec<u32>)
    ensures
        r@ == m@,
{
    let mut r: Vec<u32> = Vec::new();
    let n = m.len();
    for i in 0..n
        invariant
            n == m@.len(),
            r@ == m@.take(i as int),
    {
        r.push(m[i]);
        assert(r@ =~= m@.take(i + 1));
    }
    assert(m@.take(n as int) =~= m@);
    r
}

/// A copy of a list of terms.
fn copy_terms<R: Ring>(ring: &R, terms: &Vec<(Vec<u32>, R::E)>, n: usize) -> (r: Vec<(Vec<u32>, R::E)>)
    ensures
        terms_ok(ring, terms@, n as nat) ==> terms_ok(ring, r@, n as nat),
        terms_ok(ring, terms@, n as nat) ==> term_models(ring, r@) == term_models(ring, terms@),
{
    let mut out: Vec<(Vec<u32>, R::E)> = Vec::new();
    let len = terms.len();
    for i in 0..len
        invariant
            len == terms@.len(),
            out@.len() == i,
            forall|k: int| 0 <= k < i ==> (#[trigger] out@[k]).0@ == terms@[k].0@,
            forall|k: int|
                0 <= k < i ==> ring.valid(terms@[k].1) ==> ring.valid(#[trigger] out@[k].1)
                    && ring.model(out@[k].1) == ring.model(terms@[k].1),
    {
        let m = copy_monomial(&terms[i].0);
        let c = ring.copy(&terms[i].1);
        out.push((m, c));
    }
    proof {
        if terms_ok(ring, terms@, n as nat) {
            assert forall|k: int| 0 <= k < out@.len() implies (#[trigger] out@[k]).0@.len() == n && ring.valid(out@[k].1) by {
                assert(terms@[k].0@.len() == n && ring.valid(terms@[k].1));
            }
            assert forall|k: int| 0 <= k < len implies #[trigger] term_models(ring, out@)[k] == term_models(ring, terms@)[k] by {
                assert(terms@[k].0@.len() == n && ring.valid(terms@[k].1));
                assert(out@[k].0@ == terms@[k].0@);
            }
            assert(term_models(ring, out@) =~= term_models(ring, terms@));
        }
    }
    out
}

/// Drops zero coefficients, which is what keeps the representation canonical.
fn prune<R: Ring + DecidableEq>(ring: &R, terms: &Vec<(Vec<u32>, R::E)>, n: usize) -> (r: Vec<(Vec<u32>, R::E)>)
    requires
        ring.wf(),
        terms_ok(ring, terms@, n as nat),
        sorted_terms(term_models(ring, terms@)),
    ensures
        terms_ok(ring, r@, n as nat),
        sorted_terms(term_models(ring, r@)),
        ring_laws(ring) ==> nonzero_terms(ring, term_models(ring, r@)),
        ring_laws(ring) ==> same_terms(ring, term_models(ring, r@), term_models(ring, terms@)),
{
    let ghost sm = term_models(ring, terms@);
    let ghost laws = ring_laws(ring);
    let zero = ring.zero();
    let mut out: Vec<(Vec<u32>, R::E)> = Vec::new();
    let len = terms.len();
    proof {
        if laws {
            lemma_ring_parts(ring);
            lemma_terms_members(ring, terms@, n as nat);
            lemma_coefficient_absent(ring, Seq::<(Seq<u32>, R::M)>::empty(), Seq::<u32>::empty());
            lemma_same_terms_refl(ring, Seq::<(Seq<u32>, R::M)>::empty());
            assert(term_models(ring, out@) =~= sm.take(0));
        }
    }
    for i in 0..len
        invariant
            len == terms@.len(),
            sm == term_models(ring, terms@),
            laws == ring_laws(ring),
            ring.wf(),
            ring.valid(zero),
            laws ==> ring.eqv(ring.model(zero), ring.zero_s()),
            terms_ok(ring, terms@, n as nat),
            sorted_terms(sm),
            terms_ok(ring, out@, n as nat),
            sorted_terms(term_models(ring, out@)),
            forall|k: int, j: int|
                0 <= k < out@.len() && i <= j < len ==> lex_less(
                    #[trigger] term_models(ring, out@)[k].0,
                    #[trigger] sm[j].0,
                ),
            laws ==> nonzero_terms(ring, term_models(ring, out@)),
            laws ==> same_terms(ring, term_models(ring, out@), sm.take(i as int)),
    {
        let ghost before = out@;
        let ghost t = sm[i as int];
        assert(ring.valid(terms@[i as int].1));
        assert(sm.take(i + 1) =~= sm.take(i as int).push(t));
        if !ring.equal(&terms[i].1, &zero) {
            let m = copy_monomial(&terms[i].0);
            let c = ring.copy(&terms[i].1);
            out.push((m, c));
            proof {
                assert(term_models(ring, out@) =~= term_models(ring, before).push(t));
                assert forall|k: int, j: int| 0 <= k < out@.len() && i + 1 <= j < len implies lex_less(
                    #[trigger] term_models(ring, out@)[k].0,
                    #[trigger] sm[j].0,
                ) by {
                    if k == before.len() {
                        assert(lex_less(sm[i as int].0, sm[j].0));
                    } else {
                        assert(lex_less(term_models(ring, before)[k].0, sm[j].0));
                    }
                }
                assert forall|a: int, b: int| 0 <= a < b < out@.len() implies lex_less(
                    #[trigger] term_models(ring, out@)[a].0,
                    #[trigger] term_models(ring, out@)[b].0,
                ) by {
                    if b == before.len() {
                        assert(lex_less(term_models(ring, before)[a].0, sm[i as int].0));
                    } else {
                        assert(lex_less(term_models(ring, before)[a].0, term_models(ring, before)[b].0));
                    }
                }
                if laws {
                    lemma_ring_parts(ring);
                    lemma_terms_members(ring, before, n as nat);
                    lemma_terms_members(ring, terms@, n as nat);
                    ring.lemma_valid_member(terms@[i as int].1);
                    ring.lemma_valid_member(zero);
                    lemma_refl(ring, t.1);
                    assert(term_members(ring, sm.take(i as int)));
                    lemma_same_terms_push(ring, term_models(ring, before), sm.take(i as int), t, t);
                    if ring.eqv(t.1, ring.zero_s()) {
                        lemma_sym(ring, ring.model(zero), ring.zero_s());
                        lemma_trans(ring, t.1, ring.zero_s(), ring.model(zero));
                    }
                }
            }
        } else {
            proof {
                assert forall|k: int, j: int| 0 <= k < out@.len() && i + 1 <= j < len implies lex_less(
                    #[trigger] term_models(ring, out@)[k].0,
                    #[trigger] sm[j].0,
                ) by {
                }
                if laws {
                    lemma_ring_parts(ring);
                    lemma_terms_members(ring, before, n as nat);
                    lemma_terms_members(ring, terms@, n as nat);
                    ring.lemma_valid_member(terms@[i as int].1);
                    ring.lemma_valid_member(zero);
                    lemma_trans(ring, t.1, ring.model(zero), ring.zero_s());
                    assert(term_members(ring, sm.take(i as int)));
                    assert(term_members(ring, sm.take(i + 1)));
                    assert forall|m: Seq<u32>| #![trigger coefficient_of(ring, sm.take(i + 1), m)] ring.eqv(
                        coefficient_of(ring, sm.take(i as int), m),
                        coefficient_of(ring, sm.take(i + 1), m),
                    ) by {
                        lemma_coefficient_push(ring, sm.take(i as int), t, m);
                        lemma_coefficient_member(ring, sm.take(i as int), m);
                        lemma_coefficient_member(ring, sm.take(i + 1), m);
                        lemma_add_term_zero(ring, coefficient_of(ring, sm.take(i as int), m), t, m);
                        lemma_sym(ring, coefficient_of(ring, sm.take(i + 1), m), coefficient_of(ring, sm.take(i as int), m));
                    }
                    lemma_same_terms_trans(ring, term_models(ring, out@), sm.take(i as int), sm.take(i + 1));
                }
            }
        }
    }
    assert(sm.take(len as int) =~= sm);
    out
}

/// The coefficients of two term lists, one after the other, add up.
pub proof fn lemma_coefficient_concat<R: Ring>(
    r: &R,
    a: Seq<(Seq<u32>, R::M)>,
    b: Seq<(Seq<u32>, R::M)>,
    m: Seq<u32>,
)
    requires
        ring_laws(r),
        term_members(r, a),
        term_members(r, b),
    ensures
        r.eqv(coefficient_of(r, a + b, m), r.add_s(coefficient_of(r, a, m), coefficient_of(r, b, m))),
    decreases b.len(),
{
    lemma_ring_parts(r);
    let ca = coefficient_of(r, a, m);
    lemma_coefficient_member(r, a, m);
    lemma_coefficient_member(r, b, m);
    if b.len() == 0 {
        assert(a + b =~= a);
        lemma_add_zero(r, ca);
        lemma_add_closed(r, ca, r.zero_s());
        lemma_sym(r, r.add_s(ca, r.zero_s()), ca);
    } else {
        let b1 = b.drop_last();
        let l = b.last();
        assert((a + b).drop_last() =~= a + b1);
        assert((a + b).last() == l);
        assert(term_members(r, a + b1));
        lemma_coefficient_concat(r, a, b1, m);
        let cb1 = coefficient_of(r, b1, m);
        let cab1 = coefficient_of(r, a + b1, m);
        lemma_coefficient_member(r, b1, m);
        lemma_coefficient_member(r, a + b1, m);
        lemma_add_closed(r, ca, cb1);
        lemma_refl(r, l.1);
        lemma_add_term_congruent(r, cab1, r.add_s(ca, cb1), l, l, m);
        if l.0 == m {
            lemma_add_assoc(r, ca, cb1, l.1);
            lemma_add_closed(r, r.add_s(ca, cb1), l.1);
            lemma_add_closed(r, cb1, l.1);
            lemma_add_closed(r, ca, r.add_s(cb1, l.1));
            lemma_trans(
                r,
                coefficient_of(r, a + b, m),
                r.add_s(r.add_s(ca, cb1), l.1),
                r.add_s(ca, r.add_s(cb1, l.1)),
            );
        }
    }
}

/// Every coefficient negated: `0 - c`.
pub open spec fn negated<R: Ring>(r: &R, s: Seq<(Seq<u32>, R::M)>) -> Seq<(Seq<u32>, R::M)> {
    Seq::new(s.len(), |i: int| (s[i].0, r.sub_s(r.zero_s(), s[i].1)))
}

/// Negating every term negates every coefficient.
pub proof fn lemma_coefficient_negated<R: Ring>(r: &R, s: Seq<(Seq<u32>, R::M)>, m: Seq<u32>)
    requires
        ring_laws(r),
        term_members(r, s),
    ensures
        r.eqv(coefficient_of(r, negated(r, s), m), r.sub_s(r.zero_s(), coefficient_of(r, s, m))),
        term_members(r, negated(r, s)),
    decreases s.len(),
{
    lemma_ring_parts(r);
    let z = r.zero_s();
    assert forall|i: int| 0 <= i < s.len() implies #[trigger] r.member(negated(r, s)[i].1) by {
        crate::laws::lemma_sub_closed(r, z, s[i].1);
    }
    lemma_coefficient_member(r, s, m);
    if s.len() == 0 {
        crate::laws::lemma_sub_self(r, z);
        crate::laws::lemma_sub_closed(r, z, z);
        lemma_sym(r, r.sub_s(z, z), z);
    } else {
        let s1 = s.drop_last();
        let l = s.last();
        assert(negated(r, s).drop_last() =~= negated(r, s1));
        assert(negated(r, s).last() == (l.0, r.sub_s(z, l.1)));
        lemma_coefficient_negated(r, s1, m);
        let c1 = coefficient_of(r, s1, m);
        let n1 = coefficient_of(r, negated(r, s1), m);
        lemma_coefficient_member(r, s1, m);
        lemma_coefficient_member(r, negated(r, s1), m);
        if l.0 == m {
            crate::laws::lemma_sub_closed(r, z, l.1);
            crate::laws::lemma_sub_closed(r, z, c1);
            lemma_refl(r, r.sub_s(z, l.1));
            lemma_add_congruent(r, n1, r.sub_s(z, c1), r.sub_s(z, l.1), r.sub_s(z, l.1));
            crate::laws::lemma_sub_add_sub(r, z, c1, z, l.1);
            lemma_add_zero(r, z);
            lemma_add_closed(r, z, z);
            lemma_add_closed(r, c1, l.1);
            lemma_refl(r, r.add_s(c1, l.1));
            crate::laws::lemma_sub_congruent(r, r.add_s(z, z), z, r.add_s(c1, l.1), r.add_s(c1, l.1));
            lemma_add_closed(r, n1, r.sub_s(z, l.1));
            lemma_add_closed(r, r.sub_s(z, c1), r.sub_s(z, l.1));
            crate::laws::lemma_sub_closed(r, r.add_s(z, z), r.add_s(c1, l.1));
            crate::laws::lemma_sub_closed(r, z, r.add_s(c1, l.1));
            lemma_trans(
                r,
                r.add_s(n1, r.sub_s(z, l.1)),
                r.add_s(r.sub_s(z, c1), r.sub_s(z, l.1)),
                r.sub_s(r.add_s(z, z), r.add_s(c1, l.1)),
            );
            lemma_trans(
                r,
                r.add_s(n1, r.sub_s(z, l.1)),
                r.sub_s(r.add_s(z, z), r.add_s(c1, l.1)),
                r.sub_s(z, r.add_s(c1, l.1)),
            );
        }
    }
}

/// `y + (0 - x) ~ 0` exactly when `y ~ x`.
pub proof fn lemma_difference_zero<R: Ring>(r: &R, y: R::M, x: R::M)
    requires
        ring_laws(r),
        r.member(y),
        r.member(x),
    ensures
        r.eqv(r.add_s(y, r.sub_s(r.zero_s(), x)), r.zero_s()) <==> r.eqv(y, x),
{
    lemma_ring_parts(r);
    let z = r.zero_s();
    let nx = r.sub_s(z, x);
    crate::laws::lemma_sub_closed(r, z, x);
    crate::laws::lemma_sub_add(r, z, x);
    crate::laws::lemma_add_comm(r, x, nx);
    lemma_add_closed(r, x, nx);
    lemma_add_closed(r, nx, x);
    lemma_add_closed(r, y, nx);
    lemma_trans(r, r.add_s(x, nx), r.add_s(nx, x), z);
    if r.eqv(y, x) {
        lemma_refl(r, nx);
        lemma_add_congruent(r, y, x, nx, nx);
        lemma_trans(r, r.add_s(y, nx), r.add_s(x, nx), z);
    }
    if r.eqv(r.add_s(y, nx), z) {
        lemma_sym(r, r.add_s(x, nx), z);
        lemma_trans(r, r.add_s(y, nx), z, r.add_s(x, nx));
        crate::laws::lemma_add_cancel(r, y, x, nx);
    }
}

/// The exponents of a product of monomials: added entry by entry, wrapping around
/// past `u32::MAX`.
pub open spec fn exponent_sum(a: Seq<u32>, b: Seq<u32>) -> Seq<u32> {
    Seq::new(a.len(), |k: int| vstd::wrapping::u32_specs::wrapping_add(a[k], b[k]))
}

/// The product of two terms.
pub open spec fn term_product<R: Ring>(r: &R, s: (Seq<u32>, R::M), t: (Seq<u32>, R::M)) -> (Seq<u32>, R::M) {
    (exponent_sum(s.0, t.0), r.mul_s(s.1, t.1))
}

/// The products of one term with every term of `b`, in order.
pub open spec fn row<R: Ring>(r: &R, s: (Seq<u32>, R::M), b: Seq<(Seq<u32>, R::M)>) -> Seq<(Seq<u32>, R::M)> {
    Seq::new(b.len(), |j: int| term_product(r, s, b[j]))
}

/// Every term of `a` times every term of `b`, row by row.
pub open spec fn products<R: Ring>(r: &R, a: Seq<(Seq<u32>, R::M)>, b: Seq<(Seq<u32>, R::M)>) -> Seq<(Seq<u32>, R::M)>
    decreases a.len(),
{
    if a.len() == 0 {
        Seq::empty()
    } else {
        products(r, a.drop_last(), b) + row(r, a.last(), b)
    }
}

/// Products of members are members.
pub proof fn lemma_products_members<R: Ring>(r: &R, a: Seq<(Seq<u32>, R::M)>, b: Seq<(Seq<u32>, R::M)>)
    requires
        ring_laws(r),
        term_members(r, a),
        term_members(r, b),
    ensures
        term_members(r, products(r, a, b)),
    decreases a.len(),
{
    lemma_ring_parts(r);
    if a.len() > 0 {
        lemma_products_members(r, a.drop_last(), b);
        assert forall|j: int| 0 <= j < b.len() implies #[trigger] r.member(row(r, a.last(), b)[j].1) by {
            crate::laws::lemma_mul_closed(r, a.last().1, b[j].1);
        }
        assert(term_members(r, products(r, a.drop_last(), b) + row(r, a.last(), b)));
    }
}

/// Entry-by-entry sum of two exponent vectors, wrapping around past `u32::MAX`.
fn add_exponents(a: &Vec<u32>, b: &Vec<u32>) -> (r: Vec<u32>)
    requires
        a@.len() == b@.len(),
    ensures
        r@ == exponent_sum(a@, b@),
{
    let mut r: Vec<u32> = Vec::new();
    let n = a.len();
    for k in 0..n
        invariant
            n == a@.len(),
            n == b@.len(),
            r@ == exponent_sum(a@, b@).take(k as int),
    {
        r.push(a[k].wrapping_add(b[k]));
        assert(r@ =~= exponent_sum(a@, b@).take(k + 1));
    }
    assert(exponent_sum(a@, b@).take(n as int) =~= exponent_sum(a@, b@));
    r
}

/// The ring `R[x_0, .., x_{n-1}]`.
pub struct MultivariatePolynomialRing<R: Ring + DecidableEq> {
    coeff_ring: R,
    variables: usize,
}

/// An element of `MultivariatePolynomialRing`.
///
/// Invariant: the terms are in ascending order of their exponent vectors, no term has
/// a zero coefficient, and every exponent vector has one entry per variable. Equality
/// is therefore structural.
pub struct MultivariatePolynomial<R: Ring + DecidableEq> {
    terms: Vec<(Vec<u32>, R::E)>,
    ring: Rc<MultivariatePolynomialRing<R>>,
}

impl<R: Ring + DecidableEq> MultivariatePolynomialRing<R> {
    /// The coefficient ring.
    pub closed spec fn coeff_ring(&self) -> R {
        self.coeff_ring
    }

    /// The number of variables.
    pub closed spec fn arity(&self) -> nat {
        self.variables as nat
    }

    /// Construct `R[x_0, .., x_{n-1}]`.
    pub fn new(coeff_ring: R, variables: usize) -> (r: Rc<Self>)
        ensures
            r.coeff_ring() == coeff_ring,
            r.arity() == variables,
    {
        Rc::new(MultivariatePolynomialRing { coeff_ring, variables })
    }

    /// The coefficient ring.
    pub fn coefficients(&self) -> (r: &R)
        ensures
            *r == self.coeff_ring(),
    {
        &self.coeff_ring
    }

    /// How many variables this ring has.
    pub fn variables(&self) -> (r: usize)
        ensures
            r == self.arity(),
    {
        self.variables
    }
}

impl<R: Ring + DecidableEq> MultivariatePolynomial<R> {
    /// The stored terms.
    pub closed spec fn terms_s(&self) -> Seq<(Vec<u32>, R::E)> {
        self.terms@
    }

    /// The ring this polynomial belongs to.
    pub closed spec fn handle(&self) -> Rc<MultivariatePolynomialRing<R>> {
        self.ring
    }

    /// Terms in ascending monomial order, each an exponent vector and its coefficient.
    pub fn terms(&self) -> (r: &[(Vec<u32>, R::E)])
        ensures
            r@ == self.terms_s(),
    {
        self.terms.as_slice()
    }
}

impl<R: Ring + DecidableEq> Domain for Rc<MultivariatePolynomialRing<R>> {
    type E = MultivariatePolynomial<R>;
    type Repr = Vec<(Vec<u32>, R::E)>;
    type M = Seq<(Seq<u32>, R::M)>;

    open spec fn wf(&self) -> bool {
        (**self).coeff_ring().wf()
    }

    /// The coefficient ring is a ring.
    open spec fn sound(&self) -> bool {
        ring_laws(&(**self).coeff_ring())
    }

    open spec fn model(&self, x: MultivariatePolynomial<R>) -> Seq<(Seq<u32>, R::M)> {
        term_models(&(**self).coeff_ring(), x.terms_s())
    }

    open spec fn valid(&self, x: MultivariatePolynomial<R>) -> bool {
        &&& x.handle() == *self
        &&& terms_ok(&(**self).coeff_ring(), x.terms_s(), (**self).arity())
        &&& sorted_terms(self.model(x))
        &&& self.sound() ==> nonzero_terms(&(**self).coeff_ring(), self.model(x))
    }

    open spec fn member(&self, a: Seq<(Seq<u32>, R::M)>) -> bool {
        &&& arity_ok(a, (**self).arity())
        &&& term_members(&(**self).coeff_ring(), a)
    }

    open spec fn eqv(&self, a: Seq<(Seq<u32>, R::M)>, b: Seq<(Seq<u32>, R::M)>) -> bool {
        same_terms(&(**self).coeff_ring(), a, b)
    }

    open spec fn repr_ok(&self, v: Vec<(Vec<u32>, R::E)>) -> bool {
        terms_ok(&(**self).coeff_ring(), v@, (**self).arity())
    }

    open spec fn denote(&self, v: Vec<(Vec<u32>, R::E)>) -> Seq<(Seq<u32>, R::M)> {
        term_models(&(**self).coeff_ring(), v@)
    }

    proof fn lemma_valid_member(&self, x: MultivariatePolynomial<R>) {
        lemma_terms_members(&(**self).coeff_ring(), x.terms_s(), (**self).arity());
    }

    proof fn lemma_repr_member(&self, v: Vec<(Vec<u32>, R::E)>) {
        lemma_terms_members(&(**self).coeff_ring(), v@, (**self).arity());
    }

    /// Sums duplicate monomials and drops zero coefficients.
    fn element(&self, value: Vec<(Vec<u32>, R::E)>) -> (r: MultivariatePolynomial<R>) {
        let ghost c = (**self).coeff_ring();
        let ghost laws = ring_laws(&c);
        let ghost dv = term_models(&c, value@);
        let n = self.variables;
        let mut terms: Vec<(Vec<u32>, R::E)> = Vec::new();
        let len = value.len();
        proof {
            if laws {
                lemma_ring_parts(&c);
                lemma_same_terms_refl(&c, Seq::<(Seq<u32>, R::M)>::empty());
                assert(dv.take(0) =~= Seq::<(Seq<u32>, R::M)>::empty());
                assert(term_models(&c, terms@) =~= Seq::<(Seq<u32>, R::M)>::empty());
            }
        }
        for i in 0..len
            invariant
                c == (**self).coeff_ring(),
                c == self.coeff_ring,
                n == (**self).arity(),
                c.wf(),
                laws == ring_laws(&c),
                dv == term_models(&c, value@),
                len == value@.len(),
                terms_ok(&c, value@, n as nat),
                terms_ok(&c, terms@, n as nat),
                sorted_terms(term_models(&c, terms@)),
                laws ==> same_terms(&c, term_models(&c, terms@), dv.take(i as int)),
        {
            assert(c.valid(value@[i as int].1));
            let m = copy_monomial(&value[i].0);
            let x = self.coeff_ring.copy(&value[i].1);
            let ghost before = terms@;
            insert_term(&self.coeff_ring, &mut terms, m, x);
            proof {
                if laws {
                    lemma_ring_parts(&c);
                    lemma_terms_members(&c, before, n as nat);
                    lemma_terms_members(&c, terms@, n as nat);
                    lemma_terms_members(&c, value@, n as nat);
                    c.lemma_valid_member(x);
                    assert(dv.take(i + 1) =~= dv.take(i as int).push(dv[i as int]));
                    assert(term_members(&c, dv.take(i as int)));
                    lemma_refl(&c, dv[i as int].1);
                    lemma_same_terms_push(&c, term_models(&c, before), dv.take(i as int), (m@, c.model(x)), dv[i as int]);
                    lemma_same_terms_trans(
                        &c,
                        term_models(&c, terms@),
                        term_models(&c, before).push((m@, c.model(x))),
                        dv.take(i + 1),
                    );
                }
            }
        }
        let pruned = prune(&self.coeff_ring, &terms, n);
        let r = MultivariatePolynomial { terms: pruned, ring: share(self) };
        proof {
            assert(dv.take(len as int) =~= dv);
            if laws {
                lemma_ring_parts(&c);
                lemma_terms_members(&c, terms@, n as nat);
                lemma_terms_members(&c, pruned@, n as nat);
                lemma_terms_members(&c, value@, n as nat);
                lemma_same_terms_trans(&c, term_models(&c, pruned@), term_models(&c, terms@), dv);
            }
        }
        r
    }

    fn duplicate(&self) -> (r: Rc<MultivariatePolynomialRing<R>>) {
        share(self)
    }

    fn copy(&self, x: &MultivariatePolynomial<R>) -> (r: MultivariatePolynomial<R>) {
        let terms = copy_terms(&self.coeff_ring, &x.terms, self.variables);
        MultivariatePolynomial { terms, ring: share(&x.ring) }
    }
}

impl<R: Ring + DecidableEq> CommutativeMonoid for Rc<MultivariatePolynomialRing<R>> {
    /// The terms of both, one list after the other.
    open spec fn add_s(&self, a: Seq<(Seq<u32>, R::M)>, b: Seq<(Seq<u32>, R::M)>) -> Seq<(Seq<u32>, R::M)> {
        a + b
    }

    open spec fn zero_s(&self) -> Seq<(Seq<u32>, R::M)> {
        Seq::empty()
    }

    fn add(&self, a: &MultivariatePolynomial<R>, b: &MultivariatePolynomial<R>) -> (r: MultivariatePolynomial<R>) {
        let ghost c = (**self).coeff_ring();
        let ghost laws = ring_laws(&c);
        let ghost am = self.model(*a);
        let ghost bm = self.model(*b);
        let n = self.variables;
        let mut terms = copy_terms(&self.coeff_ring, &a.terms, n);
        let len = b.terms.len();
        proof {
            if laws {
                lemma_ring_parts(&c);
                lemma_terms_members(&c, a.terms_s(), n as nat);
                lemma_same_terms_refl(&c, am);
                assert(am + bm.take(0) =~= am);
            }
        }
        for j in 0..len
            invariant
                c == (**self).coeff_ring(),
                c == self.coeff_ring,
                n == (**self).arity(),
                c.wf(),
                laws == ring_laws(&c),
                am == self.model(*a),
                bm == self.model(*b),
                bm == term_models(&c, b.terms@),
                len == b.terms@.len(),
                terms_ok(&c, a.terms_s(), n as nat),
                terms_ok(&c, b.terms@, n as nat),
                terms_ok(&c, terms@, n as nat),
                sorted_terms(term_models(&c, terms@)),
                laws ==> same_terms(&c, term_models(&c, terms@), am + bm.take(j as int)),
        {
            assert(c.valid(b.terms@[j as int].1));
            let m = copy_monomial(&b.terms[j].0);
            let x = self.coeff_ring.copy(&b.terms[j].1);
            let ghost before = terms@;
            insert_term(&self.coeff_ring, &mut terms, m, x);
            proof {
                if laws {
                    lemma_ring_parts(&c);
                    lemma_terms_members(&c, before, n as nat);
                    lemma_terms_members(&c, terms@, n as nat);
                    lemma_terms_members(&c, a.terms_s(), n as nat);
                    lemma_terms_members(&c, b.terms@, n as nat);
                    c.lemma_valid_member(x);
                    assert(am + bm.take(j + 1) =~= (am + bm.take(j as int)).push(bm[j as int]));
                    assert(term_members(&c, am + bm.take(j as int)));
                    lemma_refl(&c, bm[j as int].1);
                    lemma_same_terms_push(&c, term_models(&c, before), am + bm.take(j as int), (m@, c.model(x)), bm[j as int]);
                    lemma_same_terms_trans(
                        &c,
                        term_models(&c, terms@),
                        term_models(&c, before).push((m@, c.model(x))),
                        am + bm.take(j + 1),
                    );
                }
            }
        }
        let pruned = prune(&self.coeff_ring, &terms, n);
        let r = MultivariatePolynomial { terms: pruned, ring: share(self) };
        proof {
            assert(bm.take(len as int) =~= bm);
            if laws {
                lemma_ring_parts(&c);
                lemma_terms_members(&c, terms@, n as nat);
                lemma_terms_members(&c, pruned@, n as nat);
                lemma_terms_members(&c, a.terms_s(), n as nat);
                lemma_terms_members(&c, b.terms@, n as nat);
                assert(term_members(&c, am + bm));
                lemma_same_terms_trans(&c, term_models(&c, pruned@), term_models(&c, terms@), am + bm);
            }
        }
        r
    }

    fn zero(&self) -> (r: MultivariatePolynomial<R>) {
        let r = MultivariatePolynomial { terms: Vec::new(), ring: share(self) };
        proof {
            assert(self.model(r) =~= Seq::<(Seq<u32>, R::M)>::empty());
            if self.sound() {
                lemma_same_terms_refl(&(**self).coeff_ring(), Seq::<(Seq<u32>, R::M)>::empty());
            }
        }
        r
    }
}

impl<R: Ring + DecidableEq> AdditiveGroup for Rc<MultivariatePolynomialRing<R>> {
    /// The terms of `a`, then those of `b` with every coefficient negated.
    open spec fn sub_s(&self, a: Seq<(Seq<u32>, R::M)>, b: Seq<(Seq<u32>, R::M)>) -> Seq<(Seq<u32>, R::M)> {
        a + negated(&(**self).coeff_ring(), b)
    }

    fn sub(&self, a: &MultivariatePolynomial<R>, b: &MultivariatePolynomial<R>) -> (r: MultivariatePolynomial<R>) {
        let ghost c = (**self).coeff_ring();
        let ghost laws = ring_laws(&c);
        let ghost am = self.model(*a);
        let ghost bm = self.model(*b);
        let ghost nb = negated(&c, bm);
        let n = self.variables;
        let zero = self.coeff_ring.zero();
        let mut terms = copy_terms(&self.coeff_ring, &a.terms, n);
        let len = b.terms.len();
        proof {
            if laws {
                lemma_ring_parts(&c);
                lemma_terms_members(&c, a.terms_s(), n as nat);
                lemma_same_terms_refl(&c, am);
                assert(am + nb.take(0) =~= am);
            }
        }
        for j in 0..len
            invariant
                c == (**self).coeff_ring(),
                c == self.coeff_ring,
                n == (**self).arity(),
                c.wf(),
                c.valid(zero),
                laws ==> c.eqv(c.model(zero), c.zero_s()),
                laws == ring_laws(&c),
                am == self.model(*a),
                bm == self.model(*b),
                bm == term_models(&c, b.terms@),
                nb == negated(&c, bm),
                len == b.terms@.len(),
                terms_ok(&c, a.terms_s(), n as nat),
                terms_ok(&c, b.terms@, n as nat),
                terms_ok(&c, terms@, n as nat),
                sorted_terms(term_models(&c, terms@)),
                laws ==> same_terms(&c, term_models(&c, terms@), am + nb.take(j as int)),
        {
            assert(c.valid(b.terms@[j as int].1));
            let m = copy_monomial(&b.terms[j].0);
            let x = self.coeff_ring.sub(&zero, &b.terms[j].1);
            let ghost before = terms@;
            insert_term(&self.coeff_ring, &mut terms, m, x);
            proof {
                if laws {
                    lemma_ring_parts(&c);
                    lemma_group_additive(&c);
                    lemma_terms_members(&c, before, n as nat);
                    lemma_terms_members(&c, terms@, n as nat);
                    lemma_terms_members(&c, a.terms_s(), n as nat);
                    lemma_terms_members(&c, b.terms@, n as nat);
                    lemma_coefficient_negated(&c, bm, Seq::<u32>::empty());
                    c.lemma_valid_member(x);
                    c.lemma_valid_member(zero);
                    lemma_refl(&c, bm[j as int].1);
                    crate::laws::lemma_sub_step(&c, c.model(x), c.model(zero), bm[j as int].1, c.zero_s(), bm[j as int].1);
                    assert(am + nb.take(j + 1) =~= (am + nb.take(j as int)).push(nb[j as int]));
                    assert(term_members(&c, am + nb.take(j as int)));
                    lemma_same_terms_push(&c, term_models(&c, before), am + nb.take(j as int), (m@, c.model(x)), nb[j as int]);
                    lemma_same_terms_trans(
                        &c,
                        term_models(&c, terms@),
                        term_models(&c, before).push((m@, c.model(x))),
                        am + nb.take(j + 1),
                    );
                }
            }
        }
        let pruned = prune(&self.coeff_ring, &terms, n);
        let r = MultivariatePolynomial { terms: pruned, ring: share(self) };
        proof {
            assert(nb.take(len as int) =~= nb);
            if laws {
                lemma_ring_parts(&c);
                lemma_terms_members(&c, terms@, n as nat);
                lemma_terms_members(&c, pruned@, n as nat);
                lemma_terms_members(&c, a.terms_s(), n as nat);
                lemma_terms_members(&c, b.terms@, n as nat);
                lemma_coefficient_negated(&c, bm, Seq::<u32>::empty());
                assert(term_members(&c, am + nb));
                lemma_same_terms_trans(&c, term_models(&c, pruned@), term_models(&c, terms@), am + nb);
            }
        }
        r
    }
}

impl<R: Ring + DecidableEq> Semigroup for Rc<MultivariatePolynomialRing<R>> {
    /// Every term of `a` times every term of `b`.
    open spec fn mul_s(&self, a: Seq<(Seq<u32>, R::M)>, b: Seq<(Seq<u32>, R::M)>) -> Seq<(Seq<u32>, R::M)> {
        products(&(**self).coeff_ring(), a, b)
    }

    /// Multiplying monomials adds their exponents, wrapping around past `u32::MAX`.
    fn mul(&self, a: &MultivariatePolynomial<R>, b: &MultivariatePolynomial<R>) -> (r: MultivariatePolynomial<R>) {
        let ghost c = (**self).coeff_ring();
        let ghost laws = ring_laws(&c);
        let ghost am = self.model(*a);
        let ghost bm = self.model(*b);
        let n = self.variables;
        let mut terms: Vec<(Vec<u32>, R::E)> = Vec::new();
        let la = a.terms.len();
        let lb = b.terms.len();
        proof {
            if laws {
                lemma_ring_parts(&c);
                lemma_same_terms_refl(&c, Seq::<(Seq<u32>, R::M)>::empty());
                assert(am.take(0) =~= Seq::<(Seq<u32>, R::M)>::empty());
                assert(term_models(&c, terms@) =~= Seq::<(Seq<u32>, R::M)>::empty());
            }
        }
        for i in 0..la
            invariant
                c == (**self).coeff_ring(),
                c == self.coeff_ring,
                n == (**self).arity(),
                c.wf(),
                laws == ring_laws(&c),
                am == term_models(&c, a.terms@),
                bm == term_models(&c, b.terms@),
                la == a.terms@.len(),
                lb == b.terms@.len(),
                terms_ok(&c, a.terms@, n as nat),
                terms_ok(&c, b.terms@, n as nat),
                terms_ok(&c, terms@, n as nat),
                sorted_terms(term_models(&c, terms@)),
                laws ==> same_terms(&c, term_models(&c, terms@), products(&c, am.take(i as int), bm)),
        {
            assert(c.valid(a.terms@[i as int].1));
            assert(a.terms@[i as int].0@.len() == n);
            proof {
                assert(products(&c, am.take(i as int), bm) + row(&c, am[i as int], bm).take(0) =~= products(&c, am.take(i as int), bm));
            }
            for j in 0..lb
                invariant
                    c == (**self).coeff_ring(),
                    c == self.coeff_ring,
                    n == (**self).arity(),
                    c.wf(),
                    laws == ring_laws(&c),
                    am == term_models(&c, a.terms@),
                    bm == term_models(&c, b.terms@),
                    la == a.terms@.len(),
                    lb == b.terms@.len(),
                    i < la,
                    terms_ok(&c, a.terms@, n as nat),
                    terms_ok(&c, b.terms@, n as nat),
                    terms_ok(&c, terms@, n as nat),
                    sorted_terms(term_models(&c, terms@)),
                    laws ==> same_terms(
                        &c,
                        term_models(&c, terms@),
                        products(&c, am.take(i as int), bm) + row(&c, am[i as int], bm).take(j as int),
                    ),
            {
                assert(c.valid(b.terms@[j as int].1));
                assert(b.terms@[j as int].0@.len() == n);
                assert(a.terms@[i as int].0@.len() == n);
                assert(c.valid(a.terms@[i as int].1));
                let m = add_exponents(&a.terms[i].0, &b.terms[j].0);
                let x = self.coeff_ring.mul(&a.terms[i].1, &b.terms[j].1);
                let ghost before = terms@;
                insert_term(&self.coeff_ring, &mut terms, m, x);
                proof {
                    if laws {
                        let target = products(&c, am.take(i as int), bm) + row(&c, am[i as int], bm).take(j as int);
                        let t = row(&c, am[i as int], bm)[j as int];
                        lemma_ring_parts(&c);
                        lemma_terms_members(&c, before, n as nat);
                        lemma_terms_members(&c, terms@, n as nat);
                        lemma_terms_members(&c, a.terms@, n as nat);
                        lemma_terms_members(&c, b.terms@, n as nat);
                        c.lemma_valid_member(x);
                        assert(term_members(&c, am.take(i as int)));
                        lemma_products_members(&c, am.take(i as int), bm);
                        crate::laws::lemma_mul_closed(&c, am[i as int].1, bm[j as int].1);
                        assert(term_members(&c, target)) by {
                            assert forall|k: int| 0 <= k < target.len() implies #[trigger] c.member(target[k].1) by {
                                if k >= products(&c, am.take(i as int), bm).len() {
                                    let jj = k - products(&c, am.take(i as int), bm).len();
                                    crate::laws::lemma_mul_closed(&c, am[i as int].1, bm[jj].1);
                                }
                            }
                        }
                        assert(target.push(t) =~= products(&c, am.take(i as int), bm) + row(&c, am[i as int], bm).take(j + 1));
                        lemma_same_terms_push(&c, term_models(&c, before), target, (m@, c.model(x)), t);
                        lemma_same_terms_trans(
                            &c,
                            term_models(&c, terms@),
                            term_models(&c, before).push((m@, c.model(x))),
                            target.push(t),
                        );
                    }
                }
            }
            proof {
                assert(row(&c, am[i as int], bm).take(lb as int) =~= row(&c, am[i as int], bm));
                assert(am.take(i + 1).drop_last() =~= am.take(i as int));
                assert(am.take(i + 1).last() == am[i as int]);
                assert(products(&c, am.take(i + 1), bm) == products(&c, am.take(i as int), bm) + row(&c, am[i as int], bm));
            }
        }
        let pruned = prune(&self.coeff_ring, &terms, n);
        let r = MultivariatePolynomial { terms: pruned, ring: share(self) };
        proof {
            assert(am.take(la as int) =~= am);
            if laws {
                lemma_ring_parts(&c);
                lemma_terms_members(&c, terms@, n as nat);
                lemma_terms_members(&c, pruned@, n as nat);
                lemma_terms_members(&c, a.terms@, n as nat);
                lemma_terms_members(&c, b.terms@, n as nat);
                lemma_products_members(&c, am, bm);
                lemma_same_terms_trans(&c, term_models(&c, pruned@), term_models(&c, terms@), products(&c, am, bm));
            }
        }
        r
    }
}

impl<R: Ring + DecidableEq> Monoid for Rc<MultivariatePolynomialRing<R>> {
    /// The constant term one.
    open spec fn one_s(&self) -> Seq<(Seq<u32>, R::M)> {
        seq![(Seq::new((**self).arity(), |k: int| 0u32), (**self).coeff_ring().one_s())]
    }

    fn identity(&self) -> (r: MultivariatePolynomial<R>) {
        let ghost c = (**self).coeff_ring();
        let n = self.variables;
        let mut zeros: Vec<u32> = Vec::new();
        for k in 0..n
            invariant
                zeros@ == Seq::new(k as nat, |i: int| 0u32),
        {
            zeros.push(0);
            assert(zeros@ =~= Seq::new((k + 1) as nat, |i: int| 0u32));
        }
        let one = self.coeff_ring.identity();
        let mut terms: Vec<(Vec<u32>, R::E)> = Vec::new();
        terms.push((zeros, one));
        let pruned = prune(&self.coeff_ring, &terms, n);
        let r = MultivariatePolynomial { terms: pruned, ring: share(self) };
        proof {
            let single = seq![(Seq::new(n as nat, |i: int| 0u32), c.model(one))];
            assert(term_models(&c, terms@) =~= single);
            if self.sound() {
                lemma_ring_parts(&c);
                c.lemma_valid_member(one);
                lemma_terms_members(&c, pruned@, n as nat);
                lemma_same_terms_refl(&c, Seq::<(Seq<u32>, R::M)>::empty());
                assert(Seq::<(Seq<u32>, R::M)>::empty().push(single[0]) =~= single);
                assert(Seq::<(Seq<u32>, R::M)>::empty().push(self.one_s()[0]) =~= self.one_s());
                lemma_same_terms_push(&c, Seq::empty(), Seq::empty(), single[0], self.one_s()[0]);
                lemma_same_terms_trans(&c, term_models(&c, pruned@), single, self.one_s());
            }
        }
        r
    }
}

impl<R: Ring + DecidableEq> SemiRing for Rc<MultivariatePolynomialRing<R>> {

}

impl<R: Ring + DecidableEq> Ring for Rc<MultivariatePolynomialRing<R>> {

}

impl<R: Ring + DecidableEq> DecidableEq for Rc<MultivariatePolynomialRing<R>> {
    /// Equal exactly when the difference has no terms left.
    fn equal(&self, a: &MultivariatePolynomial<R>, b: &MultivariatePolynomial<R>) -> (r: bool) {
        let d = self.sub(a, b);
        let r = d.terms.len() == 0;
        proof {
            if self.sound() {
                let c = (**self).coeff_ring();
                let z = c.zero_s();
                let am = self.model(*a);
                let bm = self.model(*b);
                let dm = self.model(d);
                lemma_ring_parts(&c);
                self.lemma_valid_member(*a);
                self.lemma_valid_member(*b);
                self.lemma_valid_member(d);
                lemma_coefficient_negated(&c, bm, Seq::<u32>::empty());
                assert(term_members(&c, am + negated(&c, bm)));
                assert forall|m: Seq<u32>| #![trigger coefficient_of(&c, dm, m)] c.eqv(
                    coefficient_of(&c, dm, m),
                    c.add_s(coefficient_of(&c, am, m), c.sub_s(z, coefficient_of(&c, bm, m))),
                ) by {
                    let ca = coefficient_of(&c, am, m);
                    let cb = coefficient_of(&c, bm, m);
                    lemma_coefficient_member(&c, am, m);
                    lemma_coefficient_member(&c, bm, m);
                    lemma_coefficient_member(&c, dm, m);
                    lemma_coefficient_member(&c, negated(&c, bm), m);
                    lemma_coefficient_member(&c, am + negated(&c, bm), m);
                    lemma_coefficient_concat(&c, am, negated(&c, bm), m);
                    lemma_coefficient_negated(&c, bm, m);
                    lemma_refl(&c, ca);
                    crate::laws::lemma_sub_closed(&c, z, cb);
                    lemma_add_congruent(&c, ca, ca, coefficient_of(&c, negated(&c, bm), m), c.sub_s(z, cb));
                    lemma_add_closed(&c, ca, coefficient_of(&c, negated(&c, bm), m));
                    lemma_add_closed(&c, ca, c.sub_s(z, cb));
                    assert(c.eqv(coefficient_of(&c, dm, m), coefficient_of(&c, am + negated(&c, bm), m)));
                    lemma_trans(
                        &c,
                        coefficient_of(&c, dm, m),
                        coefficient_of(&c, am + negated(&c, bm), m),
                        c.add_s(ca, coefficient_of(&c, negated(&c, bm), m)),
                    );
                    lemma_trans(
                        &c,
                        coefficient_of(&c, dm, m),
                        c.add_s(ca, coefficient_of(&c, negated(&c, bm), m)),
                        c.add_s(ca, c.sub_s(z, cb)),
                    );
                }
                if same_terms(&c, am, bm) && dm.len() > 0 {
                    let m0 = dm[0].0;
                    assert forall|i: int| 0 <= i < dm.len() && i != 0 implies (#[trigger] dm[i]).0 != dm[0].0 by {
                        lemma_sorted_distinct(dm, i, 0);
                    }
                    lemma_coefficient_single(&c, dm, 0);
                    lemma_coefficient_member(&c, am, m0);
                    lemma_coefficient_member(&c, bm, m0);
                    lemma_coefficient_member(&c, dm, m0);
                    assert(c.eqv(coefficient_of(&c, am, m0), coefficient_of(&c, bm, m0)));
                    lemma_difference_zero(&c, coefficient_of(&c, am, m0), coefficient_of(&c, bm, m0));
                    let sum = c.add_s(coefficient_of(&c, am, m0), c.sub_s(z, coefficient_of(&c, bm, m0)));
                    crate::laws::lemma_sub_closed(&c, z, coefficient_of(&c, bm, m0));
                    lemma_add_closed(&c, coefficient_of(&c, am, m0), c.sub_s(z, coefficient_of(&c, bm, m0)));
                    assert(c.eqv(coefficient_of(&c, dm, m0), sum));
                    lemma_sym(&c, coefficient_of(&c, dm, m0), dm[0].1);
                    lemma_trans(&c, dm[0].1, coefficient_of(&c, dm, m0), sum);
                    lemma_trans(&c, dm[0].1, sum, z);
                    assert(!c.eqv(dm[0].1, z));
                }
                if r {
                    assert forall|m: Seq<u32>| #![trigger coefficient_of(&c, am, m)] #![trigger coefficient_of(&c, bm, m)] c.eqv(
                        coefficient_of(&c, am, m),
                        coefficient_of(&c, bm, m),
                    ) by {
                        lemma_coefficient_member(&c, am, m);
                        lemma_coefficient_member(&c, bm, m);
                        assert(dm.len() == 0);
                        assert(coefficient_of(&c, dm, m) == z);
                        let sum = c.add_s(coefficient_of(&c, am, m), c.sub_s(z, coefficient_of(&c, bm, m)));
                        crate::laws::lemma_sub_closed(&c, z, coefficient_of(&c, bm, m));
                        lemma_add_closed(&c, coefficient_of(&c, am, m), c.sub_s(z, coefficient_of(&c, bm, m)));
                        assert(c.eqv(coefficient_of(&c, dm, m), sum));
                        lemma_sym(&c, z, sum);
                        lemma_difference_zero(&c, coefficient_of(&c, am, m), coefficient_of(&c, bm, m));
                    }
                }
            }
        }
        r
    }
}

/// The exponents of the variable `x_i` among `n`.
pub open spec fn unit_exponents(n: nat, i: int) -> Seq<u32> {
    Seq::new(n, |k: int| if k == i { 1u32 } else { 0u32 })
}

impl<R: Ring + DecidableEq> MultivariatePolynomialRing<R> {
    /// The variable `x_i`, as a polynomial. `i` must be below the variable count.
    pub fn variable(self: &Rc<Self>, i: usize) -> (r: MultivariatePolynomial<R>)
        requires
            self.wf(),
            i < (**self).arity(),
        ensures
            self.valid(r),
            self.sound() ==> self.eqv(
                self.model(r),
                seq![(unit_exponents((**self).arity(), i as int), (**self).coeff_ring().one_s())],
            ),
    {
        let ghost c = (**self).coeff_ring();
        let n = self.variables;
        let mut exponents: Vec<u32> = Vec::new();
        for k in 0..n
            invariant
                i < n,
                exponents@ == unit_exponents(n as nat, i as int).take(k as int),
        {
            if k == i {
                exponents.push(1);
            } else {
                exponents.push(0);
            }
            assert(exponents@ =~= unit_exponents(n as nat, i as int).take(k + 1));
        }
        assert(unit_exponents(n as nat, i as int).take(n as int) =~= unit_exponents(n as nat, i as int));
        let one = self.coeff_ring.identity();
        let mut value: Vec<(Vec<u32>, R::E)> = Vec::new();
        value.push((exponents, one));
        let r = self.element(value);
        proof {
            let single = seq![(unit_exponents(n as nat, i as int), c.model(one))];
            let target = seq![(unit_exponents(n as nat, i as int), c.one_s())];
            assert(self.denote(value) =~= single);
            if self.sound() {
                lemma_ring_parts(&c);
                c.lemma_valid_member(one);
                self.lemma_valid_member(r);
                lemma_same_terms_refl(&c, Seq::<(Seq<u32>, R::M)>::empty());
                assert(Seq::<(Seq<u32>, R::M)>::empty().push(single[0]) =~= single);
                assert(Seq::<(Seq<u32>, R::M)>::empty().push(target[0]) =~= target);
                lemma_same_terms_push(&c, Seq::empty(), Seq::empty(), single[0], target[0]);
                lemma_same_terms_trans(&c, self.model(r), single, target);
            }
        }
        r
    }
}

/// The total degree of a monomial: the sum of its exponents.
pub open spec fn total_degree(m: Seq<u32>) -> int
    decreases m.len(),
{
    if m.len() == 0 {
        0
    } else {
        total_degree(m.drop_last()) + m.last()
    }
}

/// The largest total degree among the terms of a nonempty list.
pub open spec fn max_degree<T>(s: Seq<(Seq<u32>, T)>) -> int
    decreases s.len(),
{
    if s.len() <= 1 {
        total_degree(s[0].0)
    } else {
        let d = max_degree(s.drop_last());
        let e = total_degree(s.last().0);
        if d < e {
            e
        } else {
            d
        }
    }
}

/// A total degree is at least that of any prefix.
proof fn lemma_total_degree_prefix(m: Seq<u32>, k: int)
    requires
        0 <= k <= m.len(),
    ensures
        0 <= total_degree(m.take(k)) <= total_degree(m),
    decreases m.len(),
{
    if m.len() > 0 {
        if k == m.len() {
            assert(m.take(k) =~= m);
            lemma_total_degree_prefix(m.drop_last(), k - 1);
            assert(m.drop_last().take(k - 1) =~= m.take(k - 1));
        } else {
            lemma_total_degree_prefix(m.drop_last(), k);
            assert(m.drop_last().take(k) =~= m.take(k));
        }
    }
}

/// The total degree of a monomial, which must fit in a `u32`.
fn monomial_degree(m: &Vec<u32>) -> (d: u32)
    requires
        total_degree(m@) <= u32::MAX,
    ensures
        d == total_degree(m@),
{
    let mut d: u32 = 0;
    let n = m.len();
    for k in 0..n
        invariant
            n == m@.len(),
            total_degree(m@) <= u32::MAX,
            d == total_degree(m@.take(k as int)),
    {
        proof {
            lemma_total_degree_prefix(m@, k + 1);
            assert(m@.take(k + 1).drop_last() =~= m@.take(k as int));
        }
        d = d + m[k];
    }
    assert(m@.take(n as int) =~= m@);
    d
}

/// `acc · x^e`, multiplying `x` on one factor at a time.
pub open spec fn times_power<R: Ring>(r: &R, acc: R::M, x: R::M, e: nat) -> R::M
    decreases e,
{
    if e == 0 {
        acc
    } else {
        r.mul_s(times_power(r, acc, x, (e - 1) as nat), x)
    }
}

/// The value of one term at a point: its coefficient times `x_k^{e_k}` for each
/// `k < t`, multiplied on in order.
pub open spec fn term_value<R: Ring>(r: &R, c: R::M, m: Seq<u32>, point: Seq<R::M>, t: nat) -> R::M
    decreases t,
{
    if t == 0 {
        c
    } else {
        times_power(r, term_value(r, c, m, point, (t - 1) as nat), point[t - 1], m[t - 1] as nat)
    }
}

/// The value of a polynomial at a point: the values of its terms, added up in order
/// from zero.
pub open spec fn evaluation<R: Ring>(r: &R, s: Seq<(Seq<u32>, R::M)>, point: Seq<R::M>) -> R::M
    decreases s.len(),
{
    if s.len() == 0 {
        r.zero_s()
    } else {
        r.add_s(evaluation(r, s.drop_last(), point), term_value(r, s.last().1, s.last().0, point, s.last().0.len()))
    }
}

impl<R: Ring + DecidableEq> MultivariatePolynomial<R> {
    /// Total degree, or `None` for the zero polynomial. Every term's total degree
    /// must fit in a `u32`.
    pub fn degree(&self) -> (r: Option<u32>)
        requires
            forall|i: int| 0 <= i < self.terms_s().len() ==> total_degree(#[trigger] self.terms_s()[i].0@) <= u32::MAX,
        ensures
            self.terms_s().len() == 0 ==> r is None,
            self.terms_s().len() > 0 ==> r == Some(max_degree(term_models(&(*self.handle()).coeff_ring(), self.terms_s())) as u32),
    {
        let ghost s = term_models(&(*self.handle()).coeff_ring(), self.terms_s());
        let n = self.terms.len();
        if n == 0 {
            return None;
        }
        assert(s[0].0 == self.terms_s()[0].0@);
        let mut best = monomial_degree(&self.terms[0].0);
        assert(s.take(1).drop_last().len() == 0);
        for i in 1..n
            invariant
                n == self.terms_s().len(),
                s == term_models(&(*self.handle()).coeff_ring(), self.terms_s()),
                forall|k: int| 0 <= k < self.terms_s().len() ==> total_degree(#[trigger] self.terms_s()[k].0@) <= u32::MAX,
                best == max_degree(s.take(i as int)),
        {
            assert(s[i as int].0 == self.terms_s()[i as int].0@);
            let d = monomial_degree(&self.terms[i].0);
            assert(s.take(i + 1).drop_last() =~= s.take(i as int));
            if best < d {
                best = d;
            }
        }
        assert(s.take(n as int) =~= s);
        Some(best)
    }

    /// Evaluates at one point, by summing each term. The point must have one
    /// coordinate per variable.
    pub fn evaluate(&self, point: &[R::E]) -> (r: R::E)
        requires
            self.handle().wf(),
            self.handle().valid(*self),
            point@.len() == (*self.handle()).arity(),
            all_valid(&(*self.handle()).coeff_ring(), point@),
        ensures
            (*self.handle()).coeff_ring().valid(r),
            ring_laws(&(*self.handle()).coeff_ring()) ==> (*self.handle()).coeff_ring().eqv(
                (*self.handle()).coeff_ring().model(r),
                evaluation(
                    &(*self.handle()).coeff_ring(),
                    self.handle().model(*self),
                    models(&(*self.handle()).coeff_ring(), point@),
                ),
            ),
    {
        let ghost c = (*self.handle()).coeff_ring();
        let ghost laws = ring_laws(&c);
        let ghost s = self.handle().model(*self);
        let ghost pt = models(&c, point@);
        let ring = &self.ring.coeff_ring;
        let n = self.terms.len();
        let width = point.len();
        proof {
            if laws {
                lemma_ring_parts(&c);
                assert forall|k: int| 0 <= k < pt.len() implies #[trigger] c.member(pt[k]) by {
                    c.lemma_valid_member(point@[k]);
                }
            }
        }
        let mut sum = ring.zero();
        for i in 0..n
            invariant
                c == (*self.handle()).coeff_ring(),
                c == *ring,
                c.wf(),
                laws == ring_laws(&c),
                s == self.handle().model(*self),
                s == term_models(&c, self.terms@),
                pt == models(&c, point@),
                n == self.terms@.len(),
                width == point@.len(),
                terms_ok(&c, self.terms@, width as nat),
                all_valid(&c, point@),
                laws ==> forall|k: int| 0 <= k < pt.len() ==> #[trigger] c.member(pt[k]),
                c.valid(sum),
                laws ==> c.eqv(c.model(sum), evaluation(&c, s.take(i as int), pt)),
        {
            let ghost t = s[i as int];
            assert(c.valid(self.terms@[i as int].1));
            assert(self.terms@[i as int].0@.len() == width);
            let mut term = ring.copy(&self.terms[i].1);
            proof {
                if laws {
                    lemma_ring_parts(&c);
                    c.lemma_valid_member(self.terms@[i as int].1);
                    lemma_refl(&c, t.1);
                }
            }
            for k in 0..width
                invariant
                    c == *ring,
                    c.wf(),
                    laws == ring_laws(&c),
                    pt == models(&c, point@),
                    width == point@.len(),
                    t.0.len() == width,
                    t == s[i as int],
                    s == term_models(&c, self.terms@),
                    i < n,
                    n == self.terms@.len(),
                    all_valid(&c, point@),
                    laws ==> forall|k: int| 0 <= k < pt.len() ==> #[trigger] c.member(pt[k]),
                    laws ==> c.member(t.1),
                    c.valid(term),
                    laws ==> c.eqv(c.model(term), term_value(&c, t.1, t.0, pt, k as nat)),
            {
                let e = self.terms[i].0[k];
                assert(e == t.0[k as int]);
                assert(c.valid(point@[k as int]));
                proof {
                    if laws {
                        lemma_term_value_member(&c, t.1, t.0, pt, k as nat);
                    }
                }
                for j in 0..e
                    invariant
                        c == *ring,
                        c.wf(),
                        laws == ring_laws(&c),
                        c.valid(term),
                        c.valid(point@[k as int]),
                        pt == models(&c, point@),
                        k < width,
                        width == point@.len(),
                        laws ==> forall|k: int| 0 <= k < pt.len() ==> #[trigger] c.member(pt[k]),
                        laws ==> c.member(term_value(&c, t.1, t.0, pt, k as nat)),
                        laws ==> c.eqv(c.model(term), times_power(&c, term_value(&c, t.1, t.0, pt, k as nat), pt[k as int], j as nat)),
                {
                    let next = ring.mul(&term, &point[k]);
                    proof {
                        if laws {
                            lemma_ring_parts(&c);
                            let base = term_value(&c, t.1, t.0, pt, k as nat);
                            lemma_times_power_member(&c, base, pt[k as int], j as nat);
                            c.lemma_valid_member(term);
                            c.lemma_valid_member(next);
                            c.lemma_valid_member(point@[k as int]);
                            lemma_refl(&c, pt[k as int]);
                            crate::laws::lemma_mul_step(
                                &c,
                                c.model(next),
                                c.model(term),
                                c.model(point@[k as int]),
                                times_power(&c, base, pt[k as int], j as nat),
                                pt[k as int],
                            );
                        }
                    }
                    term = next;
                }
                proof {
                    if laws {
                        lemma_term_value_member(&c, t.1, t.0, pt, (k + 1) as nat);
                    }
                }
            }
            let next = ring.add(&sum, &term);
            proof {
                if laws {
                    lemma_ring_parts(&c);
                    assert(s.take(i + 1).drop_last() =~= s.take(i as int));
                    assert(s.take(i + 1).last() == t);
                    lemma_terms_members(&c, self.terms@, width as nat);
                    assert(term_members(&c, s.take(i as int)));
                    assert forall|q: int| 0 <= q < s.take(i as int).len() implies (#[trigger] s.take(i as int)[q]).0.len() <= pt.len() by {
                        assert(s[q].0.len() == width);
                    }
                    lemma_evaluation_member(&c, s.take(i as int), pt);
                    lemma_term_value_member(&c, t.1, t.0, pt, width as nat);
                    c.lemma_valid_member(sum);
                    c.lemma_valid_member(term);
                    c.lemma_valid_member(next);
                    crate::laws::lemma_add_step(
                        &c,
                        c.model(next),
                        c.model(sum),
                        c.model(term),
                        evaluation(&c, s.take(i as int), pt),
                        term_value(&c, t.1, t.0, pt, width as nat),
                    );
                }
            }
            sum = next;
        }
        assert(s.take(n as int) =~= s);
        sum
    }
}

/// `acc · x^e` is a member.
pub proof fn lemma_times_power_member<R: Ring>(r: &R, acc: R::M, x: R::M, e: nat)
    requires
        ring_laws(r),
        r.member(acc),
        r.member(x),
    ensures
        r.member(times_power(r, acc, x, e)),
    decreases e,
{
    lemma_ring_parts(r);
    if e > 0 {
        lemma_times_power_member(r, acc, x, (e - 1) as nat);
        crate::laws::lemma_mul_closed(r, times_power(r, acc, x, (e - 1) as nat), x);
    }
}

/// The value of a term at a point of members is a member.
pub proof fn lemma_term_value_member<R: Ring>(r: &R, c: R::M, m: Seq<u32>, point: Seq<R::M>, t: nat)
    requires
        ring_laws(r),
        r.member(c),
        t <= point.len(),
        forall|k: int| 0 <= k < point.len() ==> #[trigger] r.member(point[k]),
    ensures
        r.member(term_value(r, c, m, point, t)),
    decreases t,
{
    if t > 0 {
        lemma_term_value_member(r, c, m, point, (t - 1) as nat);
        lemma_times_power_member(r, term_value(r, c, m, point, (t - 1) as nat), point[t - 1], m[t - 1] as nat);
    }
}

/// The value of a polynomial at a point of members is a member.
pub proof fn lemma_evaluation_member<R: Ring>(r: &R, s: Seq<(Seq<u32>, R::M)>, point: Seq<R::M>)
    requires
        ring_laws(r),
        term_members(r, s),
        forall|i: int| 0 <= i < s.len() ==> (#[trigger] s[i]).0.len() <= point.len(),
        forall|k: int| 0 <= k < point.len() ==> #[trigger] r.member(point[k]),
    ensures
        r.member(evaluation(r, s, point)),
    decreases s.len(),
{
    lemma_ring_parts(r);
    if s.len() > 0 {
        lemma_evaluation_member(r, s.drop_last(), point);
        lemma_term_value_member(r, s.last().1, s.last().0, point, s.last().0.len());
        lemma_add_closed(r, evaluation(r, s.drop_last(), point), term_value(r, s.last().1, s.last().0, point, s.last().0.len()));
    }
}

/// `*x_i`, then `^{e}` when `e > 1`; nothing when `e == 0`.
pub open spec fn variable_power(i: nat, e: u32) -> Seq<char> {
    if e == 0 {
        Seq::empty()
    } else if e == 1 {
        seq!['*', 'x', '_'] + decimal_digits(i)
    } else {
        seq!['*', 'x', '_'] + decimal_digits(i) + seq!['^', '{'] + decimal_digits(e as nat) + seq!['}']
    }
}

/// The variable powers of the first `t` exponents of `m`.
pub open spec fn monomial_text(m: Seq<u32>, t: nat) -> Seq<char>
    decreases t,
{
    if t == 0 {
        Seq::empty()
    } else {
        monomial_text(m, (t - 1) as nat) + variable_power((t - 1) as nat, m[t - 1])
    }
}

/// The first `t` terms, joined by ` + `, each its coefficient then its variable
/// powers.
pub open spec fn multivariate_terms<R: Render>(r: &R, ts: Seq<(Vec<u32>, R::E)>, t: nat) -> Seq<char>
    decreases t,
{
    if t == 0 {
        Seq::empty()
    } else {
        multivariate_terms(r, ts, (t - 1) as nat) + (if t > 1 {
            seq![' ', '+', ' ']
        } else {
            Seq::empty()
        }) + bracketed(r.text(ts[t - 1].1)) + monomial_text(ts[t - 1].0@, ts[t - 1].0@.len())
    }
}

/// The text of a multivariate polynomial: `0`, or its terms in ascending order.
pub open spec fn multivariate_text<R: Render>(r: &R, ts: Seq<(Vec<u32>, R::E)>) -> Seq<char> {
    if ts.len() == 0 {
        seq!['0']
    } else {
        multivariate_terms(r, ts, ts.len())
    }
}

impl<R: Ring + DecidableEq + Render> MultivariatePolynomial<R> {
    /// The text of this polynomial, as `Display` prints it: `1*x_0^{2}*x_1`, with a
    /// coefficient that holds a space in brackets.
    pub fn to_string(&self) -> (r: String)
        requires
            self.handle().wf(),
            self.handle().valid(*self),
        ensures
            r@ == multivariate_text(&(*self.handle()).coeff_ring(), self.terms_s()),
    {
        let ghost c = (*self.handle()).coeff_ring();
        let ring = &self.ring.coeff_ring;
        let mut s = String::new();
        let n = self.terms.len();
        if n == 0 {
            append_zero_digit(&mut s);
            return s;
        }
        for i in 0..n
            invariant
                c == *ring,
                c.wf(),
                n == self.terms_s().len(),
                terms_ok(&c, self.terms_s(), (*self.handle()).arity()),
                s@ == multivariate_terms(&c, self.terms_s(), i as nat),
        {
            let ghost start = s@;
            if i > 0 {
                append_plus(&mut s);
            }
            assert(c.valid(self.terms_s()[i as int].1));
            let text = ring.render(&self.terms[i].1);
            append_bracketed(&mut s, &text);
            let ghost before_powers = s@;
            let monomial = &self.terms[i].0;
            let width = monomial.len();
            for k in 0..width
                invariant
                    width == monomial@.len(),
                    s@ == before_powers + monomial_text(monomial@, k as nat),
            {
                let e = monomial[k];
                if e > 0 {
                    append_times_x_sub(&mut s);
                    append_decimal(&mut s, k as u64);
                    if e > 1 {
                        append_power_open(&mut s);
                        append_decimal(&mut s, e as u64);
                        append_brace_close(&mut s);
                    }
                }
                proof {
                    let prev = before_powers + monomial_text(monomial@, k as nat);
                    assert(s@ =~= prev + variable_power(k as nat, e));
                }
            }
            proof {
                let sep: Seq<char> = if i > 0 { seq![' ', '+', ' '] } else { Seq::empty() };
                assert(monomial@ == self.terms_s()[i as int].0@);
                assert(s@ =~= start + sep + bracketed(c.text(self.terms_s()[i as int].1)) + monomial_text(monomial@, width as nat));
            }
        }
        s
    }
}

impl<R: Ring + DecidableEq + Render> Render for Rc<MultivariatePolynomialRing<R>> {
    open spec fn text(&self, x: MultivariatePolynomial<R>) -> Seq<char> {
        multivariate_text(&(**self).coeff_ring(), x.terms_s())
    }

    fn render(&self, x: &MultivariatePolynomial<R>) -> (r: String) {
        x.to_string()
    }
}

} // verus!
