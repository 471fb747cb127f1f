//! Exponentiation by square-and-multiply.

use crate::integers::Integer;
use crate::laws::{
    equivalence, lemma_monoid_semigroup, lemma_mul_assoc, lemma_mul_closed, lemma_mul_congruent,
    lemma_mul_one, lemma_refl, lemma_sym, lemma_trans, monoid_laws,
};
use crate::structures::{Domain, Monoid, Semigroup};
use vstd::arithmetic::div_mod::lemma_fundamental_div_mod;
use vstd::arithmetic::mul::{lemma_mul_is_distributive_add, lemma_mul_is_associative};
use vstd::prelude::*;

verus! {

/// `a^n`: the product of `n` copies of `a`, multiplied on from the right; `a^0` is one.
pub open spec fn power<M: Monoid>(m: &M, a: M::M, n: nat) -> M::M
    decreases n,
{
    if n == 0 {
        m.one_s()
    } else {
        m.mul_s(power(m, a, (n - 1) as nat), a)
    }
}

/// Every power of a member is a member.
pub proof fn lemma_power_member<M: Monoid>(m: &M, a: M::M, n: nat)
    requires
        monoid_laws(m),
        m.member(a),
    ensures
        m.member(power(m, a, n)),
    decreases n,
{
    lemma_monoid_semigroup(m);
    if n > 0 {
        lemma_power_member(m, a, (n - 1) as nat);
        lemma_mul_closed(m, power(m, a, (n - 1) as nat), a);
    }
}

/// `a^i · a^j = a^(i+j)`.
pub proof fn lemma_power_add<M: Monoid>(m: &M, a: M::M, i: nat, j: nat)
    requires
        monoid_laws(m),
        m.member(a),
    ensures
        m.eqv(m.mul_s(power(m, a, i), power(m, a, j)), power(m, a, i + j)),
    decreases j,
{
    lemma_monoid_semigroup(m);
    lemma_power_member(m, a, i);
    lemma_power_member(m, a, j);
    lemma_power_member(m, a, i + j);
    if j == 0 {
        lemma_mul_one(m, power(m, a, i));
    } else {
        let pi = power(m, a, i);
        let pj1 = power(m, a, (j - 1) as nat);
        lemma_power_member(m, a, (j - 1) as nat);
        lemma_power_member(m, a, (i + j - 1) as nat);
        lemma_mul_closed(m, pi, pj1);
        lemma_mul_closed(m, pj1, a);
        lemma_mul_closed(m, m.mul_s(pi, pj1), a);
        lemma_mul_closed(m, pi, m.mul_s(pj1, a));
        // pi * (pj1 * a) ~ (pi * pj1) * a
        lemma_mul_assoc(m, pi, pj1, a);
        lemma_sym(m, m.mul_s(m.mul_s(pi, pj1), a), m.mul_s(pi, m.mul_s(pj1, a)));
        // (pi * pj1) * a ~ a^(i+j-1) * a
        lemma_power_add(m, a, i, (j - 1) as nat);
        lemma_refl(m, a);
        lemma_mul_congruent(
            m,
            m.mul_s(pi, pj1),
            power(m, a, (i + j - 1) as nat),
            a,
            a,
        );
        assert(power(m, a, i + j) == m.mul_s(power(m, a, (i + j - 1) as nat), a));
        lemma_trans(
            m,
            m.mul_s(pi, m.mul_s(pj1, a)),
            m.mul_s(m.mul_s(pi, pj1), a),
            power(m, a, i + j),
        );
    }
}

/// Powers of equal elements are equal.
pub proof fn lemma_power_congruent<M: Monoid>(m: &M, a: M::M, b: M::M, n: nat)
    requires
        monoid_laws(m),
        m.member(a),
        m.member(b),
        m.eqv(a, b),
    ensures
        m.eqv(power(m, a, n), power(m, b, n)),
    decreases n,
{
    lemma_monoid_semigroup(m);
    if n == 0 {
        lemma_refl(m, m.one_s());
    } else {
        lemma_power_congruent(m, a, b, (n - 1) as nat);
        lemma_power_member(m, a, (n - 1) as nat);
        lemma_power_member(m, b, (n - 1) as nat);
        lemma_mul_congruent(m, power(m, a, (n - 1) as nat), power(m, b, (n - 1) as nat), a, b);
    }
}

/// `a^(i·j) = (a^i)^j`.
pub proof fn lemma_power_mul<M: Monoid>(m: &M, a: M::M, i: nat, j: nat)
    requires
        monoid_laws(m),
        m.member(a),
    ensures
        m.eqv(power(m, a, i * j), power(m, power(m, a, i), j)),
    decreases j,
{
    lemma_monoid_semigroup(m);
    lemma_power_member(m, a, i);
    let ai = power(m, a, i);
    if j == 0 {
        assert(i * j == 0);
        lemma_refl(m, m.one_s());
    } else {
        let j1 = (j - 1) as nat;
        lemma_power_mul(m, a, i, j1);
        assert(i * j == i * j1 + i) by (nonlinear_arith)
            requires
                j1 == j - 1,
        ;
        lemma_power_add(m, a, i * j1, i);
        lemma_power_member(m, a, i * j1);
        lemma_power_member(m, a, i * j);
        lemma_power_member(m, ai, j1);
        lemma_refl(m, ai);
        lemma_mul_congruent(m, power(m, a, i * j1), power(m, ai, j1), ai, ai);
        lemma_mul_closed(m, power(m, a, i * j1), ai);
        lemma_mul_closed(m, power(m, ai, j1), ai);
        lemma_sym(m, m.mul_s(power(m, a, i * j1), ai), power(m, a, i * j));
        lemma_trans(m, power(m, a, i * j), m.mul_s(power(m, a, i * j1), ai), power(m, ai, j));
    }
}

/// `1^n = 1`.
pub proof fn lemma_power_of_one<M: Monoid>(m: &M, n: nat)
    requires
        monoid_laws(m),
    ensures
        m.eqv(power(m, m.one_s(), n), m.one_s()),
    decreases n,
{
    lemma_monoid_semigroup(m);
    let one = m.one_s();
    if n == 0 {
        lemma_refl(m, one);
    } else {
        lemma_power_of_one(m, (n - 1) as nat);
        lemma_power_member(m, one, (n - 1) as nat);
        lemma_refl(m, one);
        lemma_mul_congruent(m, power(m, one, (n - 1) as nat), one, one, one);
        lemma_mul_one(m, one);
        lemma_mul_closed(m, one, one);
        lemma_power_member(m, one, n);
        lemma_trans(m, power(m, one, n), m.mul_s(one, one), one);
    }
}

/// `a^1 = a`.
pub proof fn lemma_power_first<M: Monoid>(m: &M, a: M::M)
    requires
        monoid_laws(m),
        m.member(a),
    ensures
        m.eqv(power(m, a, 1), a),
{
    lemma_monoid_semigroup(m);
    assert(power(m, a, 1) == m.mul_s(power(m, a, 0), a));
    lemma_mul_one(m, a);
}

/// `base^exp`, in `O(log exp)` multiplications. `exp == 0` gives the identity.
///
/// The exponent is an `Integer`, so it is not capped at a machine word. A negative
/// exponent, which a monoid cannot express, is left out by `requires`.
pub fn pow<M: Monoid>(monoid: &M, base: &M::E, exp: &Integer) -> (r: M::E)
    requires
        monoid.wf(),
        monoid.valid(*base),
        exp@ >= 0,
    ensures
        monoid.valid(r),
        monoid_laws(monoid) ==> monoid.eqv(
            monoid.model(r),
            power(monoid, monoid.model(*base), exp@ as nat),
        ),
{
    let ghost b = monoid.model(*base);
    let ghost laws = monoid_laws(monoid);
    let mut result = monoid.identity();
    let mut addend = monoid.copy(base);
    let mut n = exp.copy();
    let two = Integer::from_i64(2);
    let ghost mut done: nat = 0;
    let ghost mut k: nat = 1;
    proof {
        if laws {
            lemma_monoid_semigroup(monoid);
            monoid.lemma_valid_member(*base);
            lemma_mul_one(monoid, b);
            assert(power(monoid, b, 1) == monoid.mul_s(power(monoid, b, 0), b));
            lemma_power_member(monoid, b, 1);
            lemma_sym(monoid, power(monoid, b, 1), b);
        }
    }
    while !n.is_zero()
        invariant
            monoid.wf(),
            monoid.valid(result),
            monoid.valid(addend),
            monoid.valid(*base),
            b == monoid.model(*base),
            laws == monoid_laws(monoid),
            two@ == 2,
            n@ >= 0,
            exp@ == done + k * n@,
            laws ==> monoid.eqv(monoid.model(result), power(monoid, b, done)),
            laws ==> monoid.eqv(monoid.model(addend), power(monoid, b, k)),
        decreases n@,
    {
        let (q, rem) = n.quot_rem(&two);
        proof {
            lemma_fundamental_div_mod(n@, 2);
            assert(n@ == 2 * q@ + rem@);
            assert(rem@ == 0 || rem@ == 1);
        }
        if !rem.is_zero() {
            let product = monoid.mul(&result, &addend);
            proof {
                if laws {
                    lemma_monoid_semigroup(monoid);
                    monoid.lemma_valid_member(result);
                    monoid.lemma_valid_member(addend);
                    monoid.lemma_valid_member(product);
                    monoid.lemma_valid_member(*base);
                    lemma_power_member(monoid, b, done);
                    lemma_power_member(monoid, b, k);
                    lemma_mul_closed(monoid, monoid.model(result), monoid.model(addend));
                    lemma_mul_closed(monoid, power(monoid, b, done), power(monoid, b, k));
                    lemma_power_member(monoid, b, done + k);
                    lemma_mul_congruent(
                        monoid,
                        monoid.model(result),
                        power(monoid, b, done),
                        monoid.model(addend),
                        power(monoid, b, k),
                    );
                    lemma_power_add(monoid, b, done, k);
                    lemma_trans(
                        monoid,
                        monoid.model(product),
                        monoid.mul_s(monoid.model(result), monoid.model(addend)),
                        monoid.mul_s(power(monoid, b, done), power(monoid, b, k)),
                    );
                    lemma_trans(
                        monoid,
                        monoid.model(product),
                        monoid.mul_s(power(monoid, b, done), power(monoid, b, k)),
                        power(monoid, b, done + k),
                    );
                }
                done = done + k;
            }
            result = product;
        }
        proof {
            lemma_mul_is_distributive_add(k as int, 2 * q@, rem@);
            lemma_mul_is_associative(k as int, 2, q@);
        }
        n = q;
        if !n.is_zero() {
            let square = monoid.mul(&addend, &addend);
            proof {
                if laws {
                    lemma_monoid_semigroup(monoid);
                    monoid.lemma_valid_member(addend);
                    monoid.lemma_valid_member(square);
                    monoid.lemma_valid_member(*base);
                    lemma_power_member(monoid, b, k);
                    lemma_power_member(monoid, b, k + k);
                    lemma_mul_closed(monoid, monoid.model(addend), monoid.model(addend));
                    lemma_mul_closed(monoid, power(monoid, b, k), power(monoid, b, k));
                    lemma_mul_congruent(
                        monoid,
                        monoid.model(addend),
                        power(monoid, b, k),
                        monoid.model(addend),
                        power(monoid, b, k),
                    );
                    lemma_power_add(monoid, b, k, k);
                    lemma_trans(
                        monoid,
                        monoid.model(square),
                        monoid.mul_s(monoid.model(addend), monoid.model(addend)),
                        monoid.mul_s(power(monoid, b, k), power(monoid, b, k)),
                    );
                    lemma_trans(
                        monoid,
                        monoid.model(square),
                        monoid.mul_s(power(monoid, b, k), power(monoid, b, k)),
                        power(monoid, b, k + k),
                    );
                }
                k = k + k;
            }
            addend = square;
        }
    }
    result
}

} // verus!
