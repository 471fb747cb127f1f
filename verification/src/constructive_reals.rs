//! Constructive (computable) real numbers, following Boehm's constructive reals.
//!
//! A value is an expression tree evaluated only to the precision asked for:
//! `get_appr(p)` returns `a` with `|a · 2^p − value| < 2^p`.
//!
//! Equality is undecidable, so there is no `==` and comparison may answer
//! "undetermined". The constructive reals form a ring but not a field.
//!
//! Each request is computed afresh from the tree; the magnitude estimates that the
//! product needs are read off the approximations it has just computed.

use crate::constructive_laws::{
    approximates, defined, lemma_appr_within, lemma_compare_correct, lemma_order_correct,
    lemma_sign_correct, value,
};
use crate::fixed_point::{fixed_point, fixed_point_text, is_root, isqrt, scale, scaled};
use crate::integers::{abs, big_bits, Integer};
use crate::structures::{AdditiveGroup, CommutativeMonoid, Domain, Monoid, Ring, SemiRing, Semigroup};
use std::cmp::Ordering;
use vstd::arithmetic::power::pow;
use vstd::arithmetic::power2::{lemma_pow2_pos, lemma_pow2_strictly_increases, pow2};
use vstd::prelude::*;

verus! {

/// A constructive real: an expression over exact integers.
pub enum ConstructiveReal {
    /// An exact integer.
    Int(Integer),
    /// Sum of two reals.
    Add(Box<ConstructiveReal>, Box<ConstructiveReal>),
    /// Negation.
    Neg(Box<ConstructiveReal>),
    /// `op · 2^count` (a left shift; `count` may be negative).
    Shift(Box<ConstructiveReal>, i32),
    /// Product of two reals.
    Mul(Box<ConstructiveReal>, Box<ConstructiveReal>),
    /// Non-negative square root.
    Sqrt(Box<ConstructiveReal>),
}

/// Handle for the constructive reals.
pub struct ConstructiveReals;

/// The expression a constructive real stands for, with its integers as `int`.
pub enum Term {
    Int(int),
    Add(Box<Term>, Box<Term>),
    Neg(Box<Term>),
    Shift(Box<Term>, int),
    Mul(Box<Term>, Box<Term>),
    Sqrt(Box<Term>),
}

/// The expression of `x`.
pub open spec fn term(x: ConstructiveReal) -> Term
    decreases x,
{
    match x {
        ConstructiveReal::Int(v) => Term::Int(v@),
        ConstructiveReal::Add(a, b) => Term::Add(Box::new(term(*a)), Box::new(term(*b))),
        ConstructiveReal::Neg(a) => Term::Neg(Box::new(term(*a))),
        ConstructiveReal::Shift(a, c) => Term::Shift(Box::new(term(*a)), c as int),
        ConstructiveReal::Mul(a, b) => Term::Mul(Box::new(term(*a)), Box::new(term(*b))),
        ConstructiveReal::Sqrt(a) => Term::Sqrt(Box::new(term(*a))),
    }
}

/// The number of bits of `|a|`, zero for zero.
pub open spec fn bit_length(a: int) -> nat {
    if a == 0 {
        0
    } else {
        choose|k: nat| #![trigger pow2(k)] k >= 1 && pow2((k - 1) as nat) <= abs(a) && abs(a) < pow2(k)
    }
}

/// A `k` with `2^(k-1) <= |a| < 2^k` is the bit length of `a`.
pub proof fn lemma_bit_length(a: int, k: nat)
    requires
        k >= 1,
        pow2((k - 1) as nat) <= abs(a),
        abs(a) < pow2(k),
    ensures
        bit_length(a) == k,
{
    lemma_pow2_pos((k - 1) as nat);
    let j = bit_length(a);
    assert(j >= 1 && pow2((j - 1) as nat) <= abs(a) && abs(a) < pow2(j));
    if j < k {
        if j < k - 1 {
            lemma_pow2_strictly_increases(j, (k - 1) as nat);
        }
    } else if j > k {
        if k < j - 1 {
            lemma_pow2_strictly_increases(k, (j - 1) as nat);
        }
    }
}

/// The integer square root of a positive `n`.
pub open spec fn root(n: int) -> int {
    choose|r: int| is_root(n, r)
}

/// An integer square root is the root.
proof fn lemma_root(n: int, r: int)
    requires
        is_root(n, r),
    ensures
        root(n) == r,
{
    let s = root(n);
    assert(is_root(n, s));
    if s < r {
        assert((s + 1) * (s + 1) <= r * r) by (nonlinear_arith)
            requires
                0 <= s + 1 <= r,
        ;
    } else if r < s {
        assert((r + 1) * (r + 1) <= s * s) by (nonlinear_arith)
            requires
                0 <= r + 1 <= s,
        ;
    }
}

/// The position of the leading digit that an approximation `a` at precision `q`
/// shows, or `None` when `|a| <= 1` leaves the value indistinguishable from zero.
pub open spec fn msd_at(q: int, a: int) -> Option<int> {
    if abs(a) <= 1 {
        None
    } else {
        Some(q + bit_length(a) - 1)
    }
}

/// The precision at which the larger factor of a product is approximated, once the
/// smaller one is known to be `s` at precision `ps`.
pub open spec fn larger_precision(p: int, ps: int, s: int) -> int {
    p - (ps + bit_length(s) - 1) - 3
}

/// The approximation that `get_appr` returns for `x` at precision `p`.
pub open spec fn appr(x: Term, p: int) -> int
    decreases x,
{
    match x {
        Term::Int(v) => scaled(v, -p),
        Term::Add(a, b) => scaled(appr(*a, p - 2) + appr(*b, p - 2), -2),
        Term::Neg(a) => -appr(*a, p),
        Term::Shift(a, c) => appr(*a, p - c),
        Term::Mul(a, b) => {
            let q = p / 2 - 2;
            match msd_at(q, appr(*a, q)) {
                Some(m) => {
                    let ps = p - m - 3;
                    let s = appr(*b, ps);
                    if s == 0 {
                        0
                    } else {
                        let pl = larger_precision(p, ps, s);
                        scaled(appr(*a, pl) * s, pl + ps - p)
                    }
                },
                None => match msd_at(q, appr(*b, q)) {
                    Some(m) => {
                        let ps = p - m - 3;
                        let s = appr(*a, ps);
                        if s == 0 {
                            0
                        } else {
                            let pl = larger_precision(p, ps, s);
                            scaled(appr(*b, pl) * s, pl + ps - p)
                        }
                    },
                    None => 0,
                },
            }
        },
        Term::Sqrt(a) => {
            let o = appr(*a, 2 * (p - 3));
            if o <= 0 {
                0
            } else {
                scaled(root(o), -3)
            }
        },
    }
}

/// `x` is within the 32-bit range.
pub open spec fn in_i32(x: int) -> bool {
    i32::MIN < x <= i32::MAX
}

/// The ranges that the second half of a product needs once the larger factor's
/// leading digit is `m`: the smaller factor comes at `p - m - 3`, and where its
/// approximation `s` is not zero, the larger at `larger_precision(p, p - m - 3, s)`.
pub open spec fn product_ranges(p: int, m: int, s: int) -> bool {
    let ps = p - m - 3;
    &&& in_i32(m)
    &&& in_i32(ps)
    &&& s != 0 ==> {
        &&& in_i32(ps + bit_length(s) - 1)
        &&& in_i32(larger_precision(p, ps, s))
        &&& in_i32(larger_precision(p, ps, s) + ps - p)
    }
}

/// Every precision that approximating `x` at `p` asks for, and every leading-digit
/// position it computes, is a 32-bit integer above the smallest one.
pub open spec fn fits(x: Term, p: int) -> bool
    decreases x,
{
    &&& in_i32(p)
    &&& match x {
        Term::Int(v) => true,
        Term::Add(a, b) => in_i32(p - 2) && fits(*a, p - 2) && fits(*b, p - 2),
        Term::Neg(a) => fits(*a, p),
        Term::Shift(a, c) => in_i32(p - c) && fits(*a, p - c),
        Term::Mul(a, b) => {
            let q = p / 2 - 2;
            &&& fits(*a, q)
            &&& match msd_at(q, appr(*a, q)) {
                Some(m) => {
                    let ps = p - m - 3;
                    &&& product_ranges(p, m, appr(*b, ps))
                    &&& fits(*b, ps)
                    &&& appr(*b, ps) != 0 ==> fits(*a, larger_precision(p, ps, appr(*b, ps)))
                },
                None => {
                    &&& fits(*b, q)
                    &&& match msd_at(q, appr(*b, q)) {
                        Some(m) => {
                            let ps = p - m - 3;
                            &&& product_ranges(p, m, appr(*a, ps))
                            &&& fits(*a, ps)
                            &&& appr(*a, ps) != 0 ==> fits(*b, larger_precision(p, ps, appr(*a, ps)))
                        },
                        None => true,
                    }
                },
            }
        },
        Term::Sqrt(a) => in_i32(p - 3) && in_i32(2 * (p - 3)) && fits(*a, 2 * (p - 3)),
    }
}

/// How `x` and `y` compare when both are approximated at precision `q`:
/// approximations within one of each other leave it open.
pub open spec fn order_at(x: Term, y: Term, q: int) -> Option<Ordering> {
    let u = appr(x, q);
    let v = appr(y, q);
    if u > v + 1 {
        Some(Ordering::Greater)
    } else if u < v - 1 {
        Some(Ordering::Less)
    } else {
        None
    }
}

/// The next precision `compare` tries after `a`: twice as fine, stopping at the
/// smallest 32-bit integer.
pub open spec fn doubled(a: i32) -> i32 {
    if 2 * a < i32::MIN {
        i32::MIN
    } else {
        (2 * a) as i32
    }
}

/// What `compare` answers once it has reached precision `a`: the first precision
/// from `a` on, doubling, at which `order_at` decides, unless `min` is passed first.
pub open spec fn compare_from(x: Term, y: Term, a: i32, min: i32) -> Option<Ordering>
    decreases a - i32::MIN,
{
    match order_at(x, y, a - 1) {
        Some(o) => Some(o),
        None => if a <= min || a <= i32::MIN || a >= 0 {
            None
        } else {
            compare_from(x, y, doubled(a), min)
        },
    }
}

/// Every precision that `compare` tries from `a` on fits both operands.
pub open spec fn compare_fits(x: Term, y: Term, a: i32, min: i32) -> bool
    decreases a - i32::MIN,
{
    &&& in_i32(a - 1)
    &&& fits(x, a - 1)
    &&& fits(y, a - 1)
    &&& (order_at(x, y, a - 1) is None && !(a <= min || a <= i32::MIN || a >= 0)) ==> compare_fits(
        x,
        y,
        doubled(a),
        min,
    )
}

/// `x · 10^d`, whose approximation at precision zero `to_decimal` prints.
pub open spec fn decimal_term(x: Term, d: nat) -> Term {
    Term::Mul(Box::new(x), Box::new(Term::Int(pow(10, d))))
}

/// The sign that an approximation `a` shows: `None` for zero.
pub open spec fn sign_of(a: int) -> Option<i32> {
    if a < 0 {
        Some(-1i32)
    } else if a > 0 {
        Some(1i32)
    } else {
        None
    }
}

/// `floor(p / 2)`, the arithmetic shift `p >> 1`.
fn half_down(p: i32) -> (r: i32)
    ensures
        r == p / 2,
{
    if p >= 0 {
        p / 2
    } else {
        let m = -(p + 1);
        -(m / 2) - 1
    }
}

/// The number of bits of `|a|`.
fn bits_of(a: &Integer) -> (r: u64)
    ensures
        r == bit_length(a@),
        a@ != 0 ==> r >= 1,
{
    let r = big_bits(a);
    proof {
        if a@ != 0 {
            lemma_bit_length(a@, r as nat);
        }
    }
    r
}

/// Whether `|a| <= 1`.
fn at_most_one(a: &Integer) -> (r: bool)
    ensures
        r == (abs(a@) <= 1),
{
    let two = Integer::from_i64(2);
    a.magnitude().less_than(&two)
}

/// The leading digit position `min_prec + bits(a) - 1` of an approximation `a` at
/// precision `min_prec`.
fn known_msd(min_prec: i32, a: &Integer) -> (r: i32)
    requires
        a@ != 0,
        in_i32(min_prec + bit_length(a@) - 1),
    ensures
        r == min_prec + bit_length(a@) - 1,
{
    let length = bits_of(a);
    let below: u64 = length - 1;
    (min_prec as i64 + below as i64) as i32
}

impl ConstructiveReal {
    /// A copy of this expression.
    pub fn copy(&self) -> (r: ConstructiveReal)
        ensures
            term(r) == term(*self),
        decreases *self,
    {
        match self {
            ConstructiveReal::Int(v) => ConstructiveReal::Int(v.copy()),
            ConstructiveReal::Add(a, b) => ConstructiveReal::Add(Box::new(a.copy()), Box::new(b.copy())),
            ConstructiveReal::Neg(a) => ConstructiveReal::Neg(Box::new(a.copy())),
            ConstructiveReal::Shift(a, c) => ConstructiveReal::Shift(Box::new(a.copy()), *c),
            ConstructiveReal::Mul(a, b) => ConstructiveReal::Mul(Box::new(a.copy()), Box::new(b.copy())),
            ConstructiveReal::Sqrt(a) => ConstructiveReal::Sqrt(Box::new(a.copy())),
        }
    }

    /// The constructive real exactly equal to the given integer.
    pub fn from_int(n: Integer) -> (r: ConstructiveReal)
        ensures
            term(r) == Term::Int(n@),
    {
        ConstructiveReal::Int(n)
    }

    /// `self · 2^n`.
    pub fn shift_left(&self, n: i32) -> (r: ConstructiveReal)
        ensures
            term(r) == Term::Shift(Box::new(term(*self)), n as int),
    {
        ConstructiveReal::Shift(Box::new(self.copy()), n)
    }

    /// `self / 2^n`.
    pub fn shift_right(&self, n: i32) -> (r: ConstructiveReal)
        requires
            n > i32::MIN,
        ensures
            term(r) == Term::Shift(Box::new(term(*self)), -n),
    {
        ConstructiveReal::Shift(Box::new(self.copy()), -n)
    }

    /// The non-negative square root. A negative operand is unspecified rather than an
    /// error, since negativity is not decidable.
    pub fn sqrt(&self) -> (r: ConstructiveReal)
        ensures
            term(r) == Term::Sqrt(Box::new(term(*self))),
    {
        ConstructiveReal::Sqrt(Box::new(self.copy()))
    }

    /// `self + rhs`.
    pub fn add(self, rhs: ConstructiveReal) -> (r: ConstructiveReal)
        ensures
            term(r) == Term::Add(Box::new(term(self)), Box::new(term(rhs))),
    {
        ConstructiveReal::Add(Box::new(self), Box::new(rhs))
    }

    /// `-self`.
    pub fn neg(self) -> (r: ConstructiveReal)
        ensures
            term(r) == Term::Neg(Box::new(term(self))),
    {
        ConstructiveReal::Neg(Box::new(self))
    }

    /// `self - rhs`, as `self + (-rhs)`.
    pub fn sub(self, rhs: ConstructiveReal) -> (r: ConstructiveReal)
        ensures
            term(r) == Term::Add(Box::new(term(self)), Box::new(Term::Neg(Box::new(term(rhs))))),
    {
        let ghost t = term(rhs);
        let negated = ConstructiveReal::Neg(Box::new(rhs));
        assert(term(negated) == Term::Neg(Box::new(t)));
        ConstructiveReal::Add(Box::new(self), Box::new(negated))
    }

    /// `self · rhs`.
    pub fn mul(self, rhs: ConstructiveReal) -> (r: ConstructiveReal)
        ensures
            term(r) == Term::Mul(Box::new(term(self)), Box::new(term(rhs))),
    {
        ConstructiveReal::Mul(Box::new(self), Box::new(rhs))
    }

    /// `self *= rhs`.
    pub fn mul_assign(&mut self, rhs: &ConstructiveReal)
        ensures
            term(*final(self)) == Term::Mul(Box::new(term(*old(self))), Box::new(term(*rhs))),
    {
        let left = self.copy();
        *self = ConstructiveReal::Mul(Box::new(left), Box::new(rhs.copy()));
    }

    /// An `a` with `|a · 2^precision − value| < 2^precision`.
    pub fn get_appr(&self, precision: i32) -> (r: Integer)
        requires
            fits(term(*self), precision as int),
        ensures
            r@ == appr(term(*self), precision as int),
            defined(term(*self)) ==> approximates(term(*self), precision as int, r@),
    {
        proof {
            if defined(term(*self)) {
                lemma_appr_within(term(*self), precision as int);
            }
        }
        self.approximate(precision)
    }

    /// A fresh approximation at precision `p`, computed from the operation.
    fn approximate(&self, p: i32) -> (r: Integer)
        requires
            fits(term(*self), p as int),
        ensures
            r@ == appr(term(*self), p as int),
        decreases *self, 1nat,
    {
        match self {
            ConstructiveReal::Int(v) => scale(v, -p),
            ConstructiveReal::Add(a, b) => {
                let x = a.approximate(p - 2);
                let y = b.approximate(p - 2);
                scale(&x.plus(&y), -2)
            },
            ConstructiveReal::Neg(a) => {
                let x = a.approximate(p);
                Integer::from_i64(0).minus(&x)
            },
            ConstructiveReal::Shift(a, count) => a.approximate(p - *count),
            ConstructiveReal::Mul(_, _) => self.approximate_mul(p),
            ConstructiveReal::Sqrt(a) => {
                let working = p - 3;
                let operand = a.approximate(2 * working);
                if !Integer::from_i64(0).less_than(&operand) {
                    // Assumed non-negative: a non-positive approximation cannot be told
                    // from zero at this precision.
                    Integer::from_i64(0)
                } else {
                    let root_value = isqrt(&operand);
                    proof {
                        lemma_root(operand@, root_value@);
                    }
                    scale(&root_value, -3)
                }
            },
        }
    }

    /// The leading digit position, refining to `n`: `None` when the value cannot be
    /// told from zero there.
    fn msd(&self, n: i32) -> (r: Option<i32>)
        requires
            in_i32(n - 1),
            fits(term(*self), n - 1),
            msd_at(n - 1, appr(term(*self), n - 1)) matches Some(m) ==> in_i32(m),
        ensures
            r matches Some(m) ==> msd_at(n - 1, appr(term(*self), n - 1)) == Some(m as int),
            r is None ==> msd_at(n - 1, appr(term(*self), n - 1)) is None,
        decreases *self, 2nat,
    {
        let a = self.approximate(n - 1);
        if at_most_one(&a) {
            return None;
        }
        Some(known_msd(n - 1, &a))
    }

    /// A product of two factors at precision `p`: the factor whose magnitude is
    /// pinned down first fixes the precision of the other, whose approximation then
    /// fixes the precision of the first.
    fn approximate_mul(&self, p: i32) -> (r: Integer)
        requires
            *self is Mul,
            fits(term(*self), p as int),
        ensures
            r@ == appr(term(*self), p as int),
            defined(term(*self)) ==> approximates(term(*self), p as int, r@),
        decreases *self, 0nat,
    {
        proof {
            if defined(term(*self)) {
                lemma_appr_within(term(*self), p as int);
            }
        }
        let (op1, op2) = match self {
            ConstructiveReal::Mul(a, b) => (a, b),
            _ => { return Integer::from_i64(0); },
        };
        let half_prec = half_down(p) - 1;
        let (larger, smaller, msd_larger) = match op1.msd(half_prec) {
            Some(m) => (op1, op2, m),
            None => match op2.msd(half_prec) {
                // Both factors are tiny; their product is small enough that zero
                // approximates it at precision `p`.
                None => { return Integer::from_i64(0); },
                Some(m) => (op2, op1, m),
            },
        };
        let prec_smaller = (p as i64 - msd_larger as i64 - 3) as i32;
        let appr_smaller = smaller.approximate(prec_smaller);
        if appr_smaller.is_zero() {
            return Integer::from_i64(0);
        }
        let msd_smaller = known_msd(prec_smaller, &appr_smaller);
        let prec_larger = (p as i64 - msd_smaller as i64 - 3) as i32;
        let appr_larger = larger.approximate(prec_larger);
        let scale_digits = (prec_larger as i64 + prec_smaller as i64 - p as i64) as i32;
        scale(&appr_larger.times(&appr_smaller), scale_digits)
    }

    /// Compare at one precision; `None` when the values are too close to tell.
    pub fn compare_at(&self, other: &ConstructiveReal, precision: i32) -> (r: Option<Ordering>)
        requires
            in_i32(precision - 1),
            fits(term(*self), precision - 1),
            fits(term(*other), precision - 1),
        ensures
            r == order_at(term(*self), term(*other), precision - 1),
            defined(term(*self)) && defined(term(*other)) ==> {
                &&& r == Some(Ordering::Greater) ==> value(term(*self)) > value(term(*other))
                &&& r == Some(Ordering::Less) ==> value(term(*self)) < value(term(*other))
            },
    {
        proof {
            if defined(term(*self)) && defined(term(*other)) {
                lemma_order_correct(term(*self), term(*other), precision - 1);
            }
        }
        let needed = precision - 1;
        let this_appr = self.get_appr(needed);
        let other_appr = other.get_appr(needed);
        let one = Integer::from_i64(1);
        if other_appr.plus(&one).less_than(&this_appr) {
            Some(Ordering::Greater)
        } else if this_appr.less_than(&other_appr.minus(&one)) {
            Some(Ordering::Less)
        } else {
            None
        }
    }

    /// Compare, refining from `-20` until resolvable or past `min_precision`. `None` if
    /// unresolved: equality is undecidable, so the bound is what guarantees termination.
    pub fn compare(&self, other: &ConstructiveReal, min_precision: i32) -> (r: Option<Ordering>)
        requires
            compare_fits(term(*self), term(*other), -20i32, min_precision),
        ensures
            r == compare_from(term(*self), term(*other), -20i32, min_precision),
            defined(term(*self)) && defined(term(*other)) ==> {
                &&& r == Some(Ordering::Greater) ==> value(term(*self)) > value(term(*other))
                &&& r == Some(Ordering::Less) ==> value(term(*self)) < value(term(*other))
            },
    {
        proof {
            if defined(term(*self)) && defined(term(*other)) {
                lemma_compare_correct(term(*self), term(*other), -20i32, min_precision);
            }
        }
        let ghost x = term(*self);
        let ghost y = term(*other);
        let mut a: i32 = -20;
        loop
            invariant
                x == term(*self),
                y == term(*other),
                a < 0,
                compare_fits(x, y, a, min_precision),
                compare_from(x, y, -20i32, min_precision) == compare_from(x, y, a, min_precision),
            decreases a - i32::MIN,
        {
            let found = self.compare_at(other, a);
            if found.is_some() {
                return found;
            }
            if a <= min_precision {
                return None;
            }
            if a < -1073741824 {
                a = -2147483648;
            } else {
                a = a * 2;
            }
        }
    }

    /// The sign (`-1`, `0`, `1`) if resolvable at `precision`. A nonzero answer is
    /// always correct.
    pub fn sign_at(&self, precision: i32) -> (r: Option<i32>)
        requires
            in_i32(precision - 1),
            fits(term(*self), precision - 1),
        ensures
            r == sign_of(appr(term(*self), precision - 1)),
            defined(term(*self)) ==> {
                &&& r == Some(1i32) ==> value(term(*self)) > 0real
                &&& r == Some(-1i32) ==> value(term(*self)) < 0real
            },
    {
        proof {
            if defined(term(*self)) {
                lemma_sign_correct(term(*self), precision - 1);
            }
        }
        let a = self.get_appr(precision - 1);
        if a.is_negative() {
            Some(-1)
        } else if a.is_zero() {
            None
        } else {
            Some(1)
        }
    }

    /// Render with `digits` digits after the point. The last digit may be off by one
    /// for non-dyadic values.
    pub fn to_decimal(&self, digits: u32) -> (r: String)
        requires
            fits(decimal_term(term(*self), digits as nat), 0),
        ensures
            r@ == fixed_point(appr(decimal_term(term(*self), digits as nat), 0), digits as nat),
            defined(term(*self)) ==> approximates(
                decimal_term(term(*self), digits as nat),
                0,
                appr(decimal_term(term(*self), digits as nat), 0),
            ),
    {
        proof {
            if defined(term(*self)) {
                assert(defined(Term::Int(pow(10, digits as nat))));
                assert(defined(decimal_term(term(*self), digits as nat)));
                lemma_appr_within(decimal_term(term(*self), digits as nat), 0);
            }
        }
        let ten = Integer::from_i64(10);
        let mut scale_factor = Integer::from_i64(1);
        let mut i: u32 = 0;
        proof {
            reveal(pow);
        }
        while i < digits
            invariant
                i <= digits,
                ten@ == 10,
                scale_factor@ == pow(10, i as nat),
            decreases digits - i,
        {
            let next = scale_factor.times(&ten);
            proof {
                reveal(pow);
                assert(pow(10, (i + 1) as nat) == 10 * pow(10, i as nat));
                assert(next@ == pow(10, (i + 1) as nat)) by (nonlinear_arith)
                    requires
                        next@ == scale_factor@ * 10,
                        pow(10, (i + 1) as nat) == 10 * pow(10, i as nat),
                        scale_factor@ == pow(10, i as nat),
                ;
            }
            scale_factor = next;
            i = i + 1;
        }
        let scaled = self.copy().mul(ConstructiveReal::from_int(scale_factor));
        let value = scaled.get_appr(0);
        fixed_point_text(&value, digits)
    }
}

impl Domain for ConstructiveReals {
    type E = ConstructiveReal;
    type Repr = Integer;
    type M = real;

    open spec fn wf(&self) -> bool {
        true
    }

    open spec fn sound(&self) -> bool {
        true
    }

    /// The real number the expression stands for.
    open spec fn model(&self, x: ConstructiveReal) -> real {
        value(term(x))
    }

    open spec fn valid(&self, x: ConstructiveReal) -> bool {
        true
    }

    open spec fn member(&self, a: real) -> bool {
        true
    }

    /// Equality of the real numbers; undecidable on the expressions.
    open spec fn eqv(&self, a: real, b: real) -> bool {
        a == b
    }

    open spec fn repr_ok(&self, v: Integer) -> bool {
        true
    }

    open spec fn denote(&self, v: Integer) -> real {
        v@ as real
    }

    proof fn lemma_valid_member(&self, x: ConstructiveReal) {
    }

    proof fn lemma_repr_member(&self, v: Integer) {
    }

    /// The real equal to `value`.
    fn element(&self, value: Integer) -> (r: ConstructiveReal) {
        ConstructiveReal::from_int(value)
    }

    fn duplicate(&self) -> (r: ConstructiveReals) {
        ConstructiveReals
    }

    fn copy(&self, x: &ConstructiveReal) -> (r: ConstructiveReal) {
        x.copy()
    }
}

impl Semigroup for ConstructiveReals {
    open spec fn mul_s(&self, a: real, b: real) -> real {
        a * b
    }

    fn mul(&self, a: &ConstructiveReal, b: &ConstructiveReal) -> (r: ConstructiveReal) {
        a.copy().mul(b.copy())
    }
}

impl Monoid for ConstructiveReals {
    open spec fn one_s(&self) -> real {
        1real
    }

    /// One.
    fn identity(&self) -> (r: ConstructiveReal) {
        ConstructiveReal::from_int(Integer::from_i64(1))
    }
}

impl CommutativeMonoid for ConstructiveReals {
    open spec fn add_s(&self, a: real, b: real) -> real {
        a + b
    }

    open spec fn zero_s(&self) -> real {
        0real
    }

    fn add(&self, a: &ConstructiveReal, b: &ConstructiveReal) -> (r: ConstructiveReal) {
        a.copy().add(b.copy())
    }

    /// Zero.
    fn zero(&self) -> (r: ConstructiveReal) {
        ConstructiveReal::from_int(Integer::from_i64(0))
    }
}

impl AdditiveGroup for ConstructiveReals {
    open spec fn sub_s(&self, a: real, b: real) -> real {
        a - b
    }

    fn sub(&self, a: &ConstructiveReal, b: &ConstructiveReal) -> (r: ConstructiveReal) {
        let r = a.copy().sub(b.copy());
        proof {
            assert(value(Term::Neg(Box::new(term(*b)))) == 0real - value(term(*b)));
        }
        r
    }
}

impl SemiRing for ConstructiveReals {

}

impl Ring for ConstructiveReals {

}

} // verus!
