//! The integers (`Z`): the element type `Integer`, held as two's-complement
//! little-endian bytes and computed on by `num_bigint`, and the handle `Integers`.

use crate::laws::{
    additive_laws, commutative_laws, complete_field, equivalence, euclidean_laws, field_laws,
    group_laws, monoid_laws, ring_laws, semigroup_laws,
};
use crate::structures::{
    AdditiveGroup, CommutativeMonoid, DecidableEq, DivRem, Domain, EuclideanDomain, Field, Monoid,
    Ring, SemiRing, Semigroup,
};
use vstd::arithmetic::div_mod::{lemma_fundamental_div_mod, lemma_mod_bound, lemma_mod_multiples_basic};
use crate::quotient::QuotientRing;
use crate::text::Render;
use num_bigint::BigInt;
use std::rc::Rc;
use vstd::arithmetic::mul::*;
use vstd::arithmetic::power::pow;
use vstd::arithmetic::power2::pow2;
use vstd::prelude::*;

verus! {

/// The unsigned value of little-endian base-256 digits.
pub open spec fn unsigned_le(s: Seq<u8>) -> nat
    decreases s.len(),
{
    if s.len() == 0 {
        0
    } else {
        s[0] as nat + 256 * unsigned_le(s.subrange(1, s.len() as int))
    }
}

/// The value of little-endian two's-complement bytes; no bytes at all is zero.
pub open spec fn twos_le(s: Seq<u8>) -> int {
    if s.len() > 0 && s[s.len() - 1] >= 128 {
        unsigned_le(s) - pow(256, s.len())
    } else {
        unsigned_le(s) as int
    }
}

/// The absolute value.
pub open spec fn abs(a: int) -> nat {
    if a < 0 {
        (-a) as nat
    } else {
        a as nat
    }
}

/// Quotient of `a` by `b` rounded toward zero, as Rust's integer division rounds.
pub open spec fn tdiv(a: int, b: int) -> int {
    let q = (abs(a) / abs(b)) as int;
    if (a < 0) == (b < 0) {
        q
    } else {
        -q
    }
}

/// Remainder of the division rounded toward zero: it has the sign of `a`.
pub open spec fn trem(a: int, b: int) -> int {
    a - b * tdiv(a, b)
}

/// The decimal digit `d` as a character.
pub open spec fn digit_char(d: nat) -> char {
    (48 + d) as char
}

/// The decimal digits of `n`, most significant first, with no leading zero.
pub open spec fn decimal_digits(n: nat) -> Seq<char>
    decreases n,
{
    if n < 10 {
        seq![digit_char(n)]
    } else {
        decimal_digits(n / 10).push(digit_char(n % 10))
    }
}

/// The decimal rendering of `v`, with a leading `-` when it is negative.
pub open spec fn decimal(v: int) -> Seq<char> {
    if v < 0 {
        seq!['-'] + decimal_digits(abs(v))
    } else {
        decimal_digits(abs(v))
    }
}

/// An integer of any size.
///
/// Every `Integer` holds its value in the shortest two's-complement form that
/// `BigInt::to_signed_bytes_le` writes, so the derived `==` on the bytes compares
/// values.
#[derive(Debug, PartialEq, Eq)]
pub struct Integer {
    bytes: Vec<u8>,
}

impl View for Integer {
    type V = int;

    closed spec fn view(&self) -> int {
        twos_le(self.bytes@)
    }
}

/// `BigInt::from(i64)`, written out by `BigInt::to_signed_bytes_le`: the bytes hold `n`.
#[verifier::external_body]
fn big_from_i64(n: i64) -> (r: Integer)
    ensures
        r@ == n,
{
    Integer { bytes: BigInt::from(n).to_signed_bytes_le() }
}

/// `BigInt` addition, on operands read by `BigInt::from_signed_bytes_le` and a result
/// written by `BigInt::to_signed_bytes_le`: the sum of the two values.
#[verifier::external_body]
fn big_add(a: &Integer, b: &Integer) -> (r: Integer)
    ensures
        r@ == a@ + b@,
{
    let x = BigInt::from_signed_bytes_le(&a.bytes);
    let y = BigInt::from_signed_bytes_le(&b.bytes);
    Integer { bytes: (x + y).to_signed_bytes_le() }
}

/// `BigInt` subtraction, read and written as for `big_add`: the difference.
#[verifier::external_body]
fn big_sub(a: &Integer, b: &Integer) -> (r: Integer)
    ensures
        r@ == a@ - b@,
{
    let x = BigInt::from_signed_bytes_le(&a.bytes);
    let y = BigInt::from_signed_bytes_le(&b.bytes);
    Integer { bytes: (x - y).to_signed_bytes_le() }
}

/// `BigInt` multiplication, read and written as for `big_add`: the product.
#[verifier::external_body]
fn big_mul(a: &Integer, b: &Integer) -> (r: Integer)
    ensures
        r@ == a@ * b@,
{
    let x = BigInt::from_signed_bytes_le(&a.bytes);
    let y = BigInt::from_signed_bytes_le(&b.bytes);
    Integer { bytes: (x * y).to_signed_bytes_le() }
}

/// `BigInt`'s `/`, read and written as for `big_add`: the quotient rounded toward
/// zero. It panics on a zero divisor, which `requires` leaves out.
#[verifier::external_body]
fn big_div(a: &Integer, d: &Integer) -> (r: Integer)
    requires
        d@ != 0,
    ensures
        r@ == tdiv(a@, d@),
{
    let x = BigInt::from_signed_bytes_le(&a.bytes);
    let y = BigInt::from_signed_bytes_le(&d.bytes);
    Integer { bytes: (&x / &y).to_signed_bytes_le() }
}

/// `BigInt`'s `%`, read and written as for `big_add`: the remainder of the division
/// rounded toward zero, with the sign of the dividend. It panics on a zero divisor,
/// which `requires` leaves out.
#[verifier::external_body]
fn big_rem(a: &Integer, d: &Integer) -> (r: Integer)
    requires
        d@ != 0,
    ensures
        r@ == trem(a@, d@),
{
    let x = BigInt::from_signed_bytes_le(&a.bytes);
    let y = BigInt::from_signed_bytes_le(&d.bytes);
    Integer { bytes: (&x % &y).to_signed_bytes_le() }
}

/// `BigInt` equality, on operands read by `BigInt::from_signed_bytes_le`: whether the
/// two values are equal.
#[verifier::external_body]
fn big_eq(a: &Integer, b: &Integer) -> (r: bool)
    ensures
        r == (a@ == b@),
{
    BigInt::from_signed_bytes_le(&a.bytes) == BigInt::from_signed_bytes_le(&b.bytes)
}

/// `BigInt`'s `<`, on operands read by `BigInt::from_signed_bytes_le`: whether the
/// first value is below the second.
#[verifier::external_body]
fn big_lt(a: &Integer, b: &Integer) -> (r: bool)
    ensures
        r == (a@ < b@),
{
    BigInt::from_signed_bytes_le(&a.bytes) < BigInt::from_signed_bytes_le(&b.bytes)
}

/// `BigInt::to_str_radix(10)`, on an operand read by `BigInt::from_signed_bytes_le`:
/// the decimal digits, after a `-` for a negative value.
#[verifier::external_body]
fn big_decimal(a: &Integer) -> (r: String)
    ensures
        r@ == decimal(a@),
{
    BigInt::from_signed_bytes_le(&a.bytes).to_str_radix(10)
}

/// `BigInt::from_signed_bytes_le`, written back by `BigInt::to_signed_bytes_le`: the
/// value that the bytes hold, in the shortest form, so that equal values have equal
/// bytes.
#[verifier::external_body]
fn big_from_bytes(bytes: &[u8]) -> (r: Integer)
    ensures
        r@ == twos_le(bytes@),
{
    Integer { bytes: BigInt::from_signed_bytes_le(bytes).to_signed_bytes_le() }
}

/// `BigInt`'s `<<` by `k` bits (`Shl<u64>`), read and written as for `big_add`: the
/// value times `2^k`. It panics when `k` divided by the digit width does not fit a
/// `usize`, which `requires` leaves out.
#[verifier::external_body]
pub(crate) fn big_shl(a: &Integer, k: u64) -> (r: Integer)
    requires
        k / 32 <= usize::MAX,
    ensures
        r@ == a@ * pow2(k as nat),
{
    let x = BigInt::from_signed_bytes_le(&a.bytes);
    Integer { bytes: (x << k).to_signed_bytes_le() }
}

/// `BigInt`'s `>>` by `k` bits (`Shr<u64>`), read and written as for `big_add`. A
/// negative value with ones among the bits shifted out has its magnitude rounded up,
/// so the value is divided by `2^k` rounding down.
#[verifier::external_body]
pub(crate) fn big_shr(a: &Integer, k: u64) -> (r: Integer)
    ensures
        r@ == a@ / (pow2(k as nat) as int),
{
    let x = BigInt::from_signed_bytes_le(&a.bytes);
    Integer { bytes: (x >> k).to_signed_bytes_le() }
}

/// `BigInt::bits`, on an operand read by `BigInt::from_signed_bytes_le`: the fewest
/// bits that hold the magnitude, zero for zero. The digits sit in a `Vec`, which holds
/// at most `isize::MAX` bytes, so the count is at most eight times that.
#[verifier::external_body]
pub(crate) fn big_bits(a: &Integer) -> (r: u64)
    ensures
        a@ == 0 ==> r == 0,
        a@ != 0 ==> r >= 1 && pow2((r - 1) as nat) <= abs(a@) && abs(a@) < pow2(r as nat),
        r <= 8 * isize::MAX,
{
    BigInt::from_signed_bytes_le(&a.bytes).bits()
}

impl Integer {
    /// The integer whose two's-complement little-endian bytes are `bytes`, the
    /// layout of `BigInt::to_signed_bytes_le`.
    pub fn from_signed_bytes_le(bytes: &[u8]) -> (r: Integer)
        ensures
            r@ == twos_le(bytes@),
    {
        big_from_bytes(bytes)
    }

    /// The two's-complement little-endian bytes of this integer, which
    /// `BigInt::from_signed_bytes_le` reads back.
    pub fn to_signed_bytes_le(&self) -> (r: Vec<u8>)
        ensures
            twos_le(r@) == self@,
    {
        let mut v: Vec<u8> = Vec::new();
        for i in 0..self.bytes.len()
            invariant
                v@ == self.bytes@.subrange(0, i as int),
        {
            v.push(self.bytes[i]);
        }
        assert(v@ == self.bytes@);
        v
    }

    /// The integer `n`.
    pub fn from_i64(n: i64) -> (r: Integer)
        ensures
            r@ == n,
    {
        big_from_i64(n)
    }

    /// A copy of this integer.
    pub fn copy(&self) -> (r: Integer)
        ensures
            r@ == self@,
    {
        let bytes = self.bytes.clone();
        proof {
            assert(bytes@ =~= self.bytes@);
        }
        Integer { bytes }
    }

    /// `self + other`.
    pub fn plus(&self, other: &Integer) -> (r: Integer)
        ensures
            r@ == self@ + other@,
    {
        big_add(self, other)
    }

    /// `self - other`.
    pub fn minus(&self, other: &Integer) -> (r: Integer)
        ensures
            r@ == self@ - other@,
    {
        big_sub(self, other)
    }

    /// `self * other`.
    pub fn times(&self, other: &Integer) -> (r: Integer)
        ensures
            r@ == self@ * other@,
    {
        big_mul(self, other)
    }

    /// `(self / divisor, self % divisor)`, rounded toward zero.
    pub fn quot_rem(&self, divisor: &Integer) -> (r: (Integer, Integer))
        requires
            divisor@ != 0,
        ensures
            r.0@ == tdiv(self@, divisor@),
            r.1@ == trem(self@, divisor@),
    {
        (big_div(self, divisor), big_rem(self, divisor))
    }

    /// Whether `self` and `other` are the same integer.
    pub fn equals(&self, other: &Integer) -> (r: bool)
        ensures
            r == (self@ == other@),
    {
        big_eq(self, other)
    }

    /// Whether `self < other`.
    pub fn less_than(&self, other: &Integer) -> (r: bool)
        ensures
            r == (self@ < other@),
    {
        big_lt(self, other)
    }

    /// Whether this integer is zero.
    pub fn is_zero(&self) -> (r: bool)
        ensures
            r == (self@ == 0),
    {
        let zero = Integer::from_i64(0);
        big_eq(self, &zero)
    }

    /// Whether this integer is below zero.
    pub fn is_negative(&self) -> (r: bool)
        ensures
            r == (self@ < 0),
    {
        let zero = Integer::from_i64(0);
        big_lt(self, &zero)
    }

    /// The absolute value.
    pub fn magnitude(&self) -> (r: Integer)
        ensures
            r@ == abs(self@),
    {
        if self.is_negative() {
            let zero = Integer::from_i64(0);
            big_sub(&zero, self)
        } else {
            self.copy()
        }
    }

    /// The decimal rendering, as `Display` would give it.
    pub fn to_string(&self) -> (r: String)
        ensures
            r@ == decimal(self@),
    {
        big_decimal(self)
    }
}

/// Handle for the set of integers; used to construct `Integer` values.
#[derive(Default, Clone, Copy, Debug)]
pub struct Integers {}

impl Integers {
    /// The ring of integers modulo `modulus`, e.g. `Integers::modulo(7)`. A prime
    /// modulus gives the finite field `F_p`.
    pub fn modulo(modulus: Integer) -> (r: Rc<QuotientRing<Integers>>)
        ensures
            r.base() == (Integers {}),
            r.modulus_element()@ == modulus@,
    {
        QuotientRing::new(Integers {}, modulus)
    }
}

impl QuotientRing<Integers> {
    /// The number of elements in `Z/(modulus)`, i.e. `|modulus|`.
    ///
    /// When the modulus is prime this is the order of the finite field `F_p`.
    pub fn order(&self) -> (r: Integer)
        ensures
            r@ == abs(self.modulus_element()@),
    {
        self.modulus().magnitude()
    }
}

impl Domain for Integers {
    type E = Integer;
    type Repr = Integer;
    type M = int;

    open spec fn wf(&self) -> bool {
        true
    }

    open spec fn sound(&self) -> bool {
        true
    }

    open spec fn model(&self, x: Integer) -> int {
        x@
    }

    open spec fn valid(&self, x: Integer) -> bool {
        true
    }

    open spec fn member(&self, a: int) -> bool {
        true
    }

    open spec fn eqv(&self, a: int, b: int) -> bool {
        a == b
    }

    open spec fn repr_ok(&self, v: Integer) -> bool {
        true
    }

    open spec fn denote(&self, v: Integer) -> int {
        v@
    }

    proof fn lemma_valid_member(&self, x: Integer) {
    }

    proof fn lemma_repr_member(&self, v: Integer) {
    }

    fn element(&self, value: Integer) -> (r: Integer) {
        value
    }

    fn duplicate(&self) -> (r: Integers) {
        Integers {}
    }

    fn copy(&self, x: &Integer) -> (r: Integer) {
        x.copy()
    }
}

impl DecidableEq for Integers {
    fn equal(&self, a: &Integer, b: &Integer) -> (r: bool) {
        a.equals(b)
    }
}

impl Semigroup for Integers {
    open spec fn mul_s(&self, a: int, b: int) -> int {
        a * b
    }

    fn mul(&self, a: &Integer, b: &Integer) -> (r: Integer) {
        a.times(b)
    }
}

impl Monoid for Integers {
    open spec fn one_s(&self) -> int {
        1
    }

    fn identity(&self) -> (r: Integer) {
        Integer::from_i64(1)
    }
}

impl CommutativeMonoid for Integers {
    open spec fn add_s(&self, a: int, b: int) -> int {
        a + b
    }

    open spec fn zero_s(&self) -> int {
        0
    }

    fn add(&self, a: &Integer, b: &Integer) -> (r: Integer) {
        a.plus(b)
    }

    fn zero(&self) -> (r: Integer) {
        Integer::from_i64(0)
    }
}

impl AdditiveGroup for Integers {
    open spec fn sub_s(&self, a: int, b: int) -> int {
        a - b
    }

    fn sub(&self, a: &Integer, b: &Integer) -> (r: Integer) {
        a.minus(b)
    }
}

impl SemiRing for Integers {

}

impl Ring for Integers {

}

/// The integers form a commutative ring.
pub proof fn lemma_integers_ring(z: &Integers)
    ensures
        ring_laws(z),
        commutative_laws(z),
{
    reveal(equivalence);
    reveal(additive_laws);
    reveal(group_laws);
    reveal(semigroup_laws);
    reveal(monoid_laws);
    reveal(commutative_laws);
    reveal(ring_laws);
    assert forall|a: int, b: int, c: int| z.mul_s(z.mul_s(a, b), c) == z.mul_s(a, z.mul_s(b, c)) by {
        lemma_mul_is_associative(a, b, c);
    }
    assert forall|a: int, b: int| z.mul_s(a, b) == z.mul_s(b, a) by {
        lemma_mul_is_commutative(a, b);
    }
    assert forall|a: int, b: int, c: int|
        z.mul_s(a, z.add_s(b, c)) == z.add_s(z.mul_s(a, b), z.mul_s(a, c)) by {
        lemma_mul_is_distributive_add(a, b, c);
    }
    assert forall|a: int, b: int, c: int|
        z.mul_s(z.add_s(a, b), c) == z.add_s(z.mul_s(a, c), z.mul_s(b, c)) by {
        lemma_mul_is_distributive_add_other_way(c, a, b);
    }
}

/// The remainder of a division rounded toward zero is smaller than the divisor.
pub proof fn lemma_trem_bound(a: int, d: int)
    requires
        d != 0,
    ensures
        abs(trem(a, d)) < abs(d),
        abs(trem(a, d)) == abs(a) % abs(d),
        trem(a, d) == 0 || (trem(a, d) < 0) == (a < 0),
{
    let q0 = abs(a) / abs(d);
    let r0 = abs(a) % abs(d);
    lemma_fundamental_div_mod(abs(a) as int, abs(d) as int);
    lemma_mod_bound(abs(a) as int, abs(d) as int);
    if a >= 0 && d > 0 {
        assert(trem(a, d) == a - d * q0);
    } else if a >= 0 && d < 0 {
        assert(d * (-(q0 as int)) == abs(d) * q0) by (nonlinear_arith)
            requires d < 0, abs(d) == -d;
    } else if a < 0 && d > 0 {
        assert(d * (-(q0 as int)) == -(abs(d) * q0)) by (nonlinear_arith)
            requires d > 0, abs(d) == d;
    } else {
        assert(d * q0 == -(abs(d) * q0)) by (nonlinear_arith)
            requires d < 0, abs(d) == -d;
    }
}

impl EuclideanDomain for Integers {
    open spec fn norm(&self, a: int) -> nat {
        abs(a)
    }

    open spec fn divisor_ok(&self, d: int) -> bool {
        d != 0
    }

    open spec fn division_total(&self) -> bool {
        true
    }

    open spec fn quotient_remainder(&self, a: int, d: int, q: int, r: int) -> bool {
        d != 0 && q == tdiv(a, d) && r == trem(a, d)
    }

    /// The sign of `x`: `-1` for negative, `1` for non-negative including zero.
    open spec fn unit_part_s(&self, a: int) -> int {
        if a < 0 {
            -1
        } else {
            1
        }
    }

    /// `±1` are self-inverse.
    open spec fn unit_inverse_s(&self, u: int) -> int {
        u
    }

    open spec fn unit_ok(&self, u: int) -> bool {
        true
    }

    proof fn lemma_divisor(&self, d: Integer, z: Integer) {
    }

    fn divide(&self, a: &Integer, d: &Integer) -> (qr: (Integer, Integer)) {
        proof {
            lemma_trem_bound(a@, d@);
        }
        a.quot_rem(d)
    }

    fn unit_part(&self, x: &Integer) -> (u: Integer) {
        if x.is_negative() {
            Integer::from_i64(-1)
        } else {
            Integer::from_i64(1)
        }
    }

    /// The result for non-unit inputs is the input itself; only `±1` are units.
    fn unit_inverse(&self, u: &Integer) -> (v: Integer) {
        u.copy()
    }
}

impl DivRem for Integer {
    open spec fn can_divide_by(&self, divisor: Integer) -> bool {
        divisor@ != 0
    }

    open spec fn is_quotient_remainder(&self, divisor: Integer, q: Integer, r: Integer) -> bool {
        q@ == tdiv(self@, divisor@) && r@ == trem(self@, divisor@)
    }

    fn div_rem(&self, divisor: &Integer) -> (qr: (Integer, Integer)) {
        self.quot_rem(divisor)
    }
}

/// The integers form a Euclidean domain.
pub proof fn lemma_integers_euclidean(z: &Integers)
    ensures
        euclidean_laws(z),
{
    lemma_integers_ring(z);
    reveal(euclidean_laws);
    assert forall|a: int, d: int, q: int, r: int|
        z.member(a) && z.member(d) && z.member(q) && z.member(r) && #[trigger] z.quotient_remainder(
            a,
            d,
            q,
            r,
        ) implies z.eqv(a, z.add_s(z.mul_s(q, d), r)) by {
        lemma_mul_is_commutative(q, d);
    }
    assert forall|u: int, c: int, v: int|
        z.member(u) && z.member(c) && z.member(v) && #[trigger] z.eqv(z.mul_s(u, c), z.one_s())
            && #[trigger] z.eqv(v, z.unit_part_s(u)) implies z.eqv(
        z.mul_s(u, z.unit_inverse_s(v)),
        z.one_s(),
    ) by {
        assert(u == 1 || u == -1) by (nonlinear_arith)
            requires
                u * c == 1;
    }
    assert forall|x: int, v: int, i: int, w: int|
        #![trigger z.eqv(v, z.unit_part_s(x)), z.eqv(i, z.unit_inverse_s(v)), z.eqv(w, z.mul_s(x, i))]
        z.member(x) && z.member(v) && z.member(i) && z.member(w) && z.eqv(v, z.unit_part_s(x)) && z.eqv(
            i,
            z.unit_inverse_s(v),
        ) && z.eqv(w, z.mul_s(x, i)) implies z.eqv(z.unit_part_s(w), z.one_s()) by {
        // w = x · sign(x) = |x|
        assert(w >= 0) by (nonlinear_arith)
            requires
                w == x * i,
                i == (if x < 0 { -1int } else { 1int }),
        ;
    }
    assert forall|k: int, e: int|
        z.member(k) && z.member(e) && !z.eqv(k, z.zero_s()) && !z.eqv(e, z.zero_s()) implies z.norm(
            #[trigger] z.mul_s(k, e),
        ) >= z.norm(e) by {
        assert(abs(k * e) >= abs(e)) by (nonlinear_arith)
            requires
                k != 0,
                abs(k) == (if k < 0 { -k } else { k }),
                abs(e) == (if e < 0 { -e } else { e }),
                abs(k * e) == (if k * e < 0 { -(k * e) } else { k * e });
    }
}

impl Render for Integers {
    /// Decimal digits, after a `-` for a negative integer.
    open spec fn text(&self, x: Integer) -> Seq<char> {
        decimal(x@)
    }

    fn render(&self, x: &Integer) -> (r: String) {
        x.to_string()
    }
}

/// `p` is prime: above one, and divisible by no integer strictly between one and
/// itself.
pub open spec fn is_prime(p: int) -> bool {
    &&& p > 1
    &&& forall|d: int| 1 < d < p ==> #[trigger] (p % d) != 0
}

/// The extended Euclidean algorithm on naturals: `(g, s, t, u, v)` with
/// `s·a + t·b == g`, `a == g·u` and `b == g·v`.
pub open spec fn bezout_cofactors(a: nat, b: nat) -> (int, int, int, int, int)
    decreases b,
{
    if b == 0 {
        (a as int, 1int, 0int, 1int, 0int)
    } else {
        let r = bezout_cofactors(b, a % b);
        let q = (a / b) as int;
        (r.0, r.2, r.1 - q * r.2, q * r.3 + r.4, r.3)
    }
}

/// What `bezout_cofactors` promises, and that the divisor is positive unless both
/// numbers are zero.
proof fn lemma_bezout_cofactors(a: nat, b: nat)
    ensures
        ({
            let (g, s, t, u, v) = bezout_cofactors(a, b);
            &&& s * a + t * b == g
            &&& a == g * u
            &&& b == g * v
            &&& (a > 0 || b > 0) ==> g > 0
        }),
    decreases b,
{
    if b == 0 {
        assert(1int * a + 0int * b == a) by (nonlinear_arith)
            requires
                b == 0,
        ;
        assert(a == a * 1int);
        assert(b == a * 0int) by (nonlinear_arith)
            requires
                b == 0,
        ;
    } else {
        lemma_bezout_cofactors(b, a % b);
        let (g, s1, t1, u1, v1) = bezout_cofactors(b, a % b);
        let q = (a / b) as int;
        let r = (a % b) as int;
        lemma_fundamental_div_mod(a as int, b as int);
        assert(a == b * q + r);
        assert(t1 * a + (s1 - q * t1) * b == g) by (nonlinear_arith)
            requires
                s1 * b + t1 * r == g,
                a == b * q + r,
        ;
        assert(a == g * (q * u1 + v1)) by (nonlinear_arith)
            requires
                a == b * q + r,
                b == g * u1,
                r == g * v1,
        ;
        assert(b == g * u1);
        assert(g > 0);
    }
}

/// A residue not divisible by the prime `p` has an inverse: some `y` and `k` with
/// `a·y - 1 == k·p`.
proof fn lemma_inverse_mod_prime(a: int, p: int) -> (yk: (int, int))
    requires
        is_prime(p),
        a % p != 0,
    ensures
        a * yk.0 - 1 == yk.1 * p,
{
    let r = a % p;
    lemma_mod_bound(a, p);
    lemma_fundamental_div_mod(a, p);
    lemma_bezout_cofactors(r as nat, p as nat);
    let (g, s, t, u, v) = bezout_cofactors(r as nat, p as nat);
    assert(0 < r < p);
    assert(v > 0) by (nonlinear_arith)
        requires
            p == g * v,
            g > 0,
            p > 0,
    ;
    assert(g <= p) by (nonlinear_arith)
        requires
            p == g * v,
            g > 0,
            v > 0,
    ;
    if g == p {
        assert(false) by (nonlinear_arith)
            requires
                r == p * u,
                0 < r < p,
        ;
    }
    if g > 1 {
        lemma_mod_multiples_basic(v, g);
        assert(p == v * g) by (nonlinear_arith)
            requires
                p == g * v,
        ;
        assert(p % g == 0);
    }
    assert(g == 1);
    let q = a / p;
    assert(a * s - 1 == (q * s - t) * p) by (nonlinear_arith)
        requires
            a == p * q + r,
            s * r + t * p == 1,
    ;
    (s, q * s - t)
}

/// The integers modulo a prime form a field: one is not zero, `invert` finds the
/// inverse of what it is given, and every residue that is not zero has an inverse.
pub proof fn lemma_prime_field(h: &Rc<QuotientRing<Integers>>)
    requires
        (**h).base() == (Integers {}),
        is_prime((**h).modulus_model()),
    ensures
        h.wf(),
        field_laws(h),
        complete_field(h),
{
    let z = Integers {};
    let p = (**h).modulus_model();
    let qr = **h;
    lemma_integers_euclidean(&z);
    // a prime is no unit of Z: p·c == 1 has no solution
    assert forall|c: int| #[trigger] z.member(c) implies !z.eqv(z.mul_s(p, c), z.one_s()) by {
        if p * c == 1 {
            assert(false) by (nonlinear_arith)
                requires
                    p > 1,
                    p * c == 1,
            ;
        }
    }
    assert(!crate::euclidean::is_unit(&z, p));
    crate::quotient::lemma_quotient_field(h);
    // 1 is not 0: 1 - 0 == k·p has no solution
    assert forall|k: int| #[trigger] z.member(k) implies !z.eqv(z.sub_s(1, 0), z.mul_s(k, p)) by {
        if 1 - 0 == k * p {
            assert(false) by (nonlinear_arith)
                requires
                    p > 1,
                    1 == k * p,
            ;
        }
    }
    assert(!qr.congruent(1, 0));
    assert forall|a: int| h.member(a) && !h.eqv(a, h.zero_s()) implies #[trigger] h.invertible(a) by {
        if a % p == 0 {
            lemma_fundamental_div_mod(a, p);
            let k = a / p;
            assert(a - 0 == k * p) by (nonlinear_arith)
                requires
                    a == p * k + 0,
            ;
            assert(z.member(k) && z.eqv(z.sub_s(a, 0), z.mul_s(k, p)));
            assert(qr.congruent(a, 0));
        } else {
            let yk = lemma_inverse_mod_prime(a, p);
            assert(z.member(yk.1) && z.eqv(z.sub_s(a * yk.0, 1), z.mul_s(yk.1, p)));
            assert(qr.congruent(z.mul_s(a, yk.0), 1));
            assert(z.member(yk.0));
        }
    }
}

} // verus!
