use ruffini::euclidean::extended_gcd;
use ruffini::integers::{Integer, Integers};
use ruffini::quotient::QuotientRing;
use ruffini::structures::{
    AdditiveGroup, CommutativeMonoid, DecidableEq, DivRem, Domain, Field, FromInteger, Monoid,
    ReprEq, Semigroup,
};
use std::rc::Rc;

fn num(n: i64) -> Integer {
    Integer::from_i64(n)
}

fn f(n: i64) -> Rc<QuotientRing<Integers>> {
    Integers::modulo(num(n))
}

#[test]
fn integers_add() {
    let z = Integers::default();
    assert_eq!(z.add(&num(1), &num(2)).to_string(), "3");
    assert_eq!(num(1).plus(&num(2)).to_string(), "3");
}

#[test]
fn integers_div_rem() {
    let (q, r) = num(17).div_rem(&num(5));
    assert_eq!(q.to_string(), "3");
    assert_eq!(r.to_string(), "2");
}

#[test]
fn quotient_ring_arithmetic() {
    let f7 = f(7);
    let three = f7.element(num(3));
    let six = f7.element(num(6));
    // 3 + 6 = 9 ≡ 2 (mod 7)
    assert!(f7.equal(&f7.add(&three, &six), &f7.element(num(2))));
    // 3 * 6 = 18 ≡ 4 (mod 7)
    assert!(f7.equal(&f7.mul(&three, &six), &f7.element(num(4))));
    // zero and identity
    assert!(f7.equal(&f7.zero(), &f7.element(num(0))));
    assert!(f7.equal(&f7.identity(), &f7.element(num(1))));

    // `eq` compares plain integers as representatives, without naming elements
    assert!(f7.eq(num(3 + 6), num(2)));
    assert!(!f7.eq(num(3 + 6), num(3)));
    assert!(f7.eq(num(-1), num(6)));
}

#[test]
fn prime_field_f7() {
    let f7 = f(7);

    // 3 * 5 = 15 ≡ 1 (mod 7), so 3^{-1} = 5
    let inverse = f7.inverse(num(3)).expect("3 is a unit");
    assert!(f7.equal(&inverse, &f7.element(num(5))));
    // every nonzero element has an inverse that multiplies back to 1
    for n in 1..7 {
        let x = f7.element(num(n));
        let inv = f7.invert(&x).expect("nonzero element must have an inverse");
        assert!(f7.equal(&f7.mul(&x, &inv), &f7.identity()));
    }
    // zero has no inverse
    assert!(f7.inverse(num(0)).is_none());
    // order
    assert_eq!(f7.order(), num(7));
}

#[test]
fn composite_modulus_no_inverse_for_zero_divisors() {
    // Z/6Z is not a field. inverse(2) and inverse(3) should return None
    // (they are zero divisors); inverse(5) should still work.
    let zmod6 = f(6);
    assert!(zmod6.inverse(num(2)).is_none());
    assert!(zmod6.inverse(num(3)).is_none());
    // 5*5 = 25 ≡ 1 (mod 6)
    let five = zmod6.inverse(num(5)).expect("5 is a unit mod 6");
    assert!(zmod6.equal(&five, &zmod6.element(num(5))));
}

#[test]
fn arithmetic_against_plain_integers() {
    let f7 = f(7);
    let embed = |n: i64| f7.from_integer(&num(n));
    // 3 · 3⁻¹ = 1 in F_7, with neither side spelled out as an element.
    let inverse = f7.inverse(num(3)).unwrap();
    assert!(f7.equal(&f7.mul(&inverse, &embed(3)), &f7.identity()));
    // 3 + 6 = 9 ≡ 2, 3 - 6 = -3 ≡ 4, 3 * 6 = 18 ≡ 4 (mod 7)
    assert!(f7.equal(&f7.add(&f7.element(num(3)), &embed(6)), &f7.element(num(2))));
    assert!(f7.equal(&f7.sub(&f7.element(num(3)), &embed(6)), &f7.element(num(4))));
    assert!(f7.equal(&f7.mul(&f7.element(num(3)), &embed(6)), &f7.element(num(4))));
    // The integer is reduced into the ring first, so it may be arbitrarily large.
    assert!(f7.equal(&f7.mul(&f7.element(num(1)), &embed(15)), &f7.element(num(1))));

    // Compound updates.
    let mut x = f7.element(num(3));
    x = f7.mul(&x, &f7.element(num(6)));
    assert!(f7.equal(&x, &f7.element(num(4))));
    x = f7.add(&x, &f7.element(num(5)));
    assert!(f7.equal(&x, &f7.element(num(2))));

    let mut n = num(10);
    n = n.plus(&num(5));
    n = n.times(&num(3));
    n = n.minus(&num(5));
    assert_eq!(n, num(40));
}

#[test]
fn from_integer_agrees_with_direct_construction() {
    let z = Integers::default();
    // Small values, including zero and negatives.
    for n in -20i64..=20 {
        assert_eq!(z.from_integer(&num(n)), num(n));
    }
    // Powers of two and their neighbours exercise the bit loop's boundaries:
    // 2^k sets exactly the top bit, 2^k - 1 sets every bit below it.
    for k in 0..62u32 {
        let p = 1i64 << k;
        assert_eq!(z.from_integer(&num(p)), num(p));
        assert_eq!(z.from_integer(&num(p - 1)), num(p - 1));
        assert_eq!(z.from_integer(&num(-p)), num(-p));
    }
}

#[test]
fn canonicalises_via_unit_part() {
    let z = Integers::default();

    let (g, s, t) = extended_gcd(&z, num(4), num(7));
    assert_eq!(g, num(1));
    assert_eq!(s.times(&num(4)).plus(&t.times(&num(7))), num(1));

    // The raw Euclidean step lands on gcd = -1 here; canonicalisation fixes the sign.
    let (g, s, t) = extended_gcd(&z, num(-4), num(7));
    assert_eq!(g, num(1));
    assert_eq!(s.times(&num(-4)).plus(&t.times(&num(7))), num(1));

    let (g, _, _) = extended_gcd(&z, num(6), num(10));
    assert_eq!(g, num(2));
}

#[test]
fn gcd_is_non_negative_for_negative_inputs() {
    let z = Integers::default();
    for (a, b, expected) in [(-6, 10, 2), (6, -10, 2), (-6, -10, 2), (-12, 0, 12), (0, -5, 5), (0, 0, 0)] {
        let (g, s, t) = extended_gcd(&z, num(a), num(b));
        assert_eq!(g, num(expected));
        assert_eq!(s.times(&num(a)).plus(&t.times(&num(b))), g);
    }
}

#[test]
fn integer_text_has_a_sign_and_no_leading_zeros() {
    assert_eq!(num(0).to_string(), "0");
    assert_eq!(num(-45).to_string(), "-45");
    assert_eq!(num(1000000).to_string(), "1000000");
}

#[test]
fn integer_division_truncates_toward_zero() {
    // The quotient rounds toward zero and the remainder takes the dividend's sign.
    let (q, r) = num(-17).div_rem(&num(5));
    assert_eq!((q, r), (num(-3), num(-2)));
    let (q, r) = num(17).div_rem(&num(-5));
    assert_eq!((q, r), (num(-3), num(2)));
}

#[test]
fn quotient_reduces_representatives() {
    let f7 = f(7);
    // The representative is reduced and stays in range.
    assert_eq!(f7.reduce(num(23)), num(2));
    assert!(f7.is_zero(&num(21)));
    assert!(!f7.is_zero(&num(22)));
    assert_eq!(f7.modulus(), &num(7));
    assert!(f7.equal(&f7.element(num(-1)), &f7.element(num(6))));
}
