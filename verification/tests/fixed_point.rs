use ruffini::fixed_point::{fixed_point_text, isqrt, scale};
use ruffini::integers::Integer;

fn num(n: i64) -> Integer {
    Integer::from_i64(n)
}

#[test]
fn scaling_shifts_and_rounds_half_up() {
    assert_eq!(scale(&num(3), 4), num(48));
    assert_eq!(scale(&num(-3), 2), num(-12));
    assert_eq!(scale(&num(7), 0), num(7));
    // 5 / 2 = 2.5 rounds up to 3; -5 / 2 = -2.5 rounds up to -2
    assert_eq!(scale(&num(5), -1), num(3));
    assert_eq!(scale(&num(-5), -1), num(-2));
    // 13 / 8 = 1.625 -> 2; 11 / 8 = 1.375 -> 1; -11 / 8 = -1.375 -> -1
    assert_eq!(scale(&num(13), -3), num(2));
    assert_eq!(scale(&num(11), -3), num(1));
    assert_eq!(scale(&num(-11), -3), num(-1));
}

#[test]
fn integer_square_roots() {
    assert_eq!(isqrt(&num(0)), num(0));
    assert_eq!(isqrt(&num(-9)), num(0));
    assert_eq!(isqrt(&num(1)), num(1));
    assert_eq!(isqrt(&num(15)), num(3));
    assert_eq!(isqrt(&num(16)), num(4));
    assert_eq!(isqrt(&num(17)), num(4));
    assert_eq!(isqrt(&num(1_000_000_007)), num(31622));
    // 2 · 10^18 has root 1414213562
    assert_eq!(isqrt(&num(2_000_000_000_000_000_000)), num(1_414_213_562));
    for n in 1..200i64 {
        let r = isqrt(&num(n));
        assert!(r.times(&r).less_than(&num(n + 1)));
        let s = r.plus(&num(1));
        assert!(num(n).less_than(&s.times(&s)));
    }
}

#[test]
fn fixed_point_decimal_text() {
    assert_eq!(fixed_point_text(&num(314159), 5), "3.14159");
    assert_eq!(fixed_point_text(&num(-5), 3), "-0.005");
    assert_eq!(fixed_point_text(&num(0), 0), "0");
    assert_eq!(fixed_point_text(&num(0), 2), "0.00");
    assert_eq!(fixed_point_text(&num(12), 0), "12");
    assert_eq!(fixed_point_text(&num(-7), 1), "-0.7");
    assert_eq!(fixed_point_text(&num(1234), 2), "12.34");
    assert_eq!(fixed_point_text(&num(-100), 2), "-1.00");
}

#[test]
fn signed_bytes_round_trip() {
    for n in [-300i64, -129, -128, -1, 0, 1, 127, 128, 255, 256, 1 << 40] {
        let i = num(n);
        assert_eq!(Integer::from_signed_bytes_le(&i.to_signed_bytes_le()), i);
    }
}
