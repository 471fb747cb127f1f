use ruffini::constructive_reals::{ConstructiveReal, ConstructiveReals};
use ruffini::integers::Integer;
use ruffini::structures::{AdditiveGroup, CommutativeMonoid, Domain, Monoid, Semigroup};
use std::cmp::Ordering;

fn constant(n: i64) -> ConstructiveReal {
    ConstructiveReal::from_int(Integer::from_i64(n))
}

#[test]
fn integer_constants_render() {
    assert_eq!(constant(7).to_decimal(3), "7.000");
    assert_eq!(constant(-5).to_decimal(2), "-5.00");
    assert_eq!(constant(0).to_decimal(0), "0");
    assert_eq!(constant(42).to_decimal(0), "42");
}

#[test]
fn addition_and_subtraction() {
    let sum = constant(1).add(constant(2));
    assert_eq!(sum.to_decimal(0), "3");

    let diff = constant(10).sub(constant(25));
    assert_eq!(diff.to_decimal(1), "-15.0");

    let neg = constant(8).neg();
    assert_eq!(neg.to_decimal(0), "-8");
}

#[test]
fn multiplication() {
    let product = constant(6).mul(constant(7));
    assert_eq!(product.to_decimal(0), "42");

    let negative = constant(-3).mul(constant(4));
    assert_eq!(negative.to_decimal(2), "-12.00");

    // Multiplying by zero short-circuits in approximate_mul.
    let zero = constant(0).mul(constant(999));
    assert_eq!(zero.to_decimal(0), "0");
}

#[test]
fn approximations_of_integers_are_exact_at_fine_precision() {
    // 5 · 2^3 = 40 at precision -3; at precision 2, 5 / 4 rounds half up to 1.
    assert_eq!(constant(5).get_appr(-3).to_string(), "40");
    assert_eq!(constant(5).get_appr(2).to_string(), "1");
    assert_eq!(constant(6).get_appr(2).to_string(), "2");
}

#[test]
fn square_root_of_two_is_close() {
    let root = constant(2).sqrt();
    let text = root.to_decimal(6);
    assert!(text.starts_with("1.41421"), "{text}");
    // a · 2^-20 within 2^-20 of sqrt(2) = 1.41421356...
    let a: i64 = root.get_appr(-20).to_string().parse().unwrap();
    let scaled = 1.41421356237_f64 * 1048576.0;
    assert!((a as f64 - scaled).abs() < 1.0, "{a}");
    // sqrt(2) · sqrt(2) is 2
    let square = constant(2).sqrt().mul(constant(2).sqrt());
    assert_eq!(square.to_decimal(3), "2.000");
}

#[test]
fn shifts_scale_by_powers_of_two() {
    assert_eq!(constant(3).shift_left(4).to_decimal(0), "48");
    assert_eq!(constant(48).shift_right(4).to_decimal(1), "3.0");
    assert_eq!(constant(1).shift_right(1).to_decimal(1), "0.5");
}

#[test]
fn mul_assign_multiplies_in_place() {
    let mut x = constant(3);
    x.mul_assign(&constant(-7));
    assert_eq!(x.to_decimal(0), "-21");
}

#[test]
fn comparisons_decide_distinct_values() {
    assert_eq!(constant(3).compare(&constant(2), -100), Some(Ordering::Greater));
    assert_eq!(constant(2).compare(&constant(3), -100), Some(Ordering::Less));
    assert_eq!(constant(2).sqrt().compare(&constant(1), -100), Some(Ordering::Greater));
    // equal values stay undetermined down to the bound
    assert_eq!(constant(5).compare(&constant(5), -100), None);
    assert_eq!(constant(5).compare_at(&constant(5), -10), None);
    assert_eq!(constant(9).compare_at(&constant(1), 0), Some(Ordering::Greater));
}

#[test]
fn signs_are_read_when_resolvable() {
    assert_eq!(constant(-4).sign_at(0), Some(-1));
    assert_eq!(constant(4).sign_at(0), Some(1));
    assert_eq!(constant(0).sign_at(-20), None);
    // 1 / 2^30 cannot be told from zero at precision 0
    assert_eq!(constant(1).shift_right(30).sign_at(0), None);
    assert_eq!(constant(1).shift_right(30).sign_at(-40), Some(1));
}

#[test]
fn the_handle_is_a_ring() {
    let reals = ConstructiveReals;
    let x = reals.element(Integer::from_i64(6));
    let y = reals.element(Integer::from_i64(-4));
    assert_eq!(reals.add(&x, &y).to_decimal(0), "2");
    assert_eq!(reals.sub(&x, &y).to_decimal(0), "10");
    assert_eq!(reals.mul(&x, &y).to_decimal(1), "-24.0");
    assert_eq!(reals.mul(&reals.identity(), &x).to_decimal(0), "6");
    assert_eq!(reals.add(&reals.zero(), &y).to_decimal(0), "-4");
    assert_eq!(reals.copy(&x).to_decimal(0), "6");
}

#[test]
fn the_handle_builds_constants() {
    let reals = ConstructiveReals;
    assert_eq!(reals.element(Integer::from_i64(12)).to_decimal(0), "12");
    assert_eq!(reals.identity().to_decimal(1), "1.0");
    assert_eq!(reals.zero().to_decimal(0), "0");
}
