use ruffini::elliptic::{Curve, Point};
use ruffini::integers::{Integer, Integers};
use ruffini::quotient::QuotientRing;
use ruffini::structures::{AdditiveGroup, CommutativeMonoid, DecidableEq, Domain};
use std::rc::Rc;

type Fp = Rc<QuotientRing<Integers>>;

fn num(n: i64) -> Integer {
    Integer::from_i64(n)
}

/// y^2 = x^3 + x + 6 over F_11, a standard worked example.
fn curve() -> (Fp, Rc<Curve<Fp>>) {
    let f = Integers::modulo(num(11));
    let c = Curve::new(f.clone(), f.element(num(1)), f.element(num(6))).expect("nonsingular");
    (f, c)
}

/// Every affine point, by brute force over the whole field.
fn all_points(f: &Fp, c: &Rc<Curve<Fp>>) -> Vec<Point<Fp>> {
    let mut points = vec![c.infinity()];
    for x in 0..11i64 {
        for y in 0..11i64 {
            if let Some(p) = c.point(f.element(num(x)), f.element(num(y))) {
                points.push(p);
            }
        }
    }
    points
}

#[test]
fn the_points_form_a_group() {
    let (f, c) = curve();
    let points = all_points(&f, &c);

    // This curve has 13 points including infinity, so the group is cyclic of
    // prime order and every affine point generates it.
    assert_eq!(points.len(), 13);

    for p in &points {
        // Identity, and inverses.
        assert!(c.equal(&c.add(p, &c.infinity()), p));
        assert!(c.equal(&c.add(&c.infinity(), p), p));
        assert!(c.equal(&c.add(p, &p.neg()), &c.infinity()));
        assert!(c.equal(&c.sub(p, p), &c.infinity()));

        for q in &points {
            let sum = c.add(p, q);
            // Closure: the sum is on the curve.
            if let Some((x, y)) = sum.coordinates() {
                assert!(c.contains(x, y), "{} + {} = {} is off the curve", p.to_string(), q.to_string(), sum.to_string());
            }
            // Commutativity.
            assert!(c.equal(&sum, &c.add(q, p)));
        }
    }

    // Associativity, over every triple.
    for p in &points {
        for q in &points {
            for r in &points {
                assert!(
                    c.equal(&c.add(&c.add(p, q), r), &c.add(p, &c.add(q, r))),
                    "associativity at {}, {}, {}",
                    p.to_string(),
                    q.to_string(),
                    r.to_string()
                );
            }
        }
    }
}

#[test]
fn doubling_and_scalar_multiplication() {
    let (f, c) = curve();
    let g = c.point(f.element(num(2)), f.element(num(7))).expect("on the curve");

    // Doubling by hand: s = (3*4 + 1)/(2*7) = 13/14 = 2/3 = 2*4 = 8 in F_11,
    // so x = 64 - 4 = 60 = 5 and y = 8*(2 - 5) - 7 = -31 = 2.
    assert!(c.equal(&c.add(&g, &g), &c.point(f.element(num(5)), f.element(num(2))).unwrap()));
    assert!(c.equal(&c.multiply(&num(2), &g), &c.add(&g, &g)));

    // Scalar multiplication agrees with repeated addition, and wraps at the order.
    let mut running = c.infinity();
    for n in 0..15i64 {
        assert!(c.equal(&c.multiply(&num(n), &g), &running), "at n = {n}");
        running = c.add(&running, &g);
    }
    assert!(c.equal(&c.multiply(&num(13), &g), &c.infinity()), "13 is the group order");
    assert!(c.equal(&c.multiply(&num(0), &g), &c.infinity()));

    // Negative scalars negate.
    for n in 1..13i64 {
        assert!(c.equal(&c.multiply(&num(-n), &g), &c.multiply(&num(n), &g).neg()));
        assert!(c.equal(&c.add(&c.multiply(&num(n), &g), &c.multiply(&num(-n), &g)), &c.infinity()));
    }

    // Large scalars reduce modulo the order.
    assert!(c.equal(&c.multiply(&num(13 * 1000 + 4), &g), &c.multiply(&num(4), &g)));
}

#[test]
fn points_of_order_two_double_to_infinity() {
    // y^2 = x^3 - x over F_11 has three points with y = 0, each of order two.
    let f = Integers::modulo(num(11));
    let c = Curve::new(f.clone(), f.element(num(-1)), f.element(num(0))).expect("nonsingular");
    for x in [0i64, 1, 10] {
        let p = c.point(f.element(num(x)), f.element(num(0))).expect("on the curve");
        assert!(c.equal(&c.add(&p, &p), &c.infinity()), "2 * {}", p.to_string());
        assert!(c.equal(&c.multiply(&num(2), &p), &c.infinity()));
        assert!(c.equal(&p.neg(), &p));
    }
}

#[test]
fn rejects_singular_curves_and_points_off_the_curve() {
    let f = Integers::modulo(num(11));
    // 4a^3 + 27b^2 = 0 with a = b = 0 is the cusp y^2 = x^3.
    assert!(Curve::new(f.clone(), f.element(num(0)), f.element(num(0))).is_none());

    let (f, c) = curve();
    assert!(c.point(f.element(num(2)), f.element(num(7))).is_some());
    assert!(c.point(f.element(num(2)), f.element(num(6))).is_none());
    assert!(f.equal(&c.discriminant(), &f.element(num(-16 * (4 + 27 * 36)))));
}

#[test]
fn display_and_the_domain_surface() {
    let (f, c) = curve();
    assert_eq!(c.infinity().to_string(), "O");
    assert_eq!(c.point(f.element(num(2)), f.element(num(7))).unwrap().to_string(), "(2, 7)");
    // zero() is the point at infinity.
    assert!(c.equal(&c.zero(), &c.infinity()));
    assert!(c.equal(&c.element(None), &c.infinity()));
    assert!(c.equal(
        &c.element(Some((f.element(num(2)), f.element(num(7))))),
        &c.point(f.element(num(2)), f.element(num(7))).unwrap()
    ));
}

#[test]
fn the_curve_reports_its_parts() {
    let (f, c) = curve();
    let (a, b) = c.coefficients();
    assert!(f.equal(a, &f.element(num(1))));
    assert!(f.equal(b, &f.element(num(6))));
    assert_eq!(c.field().order(), num(11));
    assert!(c.infinity().is_infinity());
    let p = c.point(f.element(num(2)), f.element(num(7))).unwrap();
    assert!(!p.is_infinity());
    assert!(Rc::ptr_eq(p.curve(), &c));
}
