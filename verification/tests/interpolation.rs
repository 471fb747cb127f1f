use ruffini::integers::{Integer, Integers};
use ruffini::interpolation::{interpolate, Interpolation};
use ruffini::polynomials::RingExt;
use ruffini::quotient::QuotientRing;
use ruffini::structures::{DecidableEq, Domain};
use std::rc::Rc;

fn num(n: i64) -> Integer {
    Integer::from_i64(n)
}

/// F_101, with room for several distinct nodes.
fn field() -> Rc<QuotientRing<Integers>> {
    Integers::modulo(num(101))
}

#[test]
fn recovers_a_polynomial_from_its_values() {
    let f = field();
    let ring = f.polynomials();

    // p = 3 + 2x + 5x^3, sampled at five nodes.
    let p = ring.element(vec![f.element(num(3)), f.element(num(2)), f.element(num(0)), f.element(num(5))]);
    let x: Vec<_> = (1..=5i64).map(|n| f.element(num(n))).collect();
    let y: Vec<_> = x.iter().map(|xi| p.evaluate(xi)).collect();

    let q = interpolate(&ring, &x, &y).expect("nodes are distinct");
    assert!(ring.equal(&q, &p));
    // Degree is at most one less than the node count, and here matches p exactly.
    assert_eq!(q.degree(), Some(3));
}

#[test]
fn passes_through_every_point() {
    let f = field();
    let ring = f.polynomials();
    let x: Vec<_> = [0i64, 2, 7, 13].iter().map(|n| f.element(num(*n))).collect();
    let y: Vec<_> = [5i64, 9, 1, 40].iter().map(|n| f.element(num(*n))).collect();

    let p = interpolate(&ring, &x, &y).unwrap();
    for (xi, yi) in x.iter().zip(&y) {
        assert!(f.equal(&p.evaluate(xi), yi));
    }
    // Four nodes, so degree at most three.
    assert!(p.degree().unwrap() <= 3);

    // A single point gives the constant.
    let c = interpolate(&ring, &x[..1], &y[..1]).unwrap();
    assert!(ring.equal(&c, &ring.element(vec![f.element(num(5))])));
    assert_eq!(c.degree(), Some(0));
}

#[test]
fn repeated_nodes_have_no_interpolant() {
    let f = field();
    let ring = f.polynomials();
    let x = vec![f.element(num(4)), f.element(num(9)), f.element(num(4))];
    let y = vec![f.element(num(1)), f.element(num(2)), f.element(num(3))];
    assert!(interpolate(&ring, &x, &y).is_none());
    assert!(Interpolation::new(&ring, &x).is_none());
}

#[test]
fn the_basis_is_reusable_across_value_sets() {
    let f = field();
    let ring = f.polynomials();
    let x: Vec<_> = (1..=4i64).map(|n| f.element(num(n))).collect();
    let interpolation = Interpolation::new(&ring, &x).unwrap();
    assert_eq!(interpolation.nodes(), 4);

    for values in [vec![1i64, 0, 0, 0], vec![0, 1, 0, 0], vec![7, 7, 7, 7]] {
        let y: Vec<_> = values.iter().map(|n| f.element(num(*n))).collect();
        let p = interpolation.apply(&y);
        for (xi, yi) in x.iter().zip(&y) {
            assert!(f.equal(&p.evaluate(xi), yi));
        }
        // Same answer as the one-shot entry point.
        assert!(ring.equal(&p, &interpolate(&ring, &x, &y).unwrap()));
    }

    // A constant set of values interpolates to that constant, not a higher-degree
    // polynomial that happens to agree.
    let sevens: Vec<_> = (0..4).map(|_| f.element(num(7))).collect();
    assert_eq!(interpolation.apply(&sevens).degree(), Some(0));
}
