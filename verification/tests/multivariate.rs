use ruffini::integers::{Integer, Integers};
use ruffini::multivariate::MultivariatePolynomialRing;
use ruffini::polynomials::RingExt;
use ruffini::structures::{
    AdditiveGroup, CommutativeMonoid, DecidableEq, Domain, Monoid, Semigroup,
};
use std::rc::Rc;

fn num(n: i64) -> Integer {
    Integer::from_i64(n)
}

/// `Z[x_0, x_1, x_2]`, the ring from the motivating example.
fn zxyz() -> Rc<MultivariatePolynomialRing<Integers>> {
    Integers::default().multi_polynomials(3)
}

#[test]
fn arithmetic_combines_like_monomials() {
    let r = zxyz();
    let (x, y, z) = (r.variable(0), r.variable(1), r.variable(2));

    assert_eq!(r.variables(), 3);
    assert_eq!(r.zero().degree(), None);
    assert_eq!(r.identity().degree(), Some(0));
    assert_eq!(r.mul(&r.mul(&x, &y), &z).degree(), Some(3));

    // x + x = 2x, and x - x collapses to zero rather than a zero-coefficient term.
    let two_x = r.element(vec![(vec![1, 0, 0], num(2))]);
    assert!(r.equal(&r.add(&x, &x), &two_x));
    assert!(r.equal(&r.sub(&x, &x), &r.zero()));
    assert_eq!(r.sub(&x, &x).terms().len(), 0);

    // (x + y)(x - y) = x^2 - y^2
    let expected = r.element(vec![(vec![2, 0, 0], num(1)), (vec![0, 2, 0], num(-1))]);
    assert!(r.equal(&r.mul(&r.add(&x, &y), &r.sub(&x, &y)), &expected));

    // Multiplication adds exponents.
    assert!(r.equal(&r.mul(&r.mul(&x, &x), &y), &r.element(vec![(vec![2, 1, 0], num(1))])));

    // Ring axioms on a few mixed elements.
    let p = r.add(&x, &r.mul(&y, &z));
    let q = r.sub(&r.element(vec![(vec![0, 0, 0], num(3))]), &z);
    assert!(r.equal(&r.mul(&p, &q), &r.mul(&q, &p)));
    assert!(r.equal(&r.add(&p, &r.zero()), &p));
    assert!(r.equal(&r.mul(&p, &r.identity()), &p));
    assert!(r.equal(&r.sub(&p, &p), &r.zero()));
}

#[test]
fn evaluation_agrees_with_substitution() {
    let r = zxyz();
    let (x, y, z) = (r.variable(0), r.variable(1), r.variable(2));

    // p = 2 + x + 3*y^2 + x*y*z
    let p = r.element(vec![
        (vec![0, 0, 0], num(2)),
        (vec![1, 0, 0], num(1)),
        (vec![0, 2, 0], num(3)),
        (vec![1, 1, 1], num(1)),
    ]);
    assert_eq!(p.degree(), Some(3));

    for (a, b, c) in [(0i64, 0, 0), (1, 1, 1), (2, -1, 3), (-4, 5, -2)] {
        let expected = 2 + a + 3 * b * b + a * b * c;
        assert_eq!(p.evaluate(&[num(a), num(b), num(c)]), num(expected), "at ({a}, {b}, {c})");
    }

    // Variables evaluate to their coordinate.
    assert_eq!(x.evaluate(&[num(7), num(8), num(9)]), num(7));
    assert_eq!(y.evaluate(&[num(7), num(8), num(9)]), num(8));
    assert_eq!(z.evaluate(&[num(7), num(8), num(9)]), num(9));
}

#[test]
fn display_names_each_variable() {
    let r = zxyz();
    let (x, y) = (r.variable(0), r.variable(1));
    assert_eq!(r.zero().to_string(), "0");
    assert_eq!(r.identity().to_string(), "1");
    assert_eq!(r.mul(&r.mul(&x, &x), &y).to_string(), "1*x_0^{2}*x_1");
}

#[test]
fn terms_come_in_ascending_monomial_order() {
    let r = zxyz();
    let p = r.element(vec![
        (vec![0, 2, 0], num(3)),
        (vec![1, 0, 0], num(1)),
        (vec![0, 0, 0], num(2)),
        (vec![1, 0, 0], num(4)),
    ]);
    let monomials: Vec<Vec<u32>> = p.terms().iter().map(|(m, _)| m.clone()).collect();
    assert_eq!(monomials, vec![vec![0, 0, 0], vec![0, 2, 0], vec![1, 0, 0]]);
    // Duplicate monomials were summed: 1 + 4 = 5.
    assert_eq!(p.terms()[2].1, num(5));
    assert_eq!(p.to_string(), "2 + 3*x_1^{2} + 5*x_0");
}

#[test]
fn multivariate_products_are_associative_commutative_and_distribute() {
    let r = zxyz();
    let a = r.element(vec![(vec![1, 0, 0], num(2)), (vec![0, 1, 1], num(-1))]);
    let b = r.element(vec![(vec![0, 0, 2], num(3)), (vec![0, 0, 0], num(1))]);
    let c = r.element(vec![(vec![1, 1, 0], num(1)), (vec![0, 2, 0], num(-4))]);
    assert!(r.equal(&r.mul(&r.mul(&a, &b), &c), &r.mul(&a, &r.mul(&b, &c))));
    assert!(r.equal(&r.mul(&a, &b), &r.mul(&b, &a)));
    assert!(r.equal(&r.mul(&a, &r.add(&b, &c)), &r.add(&r.mul(&a, &b), &r.mul(&a, &c))));
    assert!(r.equal(&r.mul(&r.add(&a, &b), &c), &r.add(&r.mul(&a, &c), &r.mul(&b, &c))));
    assert!(r.equal(&r.mul(&r.identity(), &a), &a));
    assert!(r.equal(&r.add(&r.sub(&a, &b), &b), &a));
    // a · b = 6 x z^2 + 2 x - 3 y z^3 - y z
    let expected = r.element(vec![
        (vec![1, 0, 2], num(6)),
        (vec![1, 0, 0], num(2)),
        (vec![0, 1, 3], num(-3)),
        (vec![0, 1, 1], num(-1)),
    ]);
    assert!(r.equal(&r.mul(&a, &b), &expected));
}
