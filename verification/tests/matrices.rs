use ruffini::integers::{Integer, Integers};
use ruffini::matrices::{Matrix, MatrixRing};
use ruffini::polynomials::RingExt;
use ruffini::structures::{
    AdditiveGroup, CommutativeMonoid, DecidableEq, Domain, Field, Monoid, Semigroup,
};
use std::rc::Rc;

fn num(n: i64) -> Integer {
    Integer::from_i64(n)
}

fn zm(n: usize) -> Rc<MatrixRing<Integers>> {
    Integers::default().matrices(n)
}

/// Row-major, over Z.
fn m(rows: usize, cols: usize, e: &[i64]) -> Matrix<Integers> {
    Matrix::new(Integers::default(), rows, cols, e.iter().map(|n| num(*n)).collect())
}

/// Same shape and the same entries.
fn same(a: &Matrix<Integers>, b: &Matrix<Integers>) -> bool {
    if a.rows() != b.rows() || a.cols() != b.cols() {
        return false;
    }
    for i in 0..a.rows() {
        for j in 0..a.cols() {
            if a.get(i, j) != b.get(i, j) {
                return false;
            }
        }
    }
    true
}

#[test]
fn scaling_by_an_integer_agrees_with_multiplying_by_n_times_the_identity() {
    let rectangle = m(2, 3, &[1, 2, 3, 4, 5, 6]);
    let expected = m(2, 3, &[2, 4, 6, 8, 10, 12]);
    assert!(same(&rectangle.scale(&num(2)), &expected));

    // Where both are defined they are the same matrix.
    let square = m(2, 2, &[1, 2, 3, 4]);
    let two_i = m(2, 2, &[2, 0, 0, 2]);
    assert!(same(&square.scale(&num(2)), &two_i.mul(&square)));

    // Zero and one are not special-cased.
    assert!(same(&square.scale(&num(0)), &m(2, 2, &[0, 0, 0, 0])));
    assert!(same(&square.scale(&num(1)), &square));
    assert!(same(&square.scale(&num(-1)), &m(2, 2, &[-1, -2, -3, -4])));
}

#[test]
fn scale_multiplies_the_coefficient_on_the_left() {
    // Entries that do not commute: 2x2 matrices over Z.
    let z2 = zm(2);
    let a = z2.element(vec![num(0), num(1), num(0), num(0)]);
    let b = z2.element(vec![num(0), num(0), num(1), num(0)]);
    assert!(!z2.equal(&z2.mul(&a, &b), &z2.mul(&b, &a)));

    let one_by_one = Matrix::new(z2.clone(), 1, 1, vec![z2.copy(&b)]);
    assert!(z2.equal(one_by_one.scale(&a).get(0, 0), &z2.mul(&a, &b)));
    assert!(!z2.equal(one_by_one.scale(&a).get(0, 0), &z2.mul(&b, &a)));
}

#[test]
fn addition_and_multiplication() {
    let r = zm(2);
    let a = r.element(vec![num(1), num(2), num(3), num(4)]);
    let b = r.element(vec![num(0), num(1), num(1), num(0)]);

    // Entry-wise addition.
    assert!(r.equal(&r.add(&a, &b), &r.element(vec![num(1), num(3), num(4), num(4)])));

    // b swaps the columns of a.
    assert!(r.equal(&r.mul(&a, &b), &r.element(vec![num(2), num(1), num(4), num(3)])));
    // ...and swaps a's rows on the other side, so it does not commute.
    assert!(r.equal(&r.mul(&b, &a), &r.element(vec![num(3), num(4), num(1), num(2)])));
    assert!(!r.equal(&r.mul(&a, &b), &r.mul(&b, &a)));

    // Ring axioms.
    assert!(r.equal(&r.mul(&a, &r.identity()), &a));
    assert!(r.equal(&r.add(&a, &r.zero()), &a));
    assert!(r.equal(&r.sub(&a, &a), &r.zero()));

    // Rectangles multiply when the inner dimensions agree: 2x3 by 3x2.
    let p = m(2, 3, &[1, 2, 3, 4, 5, 6]);
    let q = m(3, 2, &[7, 8, 9, 10, 11, 12]);
    assert!(same(&p.mul(&q), &m(2, 2, &[58, 64, 139, 154])));
    assert!(same(&q.mul(&p), &m(3, 3, &[39, 54, 69, 49, 68, 87, 59, 82, 105])));
}

#[test]
fn determinant_by_cofactor_expansion() {
    assert_eq!(m(1, 1, &[7]).determinant(), num(7));
    // 1*4 - 2*3
    assert_eq!(m(2, 2, &[1, 2, 3, 4]).determinant(), num(-2));
    // Singular: second row is twice the first.
    assert_eq!(m(2, 2, &[1, 2, 2, 4]).determinant(), num(0));
    assert_eq!(m(3, 3, &[6, 1, 1, 4, -2, 5, 2, 8, 7]).determinant(), num(-306));
    // Triangular: the product of the diagonal.
    assert_eq!(m(3, 3, &[2, 9, 9, 0, 3, 9, 0, 0, 5]).determinant(), num(30));

    let r = zm(3);
    assert_eq!(r.identity().determinant(), num(1));
    assert_eq!(r.zero().determinant(), num(0));

    // det(AB) = det(A) det(B).
    let a = m(3, 3, &[1, 2, 0, 3, -1, 2, 0, 4, 1]);
    let b = m(3, 3, &[2, 0, 1, 1, 3, 0, 0, 2, 4]);
    assert_eq!(a.mul(&b).determinant(), a.determinant().times(&b.determinant()));
}

#[test]
fn inversion_over_a_field() {
    // Needs a field to scale pivot rows, so work in F_7.
    let f7 = Integers::modulo(num(7));
    let r = f7.matrices(3);
    let e = |n: i64| f7.element(num(n));

    let a = r.element(vec![e(2), e(1), e(0), e(1), e(1), e(0), e(0), e(0), e(3)]);
    let inv = a.inverse().expect("invertible over F_7");
    assert!(r.equal(&r.mul(&a, &inv), &r.identity()));
    assert!(r.equal(&r.mul(&inv, &a), &r.identity()));

    // The identity inverts to itself.
    assert!(r.equal(&r.identity().inverse().unwrap(), &r.identity()));

    // Singular: the second row is the first, so there is no inverse.
    let singular = r.element(vec![e(1), e(2), e(3), e(1), e(2), e(3), e(0), e(0), e(1)]);
    assert!(singular.inverse().is_none());
    assert!(r.zero().inverse().is_none());

    // Inverting a 2x2 and checking against the closed form.
    let r2 = f7.matrices(2);
    let b = r2.element(vec![e(1), e(2), e(3), e(4)]);
    let det = b.determinant(); // 4 - 6 = -2 = 5 mod 7
    assert!(f7.equal(&det, &e(5)));
    let det_inv = f7.invert(&det).unwrap();
    let expected = r2.element(vec![
        f7.mul(&e(4), &det_inv),
        f7.mul(&f7.sub(&e(0), &e(2)), &det_inv),
        f7.mul(&f7.sub(&e(0), &e(3)), &det_inv),
        f7.mul(&e(1), &det_inv),
    ]);
    assert!(r2.equal(&b.inverse().unwrap(), &expected));
}

#[test]
fn shape_helpers_and_display() {
    let p = m(2, 3, &[1, 2, 3, 4, 5, 6]);
    assert_eq!((p.rows(), p.cols()), (2, 3));
    assert!(!p.is_square());
    assert_eq!(p.get(1, 2), &num(6));
    assert!(same(&p.transpose(), &m(3, 2, &[1, 4, 2, 5, 3, 6])));
    assert!(same(&p.transpose().transpose(), &p));
    // Dropping row 0 and column 1 leaves [[4, 6]].
    assert!(same(&p.minor(0, 1), &m(1, 2, &[4, 6])));
    assert_eq!(m(2, 2, &[1, 2, 3, 4]).to_string(), "[[1, 2], [3, 4]]");
}

#[test]
fn rectangular_sums_and_differences() {
    let p = m(2, 3, &[1, 2, 3, 4, 5, 6]);
    let q = m(2, 3, &[6, 5, 4, 3, 2, 1]);
    assert!(same(&p.add(&q), &m(2, 3, &[7, 7, 7, 7, 7, 7])));
    assert!(same(&p.sub(&q), &m(2, 3, &[-5, -3, -1, 1, 3, 5])));
}

#[test]
fn matrix_products_are_associative_and_distribute() {
    let ring = zm(2);
    let a = ring.element(vec![num(1), num(2), num(-3), num(4)]);
    let b = ring.element(vec![num(0), num(5), num(1), num(-1)]);
    let c = ring.element(vec![num(2), num(0), num(7), num(3)]);
    let left = ring.mul(&ring.mul(&a, &b), &c);
    let right = ring.mul(&a, &ring.mul(&b, &c));
    assert!(ring.equal(&left, &right));
    assert!(ring.equal(&ring.mul(&a, &ring.add(&b, &c)), &ring.add(&ring.mul(&a, &b), &ring.mul(&a, &c))));
    assert!(ring.equal(&ring.mul(&ring.add(&a, &b), &c), &ring.add(&ring.mul(&a, &c), &ring.mul(&b, &c))));
    assert!(ring.equal(&ring.mul(&ring.identity(), &a), &a));
    assert!(ring.equal(&ring.mul(&a, &ring.identity()), &a));
    // a · b, by hand: [[2, 3], [4, -19]]
    assert!(ring.equal(&ring.mul(&a, &b), &ring.element(vec![num(2), num(3), num(4), num(-19)])));
    // Matrices do not commute in general.
    assert!(!ring.equal(&ring.mul(&a, &b), &ring.mul(&b, &a)));
}

#[test]
fn matrix_from_a_function_of_the_indices() {
    let m = Matrix::from_fn(Integers::default(), 2, 3, |i, j| num((10 * i + j) as i64));
    assert_eq!(m.rows(), 2);
    assert_eq!(m.cols(), 3);
    assert_eq!(m.get(0, 0), &num(0));
    assert_eq!(m.get(0, 2), &num(2));
    assert_eq!(m.get(1, 0), &num(10));
    assert_eq!(m.get(1, 2), &num(12));
    let empty = Matrix::from_fn(Integers::default(), 0, 4, |_, _| num(1));
    assert_eq!(empty.rows(), 0);
}
