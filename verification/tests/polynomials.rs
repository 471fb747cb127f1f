use ruffini::euclidean::extended_gcd;
use ruffini::integers::{Integer, Integers};
use ruffini::polynomials::{Polynomial, PolynomialRing, RingExt};
use ruffini::quotient::QuotientRing;
use ruffini::structures::{
    AdditiveGroup, CommutativeMonoid, DecidableEq, DivRem, Domain, Field, FromInteger, Monoid,
    Semigroup,
};
use std::rc::Rc;

fn num(n: i64) -> Integer {
    Integer::from_i64(n)
}

fn zx() -> Rc<PolynomialRing<Integers>> {
    Integers::default().polynomials()
}

fn poly(ring: &Rc<PolynomialRing<Integers>>, coeffs: &[i64]) -> Polynomial<Integers> {
    ring.element(coeffs.iter().map(|n| num(*n)).collect::<Vec<_>>())
}

type Fp = Rc<QuotientRing<Integers>>;

fn f7() -> Fp {
    Integers::modulo(num(7))
}

fn fpoly(f: &Fp, ring: &Rc<PolynomialRing<Fp>>, coeffs: &[i64]) -> Polynomial<Fp> {
    ring.element(coeffs.iter().map(|n| f.element(num(*n))).collect::<Vec<_>>())
}

#[test]
fn polynomial_ring_z_x() {
    let zx = zx();
    let p = poly(&zx, &[1, 2, 3]); // 1 + 2x + 3x^2
    let q = poly(&zx, &[4, 5]); // 4 + 5x

    // p + q = 5 + 7x + 3x^2
    assert!(zx.equal(&zx.add(&p, &q), &poly(&zx, &[5, 7, 3])));
    // p - q = -3 - 3x + 3x^2
    assert!(zx.equal(&zx.sub(&p, &q), &poly(&zx, &[-3, -3, 3])));
    // p * q = 4 + 13x + 22x^2 + 15x^3
    assert!(zx.equal(&zx.mul(&p, &q), &poly(&zx, &[4, 13, 22, 15])));

    // trim trailing zeros
    assert!(zx.equal(&poly(&zx, &[1, 2, 0, 0]), &poly(&zx, &[1, 2])));
    // zero polynomial and identity
    assert!(zx.equal(&zx.zero(), &poly(&zx, &[])));
    assert_eq!(zx.zero().degree(), None);
    assert!(zx.equal(&zx.identity(), &poly(&zx, &[1])));
    assert_eq!(p.degree(), Some(2));
    // The leading coefficient; the zero polynomial has none.
    assert_eq!(p.lead(), Some(&num(3)));
    assert_eq!(poly(&zx, &[1, 2, 0, 0]).lead(), Some(&num(2)));
    assert_eq!(zx.zero().lead(), None);
    // Display
    assert_eq!(poly(&zx, &[1, 2, 3]).to_string(), "1 + 2*x + 3*x^{2}");

    // The constructor composes: Z[x][y].
    let zxy = zx.polynomials();
    assert_eq!(zxy.element(vec![zx.copy(&p), zx.identity()]).degree(), Some(1));
}

#[test]
fn polynomial_product_matches_schoolbook_for_every_shape() {
    let zx = zx();

    // Scatter-style reference, against the gathered implementation.
    fn reference(a: &[i64], b: &[i64]) -> Vec<i64> {
        if a.is_empty() || b.is_empty() {
            return Vec::new();
        }
        let mut out = vec![0i64; a.len() + b.len() - 1];
        for (i, x) in a.iter().enumerate() {
            for (j, y) in b.iter().enumerate() {
                out[i + j] += x * y;
            }
        }
        while out.last() == Some(&0) {
            out.pop();
        }
        out
    }

    // Asymmetric lengths are where the gather bounds bite.
    for n in 0..6usize {
        for m in 0..6usize {
            let a: Vec<i64> = (1..=n as i64).map(|i| i - 3).collect();
            let b: Vec<i64> = (1..=m as i64).map(|j| 2 * j - 5).collect();
            let product = zx.mul(&poly(&zx, &a), &poly(&zx, &b));
            assert!(zx.equal(&product, &poly(&zx, &reference(&a, &b))), "n = {n}, m = {m}");
            assert_eq!(product.coefficients().len(), reference(&a, &b).len());
        }
    }
}

#[test]
fn polynomial_evaluation_by_horner() {
    let zx = zx();

    // Against direct evaluation of sum c_i x^i, over several shapes and points.
    for coeffs in [
        vec![],
        vec![7],
        vec![1, 2],
        vec![1, 0, -3, 4],
        vec![-5, 2, 0, 0, 1],
    ] {
        for x in [-3i64, -1, 0, 1, 2, 10] {
            let expected: i64 = coeffs
                .iter()
                .enumerate()
                .map(|(i, c)| c * x.pow(i as u32))
                .sum();
            assert_eq!(
                poly(&zx, &coeffs).evaluate(&num(x)),
                num(expected),
                "coeffs = {coeffs:?}, x = {x}"
            );
        }
    }

    // The zero polynomial is zero everywhere; a constant ignores x.
    assert_eq!(poly(&zx, &[]).evaluate(&num(9)), zx.coefficients().zero());
    assert_eq!(poly(&zx, &[7]).evaluate(&num(9)), num(7));

    // Evaluation used where a function is expected.
    let p = poly(&zx, &[1, 2]); // 1 + 2x
    assert_eq!(
        (0..4).map(|n| p.evaluate(&num(n))).collect::<Vec<_>>(),
        (0..4).map(|n| num(1 + 2 * n)).collect::<Vec<_>>()
    );

    // Reduction happens in the ring: evaluating over F_7 stays in F_7.
    let f7 = f7();
    let f7x = f7.polynomials();
    let q = fpoly(&f7, &f7x, &[1, 0, 1]); // 1 + x^2
    assert!(f7.equal(&q.evaluate(&f7.element(num(3))), &f7.element(num(3)))); // 1 + 9 = 10 ≡ 3
}

#[test]
fn polynomial_division_in_f7_x() {
    let f7 = f7();
    let f7x = f7.polynomials();
    let poly = |coeffs: &[i64]| fpoly(&f7, &f7x, coeffs);

    // (1 + x^2) divided by (2 + x) in F_7[x]:
    //   q = 5 + x,  r = 5     (verify: (5+x)(2+x) + 5 = 1 + x^2 mod 7)
    let p = poly(&[1, 0, 1]);
    let d = poly(&[2, 1]);
    let (q, r) = p.div_rem(&d);
    assert!(f7x.equal(&q, &poly(&[5, 1])));
    assert!(f7x.equal(&r, &poly(&[5])));
    assert!(f7x.equal(&f7x.add(&f7x.mul(&q, &d), &r), &p));

    // Exact division: (x + 1)(x + 2) = x^2 + 3x + 2  =>  divide by (x + 1) yields (x + 2) rem 0
    let p = poly(&[2, 3, 1]);
    let d = poly(&[1, 1]);
    let (q, r) = p.div_rem(&d);
    assert!(f7x.equal(&q, &poly(&[2, 1])));
    assert!(f7x.equal(&r, &f7x.zero()));
}

#[test]
fn polynomial_gcd_in_f7_x_is_monic() {
    let f7 = f7();
    let f7x = f7.polynomials();
    let poly = |coeffs: &[i64]| fpoly(&f7, &f7x, coeffs);

    // gcd(x^2 - 1, x - 1) = x - 1 in F_7[x]
    let a = poly(&[6, 0, 1]);
    let b = poly(&[6, 1]);
    let (g, s, t) = extended_gcd(&f7x, f7x.copy(&a), f7x.copy(&b));
    assert!(f7x.equal(&g, &poly(&[6, 1])));
    // Bezout: s*a + t*b == g
    assert!(f7x.equal(&f7x.add(&f7x.mul(&s, &a), &f7x.mul(&t, &b)), &g));

    // gcd(x^2 - 1, 2x - 2): canonicalisation makes the gcd monic (x - 1).
    let a = poly(&[6, 0, 1]);
    let b = poly(&[5, 2]);
    let (g, s, t) = extended_gcd(&f7x, f7x.copy(&a), f7x.copy(&b));
    assert!(f7x.equal(&g, &poly(&[6, 1]))); // x - 1
    assert!(f7x.equal(&f7x.add(&f7x.mul(&s, &a), &f7x.mul(&t, &b)), &g));
}

#[test]
fn polynomial_over_f7() {
    let f7 = f7();
    let f7x = f7.polynomials();
    let poly = |coeffs: &[i64]| fpoly(&f7, &f7x, coeffs);

    // (1 + 2x)(3 + 4x) = 3 + 10x + 8x^2  ≡  3 + 3x + x^2 (mod 7)
    assert!(f7x.equal(&f7x.mul(&poly(&[1, 2]), &poly(&[3, 4])), &poly(&[3, 3, 1])));

    // (1 + x)(6 + x) = 6 + 7x + x^2 ≡ 6 + x^2 (mod 7): the middle zero stays.
    let product = f7x.mul(&poly(&[1, 1]), &poly(&[6, 1]));
    assert!(f7x.equal(&product, &poly(&[6, 0, 1])));
    assert_eq!(product.degree(), Some(2));
}

#[test]
fn display_brackets_polynomial_coefficients() {
    let zx = zx();
    let zxy = PolynomialRing::new(zx.clone());
    let c = |coeffs: &[i64]| poly(&zx, coeffs);

    // (1 + 2x) + (3 + 4x)y — without brackets the two levels run together.
    let p = zxy.element(vec![c(&[1, 2]), c(&[3, 4])]);
    assert_eq!(p.to_string(), "(1 + 2*x) + (3 + 4*x)*x");

    // Single-term coefficients are left alone.
    let q = zxy.element(vec![c(&[7]), c(&[0, 1])]);
    assert_eq!(q.to_string(), "7 + (0 + 1*x)*x");
}

#[test]
fn display_covers_zero_constant_linear_and_higher_terms() {
    let zx = zx();
    // Zero polynomial renders as "0", regardless of how it was constructed.
    assert_eq!(poly(&zx, &[]).to_string(), "0");
    assert_eq!(poly(&zx, &[0, 0, 0]).to_string(), "0");

    // Constant: no `x`.
    assert_eq!(poly(&zx, &[7]).to_string(), "7");

    // Linear: bare `x`, no exponent.
    assert_eq!(poly(&zx, &[0, 1]).to_string(), "0 + 1*x");
    assert_eq!(poly(&zx, &[3, 2]).to_string(), "3 + 2*x");

    // Degree ≥ 2 wraps the exponent in `{}` for LaTeX compatibility.
    assert_eq!(poly(&zx, &[1, 2, 3]).to_string(), "1 + 2*x + 3*x^{2}");
    assert_eq!(poly(&zx, &[0, 0, 0, 4]).to_string(), "0 + 0*x + 0*x^{2} + 4*x^{3}");
}

#[test]
fn new_strips_trailing_zero_coefficients() {
    let zx = zx();
    // Trailing zeros are stripped so degree is well-defined and equality structural.
    let a = poly(&zx, &[1, 2, 0, 0]);
    let b = poly(&zx, &[1, 2]);
    assert!(zx.equal(&a, &b));
    assert_eq!(a.coefficients(), b.coefficients());

    // All-zero input collapses to the empty representation (the zero polynomial).
    let z = poly(&zx, &[0, 0, 0]);
    assert!(zx.equal(&z, &zx.zero()));
    assert!(z.coefficients().is_empty());
}

#[test]
fn polynomials_scale_by_plain_integers() {
    // The integer becomes a constant polynomial.
    let zx = zx();
    let p = poly(&zx, &[1, 2]); // 1 + 2x
    assert!(zx.equal(&zx.mul(&p, &zx.from_integer(&num(3))), &poly(&zx, &[3, 6])));
    assert!(zx.equal(&zx.add(&p, &zx.from_integer(&num(4))), &poly(&zx, &[5, 2])));
    assert!(zx.equal(&zx.sub(&p, &zx.from_integer(&num(1))), &poly(&zx, &[0, 2])));
}

#[test]
fn division_with_a_larger_divisor_leaves_the_dividend() {
    let f7 = f7();
    let f7x = f7.polynomials();
    let p = fpoly(&f7, &f7x, &[3, 1]);
    let d = fpoly(&f7, &f7x, &[1, 0, 1]);
    let (q, r) = p.div_rem(&d);
    assert!(f7x.equal(&q, &f7x.zero()));
    assert!(f7x.equal(&r, &p));
}

#[test]
fn polynomial_products_are_associative_commutative_and_distribute() {
    let zx = zx();
    let a = poly(&zx, &[1, -2, 3]);
    let b = poly(&zx, &[0, 4, 0, -1]);
    let c = poly(&zx, &[5, 1]);
    // (a · b) · c == a · (b · c)
    let left = zx.mul(&zx.mul(&a, &b), &c);
    let right = zx.mul(&a, &zx.mul(&b, &c));
    assert!(zx.equal(&left, &right));
    // a · b == b · a over the commutative integers
    assert!(zx.equal(&zx.mul(&a, &b), &zx.mul(&b, &a)));
    // a · (b + c) == a · b + a · c, and (a + b) · c == a · c + b · c
    assert!(zx.equal(&zx.mul(&a, &zx.add(&b, &c)), &zx.add(&zx.mul(&a, &b), &zx.mul(&a, &c))));
    assert!(zx.equal(&zx.mul(&zx.add(&a, &b), &c), &zx.add(&zx.mul(&a, &c), &zx.mul(&b, &c))));
    // 1 · a == a == a · 1, and (a - b) + b == a
    assert!(zx.equal(&zx.mul(&zx.identity(), &a), &a));
    assert!(zx.equal(&zx.mul(&a, &zx.identity()), &a));
    assert!(zx.equal(&zx.add(&zx.sub(&a, &b), &b), &a));
    // The product of the concrete values, coefficient by coefficient.
    assert!(zx.equal(&zx.mul(&a, &b), &poly(&zx, &[0, 4, -8, 11, 2, -3])));
}

#[test]
fn polynomial_degrees_add_over_a_field() {
    let f = f7();
    let fx = f.polynomials();
    let a = fpoly(&f, &fx, &[3, 0, 2]); // 3 + 2x^2
    let b = fpoly(&f, &fx, &[1, 6, 0, 4]); // 1 + 6x + 4x^3
    assert_eq!(fx.mul(&a, &b).degree(), Some(5));
    // The leading coefficient of the product is 2 · 4 = 1 in F_7.
    let product = fx.mul(&a, &b);
    assert!(f.equal(product.lead().unwrap(), &f.element(num(1))));
}

#[test]
fn quotient_by_an_irreducible_polynomial_is_a_field() {
    // F_4 = F_2[x] / (x^2 + x + 1)
    let f2 = Integers::modulo(num(2));
    let f2x = f2.polynomials();
    let m = fpoly(&f2, &f2x, &[1, 1, 1]);
    let f4 = QuotientRing::new(f2x.clone(), m);
    let element = |coeffs: &[i64]| f4.element(fpoly(&f2, &f2x, coeffs));

    // every nonzero element has an inverse
    for coeffs in [[1, 0], [0, 1], [1, 1]] {
        let a = element(&coeffs);
        let inv = f4.invert(&a).expect("nonzero elements of F_4 are units");
        assert!(f4.equal(&f4.mul(&a, &inv), &f4.identity()));
    }
    // x and x + 1 are each other's inverses
    let x = element(&[0, 1]);
    assert!(f4.equal(&f4.invert(&x).unwrap(), &element(&[1, 1])));
    // x^2 = x + 1
    assert!(f4.equal(&f4.mul(&x, &x), &element(&[1, 1])));
    // zero has no inverse
    assert!(f4.invert(&f4.zero()).is_none());

    // a reducible modulus leaves zero divisors without inverses:
    // x^2 + 1 = (x + 1)^2 over F_2
    let m = fpoly(&f2, &f2x, &[1, 0, 1]);
    let r = QuotientRing::new(f2x.clone(), m);
    let y = r.element(fpoly(&f2, &f2x, &[1, 1]));
    assert!(r.invert(&y).is_none());
    assert!(r.invert(&r.element(fpoly(&f2, &f2x, &[0, 1]))).is_some());
}
