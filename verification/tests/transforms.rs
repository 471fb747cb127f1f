use ruffini::fft::{bit_reverse, fft, inverse_fft};
use ruffini::integers::{Integer, Integers};
use ruffini::polynomials::RingExt;
use ruffini::pow::pow;
use ruffini::quotient::{QuotientRing, QuotientRingElement};
use ruffini::structures::{CommutativeMonoid, DecidableEq, Domain, Field, FromInteger, Monoid, Semigroup};
use std::rc::Rc;

type Fp = Rc<QuotientRing<Integers>>;

fn num(n: i64) -> Integer {
    Integer::from_i64(n)
}

/// The transform by its definition, at `O(n^2)`, to check `fft` against.
fn naive_dft(ring: &Fp, values: &[QuotientRingElement<Integers>], omega: &QuotientRingElement<Integers>) -> Vec<QuotientRingElement<Integers>> {
    (0..values.len())
        .map(|k| {
            let mut acc = ring.zero();
            for (j, v) in values.iter().enumerate() {
                let w = pow(ring, omega, &num((j * k) as i64));
                acc = ring.add(&acc, &ring.mul(v, &w));
            }
            acc
        })
        .collect()
}

fn all_equal(ring: &Fp, a: &[QuotientRingElement<Integers>], b: &[QuotientRingElement<Integers>]) -> bool {
    a.len() == b.len() && a.iter().zip(b).all(|(x, y)| ring.equal(x, y))
}

#[test]
fn agrees_with_the_naive_transform_and_inverts() {
    // 2 has order 8 in F_17: 2^4 = 16, 2^8 = 1.
    let f17 = Integers::modulo(num(17));
    let omega = f17.element(num(2));
    assert!(f17.equal(&pow(&f17, &omega, &num(8)), &f17.identity()));
    assert!(!f17.equal(&pow(&f17, &omega, &num(4)), &f17.identity()));

    let original: Vec<_> = (1..=8).map(|n| f17.element(num(n))).collect();

    let mut transformed: Vec<_> = original.iter().map(|x| f17.copy(x)).collect();
    fft(&f17, &mut transformed, &omega);
    assert!(all_equal(&f17, &transformed, &naive_dft(&f17, &original, &omega)));

    let omega_inv = f17.invert(&omega).expect("omega is a unit");
    let n_inv = f17.invert(&f17.from_integer(&num(8))).expect("8 is a unit mod 17");
    inverse_fft(&f17, &mut transformed, &omega_inv, &n_inv);
    assert!(all_equal(&f17, &transformed, &original));
}

#[test]
fn bit_reversal_permutes_indices() {
    let mut v: Vec<u32> = (0..8).collect();
    bit_reverse(&mut v);
    assert_eq!(v, vec![0, 4, 2, 6, 1, 5, 3, 7]);
    // Reversing twice gives the original order back.
    bit_reverse(&mut v);
    assert_eq!(v, (0..8).collect::<Vec<u32>>());
    // Lengths one and two are left alone.
    let mut one = vec![9u32];
    bit_reverse(&mut one);
    assert_eq!(one, vec![9]);
    let mut two = vec![1u32, 2];
    bit_reverse(&mut two);
    assert_eq!(two, vec![1, 2]);
}

#[test]
fn a_transform_of_one_value_is_that_value() {
    let f17 = Integers::modulo(num(17));
    let mut v = vec![f17.element(num(5))];
    fft(&f17, &mut v, &f17.element(num(2)));
    assert!(f17.equal(&v[0], &f17.element(num(5))));
}

#[test]
fn squares_and_multiplies() {
    let z = Integers::default();
    assert_eq!(pow(&z, &num(3), &num(0)), z.identity());
    assert_eq!(pow(&z, &num(3), &num(1)), num(3));
    assert_eq!(pow(&z, &num(2), &num(10)), num(1024));
    assert_eq!(pow(&z, &num(-3), &num(3)), num(-27));

    // Against repeated multiplication, over exponents that exercise every
    // bit pattern up to 16.
    for exp in 0..16i64 {
        let mut expected = z.identity();
        for _ in 0..exp {
            expected = expected.times(&num(7));
        }
        assert_eq!(pow(&z, &num(7), &num(exp)), expected, "at exp = {exp}");
    }

    // Reduction happens in the ring, so this stays small: 2 has order 8 in F_17.
    let f17 = Integers::modulo(num(17));
    assert!(f17.equal(&pow(&f17, &f17.element(num(2)), &num(8)), &f17.identity()));
    assert!(f17.equal(&pow(&f17, &f17.element(num(2)), &num(100)), &f17.element(num(16))));
}

#[test]
fn the_exponent_is_not_capped_at_a_machine_word() {
    // 2 has order 8 in F_17, so 2^k depends only on k mod 8 - which lets a
    // far-beyond-u64 exponent be checked against a small one.
    let f17 = Integers::modulo(num(17));
    let two = f17.element(num(2));
    let mut huge = num(1);
    for _ in 0..100 {
        huge = huge.times(&num(2));
    }
    let u64_max = num(i64::MAX).times(&num(2)).plus(&num(1));
    assert!(u64_max.less_than(&huge));

    // 2^100 is divisible by 8, so this is 2^0.
    assert!(f17.equal(&pow(&f17, &two, &huge), &f17.identity()));
    assert!(f17.equal(&pow(&f17, &two, &huge.plus(&num(3))), &f17.element(num(8))));
    assert!(f17.equal(&pow(&f17, &two, &huge.plus(&num(5))), &f17.element(num(15))));

    // Small exponents agree with repeated multiplication.
    for exp in 0..20i64 {
        let mut expected = f17.identity();
        for _ in 0..exp {
            expected = f17.mul(&expected, &two);
        }
        assert!(f17.equal(&pow(&f17, &two, &num(exp)), &expected));
    }
}

#[test]
fn the_round_trip_holds_over_a_noncommutative_ring() {
    // 2 × 2 matrices over F_17, with the rotation as a fourth root of unity: its
    // square is -1, and it does not commute with the entries transformed.
    let f17 = Integers::modulo(num(17));
    let ring = f17.matrices(2);
    let mat = |e: [i64; 4]| ring.element(e.iter().map(|n| f17.element(num(*n))).collect());
    let omega = mat([0, -1, 1, 0]);
    let omega_inv = mat([0, 1, -1, 0]);
    let n_inv = mat([13, 0, 0, 13]); // 4 · 13 = 52 = 1 mod 17
    assert!(ring.equal(&ring.mul(&omega, &omega_inv), &ring.identity()));
    assert!(!ring.equal(&ring.mul(&omega, &mat([1, 2, 3, 4])), &ring.mul(&mat([1, 2, 3, 4]), &omega)));

    let original = vec![mat([1, 2, 3, 4]), mat([0, 5, 7, 1]), mat([2, 2, 9, 16]), mat([8, 0, 1, 3])];
    let mut values: Vec<_> = original.iter().map(|x| ring.copy(x)).collect();
    fft(&ring, &mut values, &omega);
    inverse_fft(&ring, &mut values, &omega_inv, &n_inv);
    for (x, y) in values.iter().zip(&original) {
        assert!(ring.equal(x, y));
    }
}
