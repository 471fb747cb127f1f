# ruffini

Algebraic structures over arbitrary-precision integers, verified with Verus.

The traits in `structures` describe the algebraic tower (`Domain`, `Semigroup`,
`Monoid`, `CommutativeMonoid`, `AdditiveGroup`, `SemiRing`, `Ring`,
`EuclideanDomain`, `Field`). Each trait carries spec functions for the model of an
element and for the operations on models; `laws` states the axioms of each
structure (`ring_laws`, `field_laws`, `euclidean_laws`, ...) over those models.

Instances:

- `integers`: `Z`, over `num_bigint::BigInt` (the only outside calls, each behind a
  small wrapper with a contract); `Integers::modulo` builds `Z / (m)`.
- `quotient`: `R / (m)` for a Euclidean domain `R`.
- `polynomials`: `R[x]`, a Euclidean domain when `R` is a field.
- `matrices`: rectangular matrices, and the ring of `n × n` matrices.
- `multivariate`: `R[x_0, .., x_{n-1}]`.
- `elliptic`: points on `y^2 = x^3 + ax + b` under the chord-and-tangent law.
- `constructive_reals`: computable reals as expression trees over integers, each
  approximated to any requested precision.

Algorithms: `euclidean::extended_gcd`, `fft`, `interpolation`, `evaluation`,
`Matrix::determinant` and `Matrix::inverse`, `pow`, and in `fixed_point` the
integer arithmetic of dyadic approximations (rounded shifts, integer square roots,
fixed-point decimal text).

The `*_laws` modules prove that the instances obey the laws: `Z` is a Euclidean
domain and `Z / (p)` a field for a prime `p`; `R[x]`, the square matrices and the
multivariate polynomials over a ring are rings; `F[x]` is a Euclidean domain over a
field, and `F[x] / (m)` a field for an irreducible `m`; the curve law has an
identity and inverses, is commutative, and over `Z / (m)` keeps points on the
curve; the discrete Fourier transform is inverted by its conjugate transform.
`constructive_laws` gives each constructive real a real value and proves that every
approximation `a` at precision `p` has `|a · 2^p − value| < 2^p`, and that the signs
and orders read off approximations are those of the values.
