//! Matrices over a ring, and the ring of square matrices over one.
//!
//! `Matrix` is any shape and carries its base ring, so products of compatible
//! rectangles work. `MatrixRing` is the `n × n` matrices over a ring, which is what
//! forms a `Ring` itself.
//!
//! A matrix's model is the grid of its entries' models, a sequence of rows.

use crate::laws::{
    complete_field, field_laws, lemma_add_step, lemma_field_parts, lemma_mul_step, lemma_refl, lemma_ring_parts,
    lemma_sub_step, lemma_sym, lemma_trans, ring_laws,
};
use crate::elimination::{
    augmented_ok, delta, lemma_initial_tracks, right_times, row_tracks,
};
use crate::matrix_laws::{
    add_column, has_left_inverse, kernel_grid, lemma_kernel_column, lemma_kernel_trivial,
    lemma_two_sided, lemma_undoes_add, lemma_undoes_scale, lemma_undoes_start, lemma_undoes_swap,
    scale_column, swap_columns, undoes, zero_grid,
};
use crate::polynomials::{all_valid, models};
use crate::text::{append_comma, append_square_close, append_square_open, Render};
use crate::structures::{
    AdditiveGroup, CommutativeMonoid, DecidableEq, Domain, Field, Monoid, Ring, SemiRing, Semigroup,
};
use std::rc::Rc;
use vstd::prelude::*;

verus! {

/// The entries `v`, read row-major as a `rows × cols` grid of models.
pub open spec fn grid<R: Domain>(r: &R, v: Seq<R::E>, rows: nat, cols: nat) -> Seq<Seq<R::M>> {
    Seq::new(rows, |i: int| Seq::new(cols, |j: int| r.model(v[i * cols + j])))
}

/// `x` if it lies before the removed index `i`, else the index after it.
pub open spec fn skip(x: int, i: int) -> int {
    if x < i {
        x
    } else {
        x + 1
    }
}

/// The grid `m` with row `i` and column `j` removed.
pub open spec fn minor_s<M>(m: Seq<Seq<M>>, rows: nat, cols: nat, i: int, j: int) -> Seq<Seq<M>> {
    Seq::new(
        (rows - 1) as nat,
        |r: int| Seq::new((cols - 1) as nat, |c: int| m[skip(r, i)][skip(c, j)]),
    )
}

/// The transpose of a `rows × cols` grid.
pub open spec fn transpose_s<M>(m: Seq<Seq<M>>, rows: nat, cols: nat) -> Seq<Seq<M>> {
    Seq::new(cols, |i: int| Seq::new(rows, |j: int| m[j][i]))
}

/// `sum_{k < t} a[i][k] · b[k][j]`, added up in increasing `k` from zero.
pub open spec fn dot<R: Ring>(r: &R, a: Seq<Seq<R::M>>, b: Seq<Seq<R::M>>, i: int, j: int, t: nat) -> R::M
    decreases t,
{
    if t == 0 {
        r.zero_s()
    } else {
        r.add_s(dot(r, a, b, i, j, (t - 1) as nat), r.mul_s(a[i][t - 1], b[t - 1][j]))
    }
}

/// The product of an `m × k` grid and a `k × n` grid.
pub open spec fn grid_mul<R: Ring>(r: &R, a: Seq<Seq<R::M>>, b: Seq<Seq<R::M>>, m: nat, k: nat, n: nat) -> Seq<Seq<R::M>> {
    Seq::new(m, |i: int| Seq::new(n, |j: int| dot(r, a, b, i, j, k)))
}

/// Entry-wise sum.
pub open spec fn grid_add<R: Ring>(r: &R, a: Seq<Seq<R::M>>, b: Seq<Seq<R::M>>, rows: nat, cols: nat) -> Seq<Seq<R::M>> {
    Seq::new(rows, |i: int| Seq::new(cols, |j: int| r.add_s(a[i][j], b[i][j])))
}

/// Entry-wise difference.
pub open spec fn grid_sub<R: Ring>(r: &R, a: Seq<Seq<R::M>>, b: Seq<Seq<R::M>>, rows: nat, cols: nat) -> Seq<Seq<R::M>> {
    Seq::new(rows, |i: int| Seq::new(cols, |j: int| r.sub_s(a[i][j], b[i][j])))
}

/// Every entry multiplied by `c` on the left.
pub open spec fn grid_scale<R: Ring>(r: &R, c: R::M, a: Seq<Seq<R::M>>, rows: nat, cols: nat) -> Seq<Seq<R::M>> {
    Seq::new(rows, |i: int| Seq::new(cols, |j: int| r.mul_s(c, a[i][j])))
}

/// Whether the `rows × cols` grids `a` and `b` are equal entry by entry.
pub open spec fn grid_eqv<R: Domain>(r: &R, a: Seq<Seq<R::M>>, b: Seq<Seq<R::M>>, rows: nat, cols: nat) -> bool {
    forall|i: int, j: int| 0 <= i < rows && 0 <= j < cols ==> #[trigger] r.eqv(a[i][j], b[i][j])
}

/// `i · cols + j` lies inside a `rows × cols` grid.
pub proof fn lemma_index(i: int, j: int, rows: int, cols: int)
    requires
        0 <= i < rows,
        0 <= j < cols,
    ensures
        0 <= i * cols + j < rows * cols,
        i * cols + j < (i + 1) * cols,
        i * cols <= i * cols + j,
{
    assert(0 <= i * cols) by (nonlinear_arith)
        requires
            0 <= i,
            0 <= cols,
    ;
    assert((i + 1) * cols <= rows * cols) by (nonlinear_arith)
        requires
            i + 1 <= rows,
            0 <= cols,
    ;
    assert((i + 1) * cols == i * cols + cols) by (nonlinear_arith);
}

/// A matrix over `R`, stored dense in row-major order.
pub struct Matrix<R: Ring> {
    rows: usize,
    cols: usize,
    entries: Vec<R::E>,
    ring: R,
}

impl<R: Ring> Matrix<R> {
    /// The number of rows.
    pub closed spec fn rows_s(&self) -> nat {
        self.rows as nat
    }

    /// The number of columns.
    pub closed spec fn cols_s(&self) -> nat {
        self.cols as nat
    }

    /// The entries, row-major.
    pub closed spec fn entries_s(&self) -> Seq<R::E> {
        self.entries@
    }

    /// The base ring.
    pub closed spec fn ring_s(&self) -> R {
        self.ring
    }

    /// The entries form a `rows × cols` grid of well-formed elements.
    pub open spec fn well_formed(&self) -> bool {
        &&& self.entries_s().len() == self.rows_s() * self.cols_s()
        &&& self.ring_s().wf()
        &&& all_valid(&self.ring_s(), self.entries_s())
    }

    /// The grid of the entries' models.
    pub open spec fn model(&self) -> Seq<Seq<R::M>> {
        grid(&self.ring_s(), self.entries_s(), self.rows_s(), self.cols_s())
    }

    /// Builds a `rows × cols` matrix from entries in row-major order. The entry count
    /// must be `rows * cols`.
    pub fn new(ring: R, rows: usize, cols: usize, entries: Vec<R::E>) -> (r: Self)
        requires
            entries@.len() == rows * cols,
        ensures
            r.rows_s() == rows,
            r.cols_s() == cols,
            r.entries_s() == entries@,
            r.ring_s() == ring,
    {
        Matrix { rows, cols, entries, ring }
    }

    /// Builds a `rows × cols` matrix whose entry `(i, j)` is `f(i, j)`, calling `f`
    /// row by row.
    pub fn from_fn<F: Fn(usize, usize) -> R::E>(ring: R, rows: usize, cols: usize, f: F) -> (r: Self)
        requires
            rows * cols <= usize::MAX,
            forall|i: usize, j: usize| i < rows && j < cols ==> #[trigger] f.requires((i, j)),
        ensures
            r.rows_s() == rows,
            r.cols_s() == cols,
            r.ring_s() == ring,
            r.entries_s().len() == rows * cols,
            forall|i: usize, j: usize|
                i < rows && j < cols ==> #[trigger] f.ensures((i, j), r.entries_s()[i * cols + j]),
    {
        let mut entries: Vec<R::E> = Vec::new();
        assert(0 * cols == 0);
        for i in 0..rows
            invariant
                rows * cols <= usize::MAX,
                forall|i: usize, j: usize| i < rows && j < cols ==> #[trigger] f.requires((i, j)),
                entries@.len() == i * cols,
                forall|p: usize, q: usize|
                    p < i && q < cols ==> #[trigger] f.ensures((p, q), entries@[p * cols + q]),
        {
            proof {
                assert((i + 1) * cols <= rows * cols) by (nonlinear_arith)
                    requires
                        i + 1 <= rows,
                ;
                assert((i + 1) * cols == i * cols + cols) by (nonlinear_arith);
            }
            for j in 0..cols
                invariant
                    i < rows,
                    rows * cols <= usize::MAX,
                    forall|i: usize, j: usize| i < rows && j < cols ==> #[trigger] f.requires((i, j)),
                    entries@.len() == i * cols + j,
                    i * cols + cols <= rows * cols,
                    forall|p: usize, q: usize|
                        p < i && q < cols ==> #[trigger] f.ensures((p, q), entries@[p * cols + q]),
                    forall|q: usize| q < j ==> #[trigger] f.ensures((i, q), entries@[i * cols + q]),
            {
                let e = f(i, j);
                let ghost before = entries@;
                entries.push(e);
                proof {
                    assert forall|p: usize, q: usize| p < i && q < cols implies #[trigger] f.ensures(
                        (p, q),
                        entries@[p * cols + q],
                    ) by {
                        lemma_index(p as int, q as int, i as int, cols as int);
                        assert(entries@[p * cols + q] == before[p * cols + q]);
                    }
                    assert forall|q: usize| q < j + 1 implies #[trigger] f.ensures((i, q), entries@[i * cols + q]) by {
                        if q < j {
                            assert(entries@[i * cols + q] == before[i * cols + q]);
                        }
                    }
                }
            }
            proof {
                assert((i + 1) * cols == i * cols + cols) by (nonlinear_arith);
                assert forall|p: usize, q: usize| p < i + 1 && q < cols implies #[trigger] f.ensures(
                    (p, q),
                    entries@[p * cols + q],
                ) by {
                    if p == i {
                        assert(f.ensures((i, q), entries@[i * cols + q]));
                    }
                }
            }
        }
        Matrix::new(ring, rows, cols, entries)
    }

    /// The number of rows.
    pub fn rows(&self) -> (r: usize)
        ensures
            r == self.rows_s(),
    {
        self.rows
    }

    /// The number of columns.
    pub fn cols(&self) -> (r: usize)
        ensures
            r == self.cols_s(),
    {
        self.cols
    }

    /// Whether the matrix is square.
    pub fn is_square(&self) -> (r: bool)
        ensures
            r == (self.rows_s() == self.cols_s()),
    {
        self.rows == self.cols
    }

    /// The base ring the entries live in.
    pub fn base(&self) -> (r: &R)
        ensures
            *r == self.ring_s(),
    {
        &self.ring
    }

    /// The entry at row `i`, column `j`.
    pub fn get(&self, i: usize, j: usize) -> (r: &R::E)
        requires
            self.well_formed(),
            i < self.rows_s(),
            j < self.cols_s(),
        ensures
            *r == self.entries_s()[i * self.cols_s() + j],
            self.ring_s().valid(*r),
            self.ring_s().model(*r) == self.model()[i as int][j as int],
    {
        let n = self.entries.len();
        proof {
            lemma_index(i as int, j as int, self.rows as int, self.cols as int);
        }
        let k = i * self.cols + j;
        &self.entries[k]
    }

    /// A copy with row `i` and column `j` removed.
    pub fn minor(&self, i: usize, j: usize) -> (r: Self)
        requires
            self.well_formed(),
            i < self.rows_s(),
            j < self.cols_s(),
        ensures
            r.well_formed(),
            r.ring_s() == self.ring_s(),
            r.rows_s() == self.rows_s() - 1,
            r.cols_s() == self.cols_s() - 1,
            r.model() == minor_s(self.model(), self.rows_s(), self.cols_s(), i as int, j as int),
    {
        let rows = self.rows - 1;
        let cols = self.cols - 1;
        let mut entries: Vec<R::E> = Vec::new();
        assert(0 * cols == 0);
        for r2 in 0..rows
            invariant
                self.well_formed(),
                i < self.rows_s(),
                j < self.cols_s(),
                rows == self.rows_s() - 1,
                cols == self.cols_s() - 1,
                entries@.len() == r2 * cols,
                all_valid(&self.ring_s(), entries@),
                forall|a: int, b: int|
                    0 <= a < r2 && 0 <= b < cols ==> #[trigger] self.ring_s().model(entries@[a * cols + b])
                        == self.model()[skip(a, i as int)][skip(b, j as int)],
        {
            let src_row = if r2 < i { r2 } else { r2 + 1 };
            for c2 in 0..cols
                invariant
                    self.well_formed(),
                    i < self.rows_s(),
                    j < self.cols_s(),
                    rows == self.rows_s() - 1,
                    cols == self.cols_s() - 1,
                    r2 < rows,
                    src_row == skip(r2 as int, i as int),
                    entries@.len() == r2 * cols + c2,
                    all_valid(&self.ring_s(), entries@),
                    forall|a: int, b: int|
                        0 <= a < r2 && 0 <= b < cols ==> #[trigger] self.ring_s().model(entries@[a * cols + b])
                            == self.model()[skip(a, i as int)][skip(b, j as int)],
                    forall|b: int|
                        0 <= b < c2 ==> #[trigger] self.ring_s().model(entries@[r2 * cols + b])
                            == self.model()[skip(r2 as int, i as int)][skip(b, j as int)],
            {
                let src_col = if c2 < j { c2 } else { c2 + 1 };
                let e = self.ring.copy(self.get(src_row, src_col));
                proof {
                    lemma_index(r2 as int, c2 as int, rows as int, cols as int);
                }
                entries.push(e);
                proof {
                    assert forall|a: int, b: int|
                        0 <= a < r2 && 0 <= b < cols implies #[trigger] self.ring_s().model(entries@[a * cols + b])
                            == self.model()[skip(a, i as int)][skip(b, j as int)] by {
                        lemma_index(a, b, r2 as int, cols as int);
                    }
                    assert forall|b: int|
                        0 <= b < c2 + 1 implies #[trigger] self.ring_s().model(entries@[r2 * cols + b])
                            == self.model()[skip(r2 as int, i as int)][skip(b, j as int)] by {
                        lemma_index(r2 as int, b, rows as int, cols as int);
                    }
                }
            }
            proof {
                assert((r2 + 1) * cols == r2 * cols + cols) by (nonlinear_arith);
                assert forall|a: int, b: int|
                    0 <= a < r2 + 1 && 0 <= b < cols implies #[trigger] self.ring_s().model(entries@[a * cols + b])
                        == self.model()[skip(a, i as int)][skip(b, j as int)] by {
                    if a == r2 {
                    }
                }
            }
        }
        let r = Matrix::new(self.ring.duplicate(), rows, cols, entries);
        proof {
            assert forall|a: int| 0 <= a < rows implies #[trigger] r.model()[a] == minor_s(
                self.model(),
                self.rows_s(),
                self.cols_s(),
                i as int,
                j as int,
            )[a] by {
                assert(r.model()[a] =~= minor_s(self.model(), self.rows_s(), self.cols_s(), i as int, j as int)[a]);
            }
            assert(r.model() =~= minor_s(self.model(), self.rows_s(), self.cols_s(), i as int, j as int));
        }
        r
    }
}


impl<R: Ring> Matrix<R> {
    /// Every entry's model is a member.
    pub proof fn lemma_members(&self)
        requires
            self.well_formed(),
        ensures
            forall|i: int, j: int|
                0 <= i < self.rows_s() && 0 <= j < self.cols_s() ==> self.ring_s().member(
                    #[trigger] self.model()[i][j],
                ),
    {
        assert forall|i: int, j: int| 0 <= i < self.rows_s() && 0 <= j < self.cols_s() implies self.ring_s().member(
            #[trigger] self.model()[i][j],
        ) by {
            lemma_index(i, j, self.rows_s() as int, self.cols_s() as int);
            assert(self.ring_s().valid(self.entries_s()[i * self.cols_s() + j]));
            self.ring_s().lemma_valid_member(self.entries_s()[i * self.cols_s() + j]);
        }
    }

    /// The transpose.
    pub fn transpose(&self) -> (r: Self)
        requires
            self.well_formed(),
        ensures
            r.well_formed(),
            r.ring_s() == self.ring_s(),
            r.rows_s() == self.cols_s(),
            r.cols_s() == self.rows_s(),
            r.model() == transpose_s(self.model(), self.rows_s(), self.cols_s()),
    {
        let rows = self.cols;
        let cols = self.rows;
        let mut entries: Vec<R::E> = Vec::new();
        assert(0 * cols == 0);
        for i in 0..rows
            invariant
                self.well_formed(),
                rows == self.cols_s(),
                cols == self.rows_s(),
                entries@.len() == i * cols,
                all_valid(&self.ring_s(), entries@),
                forall|a: int, b: int|
                    0 <= a < i && 0 <= b < cols ==> #[trigger] self.ring_s().model(entries@[a * cols + b])
                        == self.model()[b][a],
        {
            for j in 0..cols
                invariant
                    self.well_formed(),
                    rows == self.cols_s(),
                    cols == self.rows_s(),
                    i < rows,
                    entries@.len() == i * cols + j,
                    all_valid(&self.ring_s(), entries@),
                    forall|a: int, b: int|
                        0 <= a < i && 0 <= b < cols ==> #[trigger] self.ring_s().model(entries@[a * cols + b])
                            == self.model()[b][a],
                    forall|b: int| 0 <= b < j ==> #[trigger] self.ring_s().model(entries@[i * cols + b]) == self.model()[b][i as int],
            {
                let e = self.ring.copy(self.get(j, i));
                entries.push(e);
                proof {
                    assert forall|a: int, b: int|
                        0 <= a < i && 0 <= b < cols implies #[trigger] self.ring_s().model(entries@[a * cols + b])
                            == self.model()[b][a] by {
                        lemma_index(a, b, i as int, cols as int);
                    }
                    assert forall|b: int| 0 <= b < j + 1 implies #[trigger] self.ring_s().model(entries@[i * cols + b])
                        == self.model()[b][i as int] by {
                        lemma_index(i as int, b, rows as int, cols as int);
                    }
                }
            }
            proof {
                assert((i + 1) * cols == i * cols + cols) by (nonlinear_arith);
            }
        }
        let r = Matrix::new(self.ring.duplicate(), rows, cols, entries);
        proof {
            assert forall|a: int| 0 <= a < rows implies #[trigger] r.model()[a] == transpose_s(
                self.model(),
                self.rows_s(),
                self.cols_s(),
            )[a] by {
                assert(r.model()[a] =~= transpose_s(self.model(), self.rows_s(), self.cols_s())[a]);
            }
            assert(r.model() =~= transpose_s(self.model(), self.rows_s(), self.cols_s()));
        }
        r
    }

    /// Every entry multiplied by `c` on the left. The side matters: a coefficient
    /// ring need not be commutative.
    pub fn scale(&self, c: &R::E) -> (r: Self)
        requires
            self.well_formed(),
            self.ring_s().valid(*c),
        ensures
            r.well_formed(),
            r.ring_s() == self.ring_s(),
            r.rows_s() == self.rows_s(),
            r.cols_s() == self.cols_s(),
            self.ring_s().sound() ==> grid_eqv(
                &self.ring_s(),
                r.model(),
                grid_scale(&self.ring_s(), self.ring_s().model(*c), self.model(), self.rows_s(), self.cols_s()),
                self.rows_s(),
                self.cols_s(),
            ),
    {
        let ghost ring = self.ring_s();
        let n = self.entries.len();
        let mut entries: Vec<R::E> = Vec::new();
        for k in 0..n
            invariant
                self.well_formed(),
                ring == self.ring_s(),
                ring.valid(*c),
                n == self.entries_s().len(),
                entries@.len() == k,
                all_valid(&ring, entries@),
                forall|t: int|
                    0 <= t < k ==> ring.sound() ==> #[trigger] ring.eqv(
                        ring.model(entries@[t]),
                        ring.mul_s(ring.model(*c), ring.model(self.entries_s()[t])),
                    ),
        {
            assert(ring.valid(self.entries_s()[k as int]));
            let e = self.ring.mul(c, &self.entries[k]);
            entries.push(e);
        }
        let r = Matrix::new(self.ring.duplicate(), self.rows, self.cols, entries);
        proof {
            assert forall|i: int, j: int| 0 <= i < self.rows_s() && 0 <= j < self.cols_s() && ring.sound() implies #[trigger] ring.eqv(
                r.model()[i][j],
                grid_scale(&ring, ring.model(*c), self.model(), self.rows_s(), self.cols_s())[i][j],
            ) by {
                lemma_index(i, j, self.rows_s() as int, self.cols_s() as int);
            }
        }
        r
    }

    /// Entry-wise sum, for matrices of the same shape over the same ring.
    pub fn add(&self, rhs: &Self) -> (r: Self)
        requires
            self.well_formed(),
            rhs.well_formed(),
            rhs.ring_s() == self.ring_s(),
            self.rows_s() == rhs.rows_s(),
            self.cols_s() == rhs.cols_s(),
        ensures
            r.well_formed(),
            r.ring_s() == self.ring_s(),
            r.rows_s() == self.rows_s(),
            r.cols_s() == self.cols_s(),
            self.ring_s().sound() ==> grid_eqv(
                &self.ring_s(),
                r.model(),
                grid_add(&self.ring_s(), self.model(), rhs.model(), self.rows_s(), self.cols_s()),
                self.rows_s(),
                self.cols_s(),
            ),
    {
        let ghost ring = self.ring_s();
        let n = self.entries.len();
        let mut entries: Vec<R::E> = Vec::new();
        for k in 0..n
            invariant
                self.well_formed(),
                rhs.well_formed(),
                ring == self.ring_s(),
                ring == rhs.ring_s(),
                n == self.entries_s().len(),
                n == rhs.entries_s().len(),
                entries@.len() == k,
                all_valid(&ring, entries@),
                forall|t: int|
                    0 <= t < k ==> ring.sound() ==> #[trigger] ring.eqv(
                        ring.model(entries@[t]),
                        ring.add_s(ring.model(self.entries_s()[t]), ring.model(rhs.entries_s()[t])),
                    ),
        {
            assert(ring.valid(self.entries_s()[k as int]));
            assert(ring.valid(rhs.entries_s()[k as int]));
            let e = self.ring.add(&self.entries[k], &rhs.entries[k]);
            entries.push(e);
        }
        let r = Matrix::new(self.ring.duplicate(), self.rows, self.cols, entries);
        proof {
            assert forall|i: int, j: int| 0 <= i < self.rows_s() && 0 <= j < self.cols_s() && ring.sound() implies #[trigger] ring.eqv(
                r.model()[i][j],
                grid_add(&ring, self.model(), rhs.model(), self.rows_s(), self.cols_s())[i][j],
            ) by {
                lemma_index(i, j, self.rows_s() as int, self.cols_s() as int);
            }
        }
        r
    }

    /// Entry-wise difference, for matrices of the same shape over the same ring.
    pub fn sub(&self, rhs: &Self) -> (r: Self)
        requires
            self.well_formed(),
            rhs.well_formed(),
            rhs.ring_s() == self.ring_s(),
            self.rows_s() == rhs.rows_s(),
            self.cols_s() == rhs.cols_s(),
        ensures
            r.well_formed(),
            r.ring_s() == self.ring_s(),
            r.rows_s() == self.rows_s(),
            r.cols_s() == self.cols_s(),
            self.ring_s().sound() ==> grid_eqv(
                &self.ring_s(),
                r.model(),
                grid_sub(&self.ring_s(), self.model(), rhs.model(), self.rows_s(), self.cols_s()),
                self.rows_s(),
                self.cols_s(),
            ),
    {
        let ghost ring = self.ring_s();
        let n = self.entries.len();
        let mut entries: Vec<R::E> = Vec::new();
        for k in 0..n
            invariant
                self.well_formed(),
                rhs.well_formed(),
                ring == self.ring_s(),
                ring == rhs.ring_s(),
                n == self.entries_s().len(),
                n == rhs.entries_s().len(),
                entries@.len() == k,
                all_valid(&ring, entries@),
                forall|t: int|
                    0 <= t < k ==> ring.sound() ==> #[trigger] ring.eqv(
                        ring.model(entries@[t]),
                        ring.sub_s(ring.model(self.entries_s()[t]), ring.model(rhs.entries_s()[t])),
                    ),
        {
            assert(ring.valid(self.entries_s()[k as int]));
            assert(ring.valid(rhs.entries_s()[k as int]));
            let e = self.ring.sub(&self.entries[k], &rhs.entries[k]);
            entries.push(e);
        }
        let r = Matrix::new(self.ring.duplicate(), self.rows, self.cols, entries);
        proof {
            assert forall|i: int, j: int| 0 <= i < self.rows_s() && 0 <= j < self.cols_s() && ring.sound() implies #[trigger] ring.eqv(
                r.model()[i][j],
                grid_sub(&ring, self.model(), rhs.model(), self.rows_s(), self.cols_s())[i][j],
            ) by {
                lemma_index(i, j, self.rows_s() as int, self.cols_s() as int);
            }
        }
        r
    }

    /// Row-by-column, for `m × k` times `k × n`.
    pub fn mul(&self, rhs: &Self) -> (r: Self)
        requires
            self.well_formed(),
            rhs.well_formed(),
            rhs.ring_s() == self.ring_s(),
            self.cols_s() == rhs.rows_s(),
        ensures
            r.well_formed(),
            r.ring_s() == self.ring_s(),
            r.rows_s() == self.rows_s(),
            r.cols_s() == rhs.cols_s(),
            ring_laws(&self.ring_s()) ==> grid_eqv(
                &self.ring_s(),
                r.model(),
                grid_mul(&self.ring_s(), self.model(), rhs.model(), self.rows_s(), self.cols_s(), rhs.cols_s()),
                self.rows_s(),
                rhs.cols_s(),
            ),
    {
        let ghost ring = self.ring_s();
        let ghost laws = ring_laws(&ring);
        let ghost (ma, mb) = (self.model(), rhs.model());
        let rows = self.rows;
        let cols = rhs.cols;
        let inner = self.cols;
        let mut entries: Vec<R::E> = Vec::new();
        assert(0 * cols == 0);
        for i in 0..rows
            invariant
                self.well_formed(),
                rhs.well_formed(),
                ring == self.ring_s(),
                ring == rhs.ring_s(),
                laws == ring_laws(&ring),
                ma == self.model(),
                mb == rhs.model(),
                rows == self.rows_s(),
                cols == rhs.cols_s(),
                inner == self.cols_s(),
                inner == rhs.rows_s(),
                entries@.len() == i * cols,
                all_valid(&ring, entries@),
                laws ==> forall|a: int, b: int|
                    0 <= a < i && 0 <= b < cols ==> #[trigger] ring.eqv(
                        ring.model(entries@[a * cols + b]),
                        dot(&ring, ma, mb, a, b, inner as nat),
                    ),
        {
            for j in 0..cols
                invariant
                    self.well_formed(),
                    rhs.well_formed(),
                    ring == self.ring_s(),
                    ring == rhs.ring_s(),
                    laws == ring_laws(&ring),
                    ma == self.model(),
                    mb == rhs.model(),
                    rows == self.rows_s(),
                    cols == rhs.cols_s(),
                    inner == self.cols_s(),
                    inner == rhs.rows_s(),
                    i < rows,
                    entries@.len() == i * cols + j,
                    all_valid(&ring, entries@),
                    laws ==> forall|a: int, b: int|
                        0 <= a < i && 0 <= b < cols ==> #[trigger] ring.eqv(
                            ring.model(entries@[a * cols + b]),
                            dot(&ring, ma, mb, a, b, inner as nat),
                        ),
                    laws ==> forall|b: int|
                        0 <= b < j ==> #[trigger] ring.eqv(
                            ring.model(entries@[i * cols + b]),
                            dot(&ring, ma, mb, i as int, b, inner as nat),
                        ),
            {
                let mut sum = self.ring.zero();
                proof {
                    if laws {
                        lemma_ring_parts(&ring);
                    }
                }
                for k in 0..inner
                    invariant
                        self.well_formed(),
                        rhs.well_formed(),
                        ring == self.ring_s(),
                        ring == rhs.ring_s(),
                        laws == ring_laws(&ring),
                        ma == self.model(),
                        mb == rhs.model(),
                        rows == self.rows_s(),
                        cols == rhs.cols_s(),
                        inner == self.cols_s(),
                        inner == rhs.rows_s(),
                        i < rows,
                        j < cols,
                        ring.valid(sum),
                        laws ==> ring.eqv(ring.model(sum), dot(&ring, ma, mb, i as int, j as int, k as nat)),
                {
                    let x = self.get(i, k);
                    let y = rhs.get(k, j);
                    let term = self.ring.mul(x, y);
                    let next = self.ring.add(&sum, &term);
                    proof {
                        if laws {
                            lemma_ring_parts(&ring);
                            ring.lemma_valid_member(*x);
                            ring.lemma_valid_member(*y);
                            ring.lemma_valid_member(term);
                            ring.lemma_valid_member(sum);
                            ring.lemma_valid_member(next);
                            self.lemma_members();
                            rhs.lemma_members();
                            lemma_dot_member(&ring, ma, mb, i as int, j as int, k as nat, inner as nat);
                            lemma_refl(&ring, ring.model(*x));
                            lemma_refl(&ring, ring.model(*y));
                            lemma_mul_step(&ring, ring.model(term), ring.model(*x), ring.model(*y), ma[i as int][k as int], mb[k as int][j as int]);
                            lemma_add_step(
                                &ring,
                                ring.model(next),
                                ring.model(sum),
                                ring.model(term),
                                dot(&ring, ma, mb, i as int, j as int, k as nat),
                                ring.mul_s(ma[i as int][k as int], mb[k as int][j as int]),
                            );
                        }
                    }
                    sum = next;
                }
                entries.push(sum);
                proof {
                    if laws {
                        assert forall|a: int, b: int|
                            0 <= a < i && 0 <= b < cols implies #[trigger] ring.eqv(
                            ring.model(entries@[a * cols + b]),
                            dot(&ring, ma, mb, a, b, inner as nat),
                        ) by {
                            lemma_index(a, b, i as int, cols as int);
                        }
                        assert forall|b: int| 0 <= b < j + 1 implies #[trigger] ring.eqv(
                            ring.model(entries@[i * cols + b]),
                            dot(&ring, ma, mb, i as int, b, inner as nat),
                        ) by {
                            lemma_index(i as int, b, rows as int, cols as int);
                        }
                    }
                }
            }
            proof {
                assert((i + 1) * cols == i * cols + cols) by (nonlinear_arith);
            }
        }
        let r = Matrix::new(self.ring.duplicate(), rows, cols, entries);
        proof {
            if laws {
                assert forall|a: int, b: int| 0 <= a < rows && 0 <= b < cols implies #[trigger] ring.eqv(
                    r.model()[a][b],
                    grid_mul(&ring, ma, mb, rows as nat, inner as nat, cols as nat)[a][b],
                ) by {
                    lemma_index(a, b, rows as int, cols as int);
                    assert(ring.eqv(ring.model(entries@[a * cols + b]), dot(&ring, ma, mb, a, b, inner as nat)));
                }
            }
        }
        r
    }
}

/// Partial dot products of a grid's entries are members.
proof fn lemma_dot_member<R: Ring>(
    r: &R,
    a: Seq<Seq<R::M>>,
    b: Seq<Seq<R::M>>,
    i: int,
    j: int,
    t: nat,
    inner: nat,
)
    requires
        ring_laws(r),
        t <= inner,
        forall|k: int| 0 <= k < inner ==> r.member(#[trigger] a[i][k]),
        forall|k: int| 0 <= k < inner ==> r.member(#[trigger] b[k][j]),
    ensures
        r.member(dot(r, a, b, i, j, t)),
    decreases t,
{
    lemma_ring_parts(r);
    if t > 0 {
        lemma_dot_member(r, a, b, i, j, (t - 1) as nat, inner);
        crate::laws::lemma_mul_closed(r, a[i][t - 1], b[t - 1][j]);
        crate::laws::lemma_add_closed(r, dot(r, a, b, i, j, (t - 1) as nat), r.mul_s(a[i][t - 1], b[t - 1][j]));
    }
}


/// `1, 0 - 1, 0 - (0 - 1), ...`: the sign of the `i`-th cofactor.
pub open spec fn sign_s<R: Ring>(r: &R, i: nat) -> R::M
    decreases i,
{
    if i == 0 {
        r.one_s()
    } else {
        r.sub_s(r.zero_s(), sign_s(r, (i - 1) as nat))
    }
}

/// The determinant of the `n × n` grid `m`, by cofactor expansion along the first
/// column.
pub open spec fn det_s<R: Ring>(r: &R, m: Seq<Seq<R::M>>, n: nat) -> R::M
    decreases n, n + 1,
{
    if n <= 1 {
        m[0][0]
    } else {
        cofactor_sum(r, m, n, n)
    }
}

/// The first `t` terms `m[i][0] · sign_i · det(minor(i, 0))` of the expansion, added
/// up in increasing `i` from zero.
pub open spec fn cofactor_sum<R: Ring>(r: &R, m: Seq<Seq<R::M>>, n: nat, t: nat) -> R::M
    decreases n, t,
{
    if t == 0 || n == 0 || t > n {
        r.zero_s()
    } else {
        let i = t - 1;
        r.add_s(
            cofactor_sum(r, m, n, (t - 1) as nat),
            r.mul_s(r.mul_s(m[i][0], sign_s(r, i as nat)), det_s(r, minor_s(m, n, n, i, 0), (n - 1) as nat)),
        )
    }
}

pub proof fn lemma_sign_member<R: Ring>(r: &R, i: nat)
    requires
        ring_laws(r),
    ensures
        r.member(sign_s(r, i)),
    decreases i,
{
    lemma_ring_parts(r);
    if i > 0 {
        lemma_sign_member(r, (i - 1) as nat);
        crate::laws::lemma_sub_closed(r, r.zero_s(), sign_s(r, (i - 1) as nat));
    }
}

/// Whether `n + n` fits, for the side of a square of `n * n` entries that fit.
proof fn lemma_double_fits(n: int, len: int)
    requires
        0 <= n,
        len == n * n,
        len <= usize::MAX,
    ensures
        n + n <= usize::MAX,
{
    if n >= 2 {
        assert(n + n <= n * n) by (nonlinear_arith)
            requires
                n >= 2,
        ;
    }
}

impl<R: Ring> Matrix<R> {
    /// The determinant, by cofactor expansion along the first column.
    ///
    /// Needs no division, so it works over any ring, but costs `O(n!)`. The matrix
    /// must be square and not empty.
    pub fn determinant(&self) -> (r: R::E)
        requires
            self.well_formed(),
            self.rows_s() == self.cols_s(),
            self.rows_s() > 0,
        ensures
            self.ring_s().valid(r),
            ring_laws(&self.ring_s()) ==> self.ring_s().eqv(
                self.ring_s().model(r),
                det_s(&self.ring_s(), self.model(), self.rows_s()),
            ),
        decreases self.rows_s(),
    {
        let ghost ring = self.ring_s();
        let ghost laws = ring_laws(&ring);
        let ghost m = self.model();
        let n = self.rows;
        if n == 1 {
            let r = self.ring.copy(self.get(0, 0));
            proof {
                if laws {
                    lemma_ring_parts(&ring);
                    self.lemma_members();
                    lemma_refl(&ring, m[0][0]);
                }
            }
            return r;
        }
        let mut total = self.ring.zero();
        let mut sign = self.ring.identity();
        proof {
            if laws {
                lemma_ring_parts(&ring);
            }
        }
        for i in 0..n
            invariant
                self.well_formed(),
                ring == self.ring_s(),
                laws == ring_laws(&ring),
                m == self.model(),
                n == self.rows_s(),
                n == self.cols_s(),
                n >= 2,
                ring.valid(total),
                ring.valid(sign),
                laws ==> ring.eqv(ring.model(total), cofactor_sum(&ring, m, n as nat, i as nat)),
                laws ==> ring.eqv(ring.model(sign), sign_s(&ring, i as nat)),
        {
            let minor = self.minor(i, 0);
            let d = minor.determinant();
            let x = self.get(i, 0);
            let t1 = self.ring.mul(x, &sign);
            let term = self.ring.mul(&t1, &d);
            let next = self.ring.add(&total, &term);
            let zero = self.ring.zero();
            let next_sign = self.ring.sub(&zero, &sign);
            proof {
                if laws {
                    lemma_ring_parts(&ring);
                    self.lemma_members();
                    let mi = minor_s(m, n as nat, n as nat, i as int, 0);
                    minor.lemma_members();
                    lemma_det_member(&ring, mi, (n - 1) as nat);
                    lemma_sign_member(&ring, i as nat);
                    lemma_cofactor_member(&ring, m, n as nat, i as nat);
                    ring.lemma_valid_member(*x);
                    ring.lemma_valid_member(sign);
                    ring.lemma_valid_member(t1);
                    ring.lemma_valid_member(d);
                    ring.lemma_valid_member(term);
                    ring.lemma_valid_member(total);
                    ring.lemma_valid_member(next);
                    ring.lemma_valid_member(zero);
                    ring.lemma_valid_member(next_sign);
                    lemma_refl(&ring, m[i as int][0]);
                    lemma_mul_step(&ring, ring.model(t1), ring.model(*x), ring.model(sign), m[i as int][0], sign_s(&ring, i as nat));
                    lemma_mul_step(
                        &ring,
                        ring.model(term),
                        ring.model(t1),
                        ring.model(d),
                        ring.mul_s(m[i as int][0], sign_s(&ring, i as nat)),
                        det_s(&ring, mi, (n - 1) as nat),
                    );
                    lemma_add_step(
                        &ring,
                        ring.model(next),
                        ring.model(total),
                        ring.model(term),
                        cofactor_sum(&ring, m, n as nat, i as nat),
                        ring.mul_s(ring.mul_s(m[i as int][0], sign_s(&ring, i as nat)), det_s(&ring, mi, (n - 1) as nat)),
                    );
                    lemma_sub_step(&ring, ring.model(next_sign), ring.model(zero), ring.model(sign), ring.zero_s(), sign_s(&ring, i as nat));
                }
            }
            total = next;
            sign = next_sign;
        }
        total
    }
}

/// Every partial expansion is a member.
pub proof fn lemma_cofactor_member<R: Ring>(r: &R, m: Seq<Seq<R::M>>, n: nat, t: nat)
    requires
        ring_laws(r),
        n >= 2,
        forall|i: int, j: int| 0 <= i < n && 0 <= j < n ==> r.member(#[trigger] m[i][j]),
    ensures
        r.member(cofactor_sum(r, m, n, t)),
    decreases n, t,
{
    lemma_ring_parts(r);
    if t == 0 || n == 0 || t > n {
    } else {
        let i = t - 1;
        let mi = minor_s(m, n, n, i, 0);
        lemma_cofactor_member(r, m, n, (t - 1) as nat);
        lemma_sign_member(r, i as nat);
        assert forall|a: int, b: int| 0 <= a < n - 1 && 0 <= b < n - 1 implies r.member(#[trigger] mi[a][b]) by {
            assert(mi[a][b] == m[skip(a, i)][skip(b, 0)]);
        }
        lemma_det_member(r, mi, (n - 1) as nat);
        crate::laws::lemma_mul_closed(r, m[i][0], sign_s(r, i as nat));
        crate::laws::lemma_mul_closed(r, r.mul_s(m[i][0], sign_s(r, i as nat)), det_s(r, mi, (n - 1) as nat));
        crate::laws::lemma_add_closed(
            r,
            cofactor_sum(r, m, n, (t - 1) as nat),
            r.mul_s(r.mul_s(m[i][0], sign_s(r, i as nat)), det_s(r, mi, (n - 1) as nat)),
        );
    }
}

/// Determinants of grids of members are members.
pub proof fn lemma_det_member<R: Ring>(r: &R, m: Seq<Seq<R::M>>, n: nat)
    requires
        ring_laws(r),
        forall|i: int, j: int| 0 <= i < n && 0 <= j < n ==> r.member(#[trigger] m[i][j]),
        n >= 1,
    ensures
        r.member(det_s(r, m, n)),
    decreases n, n + 1,
{
    if n > 1 {
        lemma_cofactor_member(r, m, n, n);
    }
}

/// The `n × n` identity grid.
pub open spec fn identity_grid<R: Ring>(r: &R, n: nat) -> Seq<Seq<R::M>> {
    Seq::new(n, |i: int| Seq::new(n, |j: int| fill_s(r, true, i, j)))
}

/// The right halves of the first `n` augmented rows, as an `n × n` grid of models.
pub open spec fn right_half<R: Domain>(r: &R, a: Seq<Vec<R::E>>, n: nat) -> Seq<Seq<R::M>> {
    Seq::new(n, |i: int| Seq::new(n, |j: int| r.model(a[i]@[n + j])))
}

/// Augmented rows of well-formed entries have a right half of members.
proof fn lemma_right_half_members<R: Ring>(ring: &R, a: Seq<Vec<R::E>>, n: nat)
    requires
        ring.wf(),
        a.len() == n,
        forall|t: int| 0 <= t < n ==> (#[trigger] a[t])@.len() == n + n,
        forall|t: int, c: int| 0 <= t < n && 0 <= c < n + n ==> ring.valid(#[trigger] a[t]@[c]),
    ensures
        square_members(ring, right_half(ring, a, n), n),
{
    assert forall|i: int, j: int| 0 <= i < n && 0 <= j < n implies ring.member(
        #[trigger] right_half(ring, a, n)[i][j],
    ) by {
        assert(ring.valid(a[i]@[n + j]));
        ring.lemma_valid_member(a[i]@[n + j]);
    }
}

/// The left halves of the first `n` augmented rows, as an `n × n` grid of models.
pub open spec fn left_half<R: Domain>(r: &R, a: Seq<Vec<R::E>>, n: nat) -> Seq<Seq<R::M>> {
    Seq::new(n, |i: int| Seq::new(n, |j: int| r.model(a[i]@[j])))
}

/// When elimination finds no pivot in column `col` (every entry from the diagonal
/// down is zero, the columns before it being those of the identity), the matrix
/// being inverted has no left inverse: its columns are dependent.
proof fn lemma_no_pivot<F: Field>(
    ring: &F,
    a: Seq<Vec<F::E>>,
    am: Seq<Seq<F::M>>,
    sg: Seq<Seq<F::M>>,
    n: nat,
    col: int,
)
    requires
        field_laws(ring),
        ring.wf(),
        0 <= col < n,
        a.len() == n,
        forall|t: int| 0 <= t < n ==> (#[trigger] a[t])@.len() == n + n,
        forall|t: int, c: int| 0 <= t < n && 0 <= c < n + n ==> ring.valid(#[trigger] a[t]@[c]),
        square_members(ring, am, n),
        square_members(ring, sg, n),
        forall|t: int| 0 <= t < n ==> #[trigger] row_tracks(ring, models(ring, a[t]@), am, n),
        forall|t: int, c: int| 0 <= t < n && 0 <= c < col ==> #[trigger] ring.eqv(ring.model(a[t]@[c]), delta(ring, t, c)),
        forall|t: int| col <= t < n ==> #[trigger] ring.eqv(ring.model(a[t]@[col]), ring.zero_s()),
        undoes(ring, sg, right_half(ring, a, n), n),
    ensures
        !has_left_inverse(ring, am, n),
{
    lemma_field_parts(ring);
    lemma_ring_parts(ring);
    let l = left_half(ring, a, n);
    let t = right_half(ring, a, n);
    lemma_right_half_members(ring, a, n);
    assert forall|i: int, j: int| 0 <= i < n && 0 <= j < n implies ring.member(#[trigger] l[i][j]) by {
        assert(ring.valid(a[i]@[j]));
        ring.lemma_valid_member(a[i]@[j]);
    }
    assert(square_members(ring, l, n));
    // the left half is the right half times `am`
    assert forall|i: int, c: int| 0 <= i < n && 0 <= c < n implies #[trigger] ring.eqv(
        grid_mul(ring, t, am, n, n, n)[i][c],
        l[i][c],
    ) by {
        let row = models(ring, a[i]@);
        assert forall|k: int| 0 <= k < n implies #[trigger] t[i][k] == row[n + k] by {
        }
        lemma_dot_right_times(ring, t, row, am, i, c, n, n);
        lemma_row_ok(ring, a[i]@, am, n);
        crate::elimination::lemma_right_times_member(ring, row, am, c, n, n);
        assert(row_tracks(ring, row, am, n));
        assert(ring.eqv(row[c], right_times(ring, row, am, c, n, n)));
        lemma_sym(ring, row[c], right_times(ring, row, am, c, n, n));
    }
    assert forall|i: int, c: int| 0 <= i < n && 0 <= c < col implies #[trigger] ring.eqv(l[i][c], delta(ring, i, c)) by {
        assert(ring.eqv(ring.model(a[i]@[c]), delta(ring, i, c)));
    }
    assert forall|i: int| col <= i < n implies #[trigger] ring.eqv(l[i][col], ring.zero_s()) by {
        assert(ring.eqv(ring.model(a[i]@[col]), ring.zero_s()));
    }
    lemma_kernel_column(ring, l, n, col);
    let v = kernel_grid(ring, l, n, col);
    crate::laws::lemma_invertible(ring, ring.one_s());
    assert forall|b: Seq<Seq<F::M>>| square_members(ring, b, n) implies !#[trigger] undoes(ring, b, am, n) by {
        if undoes(ring, b, am, n) {
            lemma_kernel_trivial(ring, l, t, am, sg, b, v, n);
            assert(ring.eqv(v[col][0], zero_grid(ring, n)[col][0]));
        }
    }
}

/// The right half of an augmented row, times `a`, is the product of the grid holding
/// those right halves and `a`.
proof fn lemma_dot_right_times<R: Ring>(r: &R, m: Seq<Seq<R::M>>, row: Seq<R::M>, a: Seq<Seq<R::M>>, i: int, c: int, n: nat, t: nat)
    requires
        t <= n,
        forall|k: int| 0 <= k < n ==> #[trigger] m[i][k] == row[n + k],
    ensures
        dot(r, m, a, i, c, t) == right_times(r, row, a, c, n, t),
    decreases t,
{
    if t > 0 {
        lemma_dot_right_times(r, m, row, a, i, c, n, (t - 1) as nat);
        assert(m[i][t - 1] == row[n + t - 1]);
    }
}

/// A row of `2n` well-formed entries, against a grid of members.
proof fn lemma_row_ok<F: Field>(ring: &F, row: Seq<F::E>, a: Seq<Seq<F::M>>, n: nat)
    requires
        ring.wf(),
        row.len() == n + n,
        forall|k: int| 0 <= k < n + n ==> ring.valid(#[trigger] row[k]),
        forall|i: int, j: int| 0 <= i < n && 0 <= j < n ==> #[trigger] ring.member(a[i][j]),
    ensures
        augmented_ok(ring, models(ring, row), a, n),
{
    assert forall|k: int| 0 <= k < n + n implies #[trigger] ring.member(models(ring, row)[k]) by {
        assert(ring.valid(row[k]));
        ring.lemma_valid_member(row[k]);
    }
}

impl<F: Field> Matrix<F> {
    /// The inverse, or `None` if the matrix has none.
    ///
    /// Over a field in which every nonzero element can be inverted, `None` comes
    /// exactly when no matrix times `self` is the identity; elimination then meets a
    /// column with no nonzero pivot, whose columns so far are dependent.
    ///
    /// Gauss-Jordan elimination on `[self | I]`, which needs a field to scale pivot
    /// rows. The matrix must be square. Every row operation acts on both halves, so
    /// the left half stays the right half times `self`; once the left half is the
    /// identity, the right half is an inverse of `self` from the left. Undoing the
    /// same row operations as column operations on the identity rebuilds `self`,
    /// which makes it an inverse from the right as well.
    pub fn inverse(&self) -> (r: Option<Self>)
        requires
            self.well_formed(),
            self.rows_s() == self.cols_s(),
            self.ring_s().invert_defined(),
        ensures
            r matches Some(m) ==> m.well_formed() && m.rows_s() == self.rows_s() && m.cols_s() == self.rows_s()
                && m.ring_s() == self.ring_s(),
            r matches Some(m) ==> (field_laws(&self.ring_s()) ==> grid_eqv(
                &self.ring_s(),
                grid_mul(&self.ring_s(), m.model(), self.model(), self.rows_s(), self.rows_s(), self.rows_s()),
                identity_grid(&self.ring_s(), self.rows_s()),
                self.rows_s(),
                self.rows_s(),
            )),
            r matches Some(m) ==> (field_laws(&self.ring_s()) ==> grid_eqv(
                &self.ring_s(),
                grid_mul(&self.ring_s(), self.model(), m.model(), self.rows_s(), self.rows_s(), self.rows_s()),
                identity_grid(&self.ring_s(), self.rows_s()),
                self.rows_s(),
                self.rows_s(),
            )),
            field_laws(&self.ring_s()) && complete_field(&self.ring_s()) ==> (r is Some <==> has_left_inverse(
                &self.ring_s(),
                self.model(),
                self.rows_s(),
            )),
    {
        let ghost ring = self.ring_s();
        let ghost laws = field_laws(&ring);
        let ghost am = self.model();
        let n = self.rows;
        let len = self.entries.len();
        proof {
            lemma_double_fits(n as int, len as int);
            if laws {
                lemma_field_parts(&ring);
                self.lemma_members();
            }
        }
        let w = n + n;
        let zero = self.ring.zero();
        let one = self.ring.identity();
        // Work on [self | I], and row-reduce the left half to I.
        let mut a: Vec<Vec<F::E>> = Vec::new();
        for i in 0..n
            invariant
                self.well_formed(),
                ring == self.ring_s(),
                laws == field_laws(&ring),
                am == self.model(),
                n == self.rows_s(),
                n == self.cols_s(),
                w == n + n,
                ring.valid(zero),
                ring.valid(one),
                laws ==> ring.eqv(ring.model(zero), ring.zero_s()),
                laws ==> ring.eqv(ring.model(one), ring.one_s()),
                laws ==> forall|x: int, y: int| 0 <= x < n && 0 <= y < n ==> #[trigger] ring.member(am[x][y]),
                a@.len() == i,
                forall|r: int| 0 <= r < i ==> (#[trigger] a@[r])@.len() == w,
                forall|r: int, c: int| 0 <= r < i && 0 <= c < w ==> ring.valid(#[trigger] a@[r]@[c]),
                laws ==> forall|t: int| 0 <= t < i ==> #[trigger] row_tracks(&ring, models(&ring, a@[t]@), am, n as nat),
                laws ==> forall|t: int, k: int|
                    0 <= t < i && 0 <= k < n ==> #[trigger] ring.eqv(ring.model(a@[t]@[n + k]), delta(&ring, t, k)),
        {
            let mut row: Vec<F::E> = Vec::new();
            for j in 0..w
                invariant
                    self.well_formed(),
                    ring == self.ring_s(),
                    laws == field_laws(&ring),
                    am == self.model(),
                    n == self.rows_s(),
                    n == self.cols_s(),
                    w == n + n,
                    i < n,
                    ring.valid(zero),
                    ring.valid(one),
                    laws ==> ring.eqv(ring.model(zero), ring.zero_s()),
                    laws ==> ring.eqv(ring.model(one), ring.one_s()),
                    row@.len() == j,
                    all_valid(&ring, row@),
                    forall|k: int| 0 <= k < j && k < n ==> #[trigger] ring.model(row@[k]) == am[i as int][k],
                    laws ==> forall|k: int| n <= k < j ==> #[trigger] ring.eqv(ring.model(row@[k]), delta(&ring, i as int, k - n)),
            {
                let e = if j < n {
                    self.ring.copy(self.get(i, j))
                } else if j - n == i {
                    self.ring.copy(&one)
                } else {
                    self.ring.copy(&zero)
                };
                row.push(e);
            }
            proof {
                if laws {
                    lemma_row_ok(&ring, row@, am, n as nat);
                    assert forall|k: int| 0 <= k < n implies #[trigger] ring.eqv(
                        models(&ring, row@)[n + k],
                        delta(&ring, i as int, k),
                    ) by {
                        assert(ring.eqv(ring.model(row@[n + k]), delta(&ring, i as int, n + k - n)));
                    }
                    lemma_field_parts(&ring);
                    lemma_ring_parts(&ring);
                    lemma_initial_tracks(&ring, models(&ring, row@), am, i as int, n as nat);
                }
            }
            let ghost before = a@;
            a.push(row);
            proof {
                assert forall|t: int| 0 <= t < i + 1 implies #[trigger] a@[t] == (if t < i { before[t] } else { row }) by {
                }
                if laws {
                    assert forall|t: int, k: int| 0 <= t < i + 1 && 0 <= k < n implies #[trigger] ring.eqv(
                        ring.model(a@[t]@[n + k]),
                        delta(&ring, t, k),
                    ) by {
                        if t < i {
                            assert(a@[t] == before[t]);
                        } else {
                            assert(a@[t] == row);
                            assert(ring.eqv(ring.model(row@[n + k]), delta(&ring, i as int, n + k - n)));
                        }
                    }
                }
            }
        }
        // The right half starts as the identity; `sg` collects the inverses of the row
        // operations, as column operations, so that `sg` times the right half stays
        // the identity.
        let ghost mut sg: Seq<Seq<F::M>> = identity_grid(&ring, n as nat);
        proof {
            if laws {
                lemma_field_parts(&ring);
                lemma_right_half_members(&ring, a@, n as nat);
                let t0 = right_half(&ring, a@, n as nat);
                assert forall|i: int, j: int| 0 <= i < n && 0 <= j < n implies #[trigger] ring.eqv(
                    t0[i][j],
                    fill_s(&ring, true, i, j),
                ) by {
                    assert(ring.eqv(ring.model(a@[i]@[n + j]), delta(&ring, i, j)));
                }
                lemma_undoes_start(&ring, t0, n as nat);
            }
        }
        for col in 0..n
            invariant
                self.well_formed(),
                ring == self.ring_s(),
                ring.wf(),
                ring.invert_defined(),
                laws == field_laws(&ring),
                am == self.model(),
                n == self.rows_s(),
                n == self.cols_s(),
                w == n + n,
                ring.valid(zero),
                laws ==> ring.eqv(ring.model(zero), ring.zero_s()),
                laws ==> forall|x: int, y: int| 0 <= x < n && 0 <= y < n ==> #[trigger] ring.member(am[x][y]),
                a@.len() == n,
                forall|r: int| 0 <= r < n ==> (#[trigger] a@[r])@.len() == w,
                forall|r: int, c: int| 0 <= r < n && 0 <= c < w ==> ring.valid(#[trigger] a@[r]@[c]),
                laws ==> forall|t: int| 0 <= t < n ==> #[trigger] row_tracks(&ring, models(&ring, a@[t]@), am, n as nat),
                laws ==> forall|t: int, c: int|
                    0 <= t < n && 0 <= c < col ==> #[trigger] ring.eqv(ring.model(a@[t]@[c]), delta(&ring, t, c)),
                laws ==> square_members(&ring, sg, n as nat),
                laws ==> undoes(&ring, sg, right_half(&ring, a@, n as nat), n as nat),
        {
            // Find a pivot in this column, at or below the diagonal.
            let mut pivot = col;
            loop
                invariant_except_break
                    ring == self.ring_s(),
                    ring.wf(),
                    col <= pivot <= n,
                    col < n,
                    a@.len() == n,
                    w == n + n,
                    ring.valid(zero),
                    forall|r: int| 0 <= r < n ==> (#[trigger] a@[r])@.len() == w,
                    forall|r: int, c: int| 0 <= r < n && 0 <= c < w ==> ring.valid(#[trigger] a@[r]@[c]),
                    ring.sound() ==> forall|t: int| col <= t < pivot ==> #[trigger] ring.eqv(
                        ring.model(a@[t]@[col as int]),
                        ring.model(zero),
                    ),
                ensures
                    col <= pivot <= n,
                    ring.sound() ==> forall|t: int| col <= t < pivot ==> #[trigger] ring.eqv(
                        ring.model(a@[t]@[col as int]),
                        ring.model(zero),
                    ),
                    pivot < n ==> (ring.sound() ==> !ring.eqv(ring.model(a@[pivot as int]@[col as int]), ring.model(zero))),
                decreases n - pivot,
            {
                if pivot == n {
                    break;
                }
                assert(ring.valid(a@[pivot as int]@[col as int]));
                if !self.ring.equal(&a[pivot][col], &zero) {
                    break;
                }
                pivot = pivot + 1;
            }
            if pivot == n {
                proof {
                    if laws {
                        lemma_field_parts(&ring);
                        ring.lemma_valid_member(zero);
                        assert forall|t: int| col <= t < n implies #[trigger] ring.eqv(
                            ring.model(a@[t]@[col as int]),
                            ring.zero_s(),
                        ) by {
                            assert(ring.eqv(ring.model(a@[t]@[col as int]), ring.model(zero)));
                            assert(ring.valid(a@[t]@[col as int]));
                            ring.lemma_valid_member(a@[t]@[col as int]);
                            lemma_trans(&ring, ring.model(a@[t]@[col as int]), ring.model(zero), ring.zero_s());
                        }
                        assert forall|t: int| 0 <= t < n implies (#[trigger] a@[t])@.len() == n + n by {
                        }
                        assert forall|t: int, c: int| 0 <= t < n && 0 <= c < n + n implies ring.valid(#[trigger] a@[t]@[c]) by {
                        }
                        assert(square_members(&ring, am, n as nat));
                        lemma_no_pivot(&ring, a@, am, sg, n as nat, col as int);
                    }
                }
                return None;
            }
            let ghost unswapped = a@;
            if pivot != col {
                let mut upper: Vec<F::E> = Vec::new();
                a.set_and_swap(col, &mut upper);
                let mut lower: Vec<F::E> = Vec::new();
                a.set_and_swap(pivot, &mut lower);
                a.set(col, lower);
                a.set(pivot, upper);
            }
            let ghost swapped = a@;
            proof {
                assert forall|t: int| 0 <= t < n implies #[trigger] swapped[t] == unswapped[(if t == col {
                    pivot as int
                } else if t == pivot {
                    col as int
                } else {
                    t
                })] by {
                }
                if laws {
                    assert forall|t: int, c: int| 0 <= t < n && 0 <= c < col implies #[trigger] ring.eqv(
                        ring.model(swapped[t]@[c]),
                        delta(&ring, t, c),
                    ) by {
                        let u = if t == col { pivot as int } else if t == pivot { col as int } else { t };
                        assert(swapped[t] == unswapped[u]);
                        assert(ring.eqv(ring.model(unswapped[u]@[c]), delta(&ring, u, c)));
                    }
                    assert forall|t: int| 0 <= t < n implies #[trigger] row_tracks(&ring, models(&ring, swapped[t]@), am, n as nat) by {
                        let u = if t == col { pivot as int } else if t == pivot { col as int } else { t };
                        assert(swapped[t] == unswapped[u]);
                        assert(row_tracks(&ring, models(&ring, unswapped[u]@), am, n as nat));
                    }
                    lemma_field_parts(&ring);
                    lemma_right_half_members(&ring, unswapped, n as nat);
                    let t0 = right_half(&ring, unswapped, n as nat);
                    let t1 = right_half(&ring, swapped, n as nat);
                    assert forall|k: int, j: int| 0 <= k < n && 0 <= j < n implies #[trigger] t1[k][j] == t0[(if k == col {
                        pivot as int
                    } else if k == pivot {
                        col as int
                    } else {
                        k
                    })][j] by {
                        let u = if k == col { pivot as int } else if k == pivot { col as int } else { k };
                        assert(swapped[k] == unswapped[u]);
                    }
                    lemma_undoes_swap(&ring, sg, t0, t1, n as nat, col as int, pivot as int);
                    sg = swap_columns(sg, n as nat, col as int, pivot as int);
                }
            }
            assert(ring.valid(a@[col as int]@[col as int]));
            let scale = match self.ring.invert(&a[col][col]) {
                Some(s) => s,
                None => {
                    proof {
                        if laws && complete_field(&ring) {
                            // the pivot is nonzero, and a complete field inverts every
                            // nonzero element
                            lemma_field_parts(&ring);
                            let x = ring.model(a@[col as int]@[col as int]);
                            assert(a@[col as int] == unswapped[pivot as int]);
                            ring.lemma_valid_member(a@[col as int]@[col as int]);
                            ring.lemma_valid_member(zero);
                            if ring.eqv(x, ring.zero_s()) {
                                lemma_sym(&ring, ring.model(zero), ring.zero_s());
                                lemma_trans(&ring, x, ring.zero_s(), ring.model(zero));
                            }
                            assert(ring.invertible(x));
                        }
                    }
                    return None;
                },
            };
            // Scale the pivot row so the pivot becomes one.
            let mut pivot_row: Vec<F::E> = Vec::new();
            a.set_and_swap(col, &mut pivot_row);
            let ghost orig = pivot_row@;
            assert(orig == swapped[col as int]@);
            for k in col..w
                invariant
                    ring == self.ring_s(),
                    ring.wf(),
                    ring.valid(scale),
                    laws == field_laws(&ring),
                    col <= k <= w,
                    pivot_row@.len() == w,
                    orig.len() == w,
                    all_valid(&ring, pivot_row@),
                    forall|q: int| 0 <= q < w && (q < col || q >= k) ==> #[trigger] pivot_row@[q] == orig[q],
                    laws ==> forall|q: int| col <= q < k ==> #[trigger] ring.eqv(
                        ring.model(pivot_row@[q]),
                        ring.mul_s(ring.model(orig[q]), ring.model(scale)),
                    ),
            {
                assert(ring.valid(pivot_row@[k as int]));
                let e = self.ring.mul(&pivot_row[k], &scale);
                pivot_row.set(k, e);
                proof {
                    if laws {
                        lemma_field_parts(&ring);
                    }
                }
            }
            let ghost pr = models(&ring, pivot_row@);
            let ghost sm = ring.model(scale);
            proof {
                if laws {
                    lemma_field_parts(&ring);
                    lemma_ring_parts(&ring);
                    let om = models(&ring, orig);
                    lemma_row_ok(&ring, orig, am, n as nat);
                    lemma_row_ok(&ring, pivot_row@, am, n as nat);
                    ring.lemma_valid_member(scale);
                    assert forall|q: int| 0 <= q < n + n implies #[trigger] ring.eqv(pr[q], ring.mul_s(om[q], sm)) by {
                        if q < col {
                            // left of the pivot the row is zero, and stays so
                            assert(ring.eqv(ring.model(swapped[col as int]@[q]), delta(&ring, col as int, q)));
                            assert(pr[q] == om[q]);
                            crate::laws::lemma_zero_mul(&ring, sm);
                            lemma_refl(&ring, sm);
                            crate::laws::lemma_mul_congruent(&ring, om[q], ring.zero_s(), sm, sm);
                            crate::laws::lemma_mul_closed(&ring, om[q], sm);
                            crate::laws::lemma_mul_closed(&ring, ring.zero_s(), sm);
                            lemma_trans(&ring, ring.mul_s(om[q], sm), ring.mul_s(ring.zero_s(), sm), ring.zero_s());
                            lemma_sym(&ring, ring.mul_s(om[q], sm), ring.zero_s());
                            lemma_trans(&ring, pr[q], ring.zero_s(), ring.mul_s(om[q], sm));
                        } else {
                            assert(ring.eqv(ring.model(pivot_row@[q]), ring.mul_s(ring.model(orig[q]), sm)));
                        }
                    }
                    assert(row_tracks(&ring, om, am, n as nat));
                    crate::elimination::lemma_scaled_tracks(&ring, om, pr, sm, am, n as nat);
                    // the pivot is now one
                    crate::laws::lemma_inverse(&ring, om[col as int], sm);
                    assert(ring.eqv(pr[col as int], ring.mul_s(om[col as int], sm)));
                    crate::laws::lemma_mul_closed(&ring, om[col as int], sm);
                    lemma_trans(&ring, pr[col as int], ring.mul_s(om[col as int], sm), ring.one_s());
                    // left of the pivot the row is still zero
                    assert forall|q: int| 0 <= q < col implies #[trigger] ring.eqv(pr[q], ring.zero_s()) by {
                        assert(ring.eqv(ring.model(swapped[col as int]@[q]), delta(&ring, col as int, q)));
                        assert(pr[q] == om[q]);
                    }
                }
            }
            proof {
                if laws {
                    lemma_field_parts(&ring);
                    let om = models(&ring, orig);
                    let au = a@.update(col as int, pivot_row);
                    let t1 = right_half(&ring, swapped, n as nat);
                    let t2 = right_half(&ring, au, n as nat);
                    assert forall|t: int| 0 <= t < n implies (#[trigger] au[t])@.len() == n + n by {
                        if t != col {
                            assert(au[t] == swapped[t]);
                        }
                    }
                    assert forall|t: int, c: int| 0 <= t < n && 0 <= c < n + n implies ring.valid(#[trigger] au[t]@[c]) by {
                        if t != col {
                            assert(au[t] == swapped[t]);
                            assert(ring.valid(swapped[t]@[c]));
                        } else {
                            assert(au[t] == pivot_row);
                        }
                    }
                    lemma_right_half_members(&ring, swapped, n as nat);
                    lemma_right_half_members(&ring, au, n as nat);
                    lemma_row_ok(&ring, orig, am, n as nat);
                    ring.lemma_valid_member(scale);
                    crate::laws::lemma_inverse(&ring, om[col as int], sm);
                    assert forall|k: int, j: int| 0 <= k < n && 0 <= j < n && k != col implies #[trigger] ring.eqv(
                        t2[k][j],
                        t1[k][j],
                    ) by {
                        assert(au[k] == swapped[k]);
                        lemma_refl(&ring, t1[k][j]);
                    }
                    assert forall|j: int| 0 <= j < n implies #[trigger] ring.eqv(
                        t2[col as int][j],
                        ring.mul_s(t1[col as int][j], sm),
                    ) by {
                        assert(au[col as int] == pivot_row);
                        assert(t2[col as int][j] == pr[n + j]);
                        assert(t1[col as int][j] == om[n + j]);
                        assert(ring.eqv(pr[n + j], ring.mul_s(om[n + j], sm)));
                    }
                    lemma_undoes_scale(&ring, sg, t1, t2, n as nat, col as int, om[col as int], sm);
                    sg = scale_column(&ring, sg, n as nat, col as int, om[col as int]);
                }
            }
            // Clear the column everywhere else.
            for r in 0..n
                invariant
                    ring == self.ring_s(),
                    ring.wf(),
                    ring.valid(zero),
                    laws == field_laws(&ring),
                    laws ==> ring.eqv(ring.model(zero), ring.zero_s()),
                    am == self.model(),
                    laws ==> forall|x: int, y: int| 0 <= x < n && 0 <= y < n ==> #[trigger] ring.member(am[x][y]),
                    col < n,
                    w == n + n,
                    a@.len() == n,
                    swapped.len() == n,
                    pivot_row@.len() == w,
                    all_valid(&ring, pivot_row@),
                    pr == models(&ring, pivot_row@),
                    laws ==> row_tracks(&ring, pr, am, n as nat),
                    laws ==> ring.eqv(pr[col as int], ring.one_s()),
                    laws ==> forall|q: int| 0 <= q < col ==> #[trigger] ring.eqv(pr[q], ring.zero_s()),
                    forall|t: int| 0 <= t < n && t != col ==> (#[trigger] a@[t])@.len() == w,
                    forall|t: int, c: int| 0 <= t < n && t != col && 0 <= c < w ==> ring.valid(#[trigger] a@[t]@[c]),
                    forall|t: int| r <= t < n && t != col ==> #[trigger] a@[t] == swapped[t],
                    forall|t: int| 0 <= t < n ==> (#[trigger] swapped[t])@.len() == w,
                    forall|t: int, c: int| 0 <= t < n && 0 <= c < w ==> ring.valid(#[trigger] swapped[t]@[c]),
                    laws ==> forall|t: int| 0 <= t < n ==> #[trigger] row_tracks(&ring, models(&ring, swapped[t]@), am, n as nat),
                    laws ==> forall|t: int, c: int|
                        0 <= t < n && 0 <= c < col ==> #[trigger] ring.eqv(ring.model(swapped[t]@[c]), delta(&ring, t, c)),
                    laws ==> forall|t: int| 0 <= t < r && t != col ==> #[trigger] row_tracks(&ring, models(&ring, a@[t]@), am, n as nat),
                    laws ==> forall|t: int, c: int|
                        0 <= t < r && t != col && 0 <= c <= col ==> #[trigger] ring.eqv(ring.model(a@[t]@[c]), delta(&ring, t, c)),
                    laws ==> square_members(&ring, sg, n as nat),
                    laws ==> undoes(&ring, sg, right_half(&ring, a@.update(col as int, pivot_row), n as nat), n as nat),
            {
                if r != col {
                    assert(ring.valid(a@[r as int]@[col as int]));
                    if !self.ring.equal(&a[r][col], &zero) {
                        let factor = self.ring.copy(&a[r][col]);
                        let ghost a_before = a@;
                        let mut row: Vec<F::E> = Vec::new();
                        a.set_and_swap(r, &mut row);
                        let ghost orow = row@;
                        assert(orow == swapped[r as int]@);
                        for k in col..w
                            invariant
                                ring == self.ring_s(),
                                ring.wf(),
                                ring.valid(factor),
                                laws == field_laws(&ring),
                                col <= k <= w,
                                row@.len() == w,
                                orow.len() == w,
                                pivot_row@.len() == w,
                                all_valid(&ring, row@),
                                all_valid(&ring, pivot_row@),
                                forall|q: int| 0 <= q < w && (q < col || q >= k) ==> #[trigger] row@[q] == orow[q],
                                laws ==> forall|q: int| col <= q < k ==> #[trigger] ring.eqv(
                                    ring.model(row@[q]),
                                    ring.sub_s(ring.model(orow[q]), ring.mul_s(ring.model(factor), ring.model(pivot_row@[q]))),
                                ),
                        {
                            assert(ring.valid(row@[k as int]));
                            assert(ring.valid(pivot_row@[k as int]));
                            let subtract = self.ring.mul(&factor, &pivot_row[k]);
                            let e = self.ring.sub(&row[k], &subtract);
                            proof {
                                if laws {
                                    lemma_field_parts(&ring);
                                    lemma_ring_parts(&ring);
                                    ring.lemma_valid_member(row@[k as int]);
                                    ring.lemma_valid_member(pivot_row@[k as int]);
                                    ring.lemma_valid_member(factor);
                                    ring.lemma_valid_member(subtract);
                                    ring.lemma_valid_member(e);
                                    lemma_refl(&ring, ring.model(row@[k as int]));
                                    crate::laws::lemma_mul_closed(&ring, ring.model(factor), ring.model(pivot_row@[k as int]));
                                    lemma_sub_step(
                                        &ring,
                                        ring.model(e),
                                        ring.model(row@[k as int]),
                                        ring.model(subtract),
                                        ring.model(row@[k as int]),
                                        ring.mul_s(ring.model(factor), ring.model(pivot_row@[k as int])),
                                    );
                                }
                            }
                            row.set(k, e);
                        }
                        proof {
                            if laws {
                                lemma_field_parts(&ring);
                                lemma_ring_parts(&ring);
                                let om = models(&ring, orow);
                                let zm = models(&ring, row@);
                                let f = ring.model(factor);
                                lemma_row_ok(&ring, orow, am, n as nat);
                                lemma_row_ok(&ring, row@, am, n as nat);
                                lemma_row_ok(&ring, pivot_row@, am, n as nat);
                                ring.lemma_valid_member(factor);
                                assert forall|q: int| 0 <= q < n + n implies #[trigger] ring.eqv(
                                    zm[q],
                                    ring.sub_s(om[q], ring.mul_s(f, pr[q])),
                                ) by {
                                    if q < col {
                                        // the pivot row is zero there, so nothing is subtracted
                                        assert(ring.eqv(pr[q], ring.zero_s()));
                                        assert(zm[q] == om[q]);
                                        lemma_refl(&ring, f);
                                        crate::laws::lemma_mul_congruent(&ring, f, f, pr[q], ring.zero_s());
                                        crate::laws::lemma_mul_zero(&ring, f);
                                        crate::laws::lemma_mul_closed(&ring, f, pr[q]);
                                        crate::laws::lemma_mul_closed(&ring, f, ring.zero_s());
                                        lemma_trans(&ring, ring.mul_s(f, pr[q]), ring.mul_s(f, ring.zero_s()), ring.zero_s());
                                        lemma_refl(&ring, om[q]);
                                        crate::laws::lemma_sub_congruent(&ring, om[q], om[q], ring.mul_s(f, pr[q]), ring.zero_s());
                                        crate::elimination::lemma_sub_zero(&ring, om[q]);
                                        crate::laws::lemma_sub_closed(&ring, om[q], ring.mul_s(f, pr[q]));
                                        crate::laws::lemma_sub_closed(&ring, om[q], ring.zero_s());
                                        lemma_trans(&ring, ring.sub_s(om[q], ring.mul_s(f, pr[q])), ring.sub_s(om[q], ring.zero_s()), om[q]);
                                        lemma_sym(&ring, ring.sub_s(om[q], ring.mul_s(f, pr[q])), om[q]);
                                    } else {
                                        assert(ring.eqv(
                                            ring.model(row@[q]),
                                            ring.sub_s(ring.model(orow[q]), ring.mul_s(f, ring.model(pivot_row@[q]))),
                                        ));
                                    }
                                }
                                assert(row_tracks(&ring, om, am, n as nat));
                                crate::elimination::lemma_combination_tracks(&ring, om, pr, zm, f, am, n as nat);
                                // the column entry is now zero: f - f · 1 ~ 0
                                assert(ring.eqv(zm[col as int], ring.sub_s(om[col as int], ring.mul_s(f, pr[col as int]))));
                                assert(om[col as int] == f);
                                lemma_refl(&ring, f);
                                crate::laws::lemma_mul_congruent(&ring, f, f, pr[col as int], ring.one_s());
                                crate::laws::lemma_mul_one(&ring, f);
                                crate::laws::lemma_mul_closed(&ring, f, pr[col as int]);
                                crate::laws::lemma_mul_closed(&ring, f, ring.one_s());
                                lemma_trans(&ring, ring.mul_s(f, pr[col as int]), ring.mul_s(f, ring.one_s()), f);
                                crate::laws::lemma_sub_congruent(&ring, f, f, ring.mul_s(f, pr[col as int]), f);
                                crate::laws::lemma_sub_self(&ring, f);
                                crate::laws::lemma_sub_closed(&ring, f, ring.mul_s(f, pr[col as int]));
                                crate::laws::lemma_sub_closed(&ring, f, f);
                                lemma_trans(&ring, zm[col as int], ring.sub_s(f, ring.mul_s(f, pr[col as int])), ring.sub_s(f, f));
                                lemma_trans(&ring, zm[col as int], ring.sub_s(f, f), ring.zero_s());
                                assert forall|c: int| 0 <= c < col implies #[trigger] ring.eqv(ring.model(row@[c]), delta(&ring, r as int, c)) by {
                                    assert(row@[c] == orow[c]);
                                    assert(ring.eqv(ring.model(swapped[r as int]@[c]), delta(&ring, r as int, c)));
                                }
                            }
                        }
                        let ghost updated = row@;
                        a.set(r, row);
                        proof {
                            assert(a@[r as int]@ == updated);
                            if laws {
                                lemma_field_parts(&ring);
                                let f = ring.model(factor);
                                let om = models(&ring, orow);
                                let zm = models(&ring, updated);
                                let au0 = a_before.update(col as int, pivot_row);
                                let au1 = a@.update(col as int, pivot_row);
                                let t1 = right_half(&ring, au0, n as nat);
                                let t2 = right_half(&ring, au1, n as nat);
                                assert forall|t: int| 0 <= t < n implies (#[trigger] au0[t])@.len() == n + n && au1[t]@.len() == n + n by {
                                    if t != col && t != r {
                                        assert(au1[t] == au0[t]);
                                    }
                                }
                                assert forall|t: int, c: int| 0 <= t < n && 0 <= c < n + n implies ring.valid(#[trigger] au0[t]@[c]) && ring.valid(au1[t]@[c]) by {
                                    if t == col {
                                        assert(au0[t] == pivot_row && au1[t] == pivot_row);
                                    } else if t == r {
                                        assert(au0[t] == swapped[t]);
                                        assert(ring.valid(swapped[t]@[c]));
                                        assert(au1[t]@ == updated);
                                    } else {
                                        assert(au1[t] == au0[t]);
                                        assert(au0[t] == a_before[t]);
                                    }
                                }
                                assert forall|t: int| 0 <= t < n implies (#[trigger] au1[t])@.len() == n + n by {
                                    assert(au0[t]@.len() == n + n);
                                }
                                assert forall|t: int, c: int| 0 <= t < n && 0 <= c < n + n implies ring.valid(#[trigger] au1[t]@[c]) by {
                                    assert(ring.valid(au0[t]@[c]));
                                }
                                lemma_right_half_members(&ring, au0, n as nat);
                                lemma_right_half_members(&ring, au1, n as nat);
                                ring.lemma_valid_member(factor);
                                assert forall|k: int, j: int| 0 <= k < n && 0 <= j < n && k != r implies #[trigger] ring.eqv(
                                    t2[k][j],
                                    t1[k][j],
                                ) by {
                                    assert(au1[k] == au0[k]);
                                    lemma_refl(&ring, t1[k][j]);
                                }
                                assert forall|j: int| 0 <= j < n implies #[trigger] ring.eqv(
                                    t2[r as int][j],
                                    ring.sub_s(t1[r as int][j], ring.mul_s(f, t1[col as int][j])),
                                ) by {
                                    assert(au1[r as int]@ == updated);
                                    assert(au0[r as int] == swapped[r as int]);
                                    assert(au0[col as int] == pivot_row);
                                    assert(t2[r as int][j] == zm[n + j]);
                                    assert(t1[r as int][j] == om[n + j]);
                                    assert(t1[col as int][j] == pr[n + j]);
                                    assert(ring.eqv(zm[n + j], ring.sub_s(om[n + j], ring.mul_s(f, pr[n + j]))));
                                }
                                lemma_undoes_add(&ring, sg, t1, t2, n as nat, col as int, r as int, f);
                                sg = add_column(&ring, sg, n as nat, col as int, r as int, f);
                            }
                        }
                    } else {
                        proof {
                            if laws {
                                lemma_field_parts(&ring);
                                lemma_ring_parts(&ring);
                                ring.lemma_valid_member(a@[r as int]@[col as int]);
                                ring.lemma_valid_member(zero);
                                lemma_trans(&ring, ring.model(a@[r as int]@[col as int]), ring.model(zero), ring.zero_s());
                                assert(a@[r as int] == swapped[r as int]);
                                assert forall|c: int| 0 <= c < col implies #[trigger] ring.eqv(ring.model(a@[r as int]@[c]), delta(&ring, r as int, c)) by {
                                    assert(ring.eqv(ring.model(swapped[r as int]@[c]), delta(&ring, r as int, c)));
                                }
                                assert(row_tracks(&ring, models(&ring, swapped[r as int]@), am, n as nat));
                            }
                        }
                    }
                }
            }
            let ghost cleared = a@;
            a.set(col, pivot_row);
            proof {
                assert forall|t: int| 0 <= t < n implies #[trigger] a@[t] == (if t == col { a@[col as int] } else { cleared[t] }) by {
                }
                if laws {
                    assert forall|t: int, c: int| 0 <= t < n && 0 <= c < col + 1 implies #[trigger] ring.eqv(
                        ring.model(a@[t]@[c]),
                        delta(&ring, t, c),
                    ) by {
                        if t == col {
                            assert(models(&ring, a@[t]@) == pr);
                            if c < col {
                                assert(ring.eqv(pr[c], ring.zero_s()));
                            }
                        } else {
                            assert(ring.eqv(ring.model(cleared[t]@[c]), delta(&ring, t, c)));
                        }
                    }
                    assert forall|t: int| 0 <= t < n implies #[trigger] row_tracks(&ring, models(&ring, a@[t]@), am, n as nat) by {
                        if t == col {
                            assert(models(&ring, a@[t]@) == pr);
                        } else {
                            assert(row_tracks(&ring, models(&ring, cleared[t]@), am, n as nat));
                        }
                    }
                }
            }
        }
        let mut entries: Vec<F::E> = Vec::new();
        assert(0 * n == 0);
        for i in 0..n
            invariant
                ring == self.ring_s(),
                ring.wf(),
                n == self.rows_s(),
                w == n + n,
                a@.len() == n,
                forall|r: int| 0 <= r < n ==> (#[trigger] a@[r])@.len() == w,
                forall|r: int, c: int| 0 <= r < n && 0 <= c < w ==> ring.valid(#[trigger] a@[r]@[c]),
                entries@.len() == i * n,
                all_valid(&ring, entries@),
                forall|p: int, q: int| 0 <= p < i && 0 <= q < n ==> #[trigger] ring.model(entries@[p * n + q]) == ring.model(a@[p]@[n + q]),
        {
            for j in n..w
                invariant
                    ring == self.ring_s(),
                    ring.wf(),
                    n == self.rows_s(),
                    w == n + n,
                    i < n,
                    a@.len() == n,
                    forall|r: int| 0 <= r < n ==> (#[trigger] a@[r])@.len() == w,
                    forall|r: int, c: int| 0 <= r < n && 0 <= c < w ==> ring.valid(#[trigger] a@[r]@[c]),
                    entries@.len() == i * n + (j - n),
                    all_valid(&ring, entries@),
                    forall|p: int, q: int| 0 <= p < i && 0 <= q < n ==> #[trigger] ring.model(entries@[p * n + q]) == ring.model(a@[p]@[n + q]),
                    forall|q: int| 0 <= q < j - n ==> #[trigger] ring.model(entries@[i * n + q]) == ring.model(a@[i as int]@[n + q]),
            {
                assert(ring.valid(a@[i as int]@[j as int]));
                let e = self.ring.copy(&a[i][j]);
                let ghost before = entries@;
                entries.push(e);
                proof {
                    assert forall|p: int, q: int| 0 <= p < i && 0 <= q < n implies #[trigger] ring.model(entries@[p * n + q]) == ring.model(a@[p]@[n + q]) by {
                        lemma_index(p, q, i as int, n as int);
                        assert(entries@[p * n + q] == before[p * n + q]);
                    }
                    assert forall|q: int| 0 <= q < j + 1 - n implies #[trigger] ring.model(entries@[i * n + q]) == ring.model(a@[i as int]@[n + q]) by {
                        if q < j - n {
                            assert(entries@[i * n + q] == before[i * n + q]);
                        }
                    }
                }
            }
            proof {
                assert((i + 1) * n == i * n + n) by (nonlinear_arith);
                assert forall|p: int, q: int| 0 <= p < i + 1 && 0 <= q < n implies #[trigger] ring.model(entries@[p * n + q]) == ring.model(a@[p]@[n + q]) by {
                    if p == i {
                        assert(ring.model(entries@[i * n + q]) == ring.model(a@[i as int]@[n + q]));
                    }
                }
            }
        }
        let m = Matrix::new(self.ring.duplicate(), n, n, entries);
        proof {
            if laws {
                lemma_field_parts(&ring);
                lemma_ring_parts(&ring);
                assert forall|i: int, c: int| 0 <= i < n && 0 <= c < n implies #[trigger] ring.eqv(
                    grid_mul(&ring, m.model(), am, n as nat, n as nat, n as nat)[i][c],
                    identity_grid(&ring, n as nat)[i][c],
                ) by {
                    let row = models(&ring, a@[i]@);
                    assert forall|k: int| 0 <= k < n implies #[trigger] m.model()[i][k] == row[n + k] by {
                        lemma_index(i, k, n as int, n as int);
                        assert(ring.model(entries@[i * n + k]) == ring.model(a@[i]@[n + k]));
                    }
                    lemma_dot_right_times(&ring, m.model(), row, am, i, c, n as nat, n as nat);
                    lemma_row_ok(&ring, a@[i]@, am, n as nat);
                    assert(row_tracks(&ring, row, am, n as nat));
                    assert(ring.eqv(row[c], right_times(&ring, row, am, c, n as nat, n as nat)));
                    crate::elimination::lemma_right_times_member(&ring, row, am, c, n as nat, n as nat);
                    lemma_sym(&ring, row[c], right_times(&ring, row, am, c, n as nat, n as nat));
                    assert(ring.eqv(ring.model(a@[i]@[c]), delta(&ring, i, c)));
                    lemma_trans(&ring, right_times(&ring, row, am, c, n as nat, n as nat), row[c], delta(&ring, i, c));
                }
                // The right inverse: `sg` undoes `m`, and `m` undoes `self`, so `sg` is
                // `self` and `m` undoes it from the right too.
                let mm = m.model();
                assert forall|i: int, k: int| 0 <= i < n && 0 <= k < n implies #[trigger] mm[i][k] == right_half(
                    &ring,
                    a@,
                    n as nat,
                )[i][k] by {
                    lemma_index(i, k, n as int, n as int);
                    assert(ring.model(entries@[i * n + k]) == ring.model(a@[i]@[n + k]));
                }
                assert(mm =~~= right_half(&ring, a@, n as nat));
                lemma_right_half_members(&ring, a@, n as nat);
                assert(square_members(&ring, am, n as nat));
                assert forall|i: int, j: int| 0 <= i < n && 0 <= j < n implies #[trigger] ring.eqv(
                    grid_mul(&ring, mm, am, n as nat, n as nat, n as nat)[i][j],
                    fill_s(&ring, true, i, j),
                ) by {
                    assert(ring.eqv(
                        grid_mul(&ring, mm, am, n as nat, n as nat, n as nat)[i][j],
                        identity_grid(&ring, n as nat)[i][j],
                    ));
                }
                lemma_two_sided(&ring, sg, mm, am, n as nat);
                assert(undoes(&ring, mm, am, n as nat));
                assert forall|i: int, j: int| 0 <= i < n && 0 <= j < n implies #[trigger] ring.eqv(
                    grid_mul(&ring, am, mm, n as nat, n as nat, n as nat)[i][j],
                    identity_grid(&ring, n as nat)[i][j],
                ) by {
                    assert(ring.eqv(grid_mul(&ring, am, mm, n as nat, n as nat, n as nat)[i][j], fill_s(&ring, true, i, j)));
                }
            }
        }
        Some(m)
    }
}


/// The ring of `n × n` matrices over `R`.
pub struct MatrixRing<R: Ring + DecidableEq> {
    base: R,
    dimension: usize,
}

impl<R: Ring + DecidableEq> MatrixRing<R> {
    /// The ring the entries live in.
    pub closed spec fn base_s(&self) -> R {
        self.base
    }

    /// The side length.
    pub closed spec fn dimension_s(&self) -> nat {
        self.dimension as nat
    }

    /// The ring of `n × n` matrices over `base`.
    pub fn new(base: R, dimension: usize) -> (r: Rc<Self>)
        ensures
            r.base_s() == base,
            r.dimension_s() == dimension,
    {
        Rc::new(MatrixRing { base, dimension })
    }

    /// The ring the entries live in.
    pub fn base(&self) -> (r: &R)
        ensures
            *r == self.base_s(),
    {
        &self.base
    }

    /// The side length of these matrices.
    pub fn dimension(&self) -> (r: usize)
        ensures
            r == self.dimension_s(),
    {
        self.dimension
    }
}

/// A grid of members, `n × n`.
pub open spec fn square_members<R: Domain>(r: &R, m: Seq<Seq<R::M>>, n: nat) -> bool {
    &&& m.len() == n
    &&& forall|i: int| 0 <= i < n ==> (#[trigger] m[i]).len() == n
    &&& forall|i: int, j: int| 0 <= i < n && 0 <= j < n ==> r.member(#[trigger] m[i][j])
}

/// A square `n × n` matrix over the base ring, filled in by `entry`: `zero` or
/// `identity`.
/// One on the diagonal if asked for, zero everywhere else.
pub open spec fn fill_s<R: Ring>(r: &R, diagonal_one: bool, i: int, j: int) -> R::M {
    if diagonal_one && i == j {
        r.one_s()
    } else {
        r.zero_s()
    }
}

/// A square matrix with one on the diagonal if asked for, zero everywhere else.
fn filled<R: Ring + DecidableEq>(h: &Rc<MatrixRing<R>>, diagonal_one: bool) -> (r: Matrix<R>)
    requires
        (**h).base_s().wf(),
        (**h).dimension_s() * (**h).dimension_s() <= usize::MAX,
    ensures
        r.well_formed(),
        r.rows_s() == (**h).dimension_s(),
        r.cols_s() == (**h).dimension_s(),
        r.ring_s() == (**h).base_s(),
        (**h).base_s().sound() ==> forall|i: int, j: int|
            0 <= i < (**h).dimension_s() && 0 <= j < (**h).dimension_s() ==> #[trigger] (**h).base_s().eqv(
                r.model()[i][j],
                fill_s(&(**h).base_s(), diagonal_one, i as int, j as int),
            ),
{
    let ghost base = (**h).base_s();
    let n = h.dimension;
    let mut entries: Vec<R::E> = Vec::new();
    assert(0 * n == 0);
    for i in 0..n
        invariant
            base == (**h).base_s(),
            base.wf(),
            n == (**h).dimension_s(),
            n * n <= usize::MAX,
            entries@.len() == i * n,
            all_valid(&base, entries@),
            base.sound() ==> forall|a: int, b: int|
                0 <= a < i && 0 <= b < n ==> #[trigger] base.eqv(
                    base.model(entries@[a * n + b]),
                    fill_s(&base, diagonal_one, a as int, b as int),
                ),
    {
        for j in 0..n
            invariant
                base == (**h).base_s(),
                base.wf(),
                n == (**h).dimension_s(),
                n * n <= usize::MAX,
                i < n,
                entries@.len() == i * n + j,
                all_valid(&base, entries@),
                base.sound() ==> forall|a: int, b: int|
                    0 <= a < i && 0 <= b < n ==> #[trigger] base.eqv(
                        base.model(entries@[a * n + b]),
                        fill_s(&base, diagonal_one, a as int, b as int),
                    ),
                base.sound() ==> forall|b: int|
                    0 <= b < j ==> #[trigger] base.eqv(
                        base.model(entries@[i * n + b]),
                        fill_s(&base, diagonal_one, i as int, b as int),
                    ),
        {
            let e = if diagonal_one && i == j {
                h.base.identity()
            } else {
                h.base.zero()
            };
            entries.push(e);
            proof {
                if base.sound() {
                    assert forall|a: int, b: int| 0 <= a < i && 0 <= b < n implies #[trigger] base.eqv(
                        base.model(entries@[a * n + b]),
                        fill_s(&base, diagonal_one, a as int, b as int),
                    ) by {
                        lemma_index(a, b, i as int, n as int);
                    }
                    assert forall|b: int| 0 <= b < j + 1 implies #[trigger] base.eqv(
                        base.model(entries@[i * n + b]),
                        fill_s(&base, diagonal_one, i as int, b as int),
                    ) by {
                        lemma_index(i as int, b, n as int, n as int);
                    }
                }
            }
        }
        proof {
            assert((i + 1) * n == i * n + n) by (nonlinear_arith);
        }
    }
    let r = Matrix::new(h.base.duplicate(), n, n, entries);
    proof {
        if base.sound() {
            assert forall|a: int, b: int| 0 <= a < n && 0 <= b < n implies #[trigger] base.eqv(
                r.model()[a][b],
                fill_s(&base, diagonal_one, a as int, b as int),
            ) by {
                lemma_index(a, b, n as int, n as int);
            }
        }
    }
    r
}

impl<R: Ring + DecidableEq> Domain for Rc<MatrixRing<R>> {
    type E = Matrix<R>;
    /// Entries in row-major order.
    type Repr = Vec<R::E>;
    type M = Seq<Seq<R::M>>;

    open spec fn wf(&self) -> bool {
        &&& (**self).base_s().wf()
        &&& (**self).dimension_s() * (**self).dimension_s() <= usize::MAX
    }

    /// The entries form a ring.
    open spec fn sound(&self) -> bool {
        ring_laws(&(**self).base_s())
    }

    open spec fn model(&self, x: Matrix<R>) -> Seq<Seq<R::M>> {
        x.model()
    }

    open spec fn valid(&self, x: Matrix<R>) -> bool {
        &&& x.well_formed()
        &&& x.ring_s() == (**self).base_s()
        &&& x.rows_s() == (**self).dimension_s()
        &&& x.cols_s() == (**self).dimension_s()
    }

    open spec fn member(&self, a: Seq<Seq<R::M>>) -> bool {
        square_members(&(**self).base_s(), a, (**self).dimension_s())
    }

    open spec fn eqv(&self, a: Seq<Seq<R::M>>, b: Seq<Seq<R::M>>) -> bool {
        grid_eqv(&(**self).base_s(), a, b, (**self).dimension_s(), (**self).dimension_s())
    }

    /// Exactly `n * n` entries.
    open spec fn repr_ok(&self, v: Vec<R::E>) -> bool {
        &&& v@.len() == (**self).dimension_s() * (**self).dimension_s()
        &&& all_valid(&(**self).base_s(), v@)
    }

    open spec fn denote(&self, v: Vec<R::E>) -> Seq<Seq<R::M>> {
        grid(&(**self).base_s(), v@, (**self).dimension_s(), (**self).dimension_s())
    }

    proof fn lemma_valid_member(&self, x: Matrix<R>) {
        x.lemma_members();
    }

    proof fn lemma_repr_member(&self, v: Vec<R::E>) {
        let base = (**self).base_s();
        let n = (**self).dimension_s();
        assert forall|i: int, j: int| 0 <= i < n && 0 <= j < n implies base.member(#[trigger] self.denote(v)[i][j]) by {
            lemma_index(i, j, n as int, n as int);
            assert(base.valid(v@[i * n + j]));
            base.lemma_valid_member(v@[i * n + j]);
        }
    }

    fn element(&self, value: Vec<R::E>) -> (r: Matrix<R>) {
        let r = Matrix::new(self.base.duplicate(), self.dimension, self.dimension, value);
        proof {
            if self.sound() {
                lemma_ring_parts(&(**self).base_s());
                r.lemma_members();
                assert forall|i: int, j: int| 0 <= i < self.dimension && 0 <= j < self.dimension implies #[trigger] (**self).base_s().eqv(
                    r.model()[i][j],
                    r.model()[i][j],
                ) by {
                    lemma_refl(&(**self).base_s(), r.model()[i][j]);
                }
            }
        }
        r
    }

    fn duplicate(&self) -> (r: Rc<MatrixRing<R>>) {
        crate::quotient::share(self)
    }

    fn copy(&self, x: &Matrix<R>) -> (r: Matrix<R>) {
        let ghost base = x.ring_s();
        let n = x.entries.len();
        let mut entries: Vec<R::E> = Vec::new();
        for k in 0..n
            invariant
                base == x.ring_s(),
                n == x.entries_s().len(),
                entries@.len() == k,
                forall|t: int| 0 <= t < k ==> base.valid(x.entries_s()[t]) ==> #[trigger] base.model(entries@[t]) == base.model(x.entries_s()[t]),
                forall|t: int| 0 <= t < k ==> base.valid(x.entries_s()[t]) ==> #[trigger] base.valid(entries@[t]),
        {
            let e = x.ring.copy(&x.entries[k]);
            entries.push(e);
        }
        let r = Matrix { rows: x.rows, cols: x.cols, entries, ring: x.ring.duplicate() };
        proof {
            if self.valid(*x) {
            assert forall|i: int| 0 <= i < x.rows_s() implies #[trigger] r.model()[i] =~= x.model()[i] by {
                assert forall|j: int| 0 <= j < x.cols_s() implies #[trigger] r.model()[i][j] == x.model()[i][j] by {
                    lemma_index(i, j, x.rows_s() as int, x.cols_s() as int);
                    let t = i * x.cols_s() + j;
                    assert(base.valid(x.entries_s()[t]));
                    assert(base.model(entries@[t]) == base.model(x.entries_s()[t]));
                }
            }
            assert(r.model() =~= x.model());
            }
        }
        r
    }
}

impl<R: Ring + DecidableEq> DecidableEq for Rc<MatrixRing<R>> {
    /// The same shape and the same entries.
    fn equal(&self, a: &Matrix<R>, b: &Matrix<R>) -> (r: bool) {
        let ghost base = (**self).base_s();
        let n = a.entries.len();
        for k in 0..n
            invariant
                self.wf(),
                self.valid(*a),
                self.valid(*b),
                base == (**self).base_s(),
                n == a.entries_s().len(),
                n == b.entries_s().len(),
                base.sound() ==> forall|t: int|
                    0 <= t < k ==> #[trigger] base.eqv(base.model(a.entries_s()[t]), base.model(b.entries_s()[t])),
        {
            assert(base.valid(a.entries_s()[k as int]));
            assert(base.valid(b.entries_s()[k as int]));
            if !self.base.equal(&a.entries[k], &b.entries[k]) {
                proof {
                    let dn = (**self).dimension_s();
                    if self.sound() {
                        lemma_ring_parts(&base);
                        assert(dn > 0) by (nonlinear_arith)
                            requires
                                0 <= k < dn * dn,
                        ;
                        let i = (k as int) / (dn as int);
                        let j = (k as int) % (dn as int);
                        vstd::arithmetic::div_mod::lemma_fundamental_div_mod(k as int, dn as int);
                        vstd::arithmetic::div_mod::lemma_mod_bound(k as int, dn as int);
                        assert(0 <= i < dn) by (nonlinear_arith)
                            requires
                                0 <= k < dn * dn,
                                k == dn * i + j,
                                0 <= j < dn,
                        ;
                        assert(k == i * dn + j) by (nonlinear_arith)
                            requires
                                k == dn * i + j,
                        ;
                        assert(!base.eqv(a.model()[i][j], b.model()[i][j]));
                    }
                }
                return false;
            }
        }
        proof {
            if self.sound() {
                lemma_ring_parts(&base);
                let dn = (**self).dimension_s();
                assert forall|i: int, j: int| 0 <= i < dn && 0 <= j < dn implies #[trigger] base.eqv(
                    a.model()[i][j],
                    b.model()[i][j],
                ) by {
                    lemma_index(i, j, dn as int, dn as int);
                }
            }
        }
        true
    }
}

impl<R: Ring + DecidableEq> CommutativeMonoid for Rc<MatrixRing<R>> {
    open spec fn add_s(&self, a: Seq<Seq<R::M>>, b: Seq<Seq<R::M>>) -> Seq<Seq<R::M>> {
        grid_add(&(**self).base_s(), a, b, (**self).dimension_s(), (**self).dimension_s())
    }

    open spec fn zero_s(&self) -> Seq<Seq<R::M>> {
        Seq::new((**self).dimension_s(), |i: int| Seq::new((**self).dimension_s(), |j: int| (**self).base_s().zero_s()))
    }

    fn add(&self, a: &Matrix<R>, b: &Matrix<R>) -> (r: Matrix<R>) {
        proof {
            if self.sound() {
                lemma_ring_parts(&(**self).base_s());
            }
        }
        a.add(b)
    }

    fn zero(&self) -> (r: Matrix<R>) {
        proof {
            if self.sound() {
                lemma_ring_parts(&(**self).base_s());
            }
        }
        let r = filled(self, false);
        proof {
            let base = (**self).base_s();
            let n = (**self).dimension_s();
            if self.sound() {
                assert forall|i: int, j: int| 0 <= i < n && 0 <= j < n implies #[trigger] base.eqv(
                    r.model()[i][j],
                    self.zero_s()[i][j],
                ) by {
                    assert(base.eqv(r.model()[i][j], fill_s(&base, false, i, j)));
                }
            }
        }
        r
    }
}

impl<R: Ring + DecidableEq> AdditiveGroup for Rc<MatrixRing<R>> {
    open spec fn sub_s(&self, a: Seq<Seq<R::M>>, b: Seq<Seq<R::M>>) -> Seq<Seq<R::M>> {
        grid_sub(&(**self).base_s(), a, b, (**self).dimension_s(), (**self).dimension_s())
    }

    fn sub(&self, a: &Matrix<R>, b: &Matrix<R>) -> (r: Matrix<R>) {
        proof {
            if self.sound() {
                lemma_ring_parts(&(**self).base_s());
            }
        }
        a.sub(b)
    }
}

impl<R: Ring + DecidableEq> Semigroup for Rc<MatrixRing<R>> {
    open spec fn mul_s(&self, a: Seq<Seq<R::M>>, b: Seq<Seq<R::M>>) -> Seq<Seq<R::M>> {
        let n = (**self).dimension_s();
        grid_mul(&(**self).base_s(), a, b, n, n, n)
    }

    fn mul(&self, a: &Matrix<R>, b: &Matrix<R>) -> (r: Matrix<R>) {
        a.mul(b)
    }
}

impl<R: Ring + DecidableEq> Monoid for Rc<MatrixRing<R>> {
    /// The identity matrix.
    open spec fn one_s(&self) -> Seq<Seq<R::M>> {
        Seq::new(
            (**self).dimension_s(),
            |i: int|
                Seq::new(
                    (**self).dimension_s(),
                    |j: int| if i == j { (**self).base_s().one_s() } else { (**self).base_s().zero_s() },
                ),
        )
    }

    fn identity(&self) -> (r: Matrix<R>) {
        proof {
            if self.sound() {
                lemma_ring_parts(&(**self).base_s());
            }
        }
        let r = filled(self, true);
        proof {
            let base = (**self).base_s();
            let n = (**self).dimension_s();
            if self.sound() {
                assert forall|i: int, j: int| 0 <= i < n && 0 <= j < n implies #[trigger] base.eqv(
                    r.model()[i][j],
                    self.one_s()[i][j],
                ) by {
                    assert(base.eqv(r.model()[i][j], fill_s(&base, true, i, j)));
                }
            }
        }
        r
    }
}

impl<R: Ring + DecidableEq> SemiRing for Rc<MatrixRing<R>> {

}

impl<R: Ring + DecidableEq> Ring for Rc<MatrixRing<R>> {

}

/// The texts of `t` entries from `start` on, joined by `, `.
pub open spec fn entries_text<R: Render>(r: &R, e: Seq<R::E>, start: int, t: nat) -> Seq<char>
    decreases t,
{
    if t == 0 {
        Seq::empty()
    } else {
        entries_text(r, e, start, (t - 1) as nat) + (if t > 1 {
            seq![',', ' ']
        } else {
            Seq::empty()
        }) + r.text(e[start + t - 1])
    }
}

/// The first `t` rows, each `[..]`, joined by `, `.
pub open spec fn rows_text<R: Render>(r: &R, e: Seq<R::E>, cols: nat, t: nat) -> Seq<char>
    decreases t,
{
    if t == 0 {
        Seq::empty()
    } else {
        rows_text(r, e, cols, (t - 1) as nat) + (if t > 1 {
            seq![',', ' ']
        } else {
            Seq::empty()
        }) + seq!['['] + entries_text(r, e, (t - 1) * cols, cols) + seq![']']
    }
}

/// The text of a matrix: `[[1, 2], [3, 4]]`.
pub open spec fn matrix_text<R: Render>(r: &R, e: Seq<R::E>, rows: nat, cols: nat) -> Seq<char> {
    seq!['['] + rows_text(r, e, cols, rows) + seq![']']
}

impl<R: Ring + Render> Matrix<R> {
    /// The text of this matrix, as `Display` prints it: `[[1, 2], [3, 4]]`.
    pub fn to_string(&self) -> (r: String)
        requires
            self.well_formed(),
        ensures
            r@ == matrix_text(&self.ring_s(), self.entries_s(), self.rows_s(), self.cols_s()),
    {
        let ghost c = self.ring_s();
        let ghost e = self.entries_s();
        let mut s = String::new();
        append_square_open(&mut s);
        for i in 0..self.rows
            invariant
                self.well_formed(),
                c == self.ring_s(),
                e == self.entries_s(),
                s@ == seq!['['] + rows_text(&c, e, self.cols_s(), i as nat),
        {
            let ghost start = s@;
            if i > 0 {
                append_comma(&mut s);
            }
            append_square_open(&mut s);
            let ghost row_start = s@;
            for j in 0..self.cols
                invariant
                    self.well_formed(),
                    c == self.ring_s(),
                    e == self.entries_s(),
                    i < self.rows_s(),
                    s@ == row_start + entries_text(&c, e, i * self.cols_s(), j as nat),
            {
                let ghost before = s@;
                if j > 0 {
                    append_comma(&mut s);
                }
                let x = self.get(i, j);
                let text = self.ring.render(x);
                s.append(text.as_str());
                proof {
                    let sep: Seq<char> = if j > 0 { seq![',', ' '] } else { Seq::empty() };
                    assert(s@ =~= before + sep + c.text(e[i * self.cols_s() + j]));
                }
            }
            append_square_close(&mut s);
            proof {
                let sep: Seq<char> = if i > 0 { seq![',', ' '] } else { Seq::empty() };
                assert(s@ =~= seq!['['] + rows_text(&c, e, self.cols_s(), i as nat) + sep + seq!['['] + entries_text(
                    &c,
                    e,
                    i * self.cols_s(),
                    self.cols_s(),
                ) + seq![']']);
            }
        }
        append_square_close(&mut s);
        s
    }
}

} // verus!
