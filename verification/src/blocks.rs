//! Entry-wise sums and differences, and cutting a matrix into blocks and
//! putting blocks together.

use crate::arith::{lemma_wrapping_ops, wrap};
use crate::matrix::{lemma_from_fn, lemma_is_from_fn, lemma_update, Matrix, MatrixView};
use vstd::prelude::*;

verus! {

impl MatrixView {
    /// The entry-wise sum, in wrapping arithmetic.
    pub open spec fn plus(self, other: MatrixView) -> MatrixView {
        MatrixView::from_fn(
            self.rows,
            self.cols,
            |i: int, j: int| wrap(self.at(i, j) + other.at(i, j)),
        )
    }

    /// The entry-wise difference, in wrapping arithmetic.
    pub open spec fn minus(self, other: MatrixView) -> MatrixView {
        MatrixView::from_fn(
            self.rows,
            self.cols,
            |i: int, j: int| wrap(self.at(i, j) - other.at(i, j)),
        )
    }

    /// The block of the given shape whose top left corner is at `(top, left)`.
    pub open spec fn block(self, top: int, left: int, rows: nat, cols: nat) -> MatrixView {
        MatrixView::from_fn(rows, cols, |i: int, j: int| self.at(top + i, left + j))
    }

    /// The `n` by `n` matrix that holds `self` in its top left corner and
    /// zero elsewhere.
    pub open spec fn pad(self, n: nat) -> MatrixView {
        MatrixView::from_fn(
            n,
            n,
            |i: int, j: int|
                if i < self.rows && j < self.cols {
                    self.at(i, j)
                } else {
                    0i32
                },
        )
    }
}

/// The entry at `(i, j)` of the matrix made of four `m` by `m` quadrants.
pub open spec fn assemble_entry(
    c11: MatrixView,
    c12: MatrixView,
    c21: MatrixView,
    c22: MatrixView,
    i: int,
    j: int,
) -> i32 {
    let m = c11.rows as int;
    if i < m {
        if j < m {
            c11.at(i, j)
        } else {
            c12.at(i, j - m)
        }
    } else {
        if j < m {
            c21.at(i - m, j)
        } else {
            c22.at(i - m, j - m)
        }
    }
}

/// The matrix made of four square quadrants of one size: `c11` top left,
/// `c12` top right, `c21` bottom left, `c22` bottom right.
pub open spec fn assemble(
    c11: MatrixView,
    c12: MatrixView,
    c21: MatrixView,
    c22: MatrixView,
) -> MatrixView {
    MatrixView::from_fn(
        2 * c11.rows,
        2 * c11.rows,
        |i: int, j: int| assemble_entry(c11, c12, c21, c22, i, j),
    )
}

/// The shape and the entries of a sum.
pub proof fn lemma_plus(a: MatrixView, b: MatrixView)
    ensures
        a.plus(b).wf(),
        a.plus(b).rows == a.rows,
        a.plus(b).cols == a.cols,
        forall|i: int, j: int|
            a.in_bounds(i, j) ==> #[trigger] a.plus(b).at(i, j) == wrap(a.at(i, j) + b.at(i, j)),
{
    lemma_from_fn(a.rows, a.cols, |i: int, j: int| wrap(a.at(i, j) + b.at(i, j)));
}

/// The shape and the entries of a difference.
pub proof fn lemma_minus(a: MatrixView, b: MatrixView)
    ensures
        a.minus(b).wf(),
        a.minus(b).rows == a.rows,
        a.minus(b).cols == a.cols,
        forall|i: int, j: int|
            a.in_bounds(i, j) ==> #[trigger] a.minus(b).at(i, j) == wrap(a.at(i, j) - b.at(i, j)),
{
    lemma_from_fn(a.rows, a.cols, |i: int, j: int| wrap(a.at(i, j) - b.at(i, j)));
}

/// The shape and the entries of a block.
pub proof fn lemma_block(a: MatrixView, top: int, left: int, rows: nat, cols: nat)
    ensures
        a.block(top, left, rows, cols).wf(),
        a.block(top, left, rows, cols).rows == rows,
        a.block(top, left, rows, cols).cols == cols,
        forall|i: int, j: int|
            0 <= i < rows && 0 <= j < cols ==> #[trigger] a.block(top, left, rows, cols).at(i, j)
                == a.at(top + i, left + j),
{
    lemma_from_fn(rows, cols, |i: int, j: int| a.at(top + i, left + j));
}

/// The shape and the entries of a padded matrix.
pub proof fn lemma_pad(a: MatrixView, n: nat)
    ensures
        a.pad(n).wf(),
        a.pad(n).rows == n,
        a.pad(n).cols == n,
        forall|i: int, j: int|
            0 <= i < n && 0 <= j < n ==> #[trigger] a.pad(n).at(i, j) == if i < a.rows && j
                < a.cols {
                a.at(i, j)
            } else {
                0i32
            },
{
    lemma_from_fn(
        n,
        n,
        |i: int, j: int|
            if i < a.rows && j < a.cols {
                a.at(i, j)
            } else {
                0i32
            },
    );
}

/// The shape and the entries of a matrix made of four quadrants.
pub proof fn lemma_assemble(c11: MatrixView, c12: MatrixView, c21: MatrixView, c22: MatrixView)
    ensures
        assemble(c11, c12, c21, c22).wf(),
        assemble(c11, c12, c21, c22).rows == 2 * c11.rows,
        assemble(c11, c12, c21, c22).cols == 2 * c11.rows,
        forall|i: int, j: int|
            0 <= i < 2 * c11.rows && 0 <= j < 2 * c11.rows ==> #[trigger] assemble(
                c11,
                c12,
                c21,
                c22,
            ).at(i, j) == assemble_entry(c11, c12, c21, c22, i, j),
{
    lemma_from_fn(
        2 * c11.rows,
        2 * c11.rows,
        |i: int, j: int| assemble_entry(c11, c12, c21, c22, i, j),
    );
}

/// Cutting the padding off again gives the matrix back.
pub proof fn lemma_pad_block(a: MatrixView, n: nat)
    requires
        a.wf(),
        a.rows <= n,
        a.cols <= n,
    ensures
        a.pad(n).block(0, 0, a.rows, a.cols) == a,
{
    lemma_pad(a, n);
    lemma_block(a.pad(n), 0, 0, a.rows, a.cols);
    crate::matrix::lemma_ext_equal(a.pad(n).block(0, 0, a.rows, a.cols), a);
}

/// The entry-wise sum of two matrices of one shape, in wrapping arithmetic.
pub fn add_matrices(a: &Matrix, b: &Matrix) -> (sum: Matrix)
    requires
        a@.rows == b@.rows,
        a@.cols == b@.cols,
    ensures
        sum@ == a@.plus(b@),
{
    proof {
        use_type_invariant(a);
    }
    let rows = a.rows();
    let cols = a.cols();
    let mut result = Matrix::new(rows, cols);
    proof {
        lemma_from_fn(rows as nat, cols as nat, |i: int, j: int| 0i32);
    }
    for i in 0..rows
        invariant
            rows == a@.rows,
            cols == a@.cols,
            rows == b@.rows,
            cols == b@.cols,
            result@.wf(),
            result@.rows == rows,
            result@.cols == cols,
            forall|i2: int, j2: int|
                0 <= i2 < i && 0 <= j2 < cols ==> #[trigger] result@.at(i2, j2) == wrap(
                    a@.at(i2, j2) + b@.at(i2, j2),
                ),
    {
        for j in 0..cols
            invariant
                i < rows,
                rows == a@.rows,
                cols == a@.cols,
                rows == b@.rows,
                cols == b@.cols,
                result@.wf(),
                result@.rows == rows,
                result@.cols == cols,
                forall|i2: int, j2: int|
                    0 <= i2 < i && 0 <= j2 < cols ==> #[trigger] result@.at(i2, j2) == wrap(
                        a@.at(i2, j2) + b@.at(i2, j2),
                    ),
                forall|j2: int|
                    0 <= j2 < j ==> #[trigger] result@.at(i as int, j2) == wrap(
                        a@.at(i as int, j2) + b@.at(i as int, j2),
                    ),
        {
            let x = a.get(i, j);
            let y = b.get(i, j);
            let value = x.wrapping_add(y);
            proof {
                lemma_wrapping_ops(x, y);
                lemma_update(result@, i as int, j as int, value);
            }
            result.set(i, j, value);
        }
    }
    proof {
        lemma_is_from_fn(
            result@,
            rows as nat,
            cols as nat,
            |i: int, j: int| wrap(a@.at(i, j) + b@.at(i, j)),
        );
    }
    result
}

/// The entry-wise difference of two matrices of one shape, in wrapping
/// arithmetic.
pub fn sub_matrices(a: &Matrix, b: &Matrix) -> (difference: Matrix)
    requires
        a@.rows == b@.rows,
        a@.cols == b@.cols,
    ensures
        difference@ == a@.minus(b@),
{
    proof {
        use_type_invariant(a);
    }
    let rows = a.rows();
    let cols = a.cols();
    let mut result = Matrix::new(rows, cols);
    proof {
        lemma_from_fn(rows as nat, cols as nat, |i: int, j: int| 0i32);
    }
    for i in 0..rows
        invariant
            rows == a@.rows,
            cols == a@.cols,
            rows == b@.rows,
            cols == b@.cols,
            result@.wf(),
            result@.rows == rows,
            result@.cols == cols,
            forall|i2: int, j2: int|
                0 <= i2 < i && 0 <= j2 < cols ==> #[trigger] result@.at(i2, j2) == wrap(
                    a@.at(i2, j2) - b@.at(i2, j2),
                ),
    {
        for j in 0..cols
            invariant
                i < rows,
                rows == a@.rows,
                cols == a@.cols,
                rows == b@.rows,
                cols == b@.cols,
                result@.wf(),
                result@.rows == rows,
                result@.cols == cols,
                forall|i2: int, j2: int|
                    0 <= i2 < i && 0 <= j2 < cols ==> #[trigger] result@.at(i2, j2) == wrap(
                        a@.at(i2, j2) - b@.at(i2, j2),
                    ),
                forall|j2: int|
                    0 <= j2 < j ==> #[trigger] result@.at(i as int, j2) == wrap(
                        a@.at(i as int, j2) - b@.at(i as int, j2),
                    ),
        {
            let x = a.get(i, j);
            let y = b.get(i, j);
            let value = x.wrapping_sub(y);
            proof {
                lemma_wrapping_ops(x, y);
                lemma_update(result@, i as int, j as int, value);
            }
            result.set(i, j, value);
        }
    }
    proof {
        lemma_is_from_fn(
            result@,
            rows as nat,
            cols as nat,
            |i: int, j: int| wrap(a@.at(i, j) - b@.at(i, j)),
        );
    }
    result
}

impl Matrix {
    /// A copy of the block of the given shape whose top left corner is at
    /// `(top, left)`.
    pub fn block(&self, top: usize, left: usize, rows: usize, cols: usize) -> (result: Matrix)
        requires
            top + rows <= self@.rows,
            left + cols <= self@.cols,
        ensures
            result@ == self@.block(top as int, left as int, rows as nat, cols as nat),
    {
        proof {
            use_type_invariant(self);
            assert(rows * cols <= self@.rows * self@.cols) by (nonlinear_arith)
                requires
                    rows <= self@.rows,
                    cols <= self@.cols,
            ;
        }
        let mut result = Matrix::new(rows, cols);
        proof {
            lemma_from_fn(rows as nat, cols as nat, |i: int, j: int| 0i32);
        }
        let height = self.rows();
        let width = self.cols();
        for i in 0..rows
            invariant
                height == self@.rows,
                width == self@.cols,
                top + rows <= self@.rows,
                left + cols <= self@.cols,
                result@.wf(),
                result@.rows == rows,
                result@.cols == cols,
                forall|i2: int, j2: int|
                    0 <= i2 < i && 0 <= j2 < cols ==> #[trigger] result@.at(i2, j2) == self@.at(
                        top + i2,
                        left + j2,
                    ),
        {
            for j in 0..cols
                invariant
                    i < rows,
                    height == self@.rows,
                    width == self@.cols,
                    top + rows <= self@.rows,
                    left + cols <= self@.cols,
                    result@.wf(),
                    result@.rows == rows,
                    result@.cols == cols,
                    forall|i2: int, j2: int|
                        0 <= i2 < i && 0 <= j2 < cols ==> #[trigger] result@.at(i2, j2)
                            == self@.at(top + i2, left + j2),
                    forall|j2: int|
                        0 <= j2 < j ==> #[trigger] result@.at(i as int, j2) == self@.at(
                            top + i,
                            left + j2,
                        ),
            {
                let value = self.get(top + i, left + j);
                proof {
                    lemma_update(result@, i as int, j as int, value);
                }
                result.set(i, j, value);
            }
        }
        proof {
            lemma_is_from_fn(
                result@,
                rows as nat,
                cols as nat,
                |i: int, j: int| self@.at(top + i, left + j),
            );
        }
        result
    }

    /// The `n` by `n` matrix that holds `self` in its top left corner and
    /// zero elsewhere.
    pub fn pad_to_square(&self, n: usize) -> (padded: Matrix)
        requires
            self@.rows <= n,
            self@.cols <= n,
            n * n <= usize::MAX,
        ensures
            padded@ == self@.pad(n as nat),
    {
        let rows = self.rows();
        let cols = self.cols();
        let mut padded = Matrix::new(n, n);
        proof {
            lemma_from_fn(n as nat, n as nat, |i: int, j: int| 0i32);
        }
        for i in 0..rows
            invariant
                rows == self@.rows,
                cols == self@.cols,
                rows <= n,
                cols <= n,
                padded@.wf(),
                padded@.rows == n,
                padded@.cols == n,
                forall|i2: int, j2: int|
                    0 <= i2 < n && 0 <= j2 < n ==> #[trigger] padded@.at(i2, j2) == if i2 < i && j2
                        < cols {
                        self@.at(i2, j2)
                    } else {
                        0i32
                    },
        {
            for j in 0..cols
                invariant
                    i < rows,
                    rows == self@.rows,
                    cols == self@.cols,
                    rows <= n,
                    cols <= n,
                    padded@.wf(),
                    padded@.rows == n,
                    padded@.cols == n,
                    forall|i2: int, j2: int|
                        0 <= i2 < n && 0 <= j2 < n ==> #[trigger] padded@.at(i2, j2) == if (i2 < i
                            && j2 < cols) || (i2 == i && j2 < j) {
                            self@.at(i2, j2)
                        } else {
                            0i32
                        },
            {
                let value = self.get(i, j);
                proof {
                    lemma_update(padded@, i as int, j as int, value);
                }
                padded.set(i, j, value);
            }
        }
        proof {
            lemma_is_from_fn(
                padded@,
                n as nat,
                n as nat,
                |i: int, j: int|
                    if i < self@.rows && j < self@.cols {
                        self@.at(i, j)
                    } else {
                        0i32
                    },
            );
        }
        padded
    }

    /// The top left `rows` by `cols` block, as a fresh row-major buffer.
    pub fn unpad(&self, rows: usize, cols: usize) -> (data: Vec<i32>)
        requires
            rows <= self@.rows,
            cols <= self@.cols,
        ensures
            data@ == self@.block(0, 0, rows as nat, cols as nat).data,
    {
        self.block(0, 0, rows, cols).into_vec()
    }
}

/// The four quadrants of a square matrix: top left, top right, bottom left,
/// bottom right, each of half the size (rounded down).
pub fn split_matrix(matrix: &Matrix) -> (quadrants: (Matrix, Matrix, Matrix, Matrix))
    requires
        matrix@.rows == matrix@.cols,
    ensures
        ({
            let m = matrix@.rows / 2;
            &&& quadrants.0@ == matrix@.block(0, 0, m, m)
            &&& quadrants.1@ == matrix@.block(0, m as int, m, m)
            &&& quadrants.2@ == matrix@.block(m as int, 0, m, m)
            &&& quadrants.3@ == matrix@.block(m as int, m as int, m, m)
        }),
{
    let m = matrix.rows() / 2;
    let a11 = matrix.block(0, 0, m, m);
    let a12 = matrix.block(0, m, m, m);
    let a21 = matrix.block(m, 0, m, m);
    let a22 = matrix.block(m, m, m, m);
    (a11, a12, a21, a22)
}

/// The matrix made of four square quadrants of one size.
pub fn combine_matrices(c11: &Matrix, c12: &Matrix, c21: &Matrix, c22: &Matrix) -> (result: Matrix)
    requires
        c11@.rows == c11@.cols,
        c12@.rows == c11@.rows && c12@.cols == c11@.rows,
        c21@.rows == c11@.rows && c21@.cols == c11@.rows,
        c22@.rows == c11@.rows && c22@.cols == c11@.rows,
        (2 * c11@.rows) * (2 * c11@.rows) <= usize::MAX,
    ensures
        result@ == assemble(c11@, c12@, c21@, c22@),
{
    let m = c11.rows();
    proof {
        assert(2 * m <= (2 * m) * (2 * m)) by (nonlinear_arith);
    }
    let n = m * 2;
    let mut result = Matrix::new(n, n);
    proof {
        lemma_from_fn(n as nat, n as nat, |i: int, j: int| 0i32);
    }
    for i in 0..m
        invariant
            n == 2 * m,
            m == c11@.rows,
            c11@.rows == c11@.cols,
            c12@.rows == m && c12@.cols == m,
            c21@.rows == m && c21@.cols == m,
            c22@.rows == m && c22@.cols == m,
            result@.wf(),
            result@.rows == n,
            result@.cols == n,
            forall|r: int, c: int|
                0 <= r < n && 0 <= c < n && (r < i || m <= r < m + i) ==> #[trigger] result@.at(
                    r,
                    c,
                ) == assemble_entry(c11@, c12@, c21@, c22@, r, c),
    {
        let low = i + m;
        for j in 0..m
            invariant
                i < m,
                low == i + m,
                n == 2 * m,
                m == c11@.rows,
                c11@.rows == c11@.cols,
                c12@.rows == m && c12@.cols == m,
                c21@.rows == m && c21@.cols == m,
                c22@.rows == m && c22@.cols == m,
                result@.wf(),
                result@.rows == n,
                result@.cols == n,
                forall|r: int, c: int|
                    0 <= r < n && 0 <= c < n && (r < i || m <= r < m + i) ==> #[trigger] result@.at(
                        r,
                        c,
                    ) == assemble_entry(c11@, c12@, c21@, c22@, r, c),
                forall|r: int, c: int|
                    0 <= c < n && (r == i || r == low) && (c < j || m <= c < m + j)
                        ==> #[trigger] result@.at(r, c) == assemble_entry(
                        c11@,
                        c12@,
                        c21@,
                        c22@,
                        r,
                        c,
                    ),
        {
            let right = j + m;
            let v11 = c11.get(i, j);
            let v12 = c12.get(i, j);
            let v21 = c21.get(i, j);
            let v22 = c22.get(i, j);
            proof {
                lemma_update(result@, i as int, j as int, v11);
            }
            result.set(i, j, v11);
            proof {
                lemma_update(result@, i as int, right as int, v12);
            }
            result.set(i, right, v12);
            proof {
                lemma_update(result@, low as int, j as int, v21);
            }
            result.set(low, j, v21);
            proof {
                lemma_update(result@, low as int, right as int, v22);
            }
            result.set(low, right, v22);
        }
    }
    proof {
        lemma_is_from_fn(
            result@,
            n as nat,
            n as nat,
            |i: int, j: int| assemble_entry(c11@, c12@, c21@, c22@, i, j),
        );
    }
    result
}

} // verus!
