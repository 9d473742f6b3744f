//! Conversion between a matrix and a list of rows, one `Vec` for each row.

use crate::matrix::{lemma_from_fn, lemma_is_from_fn, lemma_update, Matrix, MatrixView};
use vstd::prelude::*;

verus! {

/// Why a list of rows is not a matrix.
#[derive(Debug, Clone, Copy, PartialEq, Eq, Structural)]
pub enum ShapeError {
    /// There is no row, or the first row has no entry.
    Empty,
    /// Some row is not as long as the first one.
    Ragged,
    /// The number of entries does not fit in `usize`.
    TooLarge,
}

/// The rows as sequences of plain values.
pub open spec fn grid_view(rows: Seq<Vec<i32>>) -> Seq<Seq<i32>> {
    Seq::new(rows.len(), |i: int| rows[i]@)
}

/// There is no row, or the first row has no entry.
pub open spec fn grid_is_empty(grid: Seq<Seq<i32>>) -> bool {
    grid.len() == 0 || grid[0].len() == 0
}

/// Some row is not as long as the first one.
pub open spec fn grid_is_ragged(grid: Seq<Seq<i32>>) -> bool {
    exists|i: int| 0 <= i < grid.len() && (#[trigger] grid[i]).len() != grid[0].len()
}

/// The matrix whose rows are those of a rectangular grid.
pub open spec fn grid_matrix(grid: Seq<Seq<i32>>) -> MatrixView {
    MatrixView::from_fn(grid.len(), grid[0].len(), |i: int, j: int| grid[i][j])
}

/// What a list of rows gives: the matrix with these rows, where there are
/// rows, the first is not empty, all are as long as the first, and the
/// number of entries fits in `usize`.
pub open spec fn grid_result(grid: Seq<Seq<i32>>) -> Result<MatrixView, ShapeError> {
    if grid_is_empty(grid) {
        Err(ShapeError::Empty)
    } else if grid_is_ragged(grid) {
        Err(ShapeError::Ragged)
    } else if grid.len() * grid[0].len() > usize::MAX {
        Err(ShapeError::TooLarge)
    } else {
        Ok(grid_matrix(grid))
    }
}

/// The rows of a matrix, one sequence for each row.
pub open spec fn matrix_grid(m: MatrixView) -> Seq<Seq<i32>> {
    Seq::new(m.rows, |i: int| Seq::new(m.cols, |j: int| m.at(i, j)))
}

/// A matrix with at least one entry comes back from its own rows.
pub proof fn lemma_grid_roundtrip(m: MatrixView)
    requires
        m.wf(),
        m.rows >= 1,
        m.cols >= 1,
        m.rows * m.cols <= usize::MAX,
    ensures
        grid_result(matrix_grid(m)) == Ok::<MatrixView, ShapeError>(m),
{
    let grid = matrix_grid(m);
    assert(grid[0].len() == m.cols);
    assert(!grid_is_ragged(grid)) by {
        if grid_is_ragged(grid) {
            let i = choose|i: int|
                0 <= i < grid.len() && (#[trigger] grid[i]).len() != grid[0].len();
            assert(grid[i].len() == m.cols);
        }
    }
    lemma_from_fn(grid.len(), grid[0].len(), |i: int, j: int| grid[i][j]);
    crate::matrix::lemma_ext_equal(grid_matrix(grid), m);
}

impl Matrix {
    /// The matrix with the given rows, or the reason why they are none.
    pub fn from_rows(rows: &Vec<Vec<i32>>) -> (result: Result<Matrix, ShapeError>)
        ensures
            match result {
                Ok(m) => grid_result(grid_view(rows@)) == Ok::<MatrixView, ShapeError>(m@),
                Err(e) => grid_result(grid_view(rows@)) == Err::<MatrixView, ShapeError>(e),
            },
    {
        let ghost grid = grid_view(rows@);
        let n_rows = rows.len();
        if n_rows == 0 {
            return Err(ShapeError::Empty);
        }
        let n_cols = rows[0].len();
        assert(grid[0] == rows@[0]@);
        if n_cols == 0 {
            return Err(ShapeError::Empty);
        }
        for i in 0..n_rows
            invariant
                n_rows >= 1,
                n_cols >= 1,
                n_rows == rows@.len(),
                grid == grid_view(rows@),
                n_cols == grid[0].len(),
                forall|i2: int| 0 <= i2 < i ==> (#[trigger] grid[i2]).len() == n_cols,
        {
            assert(grid[i as int] == rows@[i as int]@);
            if rows[i].len() != n_cols {
                assert(grid[i as int].len() != grid[0].len());
                assert(grid_is_ragged(grid));
                return Err(ShapeError::Ragged);
            }
        }
        assert(!grid_is_ragged(grid));
        let total = n_rows.checked_mul(n_cols);
        if total.is_none() {
            return Err(ShapeError::TooLarge);
        }
        let mut matrix = Matrix::new(n_rows, n_cols);
        proof {
            lemma_from_fn(n_rows as nat, n_cols as nat, |i: int, j: int| 0i32);
        }
        for i in 0..n_rows
            invariant
                n_rows >= 1,
                n_cols >= 1,
                n_rows == rows@.len(),
                grid == grid_view(rows@),
                n_cols == grid[0].len(),
                forall|i2: int| 0 <= i2 < n_rows ==> (#[trigger] grid[i2]).len() == n_cols,
                matrix@.wf(),
                matrix@.rows == n_rows,
                matrix@.cols == n_cols,
                forall|i2: int, j2: int|
                    0 <= i2 < i && 0 <= j2 < n_cols ==> #[trigger] matrix@.at(i2, j2)
                        == grid[i2][j2],
        {
            for j in 0..n_cols
                invariant
                    i < n_rows,
                    n_rows == rows@.len(),
                    grid == grid_view(rows@),
                    grid.len() == n_rows,
                    n_cols == grid[0].len(),
                    forall|i2: int| 0 <= i2 < n_rows ==> (#[trigger] grid[i2]).len() == n_cols,
                    matrix@.wf(),
                    matrix@.rows == n_rows,
                    matrix@.cols == n_cols,
                    forall|i2: int, j2: int|
                        0 <= i2 < i && 0 <= j2 < n_cols ==> #[trigger] matrix@.at(i2, j2)
                            == grid[i2][j2],
                    forall|j2: int|
                        0 <= j2 < j ==> #[trigger] matrix@.at(i as int, j2) == grid[i as int][j2],
            {
                assert(grid[i as int] == rows@[i as int]@);
                assert(grid[i as int].len() == n_cols);
                let value = rows[i][j];
                proof {
                    lemma_update(matrix@, i as int, j as int, value);
                }
                matrix.set(i, j, value);
            }
        }
        proof {
            lemma_is_from_fn(matrix@, n_rows as nat, n_cols as nat, |i: int, j: int| grid[i][j]);
        }
        Ok(matrix)
    }

    /// The rows of the matrix, one `Vec` for each row.
    pub fn to_rows(&self) -> (rows: Vec<Vec<i32>>)
        ensures
            grid_view(rows@) == matrix_grid(self@),
    {
        let n_rows = self.rows();
        let n_cols = self.cols();
        let mut rows: Vec<Vec<i32>> = Vec::new();
        for i in 0..n_rows
            invariant
                n_rows == self@.rows,
                n_cols == self@.cols,
                rows@.len() == i,
                forall|i2: int|
                    0 <= i2 < i ==> (#[trigger] rows@[i2])@ == Seq::new(
                        n_cols as nat,
                        |j: int| self@.at(i2, j),
                    ),
        {
            let mut row: Vec<i32> = Vec::new();
            for j in 0..n_cols
                invariant
                    i < n_rows,
                    n_rows == self@.rows,
                    n_cols == self@.cols,
                    row@.len() == j,
                    forall|j2: int| 0 <= j2 < j ==> #[trigger] row@[j2] == self@.at(i as int, j2),
            {
                row.push(self.get(i, j));
            }
            assert(row@ =~= Seq::new(n_cols as nat, |j: int| self@.at(i as int, j)));
            rows.push(row);
        }
        assert(grid_view(rows@) =~= matrix_grid(self@));
        rows
    }
}

} // verus!
