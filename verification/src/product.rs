//! The matrix product over wrapping `i32` arithmetic, and the schoolbook
//! multiplier that computes it.

use crate::arith::{lemma_wrap_in_range, lemma_wrapping_ops, wrap};
use crate::matrix::{lemma_from_fn, lemma_is_from_fn, lemma_update, Matrix, MatrixView};
use vstd::prelude::*;

verus! {

/// The exact sum of the first `k` terms `a[i][t] * b[t][j]`.
#[verifier::opaque]
pub open spec fn dot(a: MatrixView, b: MatrixView, i: int, j: int, k: nat) -> int
    decreases k,
{
    if k == 0 {
        0
    } else {
        dot(a, b, i, j, (k - 1) as nat) + a.at(i, k - 1) * b.at(k - 1, j)
    }
}

/// The entry of the product at `(i, j)`: the inner product of row `i` of `a`
/// with column `j` of `b`, reduced to `i32` in two's complement.
pub open spec fn product_entry(a: MatrixView, b: MatrixView, i: int, j: int) -> i32 {
    wrap(dot(a, b, i, j, a.cols))
}

/// The product of `a` and `b`, meaningful where `a.cols == b.rows`.
pub open spec fn product(a: MatrixView, b: MatrixView) -> MatrixView {
    MatrixView::from_fn(a.rows, b.cols, |i: int, j: int| product_entry(a, b, i, j))
}

/// The inner product grows one term at a time from zero.
pub proof fn lemma_dot_unfold(a: MatrixView, b: MatrixView, i: int, j: int, k: nat)
    ensures
        dot(a, b, i, j, 0) == 0,
        dot(a, b, i, j, k + 1) == dot(a, b, i, j, k) + a.at(i, k as int) * b.at(k as int, j),
{
    reveal(dot);
}

/// Where the exact inner product fits in `i32`, it is the entry of the
/// product: wrapping changes nothing unless a result leaves the range.
pub proof fn lemma_product_entry_exact(a: MatrixView, b: MatrixView, i: int, j: int)
    requires
        i32::MIN <= dot(a, b, i, j, a.cols) <= i32::MAX,
    ensures
        product_entry(a, b, i, j) == dot(a, b, i, j, a.cols),
{
    lemma_wrap_in_range(dot(a, b, i, j, a.cols) as i32);
}

/// The shape and the entries of a product.
pub proof fn lemma_product(a: MatrixView, b: MatrixView)
    ensures
        product(a, b).wf(),
        product(a, b).rows == a.rows,
        product(a, b).cols == b.cols,
        forall|i: int, j: int|
            0 <= i < a.rows && 0 <= j < b.cols ==> #[trigger] product(a, b).at(i, j)
                == product_entry(a, b, i, j),
{
    lemma_from_fn(a.rows, b.cols, |i: int, j: int| product_entry(a, b, i, j));
}

/// A well-formed matrix with the shape and the entries of the product is the
/// product.
pub proof fn lemma_is_product(m: MatrixView, a: MatrixView, b: MatrixView)
    requires
        m.wf(),
        m.rows == a.rows,
        m.cols == b.cols,
        forall|i: int, j: int|
            0 <= i < a.rows && 0 <= j < b.cols ==> #[trigger] m.at(i, j) == product_entry(
                a,
                b,
                i,
                j,
            ),
    ensures
        m == product(a, b),
{
    lemma_is_from_fn(m, a.rows, b.cols, |i: int, j: int| product_entry(a, b, i, j));
}

/// One more term of the inner product, accumulated with wrapping arithmetic.
pub proof fn lemma_accumulate(a: MatrixView, b: MatrixView, i: int, j: int, t: nat, sum: i32)
    requires
        sum == wrap(dot(a, b, i, j, t)),
    ensures
        sum.wrapping_add(a.at(i, t as int).wrapping_mul(b.at(t as int, j))) == wrap(
            dot(a, b, i, j, t + 1),
        ),
        a.at(i, t as int) == 0 || b.at(t as int, j) == 0 ==> sum == wrap(dot(a, b, i, j, t + 1)),
{
    let x = a.at(i, t as int);
    let y = b.at(t as int, j);
    reveal(wrap);
    lemma_wrapping_ops(x, y);
    lemma_wrapping_ops(sum, x.wrapping_mul(y));
    lemma_dot_unfold(a, b, i, j, t);
    if x == 0 || y == 0 {
        assert(x * y == 0) by (nonlinear_arith)
            requires
                x == 0 || y == 0,
        ;
    }
}

impl Matrix {
    /// The product `self * other` by the schoolbook triple loop, or `None`
    /// where the inner dimensions disagree. Sums and products wrap in two's
    /// complement. A term with a zero factor is skipped, which leaves the sum
    /// as it is.
    pub fn standard_multiply(&self, other: &Matrix) -> (result: Option<Matrix>)
        requires
            self@.cols == other@.rows ==> self@.rows * other@.cols <= usize::MAX,
        ensures
            match result {
                Some(m) => self@.cols == other@.rows && m@ == product(self@, other@),
                None => self@.cols != other@.rows,
            },
    {
        if self.cols() != other.rows() {
            return None;
        }
        let rows = self.rows();
        let inner = self.cols();
        let cols = other.cols();
        let mut result = Matrix::new(rows, cols);
        proof {
            lemma_from_fn(rows as nat, cols as nat, |i: int, j: int| 0i32);
        }
        for i in 0..rows
            invariant
                rows == self@.rows,
                inner == self@.cols,
                inner == other@.rows,
                cols == other@.cols,
                result@.wf(),
                result@.rows == rows,
                result@.cols == cols,
                forall|i2: int, j2: int|
                    0 <= i2 < i && 0 <= j2 < cols ==> #[trigger] result@.at(i2, j2)
                        == product_entry(self@, other@, i2, j2),
        {
            for j in 0..cols
                invariant
                    i < rows,
                    rows == self@.rows,
                    inner == self@.cols,
                    inner == other@.rows,
                    cols == other@.cols,
                    result@.wf(),
                    result@.rows == rows,
                    result@.cols == cols,
                    forall|i2: int, j2: int|
                        0 <= i2 < i && 0 <= j2 < cols ==> #[trigger] result@.at(i2, j2)
                            == product_entry(self@, other@, i2, j2),
                    forall|j2: int|
                        0 <= j2 < j ==> #[trigger] result@.at(i as int, j2) == product_entry(
                            self@,
                            other@,
                            i as int,
                            j2,
                        ),
            {
                let mut sum: i32 = 0;
                proof {
                    lemma_dot_unfold(self@, other@, i as int, j as int, 0);
                    lemma_wrap_in_range(0);
                }
                for t in 0..inner
                    invariant
                        i < rows,
                        j < cols,
                        rows == self@.rows,
                        inner == self@.cols,
                        inner == other@.rows,
                        cols == other@.cols,
                        sum == wrap(dot(self@, other@, i as int, j as int, t as nat)),
                {
                    proof {
                        lemma_accumulate(self@, other@, i as int, j as int, t as nat, sum);
                    }
                    let x = self.get(i, t);
                    if x != 0 {
                        let y = other.get(t, j);
                        if y != 0 {
                            sum = sum.wrapping_add(x.wrapping_mul(y));
                        }
                    }
                }
                proof {
                    lemma_update(result@, i as int, j as int, sum);
                }
                result.set(i, j, sum);
            }
        }
        proof {
            lemma_is_product(result@, self@, other@);
        }
        Some(result)
    }
}

} // verus!
