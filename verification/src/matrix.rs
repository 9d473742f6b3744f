//! Row-major matrix storage and its mathematical model.

use vstd::prelude::*;

verus! {

/// What a matrix is, mathematically: its shape and its entries, laid out row
/// after row in one sequence.
pub struct MatrixView {
    pub rows: nat,
    pub cols: nat,
    pub data: Seq<i32>,
}

impl MatrixView {
    /// The sequence holds exactly one entry for each position.
    pub open spec fn wf(self) -> bool {
        self.data.len() == self.rows * self.cols
    }

    /// `(i, j)` names a position of the matrix.
    pub open spec fn in_bounds(self, i: int, j: int) -> bool {
        0 <= i < self.rows && 0 <= j < self.cols
    }

    /// The entry in row `i`, column `j`.
    pub open spec fn at(self, i: int, j: int) -> i32 {
        self.data[i * self.cols + j]
    }

    /// The matrix of the given shape whose entry at `(i, j)` is `f(i, j)`.
    pub open spec fn from_fn(rows: nat, cols: nat, f: spec_fn(int, int) -> i32) -> MatrixView {
        MatrixView {
            rows,
            cols,
            data: Seq::new(rows * cols, |idx: int| f(idx / (cols as int), idx % (cols as int))),
        }
    }

    /// The all-zero matrix of the given shape.
    pub open spec fn zero(rows: nat, cols: nat) -> MatrixView {
        MatrixView::from_fn(rows, cols, |i: int, j: int| 0i32)
    }

    /// The same matrix with the entry at `(i, j)` replaced by `value`.
    pub open spec fn update(self, i: int, j: int, value: i32) -> MatrixView {
        MatrixView {
            rows: self.rows,
            cols: self.cols,
            data: self.data.update(i * self.cols + j, value),
        }
    }

    /// `self` has the given shape and `f` gives each of its entries.
    pub open spec fn is_from_fn(self, rows: nat, cols: nat, f: spec_fn(int, int) -> i32) -> bool {
        &&& self.wf()
        &&& self.rows == rows
        &&& self.cols == cols
        &&& forall|i: int, j: int|
            0 <= i < rows && 0 <= j < cols ==> #[trigger] self.at(i, j) == f(i, j)
    }
}

/// Row-major indexing is a bijection between positions and flat indices.
pub proof fn lemma_flat_index(rows: nat, cols: nat, i: int, j: int)
    requires
        0 <= i < rows,
        0 <= j < cols,
    ensures
        0 <= i * cols + j < rows * cols,
        (i * cols + j) / (cols as int) == i,
        (i * cols + j) % (cols as int) == j,
{
    assert(0 <= i * cols + j < rows * cols) by (nonlinear_arith)
        requires
            0 <= i < rows,
            0 <= j < cols,
    ;
    vstd::arithmetic::div_mod::lemma_fundamental_div_mod_converse(
        i * cols + j,
        cols as int,
        i,
        j,
    );
}

/// Every flat index of a well-formed matrix names a position.
pub proof fn lemma_position_of_index(rows: nat, cols: nat, idx: int)
    requires
        0 <= idx < rows * cols,
    ensures
        cols > 0,
        0 <= idx / (cols as int) < rows,
        0 <= idx % (cols as int) < cols,
        (idx / (cols as int)) * cols + idx % (cols as int) == idx,
{
    assert(cols > 0) by (nonlinear_arith)
        requires
            0 <= idx < rows * cols,
    ;
    let c = cols as int;
    vstd::arithmetic::div_mod::lemma_fundamental_div_mod(idx, c);
    vstd::arithmetic::div_mod::lemma_mod_pos_bound(idx, c);
    let q = idx / c;
    assert(0 <= q < rows) by (nonlinear_arith)
        requires
            0 <= idx < rows * c,
            c > 0,
            idx == c * q + idx % c,
            0 <= idx % c < c,
    ;
    assert(q * c == c * q) by (nonlinear_arith);
}

/// `from_fn` builds a well-formed matrix with the entries it was given.
pub proof fn lemma_from_fn(rows: nat, cols: nat, f: spec_fn(int, int) -> i32)
    ensures
        MatrixView::from_fn(rows, cols, f).is_from_fn(rows, cols, f),
{
    let m = MatrixView::from_fn(rows, cols, f);
    assert forall|i: int, j: int| 0 <= i < rows && 0 <= j < cols implies #[trigger] m.at(i, j)
        == f(i, j) by {
        lemma_flat_index(rows, cols, i, j);
    }
}

/// Two well-formed matrices of one shape with the same entries are equal.
pub proof fn lemma_ext_equal(a: MatrixView, b: MatrixView)
    requires
        a.wf(),
        b.wf(),
        a.rows == b.rows,
        a.cols == b.cols,
        forall|i: int, j: int| a.in_bounds(i, j) ==> a.at(i, j) == b.at(i, j),
    ensures
        a == b,
{
    assert forall|idx: int| 0 <= idx < a.data.len() implies a.data[idx] == b.data[idx] by {
        lemma_position_of_index(a.rows, a.cols, idx);
        let i = idx / (a.cols as int);
        let j = idx % (a.cols as int);
        assert(a.in_bounds(i, j));
        assert(a.at(i, j) == b.at(i, j));
    }
    assert(a.data =~= b.data);
}

/// A matrix is determined by its shape and a description of its entries.
pub proof fn lemma_is_from_fn(m: MatrixView, rows: nat, cols: nat, f: spec_fn(int, int) -> i32)
    requires
        m.is_from_fn(rows, cols, f),
    ensures
        m == MatrixView::from_fn(rows, cols, f),
{
    lemma_from_fn(rows, cols, f);
    lemma_ext_equal(m, MatrixView::from_fn(rows, cols, f));
}

/// Replacing one entry leaves the shape and every other entry as they were.
pub proof fn lemma_update(m: MatrixView, i: int, j: int, value: i32)
    requires
        m.wf(),
        m.in_bounds(i, j),
    ensures
        m.update(i, j, value).wf(),
        m.update(i, j, value).rows == m.rows,
        m.update(i, j, value).cols == m.cols,
        forall|i2: int, j2: int|
            m.in_bounds(i2, j2) ==> #[trigger] m.update(i, j, value).at(i2, j2) == if i2 == i && j2
                == j {
                value
            } else {
                m.at(i2, j2)
            },
{
    lemma_flat_index(m.rows, m.cols, i, j);
    assert forall|i2: int, j2: int| m.in_bounds(i2, j2) implies #[trigger] m.update(
        i,
        j,
        value,
    ).at(i2, j2) == if i2 == i && j2 == j {
        value
    } else {
        m.at(i2, j2)
    } by {
        lemma_flat_index(m.rows, m.cols, i2, j2);
    }
}

/// A dense matrix of `i32` entries in one row-major buffer.
#[derive(Debug, PartialEq, Eq)]
pub struct Matrix {
    rows: usize,
    cols: usize,
    data: Vec<i32>,
}

impl View for Matrix {
    type V = MatrixView;

    closed spec fn view(&self) -> MatrixView {
        MatrixView { rows: self.rows as nat, cols: self.cols as nat, data: self.data@ }
    }
}

impl Clone for Matrix {
    fn clone(&self) -> (m: Matrix)
        ensures
            m@ == self@,
    {
        proof {
            use_type_invariant(self);
        }
        let data = self.data.clone();
        proof {
            assert(data@ =~= self.data@);
        }
        Matrix { rows: self.rows, cols: self.cols, data }
    }
}

impl Matrix {
    /// The buffer always holds `rows * cols` entries, a number that fits in
    /// `usize`.
    #[verifier::type_invariant]
    pub open spec fn well_formed(&self) -> bool {
        self@.wf() && self@.rows * self@.cols <= usize::MAX
    }

    /// A zero-filled matrix of the given shape.
    pub fn new(rows: usize, cols: usize) -> (m: Matrix)
        requires
            rows * cols <= usize::MAX,
        ensures
            m@ == MatrixView::zero(rows as nat, cols as nat),
    {
        let m = Matrix { rows, cols, data: vec![0i32; rows * cols] };
        proof {
            assert(m@.data =~= MatrixView::zero(rows as nat, cols as nat).data);
        }
        m
    }

    /// The matrix of the given shape over a row-major buffer, or `None` where
    /// the buffer does not hold exactly `rows * cols` entries.
    pub fn from_vec(rows: usize, cols: usize, data: Vec<i32>) -> (result: Option<Matrix>)
        ensures
            match result {
                Some(m) => data@.len() == rows * cols && m@ == (MatrixView {
                    rows: rows as nat,
                    cols: cols as nat,
                    data: data@,
                }),
                None => data@.len() != rows * cols,
            },
    {
        let len = data.len();
        match rows.checked_mul(cols) {
            Some(n) => {
                if n == len {
                    Some(Matrix { rows, cols, data })
                } else {
                    None
                }
            },
            None => None,
        }
    }

    /// The entries in row-major order.
    pub fn into_vec(self) -> (data: Vec<i32>)
        ensures
            data@ == self@.data,
    {
        self.data
    }

    /// The number of rows.
    pub fn rows(&self) -> (r: usize)
        ensures
            r == self@.rows,
    {
        self.rows
    }

    /// The number of columns.
    pub fn cols(&self) -> (c: usize)
        ensures
            c == self@.cols,
    {
        self.cols
    }

    /// The entry in row `i`, column `j`.
    pub fn get(&self, i: usize, j: usize) -> (value: i32)
        requires
            self@.in_bounds(i as int, j as int),
        ensures
            value == self@.at(i as int, j as int),
    {
        proof {
            use_type_invariant(self);
            assert(self.data.len() == self.rows * self.cols);
            lemma_flat_index(self.rows as nat, self.cols as nat, i as int, j as int);
            assert(0 <= i * self.cols) by (nonlinear_arith);
        }
        self.data[i * self.cols + j]
    }

    /// Replaces the entry in row `i`, column `j`.
    pub fn set(&mut self, i: usize, j: usize, value: i32)
        requires
            old(self)@.in_bounds(i as int, j as int),
        ensures
            final(self)@ == old(self)@.update(i as int, j as int, value),
    {
        proof {
            use_type_invariant(&*self);
            assert(self.data.len() == self.rows * self.cols);
            lemma_flat_index(self.rows as nat, self.cols as nat, i as int, j as int);
            assert(0 <= i * self.cols) by (nonlinear_arith);
        }
        self.data[i * self.cols + j] = value;
    }
}

} // verus!
