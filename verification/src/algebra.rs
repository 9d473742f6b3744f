//! How the inner product behaves under sums, differences, blocks and
//! padding, and what multiplying by an identity or a zero matrix gives.

use crate::arith::{congruent, lemma_congruent_mul, lemma_wrap_in_range, wrap};
use crate::blocks::{lemma_block, lemma_minus, lemma_pad, lemma_plus};
use crate::matrix::{lemma_ext_equal, MatrixView};
use crate::product::{dot, lemma_is_product, lemma_product, product, product_entry};
use vstd::prelude::*;

verus! {

/// A range of terms taken from blocks of `a` and `b` adds the same amount to
/// the inner product as the terms of `a` and `b` that the blocks were cut
/// from.
pub proof fn lemma_dot_shift(
    a: MatrixView,
    b: MatrixView,
    r: int,
    c: int,
    off: nat,
    ab: MatrixView,
    bb: MatrixView,
    i: int,
    j: int,
    k: nat,
)
    requires
        forall|t: int| 0 <= t < k ==> #[trigger] ab.at(i, t) == a.at(r, off + t),
        forall|t: int| 0 <= t < k ==> #[trigger] bb.at(t, j) == b.at(off + t, c),
    ensures
        dot(a, b, r, c, off + k) == dot(a, b, r, c, off) + dot(ab, bb, i, j, k),
    decreases k,
{
    reveal(dot);
    if k > 0 {
        lemma_dot_shift(a, b, r, c, off, ab, bb, i, j, (k - 1) as nat);
        assert(ab.at(i, k - 1) == a.at(r, off + (k - 1)));
        assert(bb.at(k - 1, j) == b.at(off + (k - 1), c));
        assert(dot(a, b, r, c, off + k) == dot(a, b, r, c, (off + k - 1) as nat) + a.at(
            r,
            off + k - 1,
        ) * b.at(off + k - 1, c));
    }
}

/// Terms with a zero factor add nothing to the inner product.
pub proof fn lemma_dot_zero_tail(a: MatrixView, b: MatrixView, i: int, j: int, k: nat, n: nat)
    requires
        k <= n,
        forall|t: int| k <= t < n ==> #[trigger] a.at(i, t) == 0 || #[trigger] b.at(t, j) == 0,
    ensures
        dot(a, b, i, j, n) == dot(a, b, i, j, k),
    decreases n,
{
    reveal(dot);
    if n > k {
        lemma_dot_zero_tail(a, b, i, j, k, (n - 1) as nat);
        let x = a.at(i, n - 1);
        let y = b.at(n - 1, j);
        assert(x == 0 || y == 0);
        assert(x * y == 0) by (nonlinear_arith)
            requires
                x == 0 || y == 0,
        ;
    }
}

/// Where row `i` of `x` is, entry by entry and up to multiples of 2^32, the
/// sum of row `i` of `s` and row `i` of `y`, the inner products with any
/// column add up in the same way.
pub proof fn lemma_dot_row_sum(
    x: MatrixView,
    s: MatrixView,
    y: MatrixView,
    b: MatrixView,
    i: int,
    j: int,
    k: nat,
)
    requires
        forall|t: int|
            0 <= t < k ==> congruent(#[trigger] x.at(i, t) as int, s.at(i, t) + y.at(i, t)),
    ensures
        congruent(dot(x, b, i, j, k), dot(s, b, i, j, k) + dot(y, b, i, j, k)),
    decreases k,
{
    reveal(congruent);
    reveal(wrap);
    reveal(dot);
    if k > 0 {
        lemma_dot_row_sum(x, s, y, b, i, j, (k - 1) as nat);
        let t = k - 1;
        let xv = x.at(i, t) as int;
        let sv = s.at(i, t) as int;
        let yv = y.at(i, t) as int;
        let bv = b.at(t, j) as int;
        lemma_congruent_mul(xv, sv + yv, bv, bv);
        assert((sv + yv) * bv == sv * bv + yv * bv) by (nonlinear_arith);
    }
}

/// Where column `j` of `x` is, entry by entry and up to multiples of 2^32,
/// the sum of column `j` of `s` and column `j` of `y`, the inner products
/// with any row add up in the same way.
pub proof fn lemma_dot_col_sum(
    a: MatrixView,
    x: MatrixView,
    s: MatrixView,
    y: MatrixView,
    i: int,
    j: int,
    k: nat,
)
    requires
        forall|t: int|
            0 <= t < k ==> congruent(#[trigger] x.at(t, j) as int, s.at(t, j) + y.at(t, j)),
    ensures
        congruent(dot(a, x, i, j, k), dot(a, s, i, j, k) + dot(a, y, i, j, k)),
    decreases k,
{
    reveal(congruent);
    reveal(wrap);
    reveal(dot);
    if k > 0 {
        lemma_dot_col_sum(a, x, s, y, i, j, (k - 1) as nat);
        let t = k - 1;
        let xv = x.at(t, j) as int;
        let sv = s.at(t, j) as int;
        let yv = y.at(t, j) as int;
        let av = a.at(i, t) as int;
        lemma_congruent_mul(av, av, xv, sv + yv);
        assert(av * (sv + yv) == av * sv + av * yv) by (nonlinear_arith);
    }
}

/// The inner product is additive in its left factor.
pub proof fn lemma_dot_plus_left(
    x1: MatrixView,
    x2: MatrixView,
    y: MatrixView,
    i: int,
    j: int,
    k: nat,
)
    requires
        0 <= i < x1.rows,
        k <= x1.cols,
    ensures
        congruent(dot(x1.plus(x2), y, i, j, k), dot(x1, y, i, j, k) + dot(x2, y, i, j, k)),
{
    reveal(congruent);
    reveal(wrap);
    lemma_plus(x1, x2);
    lemma_dot_row_sum(x1.plus(x2), x1, x2, y, i, j, k);
}

/// The inner product of a difference is the difference of the inner
/// products, in its left factor.
pub proof fn lemma_dot_minus_left(
    x1: MatrixView,
    x2: MatrixView,
    y: MatrixView,
    i: int,
    j: int,
    k: nat,
)
    requires
        0 <= i < x1.rows,
        k <= x1.cols,
    ensures
        congruent(dot(x1.minus(x2), y, i, j, k), dot(x1, y, i, j, k) - dot(x2, y, i, j, k)),
{
    reveal(congruent);
    reveal(wrap);
    lemma_minus(x1, x2);
    assert forall|t: int| 0 <= t < k implies congruent(
        #[trigger] x1.at(i, t) as int,
        x1.minus(x2).at(i, t) + x2.at(i, t),
    ) by {
        assert(x1.in_bounds(i, t));
    }
    lemma_dot_row_sum(x1, x1.minus(x2), x2, y, i, j, k);
}

/// The inner product is additive in its right factor.
pub proof fn lemma_dot_plus_right(
    x: MatrixView,
    y1: MatrixView,
    y2: MatrixView,
    i: int,
    j: int,
    k: nat,
)
    requires
        0 <= j < y1.cols,
        k <= y1.rows,
    ensures
        congruent(dot(x, y1.plus(y2), i, j, k), dot(x, y1, i, j, k) + dot(x, y2, i, j, k)),
{
    reveal(congruent);
    reveal(wrap);
    lemma_plus(y1, y2);
    lemma_dot_col_sum(x, y1.plus(y2), y1, y2, i, j, k);
}

/// The inner product of a difference is the difference of the inner
/// products, in its right factor.
pub proof fn lemma_dot_minus_right(
    x: MatrixView,
    y1: MatrixView,
    y2: MatrixView,
    i: int,
    j: int,
    k: nat,
)
    requires
        0 <= j < y1.cols,
        k <= y1.rows,
    ensures
        congruent(dot(x, y1.minus(y2), i, j, k), dot(x, y1, i, j, k) - dot(x, y2, i, j, k)),
{
    reveal(congruent);
    reveal(wrap);
    lemma_minus(y1, y2);
    assert forall|t: int| 0 <= t < k implies congruent(
        #[trigger] y1.at(t, j) as int,
        y1.minus(y2).at(t, j) + y2.at(t, j),
    ) by {
        assert(y1.in_bounds(t, j));
    }
    lemma_dot_col_sum(x, y1, y1.minus(y2), y2, i, j, k);
}

/// The inner product over `2 * m` terms is the sum of two inner products over
/// `m` terms, taken from the blocks that the row and the column run through.
pub proof fn lemma_dot_halves(
    a: MatrixView,
    b: MatrixView,
    m: nat,
    top: int,
    left: int,
    i: int,
    j: int,
)
    requires
        0 <= i < m,
        0 <= j < m,
    ensures
        dot(a, b, top + i, left + j, 2 * m) == dot(
            a.block(top, 0, m, m),
            b.block(0, left, m, m),
            i,
            j,
            m,
        ) + dot(a.block(top, m as int, m, m), b.block(m as int, left, m, m), i, j, m),
{
    lemma_block(a, top, 0, m, m);
    lemma_block(b, 0, left, m, m);
    lemma_block(a, top, m as int, m, m);
    lemma_block(b, m as int, left, m, m);
    lemma_dot_shift(
        a,
        b,
        top + i,
        left + j,
        0,
        a.block(top, 0, m, m),
        b.block(0, left, m, m),
        i,
        j,
        m,
    );
    lemma_dot_shift(
        a,
        b,
        top + i,
        left + j,
        m,
        a.block(top, m as int, m, m),
        b.block(m as int, left, m, m),
        i,
        j,
        m,
    );
    crate::product::lemma_dot_unfold(a, b, top + i, left + j, 0);
}

/// Padding both factors with zeros and cutting the product back to the true
/// shape gives the product of the factors themselves.
pub proof fn lemma_pad_product(a: MatrixView, b: MatrixView, n: nat)
    requires
        a.wf(),
        b.wf(),
        a.cols == b.rows,
        a.rows <= n,
        a.cols <= n,
        b.cols <= n,
    ensures
        product(a.pad(n), b.pad(n)).block(0, 0, a.rows, b.cols) == product(a, b),
{
    let pa = a.pad(n);
    let pb = b.pad(n);
    let trimmed = product(pa, pb).block(0, 0, a.rows, b.cols);
    lemma_pad(a, n);
    lemma_pad(b, n);
    lemma_product(pa, pb);
    lemma_block(product(pa, pb), 0, 0, a.rows, b.cols);
    assert forall|i: int, j: int| 0 <= i < a.rows && 0 <= j < b.cols implies #[trigger] trimmed.at(
        i,
        j,
    ) == product_entry(a, b, i, j) by {
        assert(trimmed.at(i, j) == product(pa, pb).at(0 + i, 0 + j));
        assert forall|t: int| a.cols <= t < n implies #[trigger] pa.at(i, t) == 0
            || #[trigger] pb.at(t, j) == 0 by {
            assert(pa.at(i, t) == 0);
        }
        lemma_dot_zero_tail(pa, pb, i, j, a.cols, n);
        assert forall|t: int| 0 <= t < a.cols implies #[trigger] a.at(i, t) == pa.at(i, 0 + t) by {
            assert(pa.at(i, t) == a.at(i, t));
        }
        assert forall|t: int| 0 <= t < a.cols implies #[trigger] b.at(t, j) == pb.at(0 + t, j) by {
            assert(pb.at(t, j) == b.at(t, j));
        }
        lemma_dot_shift(pa, pb, i, j, 0, a, b, i, j, a.cols);
        crate::product::lemma_dot_unfold(pa, pb, i, j, 0);
    }
    lemma_is_product(trimmed, a, b);
}

/// The `n` by `n` identity matrix.
pub open spec fn identity(n: nat) -> MatrixView {
    MatrixView::from_fn(
        n,
        n,
        |i: int, j: int|
            if i == j {
                1i32
            } else {
                0i32
            },
    )
}

/// The shape and the entries of an identity matrix.
pub proof fn lemma_identity(n: nat)
    ensures
        identity(n).wf(),
        identity(n).rows == n,
        identity(n).cols == n,
        forall|i: int, j: int|
            0 <= i < n && 0 <= j < n ==> #[trigger] identity(n).at(i, j) == if i == j {
                1i32
            } else {
                0i32
            },
{
    crate::matrix::lemma_from_fn(
        n,
        n,
        |i: int, j: int|
            if i == j {
                1i32
            } else {
                0i32
            },
    );
}

/// The shape and the entries of a zero matrix.
pub proof fn lemma_zero(rows: nat, cols: nat)
    ensures
        MatrixView::zero(rows, cols).wf(),
        MatrixView::zero(rows, cols).rows == rows,
        MatrixView::zero(rows, cols).cols == cols,
        forall|i: int, j: int|
            0 <= i < rows && 0 <= j < cols ==> #[trigger] MatrixView::zero(rows, cols).at(i, j)
                == 0,
{
    crate::matrix::lemma_from_fn(rows, cols, |i: int, j: int| 0i32);
}

/// The inner product of a row with a column of the identity picks one entry
/// of the row.
proof fn lemma_dot_identity_right(a: MatrixView, i: int, j: int, k: nat)
    requires
        0 <= j < a.cols,
        k <= a.cols,
    ensures
        dot(a, identity(a.cols), i, j, k) == if j < k {
            a.at(i, j) as int
        } else {
            0
        },
    decreases k,
{
    reveal(dot);
    if k > 0 {
        lemma_dot_identity_right(a, i, j, (k - 1) as nat);
        lemma_identity(a.cols);
        let x = a.at(i, k - 1) as int;
        let e = identity(a.cols).at(k - 1, j) as int;
        assert(e == if k - 1 == j { 1int } else { 0int });
        assert(x * e == if k - 1 == j { x } else { 0int }) by (nonlinear_arith)
            requires
                e == if k - 1 == j { 1int } else { 0int },
        ;
    }
}

/// The inner product of a row of the identity with a column picks one entry
/// of the column.
proof fn lemma_dot_identity_left(a: MatrixView, i: int, j: int, k: nat)
    requires
        0 <= i < a.rows,
        k <= a.rows,
    ensures
        dot(identity(a.rows), a, i, j, k) == if i < k {
            a.at(i, j) as int
        } else {
            0
        },
    decreases k,
{
    reveal(dot);
    if k > 0 {
        lemma_dot_identity_left(a, i, j, (k - 1) as nat);
        lemma_identity(a.rows);
        let x = a.at(k - 1, j) as int;
        let e = identity(a.rows).at(i, k - 1) as int;
        assert(e == if i == k - 1 { 1int } else { 0int });
        assert(e * x == if i == k - 1 { x } else { 0int }) by (nonlinear_arith)
            requires
                e == if i == k - 1 { 1int } else { 0int },
        ;
    }
}

/// Multiplying by the identity on the right gives the matrix back.
pub proof fn lemma_product_identity_right(a: MatrixView)
    requires
        a.wf(),
    ensures
        product(a, identity(a.cols)) == a,
{
    let id = identity(a.cols);
    lemma_identity(a.cols);
    lemma_product(a, id);
    assert forall|i: int, j: int| a.in_bounds(i, j) implies #[trigger] product(a, id).at(i, j)
        == a.at(i, j) by {
        lemma_dot_identity_right(a, i, j, a.cols);
        lemma_wrap_in_range(a.at(i, j));
    }
    lemma_ext_equal(product(a, id), a);
}

/// Multiplying by the identity on the left gives the matrix back.
pub proof fn lemma_product_identity_left(a: MatrixView)
    requires
        a.wf(),
    ensures
        product(identity(a.rows), a) == a,
{
    let id = identity(a.rows);
    lemma_identity(a.rows);
    lemma_product(id, a);
    assert forall|i: int, j: int| a.in_bounds(i, j) implies #[trigger] product(id, a).at(i, j)
        == a.at(i, j) by {
        lemma_dot_identity_left(a, i, j, a.rows);
        lemma_wrap_in_range(a.at(i, j));
    }
    lemma_ext_equal(product(id, a), a);
}

/// Multiplying by a zero matrix on the right gives a zero matrix.
pub proof fn lemma_product_zero_right(a: MatrixView, cols: nat)
    ensures
        product(a, MatrixView::zero(a.cols, cols)) == MatrixView::zero(a.rows, cols),
{
    let z = MatrixView::zero(a.cols, cols);
    lemma_zero(a.cols, cols);
    lemma_zero(a.rows, cols);
    lemma_product(a, z);
    assert forall|i: int, j: int| 0 <= i < a.rows && 0 <= j < cols implies #[trigger] product(
        a,
        z,
    ).at(i, j) == MatrixView::zero(a.rows, cols).at(i, j) by {
        assert forall|t: int| 0 <= t < a.cols implies #[trigger] a.at(i, t) == 0 || #[trigger] z.at(
            t,
            j,
        ) == 0 by {
            assert(z.at(t, j) == 0);
        }
        lemma_dot_zero_tail(a, z, i, j, 0, a.cols);
        crate::product::lemma_dot_unfold(a, z, i, j, 0);
        lemma_wrap_in_range(0);
    }
    lemma_ext_equal(product(a, z), MatrixView::zero(a.rows, cols));
}

/// Multiplying by a zero matrix on the left gives a zero matrix.
pub proof fn lemma_product_zero_left(rows: nat, b: MatrixView)
    ensures
        product(MatrixView::zero(rows, b.rows), b) == MatrixView::zero(rows, b.cols),
{
    let z = MatrixView::zero(rows, b.rows);
    lemma_zero(rows, b.rows);
    lemma_zero(rows, b.cols);
    lemma_product(z, b);
    assert forall|i: int, j: int| 0 <= i < rows && 0 <= j < b.cols implies #[trigger] product(
        z,
        b,
    ).at(i, j) == MatrixView::zero(rows, b.cols).at(i, j) by {
        assert forall|t: int| 0 <= t < b.rows implies #[trigger] z.at(i, t) == 0 || #[trigger] b.at(
            t,
            j,
        ) == 0 by {
            assert(z.at(i, t) == 0);
        }
        lemma_dot_zero_tail(z, b, i, j, 0, b.rows);
        crate::product::lemma_dot_unfold(z, b, i, j, 0);
        lemma_wrap_in_range(0);
    }
    lemma_ext_equal(product(z, b), MatrixView::zero(rows, b.cols));
}

} // verus!
