//! Strassen's divide-and-conquer multiplication: seven half-size products
//! in place of eight, recombined into the four quadrants of the result.

use crate::algebra::{
    lemma_dot_halves, lemma_dot_minus_left, lemma_dot_minus_right, lemma_dot_plus_left,
    lemma_dot_plus_right, lemma_pad_product,
};
use crate::arith::{
    congruent, lemma_congruent_add, lemma_congruent_trans, lemma_congruent_wrap,
    lemma_wrap_congruent, lemma_wrap_in_range, wrap,
};
use crate::blocks::{
    add_matrices, assemble, assemble_entry, combine_matrices, lemma_assemble, lemma_block,
    lemma_minus, lemma_pad, lemma_plus, split_matrix, sub_matrices,
};
use crate::matrix::{Matrix, MatrixView};
use crate::product::{dot, lemma_is_product, lemma_product, product, product_entry};
use vstd::prelude::*;

verus! {

/// The top left quadrant of a square matrix.
pub open spec fn q11(a: MatrixView) -> MatrixView {
    a.block(0, 0, a.rows / 2, a.rows / 2)
}

/// The top right quadrant of a square matrix.
pub open spec fn q12(a: MatrixView) -> MatrixView {
    a.block(0, (a.rows / 2) as int, a.rows / 2, a.rows / 2)
}

/// The bottom left quadrant of a square matrix.
pub open spec fn q21(a: MatrixView) -> MatrixView {
    a.block((a.rows / 2) as int, 0, a.rows / 2, a.rows / 2)
}

/// The bottom right quadrant of a square matrix.
pub open spec fn q22(a: MatrixView) -> MatrixView {
    a.block((a.rows / 2) as int, (a.rows / 2) as int, a.rows / 2, a.rows / 2)
}

/// The left factor of the `k`-th of the seven products, for `k` from 1 to 7.
pub open spec fn left_operand(a: MatrixView, k: int) -> MatrixView {
    if k == 1 {
        q11(a).plus(q22(a))
    } else if k == 2 {
        q21(a).plus(q22(a))
    } else if k == 3 {
        q11(a)
    } else if k == 4 {
        q22(a)
    } else if k == 5 {
        q11(a).plus(q12(a))
    } else if k == 6 {
        q21(a).minus(q11(a))
    } else {
        q12(a).minus(q22(a))
    }
}

/// The right factor of the `k`-th of the seven products, for `k` from 1 to 7.
pub open spec fn right_operand(b: MatrixView, k: int) -> MatrixView {
    if k == 1 {
        q11(b).plus(q22(b))
    } else if k == 2 {
        q11(b)
    } else if k == 3 {
        q12(b).minus(q22(b))
    } else if k == 4 {
        q21(b).minus(q11(b))
    } else if k == 5 {
        q22(b)
    } else if k == 6 {
        q11(b).plus(q12(b))
    } else {
        q21(b).plus(q22(b))
    }
}

/// The result assembled from the seven products.
pub open spec fn recombine(
    m1: MatrixView,
    m2: MatrixView,
    m3: MatrixView,
    m4: MatrixView,
    m5: MatrixView,
    m6: MatrixView,
    m7: MatrixView,
) -> MatrixView {
    assemble(
        m1.plus(m4).minus(m5).plus(m7),
        m3.plus(m5),
        m2.plus(m4),
        m1.plus(m3).minus(m2).plus(m6),
    )
}

/// One level of the scheme: the seven products are the true products of
/// their factors.
pub open spec fn strassen_step(a: MatrixView, b: MatrixView) -> MatrixView {
    recombine(
        product(left_operand(a, 1), right_operand(b, 1)),
        product(left_operand(a, 2), right_operand(b, 2)),
        product(left_operand(a, 3), right_operand(b, 3)),
        product(left_operand(a, 4), right_operand(b, 4)),
        product(left_operand(a, 5), right_operand(b, 5)),
        product(left_operand(a, 6), right_operand(b, 6)),
        product(left_operand(a, 7), right_operand(b, 7)),
    )
}

/// A size that halving brings down to the threshold through even sizes only.
pub open spec fn halvable(n: nat, threshold: nat) -> bool
    decreases n,
{
    n <= threshold || (n % 2 == 0 && halvable(n / 2, threshold))
}

/// The whole scheme on square matrices of one size: the schoolbook product
/// at or below the threshold, seven recursive products above it.
pub open spec fn strassen(a: MatrixView, b: MatrixView, threshold: nat) -> MatrixView
    decreases a.rows,
{
    if a.rows <= threshold {
        product(a, b)
    } else {
        recombine(
            strassen(left_operand(a, 1), right_operand(b, 1), threshold),
            strassen(left_operand(a, 2), right_operand(b, 2), threshold),
            strassen(left_operand(a, 3), right_operand(b, 3), threshold),
            strassen(left_operand(a, 4), right_operand(b, 4), threshold),
            strassen(left_operand(a, 5), right_operand(b, 5), threshold),
            strassen(left_operand(a, 6), right_operand(b, 6), threshold),
            strassen(left_operand(a, 7), right_operand(b, 7), threshold),
        )
    }
}

/// Each factor of the seven products is a well-formed square matrix of half
/// the size.
pub proof fn lemma_operands(a: MatrixView, k: int)
    ensures
        left_operand(a, k).wf(),
        left_operand(a, k).rows == a.rows / 2,
        left_operand(a, k).cols == a.rows / 2,
        right_operand(a, k).wf(),
        right_operand(a, k).rows == a.rows / 2,
        right_operand(a, k).cols == a.rows / 2,
{
    let m = a.rows / 2;
    lemma_block(a, 0, 0, m, m);
    lemma_block(a, 0, m as int, m, m);
    lemma_block(a, m as int, 0, m, m);
    lemma_block(a, m as int, m as int, m, m);
    lemma_plus(q11(a), q22(a));
    lemma_plus(q21(a), q22(a));
    lemma_plus(q11(a), q12(a));
    lemma_minus(q21(a), q11(a));
    lemma_minus(q12(a), q22(a));
    lemma_minus(q12(a), q22(a));
    lemma_minus(q21(a), q11(a));
}

/// The inner products inside the seven products, written out over the
/// quadrants of the two factors.
proof fn lemma_expand(a: MatrixView, b: MatrixView, i: int, j: int)
    requires
        0 <= i < a.rows / 2,
        0 <= j < a.rows / 2,
        b.rows == a.rows,
    ensures
        ({
            let m = a.rows / 2;
            let d = |x: MatrixView, y: MatrixView| dot(x, y, i, j, m);
            &&& congruent(
                d(left_operand(a, 1), right_operand(b, 1)),
                d(q11(a), q11(b)) + d(q11(a), q22(b)) + d(q22(a), q11(b)) + d(q22(a), q22(b)),
            )
            &&& congruent(
                d(left_operand(a, 2), right_operand(b, 2)),
                d(q21(a), q11(b)) + d(q22(a), q11(b)),
            )
            &&& congruent(
                d(left_operand(a, 3), right_operand(b, 3)),
                d(q11(a), q12(b)) - d(q11(a), q22(b)),
            )
            &&& congruent(
                d(left_operand(a, 4), right_operand(b, 4)),
                d(q22(a), q21(b)) - d(q22(a), q11(b)),
            )
            &&& congruent(
                d(left_operand(a, 5), right_operand(b, 5)),
                d(q11(a), q22(b)) + d(q12(a), q22(b)),
            )
            &&& congruent(
                d(left_operand(a, 6), right_operand(b, 6)),
                d(q21(a), q11(b)) + d(q21(a), q12(b)) - d(q11(a), q11(b)) - d(q11(a), q12(b)),
            )
            &&& congruent(
                d(left_operand(a, 7), right_operand(b, 7)),
                d(q12(a), q21(b)) + d(q12(a), q22(b)) - d(q22(a), q21(b)) - d(q22(a), q22(b)),
            )
        }),
{
    reveal(congruent);
    let m = a.rows / 2;
    lemma_block(a, 0, 0, m, m);
    lemma_block(a, 0, m as int, m, m);
    lemma_block(a, m as int, 0, m, m);
    lemma_block(a, m as int, m as int, m, m);
    lemma_block(b, 0, 0, m, m);
    lemma_block(b, 0, m as int, m, m);
    lemma_block(b, m as int, 0, m, m);
    lemma_block(b, m as int, m as int, m, m);
    // (a11 + a22)(b11 + b22)
    lemma_dot_plus_left(q11(a), q22(a), right_operand(b, 1), i, j, m);
    lemma_dot_plus_right(q11(a), q11(b), q22(b), i, j, m);
    lemma_dot_plus_right(q22(a), q11(b), q22(b), i, j, m);
    // (a21 + a22) b11
    lemma_dot_plus_left(q21(a), q22(a), q11(b), i, j, m);
    // a11 (b12 - b22)
    lemma_dot_minus_right(q11(a), q12(b), q22(b), i, j, m);
    // a22 (b21 - b11)
    lemma_dot_minus_right(q22(a), q21(b), q11(b), i, j, m);
    // (a11 + a12) b22
    lemma_dot_plus_left(q11(a), q12(a), q22(b), i, j, m);
    // (a21 - a11)(b11 + b12)
    lemma_dot_minus_left(q21(a), q11(a), right_operand(b, 6), i, j, m);
    lemma_dot_plus_right(q21(a), q11(b), q12(b), i, j, m);
    lemma_dot_plus_right(q11(a), q11(b), q12(b), i, j, m);
    // (a12 - a22)(b21 + b22)
    lemma_dot_minus_left(q12(a), q22(a), right_operand(b, 7), i, j, m);
    lemma_dot_plus_right(q12(a), q21(b), q22(b), i, j, m);
    lemma_dot_plus_right(q22(a), q21(b), q22(b), i, j, m);
}

/// The entries of the four quadrants of the recombined result, over the
/// entries of the seven products.
proof fn lemma_recombine_entries(
    m1: MatrixView,
    m2: MatrixView,
    m3: MatrixView,
    m4: MatrixView,
    m5: MatrixView,
    m6: MatrixView,
    m7: MatrixView,
    i: int,
    j: int,
)
    requires
        m1.rows == m1.cols,
        m2.rows == m1.rows && m2.cols == m1.rows,
        m3.rows == m1.rows && m3.cols == m1.rows,
        0 <= i < m1.rows,
        0 <= j < m1.rows,
    ensures
        ({
            let m = m1.rows as int;
            let r = recombine(m1, m2, m3, m4, m5, m6, m7);
            &&& r.at(i, j) == wrap(
                wrap(wrap(m1.at(i, j) + m4.at(i, j)) - m5.at(i, j)) + m7.at(i, j),
            )
            &&& r.at(i, j + m) == wrap(m3.at(i, j) + m5.at(i, j))
            &&& r.at(i + m, j) == wrap(m2.at(i, j) + m4.at(i, j))
            &&& r.at(i + m, j + m) == wrap(
                wrap(wrap(m1.at(i, j) + m3.at(i, j)) - m2.at(i, j)) + m6.at(i, j),
            )
        }),
{
    let m = m1.rows as int;
    let c11 = m1.plus(m4).minus(m5).plus(m7);
    let c12 = m3.plus(m5);
    let c21 = m2.plus(m4);
    let c22 = m1.plus(m3).minus(m2).plus(m6);
    lemma_plus(m1, m4);
    lemma_minus(m1.plus(m4), m5);
    lemma_plus(m1.plus(m4).minus(m5), m7);
    lemma_plus(m3, m5);
    lemma_plus(m2, m4);
    lemma_plus(m1, m3);
    lemma_minus(m1.plus(m3), m2);
    lemma_plus(m1.plus(m3).minus(m2), m6);
    lemma_assemble(c11, c12, c21, c22);
    let r = assemble(c11, c12, c21, c22);
    assert(r.at(i, j) == assemble_entry(c11, c12, c21, c22, i, j));
    assert(r.at(i, j + m) == assemble_entry(c11, c12, c21, c22, i, j + m));
    assert(r.at(i + m, j) == assemble_entry(c11, c12, c21, c22, i + m, j));
    assert(r.at(i + m, j + m) == assemble_entry(c11, c12, c21, c22, i + m, j + m));
    assert(m1.plus(m4).in_bounds(i, j));
    assert(m1.plus(m4).minus(m5).in_bounds(i, j));
    assert(m1.plus(m3).in_bounds(i, j));
    assert(m1.plus(m3).minus(m2).in_bounds(i, j));
}

/// An `i32` that is congruent to an inner product is the entry of the
/// product.
proof fn lemma_entry_from_congruence(a: MatrixView, b: MatrixView, r: int, c: int, v: i32)
    requires
        congruent(v as int, dot(a, b, r, c, a.cols)),
    ensures
        v == product_entry(a, b, r, c),
{
    lemma_congruent_wrap(v as int, dot(a, b, r, c, a.cols));
    lemma_wrap_in_range(v);
}

/// The entries of one level of the scheme, over the inner products inside
/// the seven products.
proof fn lemma_step_values(a: MatrixView, b: MatrixView, i: int, j: int)
    requires
        a.rows == a.cols,
        b.rows == a.rows,
        b.cols == a.rows,
        a.rows % 2 == 0,
        0 <= i < a.rows / 2,
        0 <= j < a.rows / 2,
    ensures
        ({
            let m = a.rows / 2;
            let s = strassen_step(a, b);
            let d = |k: int| wrap(dot(left_operand(a, k), right_operand(b, k), i, j, m));
            &&& s.at(i, j) == wrap(wrap(wrap(d(1) + d(4)) - d(5)) + d(7))
            &&& s.at(i, j + m) == wrap(d(3) + d(5))
            &&& s.at(i + m, j) == wrap(d(2) + d(4))
            &&& s.at(i + m, j + m) == wrap(wrap(wrap(d(1) + d(3)) - d(2)) + d(6))
        }),
{
    let m1 = product(left_operand(a, 1), right_operand(b, 1));
    let m2 = product(left_operand(a, 2), right_operand(b, 2));
    let m3 = product(left_operand(a, 3), right_operand(b, 3));
    let m4 = product(left_operand(a, 4), right_operand(b, 4));
    let m5 = product(left_operand(a, 5), right_operand(b, 5));
    let m6 = product(left_operand(a, 6), right_operand(b, 6));
    let m7 = product(left_operand(a, 7), right_operand(b, 7));
    lemma_operands(a, 1);
    lemma_operands(a, 2);
    lemma_operands(a, 3);
    lemma_operands(a, 4);
    lemma_operands(a, 5);
    lemma_operands(a, 6);
    lemma_operands(a, 7);
    lemma_operands(b, 1);
    lemma_operands(b, 2);
    lemma_operands(b, 3);
    lemma_operands(b, 4);
    lemma_operands(b, 5);
    lemma_operands(b, 6);
    lemma_operands(b, 7);
    lemma_product(left_operand(a, 1), right_operand(b, 1));
    lemma_product(left_operand(a, 2), right_operand(b, 2));
    lemma_product(left_operand(a, 3), right_operand(b, 3));
    lemma_product(left_operand(a, 4), right_operand(b, 4));
    lemma_product(left_operand(a, 5), right_operand(b, 5));
    lemma_product(left_operand(a, 6), right_operand(b, 6));
    lemma_product(left_operand(a, 7), right_operand(b, 7));
    lemma_recombine_entries(m1, m2, m3, m4, m5, m6, m7, i, j);
}

/// Wrapping every intermediate result changes a sum or difference by a
/// multiple of 2^32 only.
proof fn lemma_wrap_chain(x: int, y: int, z: int, w: int)
    ensures
        congruent(wrap(wrap(wrap(wrap(x) + wrap(y)) - wrap(z)) + wrap(w)) as int, x + y - z + w),
        congruent(wrap(wrap(x) + wrap(y)) as int, x + y),
{
    let a = wrap(x) as int;
    let b = wrap(y) as int;
    let c = wrap(a + b) as int;
    let e = wrap(z) as int;
    let f = wrap(c - e) as int;
    let g = wrap(w) as int;
    let h = wrap(f + g) as int;
    lemma_wrap_congruent(x);
    lemma_wrap_congruent(y);
    lemma_wrap_congruent(z);
    lemma_wrap_congruent(w);
    lemma_wrap_congruent(a + b);
    lemma_wrap_congruent(c - e);
    lemma_wrap_congruent(f + g);
    lemma_congruent_add(a, x, b, y);
    lemma_congruent_trans(c, a + b, x + y);
    lemma_congruent_add(c, x + y, e, z);
    lemma_congruent_trans(f, c - e, x + y - z);
    lemma_congruent_add(f, x + y - z, g, w);
    lemma_congruent_trans(h, f + g, x + y - z + w);
}

/// The cancellation at the heart of the scheme: what is left of the seven
/// products in each quadrant, once they are written out over the quadrants
/// of the factors (`x1221` stands for the product of `a12` and `b21`).
proof fn lemma_cancel(
    d1: int,
    d2: int,
    d3: int,
    d4: int,
    d5: int,
    d6: int,
    d7: int,
    x1111: int,
    x1112: int,
    x1122: int,
    x1221: int,
    x1222: int,
    x2111: int,
    x2112: int,
    x2211: int,
    x2221: int,
    x2222: int,
)
    requires
        congruent(d1, x1111 + x1122 + x2211 + x2222),
        congruent(d2, x2111 + x2211),
        congruent(d3, x1112 - x1122),
        congruent(d4, x2221 - x2211),
        congruent(d5, x1122 + x1222),
        congruent(d6, x2111 + x2112 - x1111 - x1112),
        congruent(d7, x1221 + x1222 - x2221 - x2222),
    ensures
        congruent(d1 + d4 - d5 + d7, x1111 + x1221),
        congruent(d3 + d5, x1112 + x1222),
        congruent(d2 + d4, x2111 + x2221),
        congruent(d1 + d3 - d2 + d6, x2112 + x2222),
{
    reveal(congruent);
}

/// One level of the scheme gives, in each of the four quadrants, the entry of
/// the product.
proof fn lemma_step_entries(a: MatrixView, b: MatrixView, i: int, j: int)
    requires
        a.rows == a.cols,
        b.rows == a.rows,
        b.cols == a.rows,
        a.rows % 2 == 0,
        0 <= i < a.rows / 2,
        0 <= j < a.rows / 2,
    ensures
        ({
            let m = (a.rows / 2) as int;
            let s = strassen_step(a, b);
            &&& s.at(i, j) == product_entry(a, b, i, j)
            &&& s.at(i, j + m) == product_entry(a, b, i, j + m)
            &&& s.at(i + m, j) == product_entry(a, b, i + m, j)
            &&& s.at(i + m, j + m) == product_entry(a, b, i + m, j + m)
        }),
{
    let m = a.rows / 2;
    let mi = m as int;
    let s = strassen_step(a, b);
    let d1 = dot(left_operand(a, 1), right_operand(b, 1), i, j, m);
    let d2 = dot(left_operand(a, 2), right_operand(b, 2), i, j, m);
    let d3 = dot(left_operand(a, 3), right_operand(b, 3), i, j, m);
    let d4 = dot(left_operand(a, 4), right_operand(b, 4), i, j, m);
    let d5 = dot(left_operand(a, 5), right_operand(b, 5), i, j, m);
    let d6 = dot(left_operand(a, 6), right_operand(b, 6), i, j, m);
    let d7 = dot(left_operand(a, 7), right_operand(b, 7), i, j, m);
    let x1111 = dot(q11(a), q11(b), i, j, m);
    let x1112 = dot(q11(a), q12(b), i, j, m);
    let x1122 = dot(q11(a), q22(b), i, j, m);
    let x1221 = dot(q12(a), q21(b), i, j, m);
    let x1222 = dot(q12(a), q22(b), i, j, m);
    let x2111 = dot(q21(a), q11(b), i, j, m);
    let x2112 = dot(q21(a), q12(b), i, j, m);
    let x2211 = dot(q22(a), q11(b), i, j, m);
    let x2221 = dot(q22(a), q21(b), i, j, m);
    let x2222 = dot(q22(a), q22(b), i, j, m);
    lemma_step_values(a, b, i, j);
    lemma_wrap_chain(d1, d4, d5, d7);
    lemma_wrap_chain(d3, d5, 0, 0);
    lemma_wrap_chain(d2, d4, 0, 0);
    lemma_wrap_chain(d1, d3, d2, d6);
    lemma_expand(a, b, i, j);
    lemma_cancel(
        d1,
        d2,
        d3,
        d4,
        d5,
        d6,
        d7,
        x1111,
        x1112,
        x1122,
        x1221,
        x1222,
        x2111,
        x2112,
        x2211,
        x2221,
        x2222,
    );
    assert(dot(a, b, i, j, a.cols) == x1111 + x1221) by {
        lemma_dot_halves(a, b, m, 0, 0, i, j);
    }
    assert(dot(a, b, i, j + mi, a.cols) == x1112 + x1222) by {
        lemma_dot_halves(a, b, m, 0, mi, i, j);
    }
    assert(dot(a, b, i + mi, j, a.cols) == x2111 + x2221) by {
        lemma_dot_halves(a, b, m, mi, 0, i, j);
    }
    assert(dot(a, b, i + mi, j + mi, a.cols) == x2112 + x2222) by {
        lemma_dot_halves(a, b, m, mi, mi, i, j);
    }
    lemma_congruent_trans(s.at(i, j) as int, d1 + d4 - d5 + d7, x1111 + x1221);
    lemma_congruent_trans(s.at(i, j + mi) as int, d3 + d5, x1112 + x1222);
    lemma_congruent_trans(s.at(i + mi, j) as int, d2 + d4, x2111 + x2221);
    lemma_congruent_trans(s.at(i + mi, j + mi) as int, d1 + d3 - d2 + d6, x2112 + x2222);
    lemma_entry_from_congruence(a, b, i, j, s.at(i, j));
    lemma_entry_from_congruence(a, b, i, j + mi, s.at(i, j + mi));
    lemma_entry_from_congruence(a, b, i + mi, j, s.at(i + mi, j));
    lemma_entry_from_congruence(a, b, i + mi, j + mi, s.at(i + mi, j + mi));
}

/// Strassen's identity: the seven products of one level, recombined, are the
/// product of the two matrices.
pub proof fn lemma_strassen_step(a: MatrixView, b: MatrixView)
    requires
        a.rows == a.cols,
        b.rows == a.rows,
        b.cols == a.rows,
        a.rows % 2 == 0,
    ensures
        strassen_step(a, b) == product(a, b),
{
    let m = (a.rows / 2) as int;
    let s = strassen_step(a, b);
    lemma_operands(a, 1);
    lemma_operands(b, 1);
    lemma_product(left_operand(a, 1), right_operand(b, 1));
    lemma_assemble(
        product(left_operand(a, 1), right_operand(b, 1)).plus(
            product(left_operand(a, 4), right_operand(b, 4)),
        ).minus(product(left_operand(a, 5), right_operand(b, 5))).plus(
            product(left_operand(a, 7), right_operand(b, 7)),
        ),
        product(left_operand(a, 3), right_operand(b, 3)).plus(
            product(left_operand(a, 5), right_operand(b, 5)),
        ),
        product(left_operand(a, 2), right_operand(b, 2)).plus(
            product(left_operand(a, 4), right_operand(b, 4)),
        ),
        product(left_operand(a, 1), right_operand(b, 1)).plus(
            product(left_operand(a, 3), right_operand(b, 3)),
        ).minus(product(left_operand(a, 2), right_operand(b, 2))).plus(
            product(left_operand(a, 6), right_operand(b, 6)),
        ),
    );
    assert forall|r: int, c: int| 0 <= r < a.rows && 0 <= c < b.cols implies #[trigger] s.at(r, c)
        == product_entry(a, b, r, c) by {
        let i = if r < m { r } else { r - m };
        let j = if c < m { c } else { c - m };
        lemma_step_entries(a, b, i, j);
    }
    lemma_is_product(s, a, b);
}

/// The scheme computes the product: on square matrices of one size that
/// halving brings down to the threshold, every level of seven products
/// recombines to the product of its factors.
pub proof fn lemma_strassen_is_product(a: MatrixView, b: MatrixView, threshold: nat)
    requires
        a.rows == a.cols,
        b.rows == a.rows,
        b.cols == a.rows,
        halvable(a.rows, threshold),
    ensures
        strassen(a, b, threshold) == product(a, b),
    decreases a.rows,
{
    if a.rows > threshold {
        lemma_operands(a, 1);
        lemma_operands(a, 2);
        lemma_operands(a, 3);
        lemma_operands(a, 4);
        lemma_operands(a, 5);
        lemma_operands(a, 6);
        lemma_operands(a, 7);
        lemma_operands(b, 1);
        lemma_operands(b, 2);
        lemma_operands(b, 3);
        lemma_operands(b, 4);
        lemma_operands(b, 5);
        lemma_operands(b, 6);
        lemma_operands(b, 7);
        lemma_strassen_is_product(left_operand(a, 1), right_operand(b, 1), threshold);
        lemma_strassen_is_product(left_operand(a, 2), right_operand(b, 2), threshold);
        lemma_strassen_is_product(left_operand(a, 3), right_operand(b, 3), threshold);
        lemma_strassen_is_product(left_operand(a, 4), right_operand(b, 4), threshold);
        lemma_strassen_is_product(left_operand(a, 5), right_operand(b, 5), threshold);
        lemma_strassen_is_product(left_operand(a, 6), right_operand(b, 6), threshold);
        lemma_strassen_is_product(left_operand(a, 7), right_operand(b, 7), threshold);
        lemma_strassen_step(a, b);
    }
}

/// The size at or below which the schoolbook multiplier is used.
pub const STRASSEN_THRESHOLD: usize = 64;

/// Which multiplier handles a product.
#[derive(Debug, Clone, Copy, PartialEq, Eq, Structural)]
pub enum AlgorithmChoice {
    /// The schoolbook triple loop.
    Standard,
    /// Strassen's scheme on padded square matrices.
    Strassen,
}

/// The multiplier for an `rows` by `inner` times `inner` by `cols` product:
/// the schoolbook one as soon as one dimension is at or below the threshold.
pub open spec fn strategy(rows: nat, inner: nat, cols: nat, threshold: nat) -> AlgorithmChoice {
    if rows <= threshold || inner <= threshold || cols <= threshold {
        AlgorithmChoice::Standard
    } else {
        AlgorithmChoice::Strassen
    }
}

/// Chooses the multiplier by the dimensions of the product.
pub fn choose_strategy(rows: usize, inner: usize, cols: usize, threshold: usize) -> (choice:
    AlgorithmChoice)
    ensures
        choice == strategy(rows as nat, inner as nat, cols as nat, threshold as nat),
{
    if rows <= threshold || inner <= threshold || cols <= threshold {
        AlgorithmChoice::Standard
    } else {
        AlgorithmChoice::Strassen
    }
}

/// The least power of two that is at least `x`.
pub open spec fn pow2_ceil(x: nat) -> nat
    decreases x,
{
    if x <= 1 {
        1
    } else {
        2 * pow2_ceil((x + 1) / 2)
    }
}

/// `pow2_ceil(x)` is a power of two, at least `x`, and less than twice `x`.
pub proof fn lemma_pow2_ceil(x: nat)
    ensures
        vstd::arithmetic::power2::is_pow2(pow2_ceil(x) as int),
        x <= pow2_ceil(x),
        x >= 1 ==> pow2_ceil(x) < 2 * x,
    decreases x,
{
    reveal(vstd::arithmetic::power2::is_pow2);
    if x > 1 {
        lemma_pow2_ceil((x + 1) / 2);
    }
}

/// Halving a power of two reaches any positive threshold through even sizes.
pub proof fn lemma_pow2_ceil_halvable(x: nat, threshold: nat)
    requires
        threshold >= 1,
    ensures
        halvable(pow2_ceil(x), threshold),
    decreases x,
{
    if x > 1 {
        lemma_pow2_ceil_halvable((x + 1) / 2, threshold);
    }
}

/// The least power of two that is at least `x`.
pub fn next_power_of_two(x: usize) -> (p: usize)
    requires
        pow2_ceil(x as nat) <= usize::MAX,
    ensures
        p == pow2_ceil(x as nat),
    decreases x,
{
    if x <= 1 {
        1
    } else {
        2 * next_power_of_two(x / 2 + x % 2)
    }
}

/// The side of the square matrices that the factors of an `rows` by `inner`
/// times `inner` by `cols` product are padded to.
pub open spec fn padded_size(rows: nat, inner: nat, cols: nat) -> nat {
    pow2_ceil(
        if rows >= inner && rows >= cols {
            rows
        } else if inner >= cols {
            inner
        } else {
            cols
        },
    )
}

/// The product of two square matrices of one size by Strassen's scheme, with
/// the schoolbook multiplier at or below the given threshold.
pub fn strassen_recursive_with_threshold(a: &Matrix, b: &Matrix, threshold: usize) -> (result:
    Matrix)
    requires
        a@.rows == a@.cols,
        b@.rows == a@.rows,
        b@.cols == a@.rows,
        halvable(a@.rows, threshold as nat),
    ensures
        result@ == product(a@, b@),
    decreases a@.rows,
{
    proof {
        use_type_invariant(a);
    }
    let n = a.rows();
    if n <= threshold {
        return a.standard_multiply(b).unwrap();
    }
    let (a11, a12, a21, a22) = split_matrix(a);
    let (b11, b12, b21, b22) = split_matrix(b);

    let s1 = add_matrices(&a11, &a22);
    let t1 = add_matrices(&b11, &b22);
    let m1 = strassen_recursive_with_threshold(&s1, &t1, threshold);
    let s2 = add_matrices(&a21, &a22);
    let m2 = strassen_recursive_with_threshold(&s2, &b11, threshold);
    let t3 = sub_matrices(&b12, &b22);
    let m3 = strassen_recursive_with_threshold(&a11, &t3, threshold);
    let t4 = sub_matrices(&b21, &b11);
    let m4 = strassen_recursive_with_threshold(&a22, &t4, threshold);
    let s5 = add_matrices(&a11, &a12);
    let m5 = strassen_recursive_with_threshold(&s5, &b22, threshold);
    let s6 = sub_matrices(&a21, &a11);
    let t6 = add_matrices(&b11, &b12);
    let m6 = strassen_recursive_with_threshold(&s6, &t6, threshold);
    let s7 = sub_matrices(&a12, &a22);
    let t7 = add_matrices(&b21, &b22);
    let m7 = strassen_recursive_with_threshold(&s7, &t7, threshold);

    let c11 = add_matrices(&sub_matrices(&add_matrices(&m1, &m4), &m5), &m7);
    let c12 = add_matrices(&m3, &m5);
    let c21 = add_matrices(&m2, &m4);
    let c22 = add_matrices(&sub_matrices(&add_matrices(&m1, &m3), &m2), &m6);

    proof {
        assert((2 * (n / 2)) * (2 * (n / 2)) == n * n) by (nonlinear_arith)
            requires
                n % 2 == 0,
        ;
    }
    let result = combine_matrices(&c11, &c12, &c21, &c22);
    proof {
        assert(result@ == strassen_step(a@, b@));
        lemma_strassen_step(a@, b@);
    }
    result
}

/// The product of two square matrices of one size by Strassen's scheme, with
/// the schoolbook multiplier at or below `STRASSEN_THRESHOLD`.
pub fn strassen_recursive(a: &Matrix, b: &Matrix) -> (result: Matrix)
    requires
        a@.rows == a@.cols,
        b@.rows == a@.rows,
        b@.cols == a@.rows,
        halvable(a@.rows, STRASSEN_THRESHOLD as nat),
    ensures
        result@ == product(a@, b@),
{
    strassen_recursive_with_threshold(a, b, STRASSEN_THRESHOLD)
}

impl Matrix {
    /// The product `self * other`, or `None` where the inner dimensions
    /// disagree. Where every dimension is above the threshold, both factors
    /// are padded with zeros to squares whose side is a power of two,
    /// multiplied by Strassen's scheme, and the result is cut back to its
    /// true shape; otherwise the schoolbook multiplier is used.
    pub fn strassen_multiply_with_threshold(&self, other: &Matrix, threshold: usize) -> (result:
        Option<Matrix>)
        requires
            threshold >= 1,
            self@.cols == other@.rows ==> self@.rows * other@.cols <= usize::MAX,
            self@.cols == other@.rows && strategy(
                self@.rows,
                self@.cols,
                other@.cols,
                threshold as nat,
            ) == AlgorithmChoice::Strassen ==> padded_size(self@.rows, self@.cols, other@.cols)
                * padded_size(self@.rows, self@.cols, other@.cols) <= usize::MAX,
        ensures
            match result {
                Some(m) => self@.cols == other@.rows && m@ == product(self@, other@),
                None => self@.cols != other@.rows,
            },
    {
        if self.cols() != other.rows() {
            return None;
        }
        let rows = self.rows();
        let inner = self.cols();
        let cols = other.cols();
        match choose_strategy(rows, inner, cols, threshold) {
            AlgorithmChoice::Standard => {
                return self.standard_multiply(other);
            },
            AlgorithmChoice::Strassen => {},
        }
        let max_dim = if rows >= inner && rows >= cols {
            rows
        } else if inner >= cols {
            inner
        } else {
            cols
        };
        proof {
            use_type_invariant(self);
            use_type_invariant(other);
            lemma_pow2_ceil(max_dim as nat);
            lemma_pow2_ceil_halvable(max_dim as nat, threshold as nat);
            let side = pow2_ceil(max_dim as nat);
            assert(side <= side * side) by (nonlinear_arith)
                requires
                    side >= 1,
            ;
        }
        let n = next_power_of_two(max_dim);
        let a = self.pad_to_square(n);
        let b = other.pad_to_square(n);
        let square = strassen_recursive_with_threshold(&a, &b, threshold);
        let data = square.unpad(rows, cols);
        proof {
            lemma_pad(self@, n as nat);
            lemma_pad(other@, n as nat);
            lemma_product(a@, b@);
            lemma_block(square@, 0, 0, rows as nat, cols as nat);
            lemma_pad_product(self@, other@, n as nat);
        }
        let result = Matrix::from_vec(rows, cols, data);
        proof {
            let trimmed = square@.block(0, 0, rows as nat, cols as nat);
            assert(result matches Some(m) && m@ == trimmed);
        }
        result
    }

    /// The product `self * other` as `strassen_multiply_with_threshold` gives
    /// it with `STRASSEN_THRESHOLD`.
    pub fn strassen_multiply(&self, other: &Matrix) -> (result: Option<Matrix>)
        requires
            self@.cols == other@.rows ==> self@.rows * other@.cols <= usize::MAX,
            self@.cols == other@.rows && strategy(
                self@.rows,
                self@.cols,
                other@.cols,
                STRASSEN_THRESHOLD as nat,
            ) == AlgorithmChoice::Strassen ==> padded_size(self@.rows, self@.cols, other@.cols)
                * padded_size(self@.rows, self@.cols, other@.cols) <= usize::MAX,
        ensures
            match result {
                Some(m) => self@.cols == other@.rows && m@ == product(self@, other@),
                None => self@.cols != other@.rows,
            },
    {
        self.strassen_multiply_with_threshold(other, STRASSEN_THRESHOLD)
    }
}

} // verus!
