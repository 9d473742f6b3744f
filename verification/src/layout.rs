//! The layout that a general matrix multiplication kernel is handed when its
//! three matrices lie in row-major buffers.

use vstd::prelude::*;

verus! {

/// The dimensions, the strides (in elements) and the buffer lengths of a
/// product `C = A * B` of an `m` by `k` and a `k` by `n` matrix.
#[derive(Debug, Clone, Copy, PartialEq, Eq, Structural)]
pub struct KernelLayout {
    pub m: usize,
    pub k: usize,
    pub n: usize,
    /// Row and column stride of `A`.
    pub rsa: isize,
    pub csa: isize,
    /// Row and column stride of `B`.
    pub rsb: isize,
    pub csb: isize,
    /// Row and column stride of `C`.
    pub rsc: isize,
    pub csc: isize,
    /// The number of elements of `A`, of `B` and of `C`.
    pub a_len: usize,
    pub b_len: usize,
    pub c_len: usize,
}

/// Why two shapes have no layout.
#[derive(Debug, Clone, Copy, PartialEq, Eq, Structural)]
pub enum LayoutError {
    /// The inner dimensions disagree.
    DimensionMismatch,
    /// A stride or the length of a buffer would exceed `isize::MAX`.
    TooLarge,
}

/// Both strides and the lengths of the three buffers are at most
/// `isize::MAX`.
pub open spec fn layout_fits(a_rows: nat, inner: nat, b_cols: nat) -> bool {
    &&& inner <= isize::MAX
    &&& b_cols <= isize::MAX
    &&& a_rows * inner <= isize::MAX
    &&& inner * b_cols <= isize::MAX
    &&& a_rows * b_cols <= isize::MAX
}

/// The row-major layout of an `a_rows` by `inner` times `inner` by `b_cols`
/// product: rows lie one after the other, so the row stride is the number
/// of columns and the column stride is one.
pub open spec fn row_major(a_rows: nat, inner: nat, b_cols: nat) -> KernelLayout {
    KernelLayout {
        m: a_rows as usize,
        k: inner as usize,
        n: b_cols as usize,
        rsa: inner as isize,
        csa: 1,
        rsb: b_cols as isize,
        csb: 1,
        rsc: b_cols as isize,
        csc: 1,
        a_len: (a_rows * inner) as usize,
        b_len: (inner * b_cols) as usize,
        c_len: (a_rows * b_cols) as usize,
    }
}

/// With the row-major layout every element that the kernel addresses lies
/// inside its buffer, and no two positions of one matrix share an element.
pub proof fn lemma_row_major_in_bounds(a_rows: nat, inner: nat, b_cols: nat, i: int, t: int, j: int)
    requires
        layout_fits(a_rows, inner, b_cols),
        0 <= i < a_rows,
        0 <= t < inner,
        0 <= j < b_cols,
    ensures
        ({
            let l = row_major(a_rows, inner, b_cols);
            &&& l.m == a_rows && l.k == inner && l.n == b_cols
            &&& l.a_len == a_rows * inner && l.b_len == inner * b_cols && l.c_len == a_rows * b_cols
            &&& 0 <= i * l.rsa + t * l.csa < l.a_len
            &&& 0 <= t * l.rsb + j * l.csb < l.b_len
            &&& 0 <= i * l.rsc + j * l.csc < l.c_len
            &&& (i * l.rsa + t * l.csa) / (l.rsa as int) == i
            &&& (t * l.rsb + j * l.csb) / (l.rsb as int) == t
            &&& (i * l.rsc + j * l.csc) / (l.rsc as int) == i
        }),
{
    assert(a_rows <= a_rows * inner) by (nonlinear_arith)
        requires
            1 <= inner,
    ;
    crate::matrix::lemma_flat_index(a_rows, inner, i, t);
    crate::matrix::lemma_flat_index(inner, b_cols, t, j);
    crate::matrix::lemma_flat_index(a_rows, b_cols, i, j);
    assert(t * 1 == t && j * 1 == j) by (nonlinear_arith);
}

/// The row-major layout for the product of an `a_rows` by `a_cols` and a
/// `b_rows` by `b_cols` matrix, or the reason why there is none.
pub fn row_major_layout(a_rows: usize, a_cols: usize, b_rows: usize, b_cols: usize) -> (result:
    Result<KernelLayout, LayoutError>)
    ensures
        result == if a_cols != b_rows {
            Err::<KernelLayout, LayoutError>(LayoutError::DimensionMismatch)
        } else if !layout_fits(a_rows as nat, a_cols as nat, b_cols as nat) {
            Err::<KernelLayout, LayoutError>(LayoutError::TooLarge)
        } else {
            Ok::<KernelLayout, LayoutError>(row_major(a_rows as nat, a_cols as nat, b_cols as nat))
        },
{
    if a_cols != b_rows {
        return Err(LayoutError::DimensionMismatch);
    }
    if a_cols > isize::MAX as usize || b_cols > isize::MAX as usize {
        return Err(LayoutError::TooLarge);
    }
    let a_len = buffer_len(a_rows, a_cols);
    let b_len = buffer_len(a_cols, b_cols);
    let c_len = buffer_len(a_rows, b_cols);
    match (a_len, b_len, c_len) {
        (Some(a_len), Some(b_len), Some(c_len)) => {
            Ok(
                KernelLayout {
                    m: a_rows,
                    k: a_cols,
                    n: b_cols,
                    rsa: a_cols as isize,
                    csa: 1,
                    rsb: b_cols as isize,
                    csb: 1,
                    rsc: b_cols as isize,
                    csc: 1,
                    a_len,
                    b_len,
                    c_len,
                },
            )
        },
        _ => Err(LayoutError::TooLarge),
    }
}

/// The number of elements of a `rows` by `cols` buffer, where it is at most
/// `isize::MAX`.
fn buffer_len(rows: usize, cols: usize) -> (len: Option<usize>)
    ensures
        len == if rows * cols <= isize::MAX {
            Some((rows * cols) as usize)
        } else {
            None::<usize>
        },
{
    match rows.checked_mul(cols) {
        Some(len) => {
            if len <= isize::MAX as usize {
                Some(len)
            } else {
                None
            }
        },
        None => None,
    }
}

} // verus!
