//! Row-partitioned multiplication: the rows of the result are dealt out to a
//! fixed number of workers in contiguous chunks, each worker computes its
//! rows on its own, and a coordinator copies every chunk into the result.
//!
//! A worker is one call of `multiply_rows` and the coordinator's step is one
//! call of `merge_rows`; `mat_mul_parallel` runs the workers one after the
//! other.

use crate::arith::{lemma_wrap_in_range, wrap};
use crate::matrix::{
    lemma_ext_equal, lemma_from_fn, lemma_is_from_fn, lemma_update, Matrix, MatrixView,
};
use crate::product::{
    dot, lemma_accumulate, lemma_dot_unfold, lemma_is_product, product, product_entry,
};
use vstd::prelude::*;

verus! {

/// The first row of the chunk of worker `t`, and the end of the chunk of
/// worker `t - 1`.
pub open spec fn chunk_start(t: nat, rows: nat, workers: nat) -> nat {
    (t * rows) / workers
}

/// Chunk boundaries never decrease.
pub proof fn lemma_chunk_monotone(t1: nat, t2: nat, rows: nat, workers: nat)
    requires
        workers >= 1,
        t1 <= t2,
    ensures
        chunk_start(t1, rows, workers) <= chunk_start(t2, rows, workers),
{
    assert(t1 * rows <= t2 * rows) by (nonlinear_arith)
        requires
            t1 <= t2,
    ;
    vstd::arithmetic::div_mod::lemma_div_is_ordered(
        (t1 * rows) as int,
        (t2 * rows) as int,
        workers as int,
    );
}

/// The chunks start at the first row and end after the last one.
pub proof fn lemma_chunk_ends(rows: nat, workers: nat)
    requires
        workers >= 1,
    ensures
        chunk_start(0, rows, workers) == 0,
        chunk_start(workers, rows, workers) == rows,
{
    assert(0 * rows == 0) by (nonlinear_arith);
    assert(workers * rows == rows * workers) by (nonlinear_arith);
    vstd::arithmetic::div_mod::lemma_div_multiples_vanish(rows as int, workers as int);
}

/// The chunks are near-equal: each holds the number of rows divided by the
/// number of workers, rounded down or up.
pub proof fn lemma_chunk_size(t: nat, rows: nat, workers: nat)
    requires
        workers >= 1,
    ensures
        rows / workers <= chunk_start(t + 1, rows, workers) - chunk_start(t, rows, workers)
            <= rows / workers + 1,
{
    let w = workers as int;
    let x = (t * rows) as int;
    let a = x / w;
    let q = rows as int / w;
    let carry = x % w + rows as int % w;
    vstd::arithmetic::div_mod::lemma_fundamental_div_mod(x, w);
    vstd::arithmetic::div_mod::lemma_fundamental_div_mod(rows as int, w);
    assert((t + 1) * rows == x + rows) by (nonlinear_arith)
        requires
            x == t * rows,
    ;
    if carry < w {
        assert(x + rows == (a + q) * w + carry) by (nonlinear_arith)
            requires
                x == w * a + x % w,
                rows == w * q + rows as int % w,
                carry == x % w + rows as int % w,
        ;
        vstd::arithmetic::div_mod::lemma_fundamental_div_mod_converse(x + rows, w, a + q, carry);
    } else {
        assert(x + rows == (a + q + 1) * w + (carry - w)) by (nonlinear_arith)
            requires
                x == w * a + x % w,
                rows == w * q + rows as int % w,
                carry == x % w + rows as int % w,
        ;
        vstd::arithmetic::div_mod::lemma_fundamental_div_mod_converse(
            x + rows,
            w,
            a + q + 1,
            carry - w,
        );
    }
}

/// Every row belongs to the chunk of exactly one worker.
pub proof fn lemma_row_owner(rows: nat, workers: nat, i: nat) -> (t: nat)
    requires
        workers >= 1,
        i < rows,
    ensures
        t < workers,
        chunk_start(t, rows, workers) <= i < chunk_start(t + 1, rows, workers),
        forall|u: nat|
            u < workers && #[trigger] chunk_start(u, rows, workers) <= i < chunk_start(
                u + 1,
                rows,
                workers,
            ) ==> u == t,
{
    lemma_chunk_ends(rows, workers);
    let t = lemma_find_owner(rows, workers, i, workers);
    assert forall|u: nat|
        u < workers && #[trigger] chunk_start(u, rows, workers) <= i < chunk_start(
            u + 1,
            rows,
            workers,
        ) implies u == t by {
        if u < t {
            lemma_chunk_monotone(u + 1, t, rows, workers);
        } else if u > t {
            lemma_chunk_monotone(t + 1, u, rows, workers);
        }
    }
    t
}

/// Below a boundary that lies beyond row `i`, some chunk holds row `i`.
proof fn lemma_find_owner(rows: nat, workers: nat, i: nat, bound: nat) -> (t: nat)
    requires
        workers >= 1,
        chunk_start(0, rows, workers) == 0,
        bound <= workers,
        i < chunk_start(bound, rows, workers),
    ensures
        t < bound,
        chunk_start(t, rows, workers) <= i < chunk_start(t + 1, rows, workers),
    decreases bound,
{
    if chunk_start((bound - 1) as nat, rows, workers) <= i {
        (bound - 1) as nat
    } else {
        lemma_find_owner(rows, workers, i, (bound - 1) as nat)
    }
}

/// The boundary `chunk_start(t, rows, workers)`.
pub fn chunk_bound(t: usize, rows: usize, workers: usize) -> (bound: usize)
    requires
        workers >= 1,
        t <= workers,
    ensures
        bound == chunk_start(t as nat, rows as nat, workers as nat),
        bound <= rows,
{
    proof {
        assert(t * rows <= 0xffff_ffff_ffff_ffff * 0xffff_ffff_ffff_ffff) by (nonlinear_arith)
            requires
                0 <= t <= 0xffff_ffff_ffff_ffff,
                0 <= rows <= 0xffff_ffff_ffff_ffff,
        ;
        lemma_chunk_monotone(t as nat, workers as nat, rows as nat, workers as nat);
        lemma_chunk_ends(rows as nat, workers as nat);
    }
    let scaled: u128 = (t as u128) * (rows as u128);
    let bound: u128 = scaled / (workers as u128);
    bound as usize
}

/// What one worker hands back: a matrix of the shape of the product that
/// holds the rows of the product from `start` up to `end`, and zero in all
/// other rows.
pub open spec fn partial_product(a: MatrixView, b: MatrixView, start: nat, end: nat) -> MatrixView {
    MatrixView::from_fn(
        a.rows,
        b.cols,
        |i: int, j: int|
            if start <= i < end {
                product_entry(a, b, i, j)
            } else {
                0i32
            },
    )
}

impl MatrixView {
    /// `self` with the rows from `start` up to `end` taken from `source`.
    pub open spec fn with_rows(self, source: MatrixView, start: nat, end: nat) -> MatrixView {
        MatrixView::from_fn(
            self.rows,
            self.cols,
            |i: int, j: int|
                if start <= i < end {
                    source.at(i, j)
                } else {
                    self.at(i, j)
                },
        )
    }
}

/// The shape and the entries of a worker's result.
pub proof fn lemma_partial_product(a: MatrixView, b: MatrixView, start: nat, end: nat)
    ensures
        partial_product(a, b, start, end).wf(),
        partial_product(a, b, start, end).rows == a.rows,
        partial_product(a, b, start, end).cols == b.cols,
        forall|i: int, j: int|
            0 <= i < a.rows && 0 <= j < b.cols ==> #[trigger] partial_product(a, b, start, end).at(
                i,
                j,
            ) == if start <= i < end {
                product_entry(a, b, i, j)
            } else {
                0i32
            },
{
    lemma_from_fn(
        a.rows,
        b.cols,
        |i: int, j: int|
            if start <= i < end {
                product_entry(a, b, i, j)
            } else {
                0i32
            },
    );
}

/// The shape and the entries of a matrix with some rows replaced.
pub proof fn lemma_with_rows(target: MatrixView, source: MatrixView, start: nat, end: nat)
    ensures
        target.with_rows(source, start, end).wf(),
        target.with_rows(source, start, end).rows == target.rows,
        target.with_rows(source, start, end).cols == target.cols,
        forall|i: int, j: int|
            target.in_bounds(i, j) ==> #[trigger] target.with_rows(source, start, end).at(i, j)
                == if start <= i < end {
                source.at(i, j)
            } else {
                target.at(i, j)
            },
{
    lemma_from_fn(
        target.rows,
        target.cols,
        |i: int, j: int|
            if start <= i < end {
                source.at(i, j)
            } else {
                target.at(i, j)
            },
    );
}

/// Merging the chunk that follows the rows done so far extends them.
pub proof fn lemma_merge_next(a: MatrixView, b: MatrixView, start: nat, end: nat)
    requires
        start <= end,
    ensures
        partial_product(a, b, 0, start).with_rows(partial_product(a, b, start, end), start, end)
            == partial_product(a, b, 0, end),
{
    let done = partial_product(a, b, 0, start);
    let chunk = partial_product(a, b, start, end);
    lemma_partial_product(a, b, 0, start);
    lemma_partial_product(a, b, start, end);
    lemma_partial_product(a, b, 0, end);
    lemma_with_rows(done, chunk, start, end);
    lemma_ext_equal(done.with_rows(chunk, start, end), partial_product(a, b, 0, end));
}

/// Once every row is done, the result is the product.
pub proof fn lemma_all_rows(a: MatrixView, b: MatrixView)
    ensures
        partial_product(a, b, 0, a.rows) == product(a, b),
{
    lemma_partial_product(a, b, 0, a.rows);
    lemma_is_product(partial_product(a, b, 0, a.rows), a, b);
}

/// What the coordinator holds after it has merged, into a zero matrix, the
/// results of the workers in `order`, the last of them most recently.
pub open spec fn merged(a: MatrixView, b: MatrixView, workers: nat, order: Seq<nat>) -> MatrixView
    decreases order.len(),
{
    if order.len() == 0 {
        MatrixView::zero(a.rows, b.cols)
    } else {
        let start = chunk_start(order.last(), a.rows, workers);
        let end = chunk_start(order.last() + 1, a.rows, workers);
        merged(a, b, workers, order.drop_last()).with_rows(
            partial_product(a, b, start, end),
            start,
            end,
        )
    }
}

/// Row `i` lies in the chunk of one of the workers in `order`.
pub open spec fn covers(order: Seq<nat>, rows: nat, workers: nat, i: int) -> bool {
    exists|k: int|
        0 <= k < order.len() && chunk_start(#[trigger] order[k], rows, workers) <= i
            < chunk_start(order[k] + 1, rows, workers)
}

/// After any sequence of merges, the rows of the workers merged so far are
/// those of the product and all other rows are still zero.
pub proof fn lemma_merged(a: MatrixView, b: MatrixView, workers: nat, order: Seq<nat>)
    ensures
        merged(a, b, workers, order).wf(),
        merged(a, b, workers, order).rows == a.rows,
        merged(a, b, workers, order).cols == b.cols,
        forall|i: int, j: int|
            0 <= i < a.rows && 0 <= j < b.cols ==> #[trigger] merged(a, b, workers, order).at(i, j)
                == if covers(order, a.rows, workers, i) {
                product_entry(a, b, i, j)
            } else {
                0i32
            },
    decreases order.len(),
{
    if order.len() == 0 {
        lemma_from_fn(a.rows, b.cols, |i: int, j: int| 0i32);
    } else {
        let earlier = order.drop_last();
        let start = chunk_start(order.last(), a.rows, workers);
        let end = chunk_start(order.last() + 1, a.rows, workers);
        lemma_merged(a, b, workers, earlier);
        lemma_partial_product(a, b, start, end);
        lemma_with_rows(
            merged(a, b, workers, earlier),
            partial_product(a, b, start, end),
            start,
            end,
        );
        assert forall|i: int|
            covers(order, a.rows, workers, i) == (covers(earlier, a.rows, workers, i) || start <= i
                < end) by {
            if covers(earlier, a.rows, workers, i) {
                let k = choose|k: int|
                    0 <= k < earlier.len() && chunk_start(#[trigger] earlier[k], a.rows, workers)
                        <= i < chunk_start(earlier[k] + 1, a.rows, workers);
                assert(order[k] == earlier[k]);
            }
            if start <= i < end {
                assert(order[order.len() - 1] == order.last());
            }
            if covers(order, a.rows, workers, i) {
                let k = choose|k: int|
                    0 <= k < order.len() && chunk_start(#[trigger] order[k], a.rows, workers) <= i
                        < chunk_start(order[k] + 1, a.rows, workers);
                if k < order.len() - 1 {
                    assert(earlier[k] == order[k]);
                }
            }
        }
    }
}

/// The order in which the workers' results arrive does not matter: once the
/// result of every worker has been merged, the coordinator holds the
/// product.
pub proof fn lemma_merge_order(a: MatrixView, b: MatrixView, workers: nat, order: Seq<nat>)
    requires
        workers >= 1,
        forall|t: nat| t < workers ==> order.contains(t),
    ensures
        merged(a, b, workers, order) == product(a, b),
{
    lemma_merged(a, b, workers, order);
    assert forall|i: int, j: int| 0 <= i < a.rows && 0 <= j < b.cols implies #[trigger] merged(
        a,
        b,
        workers,
        order,
    ).at(i, j) == product_entry(a, b, i, j) by {
        let t = lemma_row_owner(a.rows, workers, i as nat);
        assert(order.contains(t));
        let k = choose|k: int| 0 <= k < order.len() && order[k] == t;
        assert(chunk_start(order[k], a.rows, workers) <= i < chunk_start(
            order[k] + 1,
            a.rows,
            workers,
        ));
    }
    lemma_is_product(merged(a, b, workers, order), a, b);
}

/// The work of one worker: the rows of `a * b` from `start` up to `end`, in a
/// matrix of the shape of the product that is zero elsewhere.
pub fn multiply_rows(a: &Matrix, b: &Matrix, start: usize, end: usize) -> (partial: Matrix)
    requires
        a@.cols == b@.rows,
        a@.rows * b@.cols <= usize::MAX,
        start <= end <= a@.rows,
    ensures
        partial@ == partial_product(a@, b@, start as nat, end as nat),
{
    let rows = a.rows();
    let inner = a.cols();
    let cols = b.cols();
    let mut result = Matrix::new(rows, cols);
    proof {
        lemma_from_fn(rows as nat, cols as nat, |i: int, j: int| 0i32);
    }
    for i in start..end
        invariant
            start <= end <= rows,
            rows == a@.rows,
            inner == a@.cols,
            inner == b@.rows,
            cols == b@.cols,
            result@.wf(),
            result@.rows == rows,
            result@.cols == cols,
            forall|i2: int, j2: int|
                0 <= i2 < rows && 0 <= j2 < cols ==> #[trigger] result@.at(i2, j2) == if start
                    <= i2 < i {
                    product_entry(a@, b@, i2, j2)
                } else {
                    0i32
                },
    {
        for j in 0..cols
            invariant
                start <= i < end,
                end <= rows,
                rows == a@.rows,
                inner == a@.cols,
                inner == b@.rows,
                cols == b@.cols,
                result@.wf(),
                result@.rows == rows,
                result@.cols == cols,
                forall|i2: int, j2: int|
                    0 <= i2 < rows && 0 <= j2 < cols ==> #[trigger] result@.at(i2, j2) == if start
                        <= i2 < i || (i2 == i && j2 < j) {
                        product_entry(a@, b@, i2, j2)
                    } else {
                        0i32
                    },
        {
            let mut sum: i32 = 0;
            proof {
                lemma_dot_unfold(a@, b@, i as int, j as int, 0);
                lemma_wrap_in_range(0);
            }
            for t in 0..inner
                invariant
                    i < rows,
                    j < cols,
                    rows == a@.rows,
                    inner == a@.cols,
                    inner == b@.rows,
                    cols == b@.cols,
                    sum == wrap(dot(a@, b@, i as int, j as int, t as nat)),
            {
                proof {
                    lemma_accumulate(a@, b@, i as int, j as int, t as nat, sum);
                }
                let x = a.get(i, t);
                let y = b.get(t, j);
                if x != 0 && y != 0 {
                    sum = sum.wrapping_add(x.wrapping_mul(y));
                }
            }
            proof {
                lemma_update(result@, i as int, j as int, sum);
            }
            result.set(i, j, sum);
        }
    }
    proof {
        lemma_is_from_fn(
            result@,
            rows as nat,
            cols as nat,
            |i: int, j: int|
                if start <= i < end {
                    product_entry(a@, b@, i, j)
                } else {
                    0i32
                },
        );
    }
    result
}

/// The coordinator's step: copies the rows from `start` up to `end` of a
/// worker's result into the result under assembly.
pub fn merge_rows(target: &mut Matrix, partial: &Matrix, start: usize, end: usize)
    requires
        old(target)@.rows == partial@.rows,
        old(target)@.cols == partial@.cols,
        start <= end <= partial@.rows,
    ensures
        final(target)@ == old(target)@.with_rows(partial@, start as nat, end as nat),
{
    proof {
        use_type_invariant(&*target);
    }
    let cols = partial.cols();
    let ghost before = target@;
    for i in start..end
        invariant
            start <= end <= partial@.rows,
            before.wf(),
            before.rows == partial@.rows,
            before.cols == partial@.cols,
            cols == partial@.cols,
            target@.wf(),
            target@.rows == before.rows,
            target@.cols == before.cols,
            forall|i2: int, j2: int|
                before.in_bounds(i2, j2) ==> #[trigger] target@.at(i2, j2) == if start <= i2 < i {
                    partial@.at(i2, j2)
                } else {
                    before.at(i2, j2)
                },
    {
        for j in 0..cols
            invariant
                start <= i < end,
                end <= partial@.rows,
                before.wf(),
                before.rows == partial@.rows,
                before.cols == partial@.cols,
                cols == partial@.cols,
                target@.wf(),
                target@.rows == before.rows,
                target@.cols == before.cols,
                forall|i2: int, j2: int|
                    before.in_bounds(i2, j2) ==> #[trigger] target@.at(i2, j2) == if start <= i2 < i
                        || (i2 == i && j2 < j) {
                        partial@.at(i2, j2)
                    } else {
                        before.at(i2, j2)
                    },
        {
            let value = partial.get(i, j);
            proof {
                lemma_update(target@, i as int, j as int, value);
            }
            target.set(i, j, value);
        }
    }
    proof {
        lemma_is_from_fn(
            target@,
            before.rows,
            before.cols,
            |i: int, j: int|
                if start <= i < end {
                    partial@.at(i, j)
                } else {
                    before.at(i, j)
                },
        );
    }
}

/// The product `a * b` with the rows dealt out to `workers` workers (to one
/// where `workers` is zero), or `None` where the inner dimensions disagree.
/// The result does not depend on the number of workers.
pub fn mat_mul_parallel(a: &Matrix, b: &Matrix, workers: usize) -> (result: Option<Matrix>)
    requires
        a@.cols == b@.rows ==> a@.rows * b@.cols <= usize::MAX,
    ensures
        match result {
            Some(m) => a@.cols == b@.rows && m@ == product(a@, b@),
            None => a@.cols != b@.rows,
        },
{
    if a.cols() != b.rows() {
        return None;
    }
    let rows = a.rows();
    let cols = b.cols();
    let count = if workers == 0 {
        1
    } else {
        workers
    };
    let mut assembled = Matrix::new(rows, cols);
    proof {
        lemma_chunk_ends(rows as nat, count as nat);
        lemma_partial_product(a@, b@, 0, 0);
        lemma_from_fn(rows as nat, cols as nat, |i: int, j: int| 0i32);
        lemma_ext_equal(assembled@, partial_product(a@, b@, 0, 0));
    }
    for t in 0..count
        invariant
            count >= 1,
            rows == a@.rows,
            cols == b@.cols,
            a@.cols == b@.rows,
            a@.rows * b@.cols <= usize::MAX,
            assembled@ == partial_product(
                a@,
                b@,
                0,
                chunk_start(t as nat, rows as nat, count as nat),
            ),
    {
        let start = chunk_bound(t, rows, count);
        let end = chunk_bound(t + 1, rows, count);
        proof {
            lemma_chunk_monotone(t as nat, (t + 1) as nat, rows as nat, count as nat);
            lemma_partial_product(a@, b@, 0, start as nat);
        }
        let partial = multiply_rows(a, b, start, end);
        proof {
            lemma_partial_product(a@, b@, start as nat, end as nat);
        }
        merge_rows(&mut assembled, &partial, start, end);
        proof {
            lemma_merge_next(a@, b@, start as nat, end as nat);
        }
    }
    proof {
        lemma_all_rows(a@, b@);
    }
    Some(assembled)
}

} // verus!
