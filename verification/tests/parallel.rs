use matmul::matrix::Matrix;
use matmul::parallel::{chunk_bound, mat_mul_parallel, merge_rows, multiply_rows};

fn matrix_of(rows: usize, cols: usize, entries: &[i32]) -> Matrix {
    Matrix::from_vec(rows, cols, entries.to_vec()).unwrap()
}

fn sample(rows: usize, cols: usize, seed: u64) -> Matrix {
    let mut state = seed;
    let mut m = Matrix::new(rows, cols);
    for i in 0..rows {
        for j in 0..cols {
            state = state.wrapping_mul(6364136223846793005).wrapping_add(1442695040888963407);
            m.set(i, j, ((state >> 33) % 201) as i32 - 100);
        }
    }
    m
}

#[test]
fn chunk_bounds_are_near_equal() {
    let bounds: Vec<usize> = (0..=3).map(|t| chunk_bound(t, 10, 3)).collect();
    assert_eq!(bounds, vec![0, 3, 6, 10]);
    let bounds: Vec<usize> = (0..=8).map(|t| chunk_bound(t, 3, 8)).collect();
    assert_eq!(bounds, vec![0, 0, 0, 1, 1, 1, 2, 2, 3]);
    assert_eq!(chunk_bound(1, 7, 1), 7);
    assert_eq!(chunk_bound(0, 7, 1), 0);
}

#[test]
fn chunk_bound_does_not_overflow() {
    assert_eq!(chunk_bound(usize::MAX, usize::MAX, usize::MAX), usize::MAX);
    assert_eq!(chunk_bound(usize::MAX / 2, usize::MAX, usize::MAX), usize::MAX / 2);
}

#[test]
fn parallel_two_by_two() {
    let a = matrix_of(2, 2, &[1, 2, 3, 4]);
    let b = matrix_of(2, 2, &[5, 6, 7, 8]);
    assert_eq!(mat_mul_parallel(&a, &b, 2).unwrap().into_vec(), vec![19, 22, 43, 50]);
}

#[test]
fn parallel_equals_standard_for_any_worker_count() {
    let a = sample(13, 9, 1);
    let b = sample(9, 11, 2);
    let expected = a.standard_multiply(&b);
    for workers in [0usize, 1, 2, 3, 8, 13, 14, 100] {
        assert_eq!(mat_mul_parallel(&a, &b, workers), expected);
    }
}

#[test]
fn parallel_dimension_mismatch() {
    let a = matrix_of(2, 3, &[1, 2, 3, 4, 5, 6]);
    let b = matrix_of(2, 2, &[1, 2, 3, 4]);
    for workers in [1usize, 2, 8] {
        assert!(mat_mul_parallel(&a, &b, workers).is_none());
    }
}

#[test]
fn multiply_rows_fills_its_rows_only() {
    let a = matrix_of(3, 2, &[1, 2, 3, 4, 5, 6]);
    let b = matrix_of(2, 2, &[1, 0, 0, 1]);
    let partial = multiply_rows(&a, &b, 1, 2);
    assert_eq!(partial.rows(), 3);
    assert_eq!(partial.cols(), 2);
    assert_eq!(partial.into_vec(), vec![0, 0, 3, 4, 0, 0]);
}

#[test]
fn merge_rows_copies_its_rows_only() {
    let mut target = matrix_of(3, 2, &[1, 1, 1, 1, 1, 1]);
    let partial = matrix_of(3, 2, &[7, 7, 8, 8, 9, 9]);
    merge_rows(&mut target, &partial, 1, 3);
    assert_eq!(target.into_vec(), vec![1, 1, 8, 8, 9, 9]);
}

#[test]
fn merging_in_any_order_gives_the_product() {
    let a = sample(10, 6, 3);
    let b = sample(6, 7, 4);
    let expected = a.standard_multiply(&b).unwrap();
    let workers = 4;
    for order in [[0usize, 1, 2, 3], [3, 2, 1, 0], [2, 0, 3, 1]] {
        let mut assembled = Matrix::new(10, 7);
        for t in order {
            let start = chunk_bound(t, 10, workers);
            let end = chunk_bound(t + 1, 10, workers);
            let partial = multiply_rows(&a, &b, start, end);
            merge_rows(&mut assembled, &partial, start, end);
        }
        assert_eq!(assembled, expected);
    }
}

#[test]
fn parallel_by_identity_and_zero() {
    let a = sample(5, 5, 5);
    let mut id = Matrix::new(5, 5);
    for i in 0..5 {
        id.set(i, i, 1);
    }
    assert_eq!(mat_mul_parallel(&a, &id, 3).unwrap(), a);
    assert_eq!(mat_mul_parallel(&a, &Matrix::new(5, 2), 3).unwrap(), Matrix::new(5, 2));
}
