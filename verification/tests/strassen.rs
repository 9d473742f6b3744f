use matmul::blocks::{add_matrices, combine_matrices, split_matrix, sub_matrices};
use matmul::matrix::Matrix;
use matmul::strassen::{
    choose_strategy, next_power_of_two, strassen_recursive, strassen_recursive_with_threshold,
    AlgorithmChoice, STRASSEN_THRESHOLD,
};

fn matrix_of(rows: usize, cols: usize, entries: &[i32]) -> Matrix {
    Matrix::from_vec(rows, cols, entries.to_vec()).unwrap()
}

fn identity(n: usize) -> Matrix {
    let mut m = Matrix::new(n, n);
    for i in 0..n {
        m.set(i, i, 1);
    }
    m
}

/// A matrix with reproducible entries between `-bound` and `bound`.
fn sample(rows: usize, cols: usize, seed: u64, bound: i64) -> Matrix {
    let mut state = seed;
    let mut m = Matrix::new(rows, cols);
    for i in 0..rows {
        for j in 0..cols {
            state = state.wrapping_mul(6364136223846793005).wrapping_add(1442695040888963407);
            let value = ((state >> 33) as i64) % (2 * bound + 1) - bound;
            m.set(i, j, value as i32);
        }
    }
    m
}

/// The matrix of the given size that repeats a 2 by 2 pattern.
fn tiled(n: usize, pattern: [[i32; 2]; 2]) -> Matrix {
    let mut m = Matrix::new(n, n);
    for i in 0..n {
        for j in 0..n {
            m.set(i, j, pattern[i % 2][j % 2]);
        }
    }
    m
}

#[test]
fn threshold_is_sixty_four() {
    assert_eq!(STRASSEN_THRESHOLD, 64);
}

#[test]
fn choose_strategy_by_smallest_dimension() {
    assert_eq!(choose_strategy(64, 100, 100, 64), AlgorithmChoice::Standard);
    assert_eq!(choose_strategy(100, 64, 100, 64), AlgorithmChoice::Standard);
    assert_eq!(choose_strategy(100, 100, 1, 64), AlgorithmChoice::Standard);
    assert_eq!(choose_strategy(65, 65, 65, 64), AlgorithmChoice::Strassen);
    assert_eq!(choose_strategy(2, 2, 2, 1), AlgorithmChoice::Strassen);
}

#[test]
fn next_power_of_two_values() {
    assert_eq!(next_power_of_two(0), 1);
    assert_eq!(next_power_of_two(1), 1);
    assert_eq!(next_power_of_two(2), 2);
    assert_eq!(next_power_of_two(3), 4);
    assert_eq!(next_power_of_two(64), 64);
    assert_eq!(next_power_of_two(65), 128);
    assert_eq!(next_power_of_two(100), 128);
    assert_eq!(next_power_of_two(129), 256);
    for x in 0..2000usize {
        assert_eq!(next_power_of_two(x), x.next_power_of_two());
    }
}

#[test]
fn add_and_sub_are_entry_wise() {
    let a = matrix_of(2, 2, &[1, 2, 3, 4]);
    let b = matrix_of(2, 2, &[10, 20, 30, 40]);
    assert_eq!(add_matrices(&a, &b).into_vec(), vec![11, 22, 33, 44]);
    assert_eq!(sub_matrices(&a, &b).into_vec(), vec![-9, -18, -27, -36]);
}

#[test]
fn add_and_sub_wrap_around() {
    let a = matrix_of(1, 2, &[i32::MAX, i32::MIN]);
    let b = matrix_of(1, 2, &[1, 1]);
    assert_eq!(add_matrices(&a, &b).into_vec(), vec![i32::MIN, i32::MIN + 1]);
    assert_eq!(sub_matrices(&a, &b).into_vec(), vec![i32::MAX - 1, i32::MAX]);
}

#[test]
fn split_gives_the_four_quadrants() {
    let m = matrix_of(4, 4, &[1, 2, 3, 4, 5, 6, 7, 8, 9, 10, 11, 12, 13, 14, 15, 16]);
    let (q11, q12, q21, q22) = split_matrix(&m);
    assert_eq!(q11.into_vec(), vec![1, 2, 5, 6]);
    assert_eq!(q12.into_vec(), vec![3, 4, 7, 8]);
    assert_eq!(q21.into_vec(), vec![9, 10, 13, 14]);
    assert_eq!(q22.into_vec(), vec![11, 12, 15, 16]);
}

#[test]
fn combine_undoes_split() {
    let m = sample(6, 6, 7, 100);
    let (q11, q12, q21, q22) = split_matrix(&m);
    assert_eq!(q11.rows(), 3);
    assert_eq!(combine_matrices(&q11, &q12, &q21, &q22), m);
}

#[test]
fn block_copies_a_window() {
    let m = matrix_of(3, 4, &[1, 2, 3, 4, 5, 6, 7, 8, 9, 10, 11, 12]);
    let b = m.block(1, 2, 2, 2);
    assert_eq!(b.rows(), 2);
    assert_eq!(b.cols(), 2);
    assert_eq!(b.into_vec(), vec![7, 8, 11, 12]);
}

#[test]
fn pad_extends_with_zeros() {
    let m = matrix_of(2, 3, &[1, 2, 3, 4, 5, 6]);
    let p = m.pad_to_square(4);
    assert_eq!(p.rows(), 4);
    assert_eq!(p.cols(), 4);
    assert_eq!(p.into_vec(), vec![1, 2, 3, 0, 4, 5, 6, 0, 0, 0, 0, 0, 0, 0, 0, 0]);
}

#[test]
fn unpad_undoes_pad() {
    let m = sample(5, 3, 11, 1000);
    let p = m.pad_to_square(8);
    assert_eq!(p.unpad(5, 3), m.into_vec());
}

#[test]
fn unpad_takes_the_top_left_block() {
    let m = matrix_of(3, 3, &[1, 2, 3, 4, 5, 6, 7, 8, 9]);
    assert_eq!(m.unpad(2, 2), vec![1, 2, 4, 5]);
}

#[test]
fn strassen_multiply_two_by_two() {
    let a = matrix_of(2, 2, &[1, 2, 3, 4]);
    let b = matrix_of(2, 2, &[5, 6, 7, 8]);
    let c = a.strassen_multiply(&b).unwrap();
    assert_eq!(c.rows(), 2);
    assert_eq!(c.cols(), 2);
    assert_eq!(c.into_vec(), vec![19, 22, 43, 50]);
}

#[test]
fn strassen_two_by_two_through_the_recursion() {
    let a = matrix_of(2, 2, &[1, 2, 3, 4]);
    let b = matrix_of(2, 2, &[5, 6, 7, 8]);
    let c = strassen_recursive_with_threshold(&a, &b, 1);
    assert_eq!(c.into_vec(), vec![19, 22, 43, 50]);
    let d = a.strassen_multiply_with_threshold(&b, 1).unwrap();
    assert_eq!(d.into_vec(), vec![19, 22, 43, 50]);
}

#[test]
fn strassen_tiled_128() {
    let a = tiled(128, [[1, 2], [3, 4]]);
    let b = tiled(128, [[5, 6], [7, 8]]);
    let expected = tiled(128, [[64 * 19, 64 * 22], [64 * 43, 64 * 50]]);
    assert_eq!(a.strassen_multiply(&b).unwrap(), expected);
    assert_eq!(strassen_recursive(&a, &b), expected);
    assert_eq!(a.standard_multiply(&b).unwrap(), expected);
}

#[test]
fn strassen_equals_standard_below_threshold() {
    let a = sample(30, 40, 1, 1000);
    let b = sample(40, 20, 2, 1000);
    assert_eq!(a.strassen_multiply(&b), a.standard_multiply(&b));
}

#[test]
fn strassen_equals_standard_at_the_threshold() {
    let a = sample(64, 64, 3, 1000);
    let b = sample(64, 64, 4, 1000);
    assert_eq!(a.strassen_multiply(&b), a.standard_multiply(&b));
    let c = sample(65, 65, 5, 1000);
    let d = sample(65, 65, 6, 1000);
    assert_eq!(c.strassen_multiply(&d), c.standard_multiply(&d));
}

#[test]
fn strassen_equals_standard_128() {
    let a = sample(128, 128, 7, 1000);
    let b = sample(128, 128, 8, 1000);
    let expected = a.standard_multiply(&b).unwrap();
    assert_eq!(a.strassen_multiply(&b).unwrap(), expected);
    assert_eq!(strassen_recursive(&a, &b), expected);
}

#[test]
fn strassen_padding_round_trip_100() {
    let a = sample(100, 100, 9, 1000);
    let b = sample(100, 100, 10, 1000);
    let c = a.strassen_multiply(&b).unwrap();
    assert_eq!(c.rows(), 100);
    assert_eq!(c.cols(), 100);
    assert_eq!(c, a.standard_multiply(&b).unwrap());
}

#[test]
fn strassen_equals_standard_rectangular() {
    let a = sample(70, 90, 11, 1000);
    let b = sample(90, 130, 12, 1000);
    let c = a.strassen_multiply(&b).unwrap();
    assert_eq!(c.rows(), 70);
    assert_eq!(c.cols(), 130);
    assert_eq!(c, a.standard_multiply(&b).unwrap());
}

#[test]
fn strassen_equals_standard_when_entries_wrap() {
    let a = sample(66, 66, 13, i32::MAX as i64);
    let b = sample(66, 66, 14, i32::MAX as i64);
    assert_eq!(a.strassen_multiply(&b), a.standard_multiply(&b));
}

#[test]
fn strassen_with_small_thresholds() {
    let a = sample(9, 7, 15, 100);
    let b = sample(7, 12, 16, 100);
    let expected = a.standard_multiply(&b);
    for threshold in 1..8usize {
        assert_eq!(a.strassen_multiply_with_threshold(&b, threshold), expected);
    }
}

#[test]
fn strassen_recursive_on_an_even_size_above_the_threshold() {
    let a = sample(12, 12, 17, 100);
    let b = sample(12, 12, 18, 100);
    let expected = a.standard_multiply(&b).unwrap();
    assert_eq!(strassen_recursive_with_threshold(&a, &b, 3), expected);
}

#[test]
fn strassen_dimension_mismatch() {
    let a = matrix_of(2, 3, &[1, 2, 3, 4, 5, 6]);
    let b = matrix_of(2, 2, &[1, 2, 3, 4]);
    assert!(a.strassen_multiply(&b).is_none());
    let c = sample(70, 80, 19, 10);
    let d = sample(70, 80, 20, 10);
    assert!(c.strassen_multiply(&d).is_none());
}

#[test]
fn strassen_by_identity() {
    let a = sample(80, 80, 21, 1000);
    assert_eq!(a.strassen_multiply(&identity(80)).unwrap(), a);
    assert_eq!(identity(80).strassen_multiply(&a).unwrap(), a);
}

#[test]
fn strassen_by_zero() {
    let a = sample(70, 75, 22, 1000);
    assert_eq!(a.strassen_multiply(&Matrix::new(75, 80)).unwrap(), Matrix::new(70, 80));
    assert_eq!(Matrix::new(66, 70).strassen_multiply(&a).unwrap(), Matrix::new(66, 75));
}
