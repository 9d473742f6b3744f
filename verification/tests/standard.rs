use matmul::matrix::Matrix;

fn matrix_of(rows: usize, cols: usize, entries: &[i32]) -> Matrix {
    Matrix::from_vec(rows, cols, entries.to_vec()).unwrap()
}

fn identity(n: usize) -> Matrix {
    let mut m = Matrix::new(n, n);
    for i in 0..n {
        m.set(i, i, 1);
    }
    m
}

#[test]
fn new_is_zero_filled() {
    let m = Matrix::new(2, 3);
    assert_eq!(m.rows(), 2);
    assert_eq!(m.cols(), 3);
    assert_eq!(m.into_vec(), vec![0; 6]);
}

#[test]
fn set_then_get_is_row_major() {
    let mut m = Matrix::new(2, 3);
    m.set(0, 2, 7);
    m.set(1, 0, -4);
    assert_eq!(m.get(0, 2), 7);
    assert_eq!(m.get(1, 0), -4);
    assert_eq!(m.get(1, 1), 0);
    assert_eq!(m.into_vec(), vec![0, 0, 7, -4, 0, 0]);
}

#[test]
fn from_vec_checks_the_length() {
    assert!(Matrix::from_vec(2, 2, vec![1, 2, 3]).is_none());
    assert!(Matrix::from_vec(2, 2, vec![1, 2, 3, 4, 5]).is_none());
    assert!(Matrix::from_vec(usize::MAX, 2, vec![]).is_none());
    let m = Matrix::from_vec(2, 2, vec![1, 2, 3, 4]).unwrap();
    assert_eq!(m.get(1, 0), 3);
    let empty = Matrix::from_vec(0, 5, vec![]).unwrap();
    assert_eq!(empty.rows(), 0);
    assert_eq!(empty.cols(), 5);
}

#[test]
fn clone_is_equal() {
    let m = matrix_of(2, 2, &[1, 2, 3, 4]);
    assert_eq!(m.clone(), m);
}

#[test]
fn standard_multiply_two_by_two() {
    let a = matrix_of(2, 2, &[1, 2, 3, 4]);
    let b = matrix_of(2, 2, &[5, 6, 7, 8]);
    let c = a.standard_multiply(&b).unwrap();
    assert_eq!(c.rows(), 2);
    assert_eq!(c.cols(), 2);
    assert_eq!(c.into_vec(), vec![19, 22, 43, 50]);
}

#[test]
fn standard_multiply_rectangular() {
    let a = matrix_of(2, 3, &[1, 2, 3, 4, 5, 6]);
    let b = matrix_of(3, 2, &[7, 8, 9, 10, 11, 12]);
    let c = a.standard_multiply(&b).unwrap();
    assert_eq!(c.rows(), 2);
    assert_eq!(c.cols(), 2);
    assert_eq!(c.into_vec(), vec![58, 64, 139, 154]);
}

#[test]
fn standard_multiply_dimension_mismatch() {
    let a = matrix_of(2, 3, &[1, 2, 3, 4, 5, 6]);
    let b = matrix_of(2, 2, &[1, 2, 3, 4]);
    assert!(a.standard_multiply(&b).is_none());
}

#[test]
fn standard_multiply_with_zero_entries() {
    let a = matrix_of(2, 2, &[0, 2, 3, 0]);
    let b = matrix_of(2, 2, &[5, 0, 0, 8]);
    let c = a.standard_multiply(&b).unwrap();
    assert_eq!(c.into_vec(), vec![0, 16, 15, 0]);
}

#[test]
fn standard_multiply_wraps_around() {
    let a = matrix_of(1, 2, &[i32::MAX, 1]);
    let b = matrix_of(2, 1, &[2, 5]);
    let c = a.standard_multiply(&b).unwrap();
    assert_eq!(c.get(0, 0), 3);
    assert_eq!(c.into_vec(), vec![i32::MAX.wrapping_mul(2).wrapping_add(5)]);
}

#[test]
fn standard_multiply_by_identity() {
    let a = matrix_of(2, 3, &[1, -2, 3, 4, 5, -6]);
    assert_eq!(a.standard_multiply(&identity(3)).unwrap(), a);
    assert_eq!(identity(2).standard_multiply(&a).unwrap(), a);
}

#[test]
fn standard_multiply_by_zero() {
    let a = matrix_of(2, 3, &[1, -2, 3, 4, 5, -6]);
    let c = a.standard_multiply(&Matrix::new(3, 4)).unwrap();
    assert_eq!(c, Matrix::new(2, 4));
    let d = Matrix::new(5, 2).standard_multiply(&a).unwrap();
    assert_eq!(d, Matrix::new(5, 3));
}

#[test]
fn standard_multiply_without_inner_dimension() {
    let a = Matrix::new(2, 0);
    let b = Matrix::new(0, 3);
    assert_eq!(a.standard_multiply(&b).unwrap(), Matrix::new(2, 3));
}
