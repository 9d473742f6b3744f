use matmul::grid::ShapeError;
use matmul::matrix::Matrix;

#[test]
fn from_rows_builds_the_matrix() {
    let m = Matrix::from_rows(&vec![vec![1, 2, 3], vec![4, 5, 6]]).unwrap();
    assert_eq!(m.rows(), 2);
    assert_eq!(m.cols(), 3);
    assert_eq!(m.get(1, 2), 6);
    assert_eq!(m.into_vec(), vec![1, 2, 3, 4, 5, 6]);
}

#[test]
fn from_rows_rejects_no_rows() {
    assert_eq!(Matrix::from_rows(&vec![]), Err(ShapeError::Empty));
}

#[test]
fn from_rows_rejects_an_empty_first_row() {
    assert_eq!(Matrix::from_rows(&vec![vec![]]), Err(ShapeError::Empty));
    assert_eq!(Matrix::from_rows(&vec![vec![], vec![1]]), Err(ShapeError::Empty));
}

#[test]
fn from_rows_rejects_rows_of_different_lengths() {
    assert_eq!(Matrix::from_rows(&vec![vec![1, 2], vec![3]]), Err(ShapeError::Ragged));
    assert_eq!(Matrix::from_rows(&vec![vec![1, 2], vec![3, 4, 5]]), Err(ShapeError::Ragged));
    assert_eq!(Matrix::from_rows(&vec![vec![1], vec![]]), Err(ShapeError::Ragged));
}

#[test]
fn to_rows_gives_one_vec_for_each_row() {
    let m = Matrix::from_vec(2, 3, vec![1, 2, 3, 4, 5, 6]).unwrap();
    assert_eq!(m.to_rows(), vec![vec![1, 2, 3], vec![4, 5, 6]]);
    assert_eq!(Matrix::new(0, 3).to_rows(), Vec::<Vec<i32>>::new());
    assert_eq!(Matrix::new(2, 0).to_rows(), vec![Vec::<i32>::new(), Vec::new()]);
}

#[test]
fn rows_round_trip() {
    let rows = vec![vec![1, -2], vec![3, 4], vec![i32::MIN, i32::MAX]];
    assert_eq!(Matrix::from_rows(&rows).unwrap().to_rows(), rows);
}
