use rust_ml::linalg::Matrix;

#[test]
fn matrix_new_keeps_shape_and_values() {
    let m = Matrix::new(2, 3, vec![1.0, 2.0, 3.0, 4.0, 5.0, 6.0]);
    assert_eq!(m.rows(), 2);
    assert_eq!(m.cols(), 3);
    assert_eq!(m.data(), &vec![1.0, 2.0, 3.0, 4.0, 5.0, 6.0]);
}

#[test]
fn matrix_from_rows_flattens_row_major() {
    let m = Matrix::from_rows(vec![vec![1, 2], vec![3, 4], vec![5, 6]], 2);
    assert_eq!(m.rows(), 3);
    assert_eq!(m.cols(), 2);
    assert_eq!(m.data(), &vec![1, 2, 3, 4, 5, 6]);
}

#[test]
fn matrix_from_no_rows_is_empty() {
    let m: Matrix<f64> = Matrix::from_rows(Vec::new(), 4);
    assert_eq!(m.rows(), 0);
    assert_eq!(m.cols(), 4);
    assert!(m.data().is_empty());
}

#[test]
fn matrix_clone_is_equal() {
    let m = Matrix::new(1, 2, vec![7u32, 8]);
    let c = m.clone();
    assert_eq!(c.rows(), 1);
    assert_eq!(c.cols(), 2);
    assert_eq!(c.data(), m.data());
}
