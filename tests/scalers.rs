use rust_ml::base::error::ErrorKind;
use rust_ml::dataset::Dataset;
use rust_ml::linalg::Matrix;
use rust_ml::preprocessing::scalers::scale_features;

fn strings(v: &[&str]) -> Vec<String> {
    v.iter().map(|s| s.to_string()).collect()
}

fn iris_rows() -> Dataset<f64, String> {
    Dataset::new(
        Matrix::new(
            3,
            5,
            vec![
                1.0, 5.1, 3.5, 1.4, 0.2, //
                2.0, 4.3, 2.0, 1.0, 0.1, //
                150.0, 7.9, 4.4, 6.9, 2.5,
            ],
        ),
        strings(&["Iris-setosa", "Iris-setosa", "Iris-virginica"]),
        strings(&["Id", "SepalLengthCm", "SepalWidthCm", "PetalLengthCm", "PetalWidthCm"]),
        "Species".to_string(),
    )
}

#[test]
fn scale_features_min_max_first_row() {
    let d = iris_rows();
    let min = [1.0, 4.3, 2.0, 1.0, 0.1];
    let max: [f64; 5] = [150.0, 7.9, 4.4, 6.9, 2.5];
    let scale: Vec<f64> = (0..5).map(|j| (1.0 - 0.0) / (max[j] - min[j])).collect();
    let constant: Vec<f64> = (0..5).map(|j| 0.0 - min[j] * scale[j]).collect();
    let out = scale_features(&d, 5, &|j: usize, v: f64| v * scale[j] + constant[j]).unwrap();
    let first_row = &[0.0, 0.2222222222222221, 0.625, 0.06779661016949151, 0.04166666666666667];
    assert_eq!(&out.data().data()[0..5], first_row);
    assert_eq!(&out.data().data()[5..10], &[2.0 * scale[0] + constant[0], 0.0, 0.0, 0.0, 0.0]);
    assert_eq!(out.data().rows(), 3);
    assert_eq!(out.data().cols(), 5);
    assert_eq!(out.data_columns(), d.data_columns());
    assert_eq!(out.target(), d.target());
    assert_eq!(out.target_column(), "Species");
}

#[test]
fn scale_features_passes_column_index() {
    let d = Dataset::new(Matrix::new(2, 2, vec![1, 2, 3, 4]), vec!['a', 'b'], strings(&["x", "y"]), "t".to_string());
    let out = scale_features(&d, 2, &|j: usize, v: i64| v * 10 + j as i64).unwrap();
    assert_eq!(out.data().data(), &vec![10, 21, 30, 41]);
}

#[test]
fn scale_features_feature_count_mismatch_fails() {
    let d = iris_rows();
    let r = scale_features(&d, 4, &|_j: usize, v: f64| v);
    assert_eq!(*r.unwrap_err().kind(), ErrorKind::InvalidState);
}
