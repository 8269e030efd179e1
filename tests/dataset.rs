use rust_ml::base::error::ErrorKind;
use rust_ml::dataset::{Dataset, MixedDataValue, MixedDataset};
use rust_ml::linalg::Matrix;

fn strings(v: &[&str]) -> Vec<String> {
    v.iter().map(|s| s.to_string()).collect()
}

fn parse_f64(s: &String) -> Option<f64> {
    s.parse::<f64>().ok()
}

fn keep(s: &String) -> Option<String> {
    Some(s.clone())
}

#[test]
fn dataset_new_and_getters() {
    let dataset = Dataset::new(
        Matrix::new(2, 2, vec![1.0, 2.0, 3.0, 4.0]),
        vec![1.0, 2.0],
        strings(&["feature_1", "feature_2"]),
        "label".to_string(),
    );
    assert_eq!(2, dataset.data().rows());
    assert_eq!(2, dataset.data().cols());
    assert_eq!(&strings(&["feature_1", "feature_2"]), dataset.data_columns());
    assert_eq!(&vec![1.0, 2.0], dataset.target());
    assert_eq!("label", dataset.target_column());
}

#[test]
fn from_records_removes_target_and_keeps_order() {
    let headers = strings(&["Id", "SepalLengthCm", "Species", "PetalWidthCm"]);
    let records = vec![
        strings(&["1", "5.1", "Iris-setosa", "0.2"]),
        strings(&["2", "7.0", "Iris-versicolor", "1.4"]),
    ];
    let d = Dataset::<f64, String>::from_records(&headers, &records, "Species", &parse_f64, &keep).unwrap();
    assert_eq!(d.data_columns(), &strings(&["Id", "SepalLengthCm", "PetalWidthCm"]));
    assert_eq!(d.target_column(), "Species");
    assert_eq!(d.data().rows(), 2);
    assert_eq!(d.data().cols(), 3);
    assert_eq!(d.data().data(), &vec![1.0, 5.1, 0.2, 2.0, 7.0, 1.4]);
    assert_eq!(d.target(), &strings(&["Iris-setosa", "Iris-versicolor"]));
    assert_eq!(d.target().len(), d.data().rows());
    assert_eq!(d.data_columns().len(), d.data().cols());
}

#[test]
fn from_records_numeric_target() {
    let headers = strings(&["y", "a"]);
    let records = vec![strings(&["3", "1.5"]), strings(&["4", "2.5"])];
    let d = Dataset::<f64, f64>::from_records(&headers, &records, "y", &parse_f64, &parse_f64).unwrap();
    assert_eq!(d.target(), &vec![3.0, 4.0]);
    assert_eq!(d.data().data(), &vec![1.5, 2.5]);
}

#[test]
fn from_records_missing_target_fails() {
    let headers = strings(&["a", "b"]);
    let records = vec![strings(&["1", "2"])];
    let r = Dataset::<f64, String>::from_records(&headers, &records, "Species", &parse_f64, &keep);
    assert_eq!(*r.unwrap_err().kind(), ErrorKind::InvalidData);
}

#[test]
fn from_records_no_rows_fails() {
    let headers = strings(&["a", "Species"]);
    let records: Vec<Vec<String>> = Vec::new();
    let r = Dataset::<f64, String>::from_records(&headers, &records, "Species", &parse_f64, &keep);
    assert_eq!(*r.unwrap_err().kind(), ErrorKind::InvalidData);
}

#[test]
fn from_records_short_row_fails() {
    let headers = strings(&["a", "b", "Species"]);
    let records = vec![strings(&["1", "2", "x"]), strings(&["1", "x"])];
    let r = Dataset::<f64, String>::from_records(&headers, &records, "Species", &parse_f64, &keep);
    assert_eq!(*r.unwrap_err().kind(), ErrorKind::InvalidData);
}

#[test]
fn from_records_unparsable_feature_fails() {
    let headers = strings(&["a", "Species"]);
    let records = vec![strings(&["1.0", "x"]), strings(&["oops", "y"])];
    let r = Dataset::<f64, String>::from_records(&headers, &records, "Species", &parse_f64, &keep);
    assert_eq!(*r.unwrap_err().kind(), ErrorKind::InvalidData);
}

#[test]
fn from_records_unparsable_target_fails() {
    let headers = strings(&["a", "y"]);
    let records = vec![strings(&["1.0", "setosa"])];
    let r = Dataset::<f64, f64>::from_records(&headers, &records, "y", &parse_f64, &parse_f64);
    assert_eq!(*r.unwrap_err().kind(), ErrorKind::InvalidData);
}

#[test]
fn mixed_from_records_types_columns_by_name() {
    let headers = strings(&["#", "Name", "Type 1", "Total", "Legendary"]);
    let records = vec![
        strings(&["1", "Bulbasaur", "Grass", "318", "False"]),
        strings(&["4", "Charmander", "Fire", "309", "False"]),
    ];
    let numeric = strings(&["#", "Total"]);
    let d = MixedDataset::<f64, String>::from_records(&headers, &records, "Legendary", &numeric, &parse_f64, &keep)
        .unwrap();
    assert_eq!(d.data_columns(), &strings(&["#", "Name", "Type 1", "Total"]));
    assert_eq!(d.target_column(), "Legendary");
    assert_eq!(d.data().len(), 2);
    assert_eq!(d.data()[0].len(), 4);
    assert_eq!(
        d.data()[1],
        vec![
            MixedDataValue::Numeric(4.0),
            MixedDataValue::Categorical("Charmander".to_string()),
            MixedDataValue::Categorical("Fire".to_string()),
            MixedDataValue::Numeric(309.0),
        ]
    );
    assert_eq!(d.target(), &strings(&["False", "False"]));
}

#[test]
fn mixed_from_records_unparsable_numeric_fails() {
    let headers = strings(&["#", "Name", "Legendary"]);
    let records = vec![strings(&["one", "Bulbasaur", "False"])];
    let numeric = strings(&["#"]);
    let r = MixedDataset::<f64, String>::from_records(&headers, &records, "Legendary", &numeric, &parse_f64, &keep);
    assert_eq!(*r.unwrap_err().kind(), ErrorKind::InvalidData);
}

#[test]
fn mixed_from_records_missing_target_fails() {
    let headers = strings(&["#", "Name"]);
    let records = vec![strings(&["1", "Bulbasaur"])];
    let numeric = strings(&["#"]);
    let r = MixedDataset::<f64, String>::from_records(&headers, &records, "Legendary", &numeric, &parse_f64, &keep);
    assert_eq!(*r.unwrap_err().kind(), ErrorKind::InvalidData);
}

#[test]
fn mixed_dataset_new_and_getters() {
    let d = MixedDataset::new(
        vec![vec![MixedDataValue::Numeric(1.0), MixedDataValue::Categorical("a".to_string())]],
        vec![true],
        strings(&["x", "c"]),
        "t".to_string(),
    );
    assert_eq!(d.data().len(), 1);
    assert_eq!(d.target(), &vec![true]);
    assert_eq!(d.data_columns(), &strings(&["x", "c"]));
    assert_eq!(d.target_column(), "t");
}
