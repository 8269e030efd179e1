use rust_ml::base::error::ErrorKind;
use rust_ml::dataset::{Dataset, MixedDataValue, MixedDataset};

fn parse_f64(s: &String) -> Option<f64> {
    s.parse::<f64>().ok()
}

fn keep(s: &String) -> Option<String> {
    Some(s.clone())
}

const IRIS_HEAD: &str = "Id,SepalLengthCm,SepalWidthCm,PetalLengthCm,PetalWidthCm,Species
1,5.1,3.5,1.4,0.2,Iris-setosa
2,4.9,3.0,1.4,0.2,Iris-setosa
51,7.0,3.2,4.7,1.4,Iris-versicolor
";

#[test]
fn csv_text_iris_rows() {
    let d = Dataset::<f64, String>::from_csv_text(IRIS_HEAD.as_bytes(), "Species", &parse_f64, &keep).unwrap();
    assert_eq!(d.data().rows(), 3);
    assert_eq!(d.data().cols(), 5);
    let expected: Vec<String> = ["Id", "SepalLengthCm", "SepalWidthCm", "PetalLengthCm", "PetalWidthCm"]
        .iter()
        .map(|s| s.to_string())
        .collect();
    assert_eq!(d.data_columns(), &expected);
    assert_eq!(d.target_column(), "Species");
    assert_eq!(&d.data().data()[0..5], &[1.0, 5.1, 3.5, 1.4, 0.2]);
    assert_eq!(d.target()[2], "Iris-versicolor");
}

#[test]
fn csv_text_unequal_record_lengths_fail() {
    let text = "a,b,y\n1,2,x\n3,x\n";
    let r = Dataset::<f64, String>::from_csv_text(text.as_bytes(), "y", &parse_f64, &keep);
    assert_eq!(*r.unwrap_err().kind(), ErrorKind::InvalidData);
}

#[test]
fn csv_text_missing_target_fails() {
    let r = Dataset::<f64, String>::from_csv_text("a,b\n1,2\n".as_bytes(), "Species", &parse_f64, &keep);
    assert_eq!(*r.unwrap_err().kind(), ErrorKind::InvalidData);
}

#[test]
fn csv_text_header_only_fails() {
    let r = Dataset::<f64, String>::from_csv_text("a,Species\n".as_bytes(), "Species", &parse_f64, &keep);
    assert_eq!(*r.unwrap_err().kind(), ErrorKind::InvalidData);
}

#[test]
fn csv_text_quoted_fields() {
    let text = "name,\"Sp. Atk\",Legendary\n\"Mr. Mime, Jr\",100,False\n";
    let numeric = vec!["Sp. Atk".to_string()];
    let d = MixedDataset::<f64, String>::from_csv_text(text.as_bytes(), "Legendary", &numeric, &parse_f64, &keep)
        .unwrap();
    assert_eq!(d.data_columns(), &vec!["name".to_string(), "Sp. Atk".to_string()]);
    assert_eq!(
        d.data()[0],
        vec![MixedDataValue::Categorical("Mr. Mime, Jr".to_string()), MixedDataValue::Numeric(100.0)]
    );
    assert_eq!(d.target(), &vec!["False".to_string()]);
}
