use rust_ml::base::error::ErrorKind;
use rust_ml::dataset::Dataset;
use rust_ml::preprocessing::encoders::labelencoder::LabelEncoderFitter;
use rust_ml::preprocessing::FitStatus;
use std::collections::HashMap;

fn strings(v: &[&str]) -> Vec<String> {
    v.iter().map(|s| s.to_string()).collect()
}

fn iris_species() -> Vec<String> {
    let mut target = Vec::new();
    for name in ["Iris-setosa", "Iris-versicolor", "Iris-virginica"] {
        for _ in 0..50 {
            target.push(name.to_string());
        }
    }
    target
}

#[test]
fn labelencoder_test() {
    let target = iris_species();

    let label_encoder_fitter = LabelEncoderFitter::default();
    let mut label_encoder = label_encoder_fitter.fit(&target).unwrap();

    let mapped_labels: Vec<f64> = label_encoder.transform(&target).unwrap().iter().map(|&c| c as f64).collect();

    let mut test_hashmap = HashMap::<String, f64>::new();
    test_hashmap.insert("Iris-versicolor".to_string(), 1.0);
    test_hashmap.insert("Iris-virginica".to_string(), 2.0);
    test_hashmap.insert("Iris-setosa".to_string(), 0.0);
    let label_map: HashMap<String, f64> = label_encoder
        .fitter()
        .label_map()
        .iter()
        .enumerate()
        .map(|(code, label)| (label.clone(), code as f64))
        .collect();
    let mut test_vec = vec![0.0; 50];
    test_vec.extend(vec![1.0; 50]);
    test_vec.extend(vec![2.0; 50]);

    assert_eq!(label_encoder.fitter().fit_status(), &FitStatus::Fit);
    assert_eq!(label_map, test_hashmap);
    assert_eq!(mapped_labels.len(), 150);
    assert_eq!(mapped_labels, test_vec);
}

#[test]
fn label_codes_in_first_seen_order() {
    let labels = strings(&["b", "a", "b", "c"]);
    let mut enc = LabelEncoderFitter::default().fit(&labels).unwrap();
    assert_eq!(enc.fitter().label_map(), &strings(&["b", "a", "c"]));
    assert_eq!(enc.transform(&labels).unwrap(), vec![0, 1, 0, 2]);
}

#[test]
fn label_fit_twice_same_codes() {
    let labels = strings(&["x", "y", "x", "z", "y"]);
    let mut a = LabelEncoderFitter::default().fit(&labels).unwrap();
    let mut b = LabelEncoderFitter::new().fit(&labels).unwrap();
    assert_eq!(a.fitter().label_map(), b.fitter().label_map());
    assert_eq!(a.transform(&labels).unwrap(), b.transform(&labels).unwrap());
}

#[test]
fn label_unseen_label_fails() {
    let mut enc = LabelEncoderFitter::default().fit(&strings(&["a", "b"])).unwrap();
    let r = enc.transform(&strings(&["a", "c"]));
    assert_eq!(*r.unwrap_err().kind(), ErrorKind::InvalidState);
}

#[test]
fn label_fit_status_before_and_after() {
    let fitter = LabelEncoderFitter::default();
    assert_eq!(fitter.fit_status(), &FitStatus::NotFit);
    assert!(fitter.label_map().is_empty());
    let enc = fitter.fit(&strings(&["a"])).unwrap();
    assert_eq!(enc.fitter().fit_status(), &FitStatus::Fit);
}

#[test]
fn label_transform_other_input_and_empty() {
    let mut enc = LabelEncoderFitter::default().fit(&strings(&["a", "b", "c"])).unwrap();
    assert_eq!(enc.transform(&strings(&["c", "c", "a"])).unwrap(), vec![2, 2, 0]);
    assert_eq!(enc.transform(&Vec::new()).unwrap(), Vec::<usize>::new());
}

#[test]
fn iris_shaped_dataset_species_codes() {
    let mut text = String::from("Id,SepalLengthCm,SepalWidthCm,PetalLengthCm,PetalWidthCm,Species\n");
    for (i, species) in iris_species().iter().enumerate() {
        text.push_str(&format!("{},5.0,3.0,1.5,0.2,{}\n", i + 1, species));
    }
    let d = Dataset::<f64, String>::from_csv_text(
        text.as_bytes(),
        "Species",
        &|s: &String| s.parse::<f64>().ok(),
        &|s: &String| Some(s.clone()),
    )
    .unwrap();
    assert_eq!(d.data().rows(), 150);
    assert_eq!(d.data().cols(), 5);
    assert_eq!(d.target_column(), "Species");
    let mut enc = LabelEncoderFitter::default().fit(d.target()).unwrap();
    assert_eq!(enc.fitter().label_map(), &strings(&["Iris-setosa", "Iris-versicolor", "Iris-virginica"]));
    let codes = enc.transform(d.target()).unwrap();
    assert_eq!((codes[0], codes[50], codes[100], codes[149]), (0, 1, 2, 2));
}

#[test]
fn label_encoder_stays_fit_after_transforms() {
    let labels = strings(&["p", "q"]);
    let mut enc = LabelEncoderFitter::default().fit(&labels).unwrap();
    assert_eq!(enc.transform(&labels).unwrap(), vec![0, 1]);
    assert!(enc.transform(&strings(&["r"])).is_err());
    let copy = enc.clone();
    assert_eq!(enc.fitter().fit_status(), &FitStatus::Fit);
    assert_eq!(copy.fitter().label_map(), enc.fitter().label_map());
    assert_eq!(enc.transform(&strings(&["q"])).unwrap(), vec![1]);
}
