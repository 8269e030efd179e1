use rust_ml::base::error::ErrorKind;
use rust_ml::dataset::{MixedDataValue, MixedDataset};
use rust_ml::preprocessing::encoders::onehotencoder::OneHotEncoderFitter;
use rust_ml::preprocessing::{FitStatus, Preprocessor, PreprocessorFitter};

fn cat(s: &str) -> MixedDataValue<f64> {
    MixedDataValue::Categorical(s.to_string())
}

fn num(x: f64) -> MixedDataValue<f64> {
    MixedDataValue::Numeric(x)
}

fn strings(v: &[&str]) -> Vec<String> {
    v.iter().map(|s| s.to_string()).collect()
}

fn pokemon_like() -> MixedDataset<f64, String> {
    MixedDataset::new(
        vec![
            vec![num(1.0), cat("Grass"), cat("Poison"), num(318.0)],
            vec![num(4.0), cat("Fire"), cat(""), num(309.0)],
            vec![num(6.0), cat("Fire"), cat("Flying"), num(534.0)],
        ],
        strings(&["False", "False", "True"]),
        strings(&["#", "Type 1", "Type 2", "Total"]),
        "Legendary".to_string(),
    )
}

#[test]
fn one_hot_columns_and_rows() {
    let data = pokemon_like();
    let fitter = OneHotEncoderFitter::<f64>::default();
    assert_eq!(fitter.fit_status(), &FitStatus::NotFit);
    let mut ohe = fitter.fit(&data).unwrap();
    assert_eq!(ohe.fitter().fit_status(), &FitStatus::Fit);
    assert_eq!(
        ohe.fitter().category_map(),
        &vec![
            ("Type 1".to_string(), strings(&["Grass", "Fire"])),
            ("Type 2".to_string(), strings(&["Poison", "", "Flying"])),
        ]
    );
    let out = ohe.transform(&data).unwrap();
    assert_eq!(
        out.data_columns(),
        &strings(&["#", "Type 1_Grass", "Type 1_Fire", "Type 2_Poison", "Type 2_", "Type 2_Flying", "Total"])
    );
    assert_eq!(out.data().rows(), 3);
    assert_eq!(out.data().cols(), 7);
    assert_eq!(
        out.data().data(),
        &vec![
            1.0, 1.0, 0.0, 1.0, 0.0, 0.0, 318.0, //
            4.0, 0.0, 1.0, 0.0, 1.0, 0.0, 309.0, //
            6.0, 0.0, 1.0, 0.0, 0.0, 1.0, 534.0,
        ]
    );
    assert_eq!(out.target(), data.target());
    assert_eq!(out.target_column(), "Legendary");
}

#[test]
fn one_hot_column_count_is_numeric_plus_categories() {
    let data = pokemon_like();
    let mut ohe = OneHotEncoderFitter::<f64>::default().fit(&data).unwrap();
    let out = ohe.transform(&data).unwrap();
    // two numeric columns, two categorical columns with 2 and 3 categories
    assert_eq!(out.data().cols(), 2 + (2 + 3));
}

#[test]
fn one_hot_blocks_sum_to_one_or_zero() {
    let train = pokemon_like();
    let mut ohe = OneHotEncoderFitter::<f64>::default().fit(&train).unwrap();
    let test = MixedDataset::new(
        vec![
            vec![num(7.0), cat("Water"), cat("Flying"), num(314.0)],
            vec![num(1.0), cat("Grass"), cat("Poison"), num(318.0)],
        ],
        strings(&["False", "False"]),
        strings(&["#", "Type 1", "Type 2", "Total"]),
        "Legendary".to_string(),
    );
    let out = ohe.transform(&test).unwrap();
    let values = out.data().data();
    let row0 = &values[0..7];
    let row1 = &values[7..14];
    // unseen "Water": all-zero block; seen "Flying": a single one
    assert_eq!(row0[1] + row0[2], 0.0);
    assert_eq!(row0[3] + row0[4] + row0[5], 1.0);
    assert_eq!(row1[1] + row1[2], 1.0);
    assert_eq!(row1[3] + row1[4] + row1[5], 1.0);
    assert_eq!(row0[0], 7.0);
    assert_eq!(row0[6], 314.0);
}

#[test]
fn one_hot_numeric_only_passes_through() {
    let data = MixedDataset::new(
        vec![vec![num(1.5), num(2.5)], vec![num(3.5), num(4.5)]],
        vec![0u8, 1u8],
        strings(&["a", "b"]),
        "y".to_string(),
    );
    let mut ohe = OneHotEncoderFitter::<f64>::default().fit(&data).unwrap();
    assert!(ohe.fitter().category_map().is_empty());
    let out = ohe.transform(&data).unwrap();
    assert_eq!(out.data_columns(), &strings(&["a", "b"]));
    assert_eq!(out.data().data(), &vec![1.5, 2.5, 3.5, 4.5]);
    assert_eq!(out.target(), &vec![0u8, 1u8]);
}

#[test]
fn one_hot_schema_mismatch_fails() {
    let train = pokemon_like();
    let mut ohe = OneHotEncoderFitter::<f64>::default().fit(&train).unwrap();
    let bad = MixedDataset::new(
        vec![vec![num(1.0), num(2.0), cat("Poison"), num(318.0)]],
        strings(&["False"]),
        strings(&["#", "Type 1", "Type 2", "Total"]),
        "Legendary".to_string(),
    );
    let r = ohe.transform(&bad);
    assert_eq!(*r.unwrap_err().kind(), ErrorKind::InvalidState);
}

#[test]
fn one_hot_through_traits_and_custom_indicators() {
    let data = pokemon_like();
    let fitter = OneHotEncoderFitter::new(-1.0, 2.0);
    let mut ohe = PreprocessorFitter::fit(fitter, &data).unwrap();
    let out = Preprocessor::transform(&mut ohe, &data).unwrap();
    assert_eq!(&out.data().data()[0..3], &[1.0, 2.0, -1.0]);
}

#[test]
fn one_hot_empty_dataset() {
    let data: MixedDataset<f64, String> = MixedDataset::new(Vec::new(), Vec::new(), strings(&["a"]), "y".to_string());
    let mut ohe = OneHotEncoderFitter::<f64>::default().fit(&data).unwrap();
    let out = ohe.transform(&data).unwrap();
    assert_eq!(out.data().rows(), 0);
    assert_eq!(out.data().cols(), 1);
}

#[test]
fn one_hot_encoded_name_equal_to_target_fails() {
    let data = MixedDataset::new(
        vec![vec![cat("x")], vec![cat("y")]],
        strings(&["1", "0"]),
        strings(&["a"]),
        "a_x".to_string(),
    );
    let mut ohe = OneHotEncoderFitter::<f64>::default().fit(&data).unwrap();
    let r = ohe.transform(&data);
    assert_eq!(*r.unwrap_err().kind(), ErrorKind::InvalidState);
}

#[test]
fn one_hot_encoder_stays_fit_after_transforms() {
    let data = pokemon_like();
    let mut ohe = OneHotEncoderFitter::<f64>::default().fit(&data).unwrap();
    let first = ohe.transform(&data).unwrap();
    let copy = ohe.clone();
    let second = ohe.transform(&data).unwrap();
    assert_eq!(ohe.fitter().fit_status(), &FitStatus::Fit);
    assert_eq!(copy.fitter().category_map(), ohe.fitter().category_map());
    assert_eq!(first.data().data(), second.data().data());
}
