//! Tabular data preprocessing: CSV ingestion into typed datasets and
//! reusable fit/transform feature transforms (label encoding, one-hot
//! encoding, min-max scaling).

pub mod base;
pub mod linalg;
pub mod dataset;
pub mod preprocessing;
