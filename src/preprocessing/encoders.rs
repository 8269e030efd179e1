//! Encoders of categorical values.

/// The label encoder.
pub mod labelencoder;
/// The one-hot encoder.
pub mod onehotencoder;
