//! The fit/transform protocol shared by every transform, and the transforms.

use vstd::prelude::*;
use crate::base::MLResult;

/// Encoders: label and one-hot.
pub mod encoders;
/// Scalers.
pub mod scalers;

verus! {

/// A fitted transform: maps schema-compatible inputs to outputs, as often as
/// wanted, without changing its fitted state.
pub trait Preprocessor<I> {
    /// The output type.
    type O;

    /// Transforms `inputs` with the fitted state.
    fn transform(&mut self, inputs: &I) -> MLResult<Self::O>;
}

/// An unfitted transform, consumed by `fit` and replaced by a fitted one.
pub trait PreprocessorFitter<I, O: Preprocessor<I>>: Sized {
    /// Inspects `inputs` once and returns the fitted transform.
    fn fit(self, inputs: &I) -> MLResult<O>;

    /// Whether this fitter has been fit.
    fn fit_status(&self) -> &FitStatus;
}

/// Whether a fitter has been fit.
#[derive(Clone, Copy, Debug, PartialEq, Eq, Structural)]
pub enum FitStatus {
    /// The fitter has not been fit.
    NotFit,
    /// The fitter has been fit.
    Fit,
}

impl Default for FitStatus {
    /// A fitter starts out not fit.
    fn default() -> (r: Self)
        ensures
            r == FitStatus::NotFit,
    {
        FitStatus::NotFit
    }
}

} // verus!
