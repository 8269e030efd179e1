//! Scalers of numeric features.

use vstd::prelude::*;
use crate::base::error::{Error, ErrorKind};
use crate::base::MLResult;
use crate::dataset::Dataset;
use crate::linalg::{all_rows_len, lemma_rows_of_shape, Matrix};

verus! {

/// A fitted scaler.
pub trait Scaler<T> {
    /// Scales the data.
    fn transform(&mut self, inputs: T) -> MLResult<T>;
}

/// An unfitted scaler.
pub trait ScalerFitter<U, T: Scaler<U>>: Sized {
    /// Computes what later scaling needs.
    fn fit(self, inputs: &U) -> MLResult<T>;

    /// Whether the fitter has been fit.
    fn fit_status(self) -> FitStatus;
}

/// Whether a scaler fitter has been fit.
#[derive(Clone, Copy, Debug, PartialEq, Eq, Structural)]
pub enum FitStatus {
    /// The fitter has not been fit.
    NotFit,
    /// The fitter has been fit.
    Fit,
}

/// Builds a dataset from `input` by replacing each feature value `v` of
/// column `j` with `scale(j, v)`, in row-major order; the target, the column
/// names and the target column name are copied, and the shape is kept. Fails
/// with `InvalidState` where `num_features`, the feature count that `scale`
/// was fitted for, differs from the dataset's.
pub fn scale_features<N: Copy, Y: Clone, F: Fn(usize, N) -> N>(
    input: &Dataset<N, Y>,
    num_features: usize,
    scale: &F,
) -> (r: MLResult<Dataset<N, Y>>)
    requires
        forall|j: usize, v: N| scale.requires((j, v)),
    ensures
        r is Ok <==> num_features == input.spec_data_columns().len(),
        match r {
            Ok(d) => {
                &&& d.spec_data().spec_rows() == input.spec_data().spec_rows()
                &&& d.spec_data().spec_cols() == input.spec_data().spec_cols()
                &&& d.spec_data_columns() == input.spec_data_columns()
                &&& d.spec_target_column() == input.spec_target_column()
                &&& d.spec_target().len() == input.spec_target().len()
                &&& forall|i: int| 0 <= i < input.spec_target().len()
                        ==> cloned::<Y>(input.spec_target()[i], #[trigger] d.spec_target()[i])
                &&& forall|i: int, j: int| 0 <= i < input.spec_data().spec_rows() && 0 <= j < input.spec_data().spec_cols()
                        ==> call_ensures(*scale, (j as usize, input.spec_data().spec_row_seq()[i][j]),
                            #[trigger] d.spec_data().spec_row_seq()[i][j])
            },
            Err(e) => e.spec_kind() == ErrorKind::InvalidState,
        },
{
    let columns = input.data_columns();
    if num_features != columns.len() {
        return Err(Error::new(ErrorKind::InvalidState, "the fitted number of features differs from the dataset's"));
    }
    let matrix = input.data();
    let rows = matrix.rows();
    let cols = matrix.cols();
    let flat = matrix.data();
    let total = flat.len();
    let ghost in_rows = matrix.spec_row_seq();
    proof {
        lemma_rows_of_shape(flat@, rows as nat, cols as nat);
    }
    let mut scaled: Vec<Vec<N>> = Vec::new();
    let mut i: usize = 0;
    while i < rows
        invariant
            flat@ == matrix.spec_data(),
            flat@.len() == rows * cols,
            total == flat@.len(),
            rows == matrix.spec_rows(),
            cols == matrix.spec_cols(),
            in_rows == matrix.spec_row_seq(),
            in_rows.len() == rows,
            forall|j: usize, v: N| scale.requires((j, v)),
            i <= rows,
            scaled@.len() == i,
            forall|k: int| 0 <= k < i ==> (#[trigger] scaled@[k])@.len() == cols,
            forall|k: int, j: int| 0 <= k < i && 0 <= j < cols
                ==> call_ensures(*scale, (j as usize, in_rows[k][j]), #[trigger] scaled@[k]@[j]),
        decreases rows - i,
    {
        proof {
            assert(i * cols + cols <= rows * cols) by (nonlinear_arith)
                requires
                    i < rows,
            ;
            assert(0 <= i * cols) by (nonlinear_arith);
        }
        let base = i * cols;
        let mut row: Vec<N> = Vec::new();
        let mut j: usize = 0;
        while j < cols
            invariant
                flat@ == matrix.spec_data(),
                flat@.len() == rows * cols,
                total == flat@.len(),
                cols == matrix.spec_cols(),
                in_rows == matrix.spec_row_seq(),
                i < rows,
                in_rows.len() == rows,
                base == i * cols,
                base + cols <= flat@.len(),
                forall|j: usize, v: N| scale.requires((j, v)),
                j <= cols,
                row@.len() == j,
                forall|q: int| 0 <= q < j ==> call_ensures(*scale, (q as usize, in_rows[i as int][q]), #[trigger] row@[q]),
            decreases cols - j,
        {
            let v = flat[base + j];
            assert(in_rows[i as int][j as int] == v);
            row.push(scale(j, v));
            j = j + 1;
        }
        scaled.push(row);
        i = i + 1;
    }
    proof {
        let views = scaled@.map_values(|row: Vec<N>| row@);
        assert forall|k: int| 0 <= k < views.len() implies (#[trigger] views[k]).len() == cols by {
            assert(views[k] == scaled@[k]@);
        }
        assert(all_rows_len(views, cols as nat));
    }
    let out = Matrix::from_rows(scaled, cols);
    let d = Dataset::new(out, input.target().clone(), columns.clone(), input.target_column().to_owned());
    proof {
        assert forall|i: int, j: int| 0 <= i < rows && 0 <= j < cols implies
            call_ensures(*scale, (j as usize, in_rows[i][j]), #[trigger] d.spec_data().spec_row_seq()[i][j]) by {
            assert(d.spec_data().spec_row_seq()[i] == scaled@[i]@);
        }
    }
    Ok(d)
}

} // verus!
