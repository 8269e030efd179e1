//! Dataset containers: a homogeneous numeric `Dataset` and a `MixedDataset`
//! whose cells are numeric or categorical.

use vstd::prelude::*;
use crate::linalg::Matrix;

/// Building datasets from CSV text and from header and data rows.
pub mod ingest;
/// The CSV reader that ingestion relies on.
mod csv_reader;

verus! {

/// The views of a sequence of strings.
pub open spec fn strings_view(v: Seq<String>) -> Seq<Seq<char>> {
    v.map_values(|s: String| s@)
}

/// A dataset whose features are all numeric: a feature matrix, one target
/// value per row, the feature column names and the target column name.
#[derive(Debug)]
pub struct Dataset<N, Y> {
    data: Matrix<N>,
    target: Vec<Y>,
    data_columns: Vec<String>,
    target_column: String,
}

impl<N, Y> Dataset<N, Y> {
    #[verifier::type_invariant]
    spec fn shape_agrees(&self) -> bool {
        &&& self.target@.len() == self.data.spec_rows()
        &&& self.data_columns@.len() == self.data.spec_cols()
        &&& !strings_view(self.data_columns@).contains(self.target_column@)
    }

    /// The feature matrix.
    pub closed spec fn spec_data(&self) -> Matrix<N> {
        self.data
    }

    /// The target values, one per row.
    pub closed spec fn spec_target(&self) -> Seq<Y> {
        self.target@
    }

    /// The feature column names, in column order.
    pub closed spec fn spec_data_columns(&self) -> Seq<Seq<char>> {
        strings_view(self.data_columns@)
    }

    /// The target column name.
    pub closed spec fn spec_target_column(&self) -> Seq<char> {
        self.target_column@
    }

    /// Builds a dataset. The target has one value per matrix row, there is
    /// one column name per matrix column, and the target column is not among
    /// the feature columns.
    pub fn new(data: Matrix<N>, target: Vec<Y>, data_columns: Vec<String>, target_column: String) -> (r: Self)
        requires
            target@.len() == data.spec_rows(),
            data_columns@.len() == data.spec_cols(),
            !strings_view(data_columns@).contains(target_column@),
        ensures
            r.spec_data() == data,
            r.spec_target() == target@,
            r.spec_data_columns() == strings_view(data_columns@),
            r.spec_target_column() == target_column@,
    {
        Dataset { data, target, data_columns, target_column }
    }

    /// The feature matrix. It has one row per target value and one column per
    /// feature name.
    pub fn data(&self) -> (r: &Matrix<N>)
        ensures
            *r == self.spec_data(),
            r.spec_rows() == self.spec_target().len(),
            r.spec_cols() == self.spec_data_columns().len(),
    {
        proof {
            use_type_invariant(self);
        }
        &self.data
    }

    /// The target values, one per row of the feature matrix.
    pub fn target(&self) -> (r: &Vec<Y>)
        ensures
            r@ == self.spec_target(),
            r@.len() == self.spec_data().spec_rows(),
    {
        proof {
            use_type_invariant(self);
        }
        &self.target
    }

    /// The feature column names, one per column of the feature matrix.
    pub fn data_columns(&self) -> (r: &Vec<String>)
        ensures
            strings_view(r@) == self.spec_data_columns(),
            r@.len() == self.spec_data().spec_cols(),
            !self.spec_data_columns().contains(self.spec_target_column()),
    {
        proof {
            use_type_invariant(self);
        }
        &self.data_columns
    }

    /// The target column name.
    pub fn target_column(&self) -> (r: &str)
        ensures
            r@ == self.spec_target_column(),
    {
        self.target_column.as_str()
    }
}

/// A cell of a mixed dataset: a number or a category.
#[derive(Debug, Clone, PartialEq)]
pub enum MixedDataValue<N> {
    /// A numeric value.
    Numeric(N),
    /// A categorical value.
    Categorical(String),
}

/// Every row of `rows` has `width` cells.
pub open spec fn rows_have_width<T>(rows: Seq<Vec<T>>, width: nat) -> bool {
    forall|i: int| 0 <= i < rows.len() ==> (#[trigger] rows[i])@.len() == width
}

/// A dataset whose cells are numeric or categorical, held row by row.
#[derive(Debug)]
pub struct MixedDataset<N, Y> {
    data: Vec<Vec<MixedDataValue<N>>>,
    target: Vec<Y>,
    data_columns: Vec<String>,
    target_column: String,
}

impl<N, Y> MixedDataset<N, Y> {
    #[verifier::type_invariant]
    spec fn shape_agrees(&self) -> bool {
        &&& self.target@.len() == self.data@.len()
        &&& rows_have_width(self.data@, self.data_columns@.len())
        &&& !strings_view(self.data_columns@).contains(self.target_column@)
    }

    /// The rows of cells.
    pub closed spec fn spec_data(&self) -> Seq<Seq<MixedDataValue<N>>> {
        self.data@.map_values(|row: Vec<MixedDataValue<N>>| row@)
    }

    /// The target values, one per row.
    pub closed spec fn spec_target(&self) -> Seq<Y> {
        self.target@
    }

    /// The feature column names, in column order.
    pub closed spec fn spec_data_columns(&self) -> Seq<Seq<char>> {
        strings_view(self.data_columns@)
    }

    /// The target column name.
    pub closed spec fn spec_target_column(&self) -> Seq<char> {
        self.target_column@
    }

    /// Builds a mixed dataset. There is one target value per row, every row
    /// has one cell per column name, and the target column is not among the
    /// feature columns.
    pub fn new(
        data: Vec<Vec<MixedDataValue<N>>>,
        target: Vec<Y>,
        data_columns: Vec<String>,
        target_column: String,
    ) -> (r: Self)
        requires
            target@.len() == data@.len(),
            rows_have_width(data@, data_columns@.len()),
            !strings_view(data_columns@).contains(target_column@),
        ensures
            r.spec_data() == data@.map_values(|row: Vec<MixedDataValue<N>>| row@),
            r.spec_target() == target@,
            r.spec_data_columns() == strings_view(data_columns@),
            r.spec_target_column() == target_column@,
    {
        MixedDataset { data, target, data_columns, target_column }
    }

    /// The rows of cells: one per target value, each with one cell per column name.
    pub fn data(&self) -> (r: &Vec<Vec<MixedDataValue<N>>>)
        ensures
            r@.map_values(|row: Vec<MixedDataValue<N>>| row@) == self.spec_data(),
            r@.len() == self.spec_target().len(),
            rows_have_width(r@, self.spec_data_columns().len()),
    {
        proof {
            use_type_invariant(self);
        }
        &self.data
    }

    /// The target values, one per row.
    pub fn target(&self) -> (r: &Vec<Y>)
        ensures
            r@ == self.spec_target(),
            r@.len() == self.spec_data().len(),
    {
        proof {
            use_type_invariant(self);
        }
        &self.target
    }

    /// The feature column names, one per cell of each row.
    pub fn data_columns(&self) -> (r: &Vec<String>)
        ensures
            strings_view(r@) == self.spec_data_columns(),
            !self.spec_data_columns().contains(self.spec_target_column()),
            forall|i: int| 0 <= i < self.spec_data().len() ==> (#[trigger] self.spec_data()[i]).len() == r@.len(),
    {
        proof {
            use_type_invariant(self);
        }
        &self.data_columns
    }

    /// The target column name.
    pub fn target_column(&self) -> (r: &str)
        ensures
            r@ == self.spec_target_column(),
    {
        self.target_column.as_str()
    }
}

} // verus!
