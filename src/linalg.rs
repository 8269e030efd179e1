//! A dense, row-major matrix.

use vstd::prelude::*;

verus! {

/// A dense matrix of `rows × cols` values, stored row after row in one buffer.
#[derive(Debug)]
pub struct Matrix<N> {
    rows: usize,
    cols: usize,
    data: Vec<N>,
}

impl<N: Clone> Clone for Matrix<N> {
    /// Copies the matrix: same shape, each value cloned.
    fn clone(&self) -> (r: Self)
        ensures
            r.spec_rows() == self.spec_rows(),
            r.spec_cols() == self.spec_cols(),
            r.spec_data().len() == self.spec_data().len(),
            forall|i: int| 0 <= i < self.spec_data().len()
                ==> cloned::<N>(self.spec_data()[i], #[trigger] r.spec_data()[i]),
    {
        proof {
            use_type_invariant(self);
        }
        Matrix { rows: self.rows, cols: self.cols, data: self.data.clone() }
    }
}

/// Row `i` of a row-major buffer whose rows have `cols` values.
pub open spec fn row_of<N>(flat: Seq<N>, cols: nat, i: int) -> Seq<N> {
    flat.subrange(i * cols, i * cols + cols)
}

/// The rows of a row-major buffer holding `rows` rows of `cols` values.
pub open spec fn rows_of<N>(flat: Seq<N>, rows: nat, cols: nat) -> Seq<Seq<N>> {
    Seq::new(rows, |i: int| row_of(flat, cols, i))
}

/// Every row of `s` has `cols` values.
pub open spec fn all_rows_len<N>(s: Seq<Seq<N>>, cols: nat) -> bool {
    forall|i: int| 0 <= i < s.len() ==> (#[trigger] s[i]).len() == cols
}

proof fn lemma_row_offsets(i: int, k: int, cols: int)
    requires
        0 <= i < k,
        0 <= cols,
    ensures
        0 <= i * cols,
        i * cols + cols <= k * cols,
        k * cols + cols == (k + 1) * cols,
{
    assert(0 <= i * cols) by (nonlinear_arith)
        requires
            0 <= i,
            0 <= cols,
    ;
    assert(i * cols + cols <= k * cols) by (nonlinear_arith)
        requires
            i < k,
            0 <= cols,
    ;
    assert(k * cols + cols == (k + 1) * cols) by (nonlinear_arith);
}

impl<N> Matrix<N> {
    #[verifier::type_invariant]
    spec fn well_formed(&self) -> bool {
        self.data@.len() == self.rows * self.cols
    }

    /// The number of rows.
    pub closed spec fn spec_rows(&self) -> nat {
        self.rows as nat
    }

    /// The number of columns.
    pub closed spec fn spec_cols(&self) -> nat {
        self.cols as nat
    }

    /// The values in row-major order.
    pub closed spec fn spec_data(&self) -> Seq<N> {
        self.data@
    }

    /// The rows of the matrix.
    pub open spec fn spec_row_seq(&self) -> Seq<Seq<N>> {
        rows_of(self.spec_data(), self.spec_rows(), self.spec_cols())
    }

    /// Builds a `rows × cols` matrix from its values in row-major order.
    pub fn new(rows: usize, cols: usize, data: Vec<N>) -> (r: Matrix<N>)
        requires
            data@.len() == rows * cols,
        ensures
            r.spec_rows() == rows,
            r.spec_cols() == cols,
            r.spec_data() == data@,
    {
        Matrix { rows, cols, data }
    }

    /// Builds a matrix of `cols` columns from its rows, flattening them in order.
    pub fn from_rows(rows: Vec<Vec<N>>, cols: usize) -> (r: Matrix<N>)
        requires
            all_rows_len(rows@.map_values(|row: Vec<N>| row@), cols as nat),
        ensures
            r.spec_rows() == rows@.len(),
            r.spec_cols() == cols,
            r.spec_row_seq() == rows@.map_values(|row: Vec<N>| row@),
    {
        let ghost target = rows@.map_values(|row: Vec<N>| row@);
        let num_rows = rows.len();
        let mut data: Vec<N> = Vec::new();
        let mut rest = rows;
        let mut k: usize = 0;
        while k < num_rows
            invariant
                k <= num_rows,
                num_rows == target.len(),
                all_rows_len(target, cols as nat),
                rest@.len() == num_rows - k,
                forall|j: int| 0 <= j < rest@.len() ==> (#[trigger] rest@[j])@ == target[k + j],
                data@.len() == k * cols,
                forall|i: int| 0 <= i < k ==> #[trigger] row_of(data@, cols as nat, i) == target[i],
            decreases num_rows - k,
        {
            let row = rest.remove(0);
            assert(row@ == target[k as int]);
            let ghost before = data@;
            let mut row = row;
            data.append(&mut row);
            proof {
                assert(k * cols + cols == (k + 1) * cols) by (nonlinear_arith);
                assert forall|i: int| 0 <= i < k + 1 implies #[trigger] row_of(data@, cols as nat, i) == target[i] by {
                    lemma_row_offsets(i, k as int + 1, cols as int);
                    if i < k {
                        lemma_row_offsets(i, k as int, cols as int);
                        assert(row_of(data@, cols as nat, i) =~= row_of(before, cols as nat, i));
                    } else {
                        assert(row_of(data@, cols as nat, i) =~= target[i]);
                    }
                }
            }
            k = k + 1;
        }
        assert(data@.len() == num_rows * cols);
        let r = Matrix { rows: num_rows, cols, data };
        assert(r.spec_row_seq() =~= target);
        r
    }

    /// The number of rows.
    pub fn rows(&self) -> (r: usize)
        ensures
            r == self.spec_rows(),
    {
        self.rows
    }

    /// The number of columns.
    pub fn cols(&self) -> (r: usize)
        ensures
            r == self.spec_cols(),
    {
        self.cols
    }

    /// The values in row-major order.
    pub fn data(&self) -> (r: &Vec<N>)
        ensures
            r@ == self.spec_data(),
            r@.len() == self.spec_rows() * self.spec_cols(),
    {
        proof {
            use_type_invariant(self);
        }
        &self.data
    }
}

/// A buffer of `rows * cols` values splits into `rows` rows of `cols` values.
pub proof fn lemma_rows_of_shape<N>(flat: Seq<N>, rows: nat, cols: nat)
    requires
        flat.len() == rows * cols,
    ensures
        rows_of(flat, rows, cols).len() == rows,
        all_rows_len(rows_of(flat, rows, cols), cols),
{
    assert forall|i: int| 0 <= i < rows_of(flat, rows, cols).len() implies (#[trigger] rows_of(flat, rows, cols)[i]).len() == cols by {
        lemma_row_offsets(i, rows as int, cols as int);
    }
}

} // verus!
