//! The one-hot encoder: expands every categorical column of a mixed dataset
//! into a block of indicator columns, one per category, and passes numeric
//! columns through.

use vstd::prelude::*;
use crate::base::error::{Error, ErrorKind};
use crate::base::MLResult;
use crate::dataset::{rows_have_width, strings_view, Dataset, MixedDataValue, MixedDataset};
use crate::linalg::{all_rows_len, Matrix};
use crate::preprocessing::encoders::labelencoder::{distinct_in_order, lemma_distinct_in_order, position_of};
use crate::preprocessing::{FitStatus, Preprocessor, PreprocessorFitter};

verus! {

/// A category map: for each encoded column, its name and its categories in
/// index order.
pub type CategoryMap = Seq<(Seq<char>, Seq<Seq<char>>)>;

/// The categorical values of column `col`, row by row.
pub open spec fn categorical_cells<N>(rows: Seq<Seq<MixedDataValue<N>>>, col: int) -> Seq<Seq<char>>
    decreases rows.len(),
{
    if rows.len() == 0 {
        Seq::empty()
    } else {
        let before = categorical_cells(rows.drop_last(), col);
        match rows.last()[col] {
            MixedDataValue::Categorical(v) => before.push(v@),
            MixedDataValue::Numeric(_) => before,
        }
    }
}

/// The categories of column `col`, in the order in which they are first seen.
pub open spec fn column_categories<N>(rows: Seq<Seq<MixedDataValue<N>>>, col: int) -> Seq<Seq<char>> {
    distinct_in_order(categorical_cells(rows, col))
}

/// The category map fitted on the first `k` columns: an entry for each column
/// that holds at least one categorical value, in column order.
pub open spec fn fitted_map_upto<N>(columns: Seq<Seq<char>>, rows: Seq<Seq<MixedDataValue<N>>>, k: int) -> CategoryMap
    decreases k,
{
    if k <= 0 {
        Seq::empty()
    } else {
        let before = fitted_map_upto(columns, rows, k - 1);
        let cats = column_categories(rows, k - 1);
        if cats.len() > 0 {
            before.push((columns[k - 1], cats))
        } else {
            before
        }
    }
}

/// The category map fitted on a dataset with these columns and rows.
pub open spec fn fitted_map<N>(columns: Seq<Seq<char>>, rows: Seq<Seq<MixedDataValue<N>>>) -> CategoryMap {
    fitted_map_upto(columns, rows, columns.len() as int)
}

/// `i` is the first entry of `map` for the column `name`.
pub open spec fn entry_position(map: CategoryMap, name: Seq<char>, i: int) -> bool {
    &&& 0 <= i < map.len()
    &&& map[i].0 == name
    &&& forall|j: int| 0 <= j < i ==> map[j].0 != name
}

/// The categories that `map` holds for the column `name`, if it has an entry.
pub open spec fn categories_for(map: CategoryMap, name: Seq<char>) -> Option<Seq<Seq<char>>> {
    if exists|i: int| entry_position(map, name, i) {
        Some(map[choose|i: int| entry_position(map, name, i)].1)
    } else {
        None
    }
}

/// The indicator block for value `v` of a column with categories `cats`:
/// `on` where the category is `v`, `off` elsewhere.
pub open spec fn indicator_block<N>(cats: Seq<Seq<char>>, v: Seq<char>, off: N, on: N) -> Seq<N> {
    Seq::new(cats.len(), |k: int| if cats[k] == v { on } else { off })
}

/// What a cell of column `name` becomes: a number stays itself; a category
/// becomes its indicator block where the column has an entry in `map`, and
/// nothing where it has none.
pub open spec fn encode_cell<N>(map: CategoryMap, name: Seq<char>, cell: MixedDataValue<N>, off: N, on: N) -> Seq<N> {
    match cell {
        MixedDataValue::Numeric(x) => seq![x],
        MixedDataValue::Categorical(v) => match categories_for(map, name) {
            Some(cats) => indicator_block(cats, v@, off, on),
            None => Seq::empty(),
        },
    }
}

/// A row encoded cell by cell, the cells lying under `columns`.
pub open spec fn encode_row<N>(
    map: CategoryMap,
    columns: Seq<Seq<char>>,
    row: Seq<MixedDataValue<N>>,
    off: N,
    on: N,
) -> Seq<N>
    decreases row.len(),
{
    if row.len() == 0 {
        Seq::empty()
    } else {
        encode_row(map, columns, row.drop_last(), off, on)
            + encode_cell(map, columns[row.len() - 1], row.last(), off, on)
    }
}

/// The output column names of column `name`: one `<name>_<category>` per
/// category where the column has an entry in `map`, else `name` itself.
pub open spec fn block_names(map: CategoryMap, name: Seq<char>) -> Seq<Seq<char>> {
    match categories_for(map, name) {
        Some(cats) => Seq::new(cats.len(), |k: int| name + seq!['_'] + cats[k]),
        None => seq![name],
    }
}

/// The output column names of `columns`, in order.
pub open spec fn encoded_names(map: CategoryMap, columns: Seq<Seq<char>>) -> Seq<Seq<char>>
    decreases columns.len(),
{
    if columns.len() == 0 {
        Seq::empty()
    } else {
        encoded_names(map, columns.drop_last()) + block_names(map, columns.last())
    }
}

/// The views of a category map held as a vector.
pub open spec fn map_view(map: Seq<(String, Vec<String>)>) -> CategoryMap {
    map.map_values(|e: (String, Vec<String>)| (e.0@, strings_view(e.1@)))
}

/// The one-hot encoder fitter: the category map, the fit status, and the
/// values written for an unset and a set indicator.
#[derive(Debug)]
pub struct OneHotEncoderFitter<N> {
    category_map: Vec<(String, Vec<String>)>,
    fit: FitStatus,
    off: N,
    on: N,
}

impl<N> OneHotEncoderFitter<N> {
    /// For each encoded column, its name and its categories in index order.
    pub closed spec fn spec_category_map(&self) -> CategoryMap {
        map_view(self.category_map@)
    }

    /// Whether the fitter has been fit.
    pub closed spec fn spec_fit_status(&self) -> FitStatus {
        self.fit
    }

    /// The value of an unset indicator.
    pub closed spec fn spec_off(&self) -> N {
        self.off
    }

    /// The value of a set indicator.
    pub closed spec fn spec_on(&self) -> N {
        self.on
    }

    /// An unfitted fitter whose indicators will read `off` (unset) and `on` (set).
    pub fn new(off: N, on: N) -> (r: Self)
        ensures
            r.spec_fit_status() == FitStatus::NotFit,
            r.spec_category_map() == CategoryMap::empty(),
            r.spec_off() == off,
            r.spec_on() == on,
    {
        let r = OneHotEncoderFitter { category_map: Vec::new(), fit: FitStatus::NotFit, off, on };
        assert(r.spec_category_map() =~= CategoryMap::empty());
        r
    }

    /// For each encoded column, its name and its categories in index order.
    pub fn category_map(&self) -> (r: &Vec<(String, Vec<String>)>)
        ensures
            map_view(r@) == self.spec_category_map(),
    {
        &self.category_map
    }

    /// Whether the fitter has been fit.
    pub fn fit_status(&self) -> (r: &FitStatus)
        ensures
            *r == self.spec_fit_status(),
    {
        &self.fit
    }
}

impl<N: From<u8>> Default for OneHotEncoderFitter<N> {
    /// An unfitted fitter whose indicators read `N::from(0)` and `N::from(1)`.
    fn default() -> (r: Self)
        ensures
            r.spec_fit_status() == FitStatus::NotFit,
            r.spec_category_map() == CategoryMap::empty(),
    {
        OneHotEncoderFitter::new(N::from(0u8), N::from(1u8))
    }
}

/// The rows of a mixed dataset held as vectors.
pub open spec fn mixed_rows_view<N>(rows: Seq<Vec<MixedDataValue<N>>>) -> Seq<Seq<MixedDataValue<N>>> {
    rows.map_values(|row: Vec<MixedDataValue<N>>| row@)
}

/// The distinct categorical values of column `col`, in first-seen order.
fn collect_categories<N>(data: &Vec<Vec<MixedDataValue<N>>>, col: usize, width: usize) -> (r: Vec<String>)
    requires
        rows_have_width(data@, width as nat),
        col < width,
    ensures
        strings_view(r@) == column_categories(mixed_rows_view(data@), col as int),
{
    let ghost rows = mixed_rows_view(data@);
    let mut cats: Vec<String> = Vec::new();
    let mut i: usize = 0;
    while i < data.len()
        invariant
            rows == mixed_rows_view(data@),
            rows_have_width(data@, width as nat),
            col < width,
            i <= data@.len(),
            strings_view(cats@) == distinct_in_order(categorical_cells(rows.subrange(0, i as int), col as int)),
        decreases data@.len() - i,
    {
        let ghost before = categorical_cells(rows.subrange(0, i as int), col as int);
        proof {
            assert(rows.subrange(0, i + 1).drop_last() =~= rows.subrange(0, i as int));
            assert(data@[i as int]@.len() == width);
            assert(rows.subrange(0, i + 1).last() == data@[i as int]@);
        }
        match &data[i][col] {
            MixedDataValue::Categorical(v) => {
                proof {
                    assert(before.push(v@).drop_last() =~= before);
                }
                if position_of(&cats, v).is_none() {
                    cats.push(v.clone());
                    assert(strings_view(cats@) =~= distinct_in_order(before).push(v@));
                }
            },
            MixedDataValue::Numeric(_) => {},
        }
        i = i + 1;
    }
    assert(rows.subrange(0, i as int) =~= rows);
    cats
}

impl<N> OneHotEncoderFitter<N> {
    /// Fits on `input`: for each column, in order, the distinct categorical
    /// values it holds, indexed in first-seen order; a column without any
    /// categorical value gets no entry. Never fails.
    pub fn fit<Y>(self, input: &MixedDataset<N, Y>) -> (r: MLResult<OneHotEncoder<N>>)
        ensures
            r matches Ok(enc) && {
                &&& enc.spec_fitter().spec_fit_status() == FitStatus::Fit
                &&& enc.spec_fitter().spec_category_map() == fitted_map(input.spec_data_columns(), input.spec_data())
                &&& enc.spec_fitter().spec_off() == self.spec_off()
                &&& enc.spec_fitter().spec_on() == self.spec_on()
            },
    {
        let columns = input.data_columns();
        let data = input.data();
        let ghost cols = input.spec_data_columns();
        let ghost rows = input.spec_data();
        let mut map: Vec<(String, Vec<String>)> = Vec::new();
        let mut c: usize = 0;
        while c < columns.len()
            invariant
                cols == strings_view(columns@),
                rows == mixed_rows_view(data@),
                rows_have_width(data@, columns@.len()),
                c <= columns@.len(),
                map_view(map@) == fitted_map_upto(cols, rows, c as int),
            decreases columns@.len() - c,
        {
            let cats = collect_categories(data, c, columns.len());
            if cats.len() > 0 {
                let ghost before = map@;
                map.push((columns[c].clone(), cats));
                assert(map_view(map@) =~= map_view(before).push((cols[c as int], column_categories(rows, c as int))));
            }
            c = c + 1;
        }
        let OneHotEncoderFitter { category_map: _, fit: _, off, on } = self;
        Ok(OneHotEncoder { fitter: OneHotEncoderFitter { category_map: map, fit: FitStatus::Fit, off, on } })
    }
}

/// The fitted one-hot encoder.
#[derive(Debug)]
pub struct OneHotEncoder<N> {
    fitter: OneHotEncoderFitter<N>,
}

impl<N: Clone> Clone for OneHotEncoderFitter<N> {
    /// Copies the fitter: the same category map and fit status, the indicator
    /// values cloned.
    fn clone(&self) -> (r: Self)
        ensures
            r.spec_category_map() == self.spec_category_map(),
            r.spec_fit_status() == self.spec_fit_status(),
            cloned::<N>(self.spec_off(), r.spec_off()),
            cloned::<N>(self.spec_on(), r.spec_on()),
    {
        let map = clone_category_map(&self.category_map);
        OneHotEncoderFitter { category_map: map, fit: self.fit, off: self.off.clone(), on: self.on.clone() }
    }
}

/// A copy of a category map, entry by entry.
fn clone_category_map(map: &Vec<(String, Vec<String>)>) -> (r: Vec<(String, Vec<String>)>)
    ensures
        map_view(r@) == map_view(map@),
{
    let mut out: Vec<(String, Vec<String>)> = Vec::new();
    let mut i: usize = 0;
    while i < map.len()
        invariant
            i <= map@.len(),
            map_view(out@) == map_view(map@.subrange(0, i as int)),
        decreases map@.len() - i,
    {
        let name = map[i].0.clone();
        let mut cats: Vec<String> = Vec::new();
        let mut k: usize = 0;
        while k < map[i].1.len()
            invariant
                i < map@.len(),
                k <= map@[i as int].1@.len(),
                strings_view(cats@) == strings_view(map@[i as int].1@.subrange(0, k as int)),
            decreases map@[i as int].1@.len() - k,
        {
            let ghost prev = cats@;
            let c = map[i].1[k].clone();
            cats.push(c);
            assert(map@[i as int].1@.subrange(0, k + 1) =~= map@[i as int].1@.subrange(0, k as int).push(map@[i as int].1@[k as int]));
            assert(strings_view(cats@) =~= strings_view(prev).push(c@));
            assert(strings_view(cats@) =~= strings_view(map@[i as int].1@.subrange(0, k + 1)));
            k = k + 1;
        }
        assert(map@[i as int].1@.subrange(0, k as int) =~= map@[i as int].1@);
        let ghost prev = out@;
        let ghost entry = (name@, strings_view(cats@));
        out.push((name, cats));
        assert(map@.subrange(0, i + 1) =~= map@.subrange(0, i as int).push(map@[i as int]));
        assert(map_view(out@) =~= map_view(prev).push(entry));
        assert(map_view(out@) =~= map_view(map@.subrange(0, i + 1)));
        i = i + 1;
    }
    assert(map@.subrange(0, i as int) =~= map@);
    out
}

impl<N: Clone> Clone for OneHotEncoder<N> {
    /// Copies the encoder: the same category map.
    fn clone(&self) -> (r: Self)
        ensures
            r.spec_fitter().spec_category_map() == self.spec_fitter().spec_category_map(),
    {
        proof {
            use_type_invariant(self);
        }
        OneHotEncoder { fitter: self.fitter.clone() }
    }
}

impl<N> OneHotEncoder<N> {
    /// An encoder only comes from `fit`, so its fitter has been fit.
    #[verifier::type_invariant]
    spec fn is_fitted(&self) -> bool {
        self.fitter.fit == FitStatus::Fit
    }

    /// The fitter that holds the category map.
    pub closed spec fn spec_fitter(&self) -> OneHotEncoderFitter<N> {
        self.fitter
    }

    /// The fitter that holds the category map.
    pub fn fitter(&self) -> (r: &OneHotEncoderFitter<N>)
        ensures
            *r == self.spec_fitter(),
            r.spec_fit_status() == FitStatus::Fit,
    {
        proof {
            use_type_invariant(self);
        }
        &self.fitter
    }
}

/// The rows of `rows` encoded, row by row.
pub open spec fn encoded_rows<N>(
    map: CategoryMap,
    columns: Seq<Seq<char>>,
    rows: Seq<Seq<MixedDataValue<N>>>,
    off: N,
    on: N,
) -> Seq<Seq<N>> {
    Seq::new(rows.len(), |i: int| encode_row(map, columns, rows[i], off, on))
}

/// Every encoded row has one value per output column name.
pub open spec fn rows_match_names<N>(
    map: CategoryMap,
    columns: Seq<Seq<char>>,
    rows: Seq<Seq<MixedDataValue<N>>>,
    off: N,
    on: N,
) -> bool {
    forall|i: int| 0 <= i < rows.len() ==>
        (#[trigger] encode_row(map, columns, rows[i], off, on)).len() == encoded_names(map, columns).len()
}

proof fn lemma_categories_for_entry(map: CategoryMap, name: Seq<char>, i: int)
    requires
        entry_position(map, name, i),
    ensures
        categories_for(map, name) == Some(map[i].1),
{
    let c = choose|j: int| entry_position(map, name, j);
    assert(entry_position(map, name, c));
    if c < i {
        assert(map[c].0 != name);
    } else if i < c {
        assert(map[i].0 != name);
    }
}

/// The first entry of `map` for the column `name`, if there is one.
fn find_entry(map: &Vec<(String, Vec<String>)>, name: &String) -> (r: Option<usize>)
    ensures
        match r {
            Some(i) => {
                &&& entry_position(map_view(map@), name@, i as int)
                &&& categories_for(map_view(map@), name@) == Some(strings_view(map@[i as int].1@))
            },
            None => categories_for(map_view(map@), name@) is None,
        },
{
    let ghost m = map_view(map@);
    let mut j: usize = 0;
    while j < map.len()
        invariant
            m == map_view(map@),
            j <= map@.len(),
            forall|k: int| 0 <= k < j ==> m[k].0 != name@,
        decreases map@.len() - j,
    {
        if map[j].0 == *name {
            proof {
                lemma_categories_for_entry(m, name@, j as int);
            }
            return Some(j);
        }
        j = j + 1;
    }
    proof {
        if exists|i: int| entry_position(m, name@, i) {
            let i = choose|i: int| entry_position(m, name@, i);
            assert(m[i].0 != name@);
        }
    }
    None
}

/// The output column names of `columns`.
fn encode_names(map: &Vec<(String, Vec<String>)>, columns: &Vec<String>) -> (r: Vec<String>)
    ensures
        strings_view(r@) == encoded_names(map_view(map@), strings_view(columns@)),
{
    let ghost m = map_view(map@);
    let ghost cols = strings_view(columns@);
    let mut names: Vec<String> = Vec::new();
    let mut c: usize = 0;
    while c < columns.len()
        invariant
            m == map_view(map@),
            cols == strings_view(columns@),
            c <= columns@.len(),
            strings_view(names@) == encoded_names(m, cols.subrange(0, c as int)),
        decreases columns@.len() - c,
    {
        let ghost base = strings_view(names@);
        proof {
            assert(cols.subrange(0, c + 1).drop_last() =~= cols.subrange(0, c as int));
            assert(cols.subrange(0, c + 1).last() == cols[c as int]);
        }
        let column = &columns[c];
        match find_entry(map, column) {
            Some(e) => {
                let cats = &map[e].1;
                let ghost block = block_names(m, column@);
                let mut k: usize = 0;
                while k < cats.len()
                    invariant
                        m == map_view(map@),
                        categories_for(m, column@) == Some(strings_view(cats@)),
                        block == block_names(m, column@),
                        k <= cats@.len(),
                        strings_view(names@) == base + block.subrange(0, k as int),
                    decreases cats@.len() - k,
                {
                    let mut name = column.clone();
                    name.append("_");
                    name.append(cats[k].as_str());
                    proof {
                        reveal_strlit("_");
                        assert(name@ =~= column@ + seq!['_'] + strings_view(cats@)[k as int]);
                        assert(block[k as int] == column@ + seq!['_'] + strings_view(cats@)[k as int]);
                    }
                    let ghost prev = names@;
                    names.push(name);
                    assert(strings_view(names@) =~= strings_view(prev).push(name@));
                    assert(block.subrange(0, k + 1) =~= block.subrange(0, k as int).push(block[k as int]));
                    assert(strings_view(names@) =~= base + block.subrange(0, k + 1));
                    k = k + 1;
                }
                assert(block.subrange(0, k as int) =~= block);
            },
            None => {
                names.push(column.clone());
                assert(strings_view(names@) =~= base + block_names(m, column@));
            },
        }
        c = c + 1;
    }
    assert(cols.subrange(0, c as int) =~= cols);
    names
}

/// A row of a mixed dataset encoded cell by cell.
fn encode_cells<N: Copy>(
    map: &Vec<(String, Vec<String>)>,
    columns: &Vec<String>,
    row: &Vec<MixedDataValue<N>>,
    off: N,
    on: N,
) -> (r: Vec<N>)
    requires
        row@.len() == columns@.len(),
    ensures
        r@ == encode_row(map_view(map@), strings_view(columns@), row@, off, on),
{
    let ghost m = map_view(map@);
    let ghost cols = strings_view(columns@);
    let mut out: Vec<N> = Vec::new();
    let mut c: usize = 0;
    while c < row.len()
        invariant
            m == map_view(map@),
            cols == strings_view(columns@),
            row@.len() == columns@.len(),
            c <= row@.len(),
            out@ == encode_row(m, cols, row@.subrange(0, c as int), off, on),
        decreases row@.len() - c,
    {
        let ghost base = out@;
        proof {
            assert(row@.subrange(0, c + 1).drop_last() =~= row@.subrange(0, c as int));
            assert(row@.subrange(0, c + 1).last() == row@[c as int]);
        }
        match &row[c] {
            MixedDataValue::Numeric(x) => {
                out.push(*x);
                assert(out@ =~= base + encode_cell(m, cols[c as int], row@[c as int], off, on));
            },
            MixedDataValue::Categorical(v) => {
                match find_entry(map, &columns[c]) {
                    Some(e) => {
                        let cats = &map[e].1;
                        let ghost block = indicator_block(strings_view(cats@), v@, off, on);
                        let mut k: usize = 0;
                        while k < cats.len()
                            invariant
                                block == indicator_block(strings_view(cats@), v@, off, on),
                                k <= cats@.len(),
                                out@ == base + block.subrange(0, k as int),
                            decreases cats@.len() - k,
                        {
                            if cats[k] == *v {
                                out.push(on);
                            } else {
                                out.push(off);
                            }
                            assert(out@ =~= base + block.subrange(0, k + 1));
                            k = k + 1;
                        }
                        assert(block.subrange(0, k as int) =~= block);
                    },
                    None => {
                        assert(out@ =~= base + encode_cell(m, cols[c as int], row@[c as int], off, on));
                    },
                }
            },
        }
        c = c + 1;
    }
    assert(row@.subrange(0, c as int) =~= row@);
    out
}

impl<N: Copy> OneHotEncoder<N> {
    /// Encodes `input`: the output columns are, for each input column in
    /// order, `<column>_<category>` for each of its categories where the
    /// category map has the column, else the column itself; each row is
    /// encoded cell by cell (`encode_cell`). The target and the target column
    /// name are copied. Fails with `InvalidState` where an encoded row's length
    /// differs from the number of output columns, or where an output column
    /// name equals the target column name.
    pub fn transform<Y: Clone>(&mut self, input: &MixedDataset<N, Y>) -> (r: MLResult<Dataset<N, Y>>)
        ensures
            *final(self) == *old(self),
            final(self).spec_fitter().spec_fit_status() == FitStatus::Fit,
            r is Ok <==> rows_match_names(old(self).spec_fitter().spec_category_map(), input.spec_data_columns(),
                input.spec_data(), old(self).spec_fitter().spec_off(), old(self).spec_fitter().spec_on())
                && !encoded_names(old(self).spec_fitter().spec_category_map(), input.spec_data_columns())
                    .contains(input.spec_target_column()),
            match r {
                Ok(d) => {
                    let m = old(self).spec_fitter().spec_category_map();
                    let off = old(self).spec_fitter().spec_off();
                    let on = old(self).spec_fitter().spec_on();
                    &&& d.spec_data_columns() == encoded_names(m, input.spec_data_columns())
                    &&& d.spec_data().spec_rows() == input.spec_data().len()
                    &&& d.spec_data().spec_cols() == encoded_names(m, input.spec_data_columns()).len()
                    &&& d.spec_data().spec_row_seq() == encoded_rows(m, input.spec_data_columns(), input.spec_data(), off, on)
                    &&& d.spec_target().len() == input.spec_target().len()
                    &&& forall|i: int| 0 <= i < input.spec_target().len()
                            ==> cloned::<Y>(input.spec_target()[i], #[trigger] d.spec_target()[i])
                    &&& d.spec_target_column() == input.spec_target_column()
                },
                Err(e) => e.spec_kind() == ErrorKind::InvalidState,
            },
    {
        proof {
            use_type_invariant(&*self);
        }
        let ghost m = self.fitter.spec_category_map();
        let ghost cols = input.spec_data_columns();
        let ghost rows = input.spec_data();
        let off = self.fitter.off;
        let on = self.fitter.on;
        let columns = input.data_columns();
        let data = input.data();
        let names = encode_names(&self.fitter.category_map, columns);
        let width = names.len();
        let target_name = input.target_column().to_owned();
        if position_of(&names, &target_name).is_some() {
            return Err(Error::new(ErrorKind::InvalidState, "an encoded column name equals the target column name"));
        }
        let mut encoded: Vec<Vec<N>> = Vec::new();
        let mut i: usize = 0;
        while i < data.len()
            invariant
                m == map_view(self.fitter.category_map@),
                *self == *old(self),
                self.fitter.fit == FitStatus::Fit,
                off == self.fitter.off,
                on == self.fitter.on,
                cols == strings_view(columns@),
                cols == input.spec_data_columns(),
                rows == mixed_rows_view(data@),
                rows == input.spec_data(),
                rows_have_width(data@, columns@.len()),
                strings_view(names@) == encoded_names(m, cols),
                width == names@.len(),
                !strings_view(names@).contains(input.spec_target_column()),
                target_name@ == input.spec_target_column(),
                i <= data@.len(),
                encoded@.len() == i,
                forall|k: int| 0 <= k < i ==> (#[trigger] encoded@[k])@ == encode_row(m, cols, rows[k], off, on),
                forall|k: int| 0 <= k < i ==> (#[trigger] encode_row(m, cols, rows[k], off, on)).len() == width,
            decreases data@.len() - i,
        {
            let row = encode_cells(&self.fitter.category_map, columns, &data[i], off, on);
            if row.len() != width {
                assert(!rows_match_names(m, cols, rows, off, on)) by {
                    assert(rows[i as int] == data@[i as int]@);
                    assert(encode_row(m, cols, rows[i as int], off, on).len() != encoded_names(m, cols).len());
                }
                return Err(Error::new(ErrorKind::InvalidState, "an encoded row's length differs from the number of encoded columns"));
            }
            encoded.push(row);
            i = i + 1;
        }
        let ghost views = encoded@.map_values(|row: Vec<N>| row@);
        assert(views =~= encoded_rows(m, cols, rows, off, on));
        assert(all_rows_len(views, width as nat));
        let matrix = Matrix::from_rows(encoded, width);
        let target = input.target().clone();
        let d = Dataset::new(matrix, target, names, target_name);
        Ok(d)
    }
}

impl<N: Copy, Y: Clone> Preprocessor<MixedDataset<N, Y>> for OneHotEncoder<N> {
    type O = Dataset<N, Y>;

    fn transform(&mut self, inputs: &MixedDataset<N, Y>) -> MLResult<Dataset<N, Y>> {
        OneHotEncoder::transform(self, inputs)
    }
}

impl<N: Copy, Y: Clone> PreprocessorFitter<MixedDataset<N, Y>, OneHotEncoder<N>> for OneHotEncoderFitter<N> {
    fn fit(self, inputs: &MixedDataset<N, Y>) -> MLResult<OneHotEncoder<N>> {
        OneHotEncoderFitter::fit(self, inputs)
    }

    fn fit_status(&self) -> &FitStatus {
        OneHotEncoderFitter::fit_status(self)
    }
}

/// Every cell of column `col` is categorical.
pub open spec fn column_is_categorical<N>(rows: Seq<Seq<MixedDataValue<N>>>, col: int) -> bool {
    forall|i: int| 0 <= i < rows.len() ==> (#[trigger] rows[i])[col] is Categorical
}

/// Every cell of column `col` is numeric.
pub open spec fn column_is_numeric<N>(rows: Seq<Seq<MixedDataValue<N>>>, col: int) -> bool {
    forall|i: int| 0 <= i < rows.len() ==> (#[trigger] rows[i])[col] is Numeric
}

/// The number of numeric columns among the first `k`.
pub open spec fn numeric_count<N>(rows: Seq<Seq<MixedDataValue<N>>>, k: int) -> nat
    decreases k,
{
    if k <= 0 {
        0
    } else {
        numeric_count(rows, k - 1) + if column_is_numeric(rows, k - 1) { 1nat } else { 0nat }
    }
}

/// The total number of categories of the categorical columns among the first `k`.
pub open spec fn category_total<N>(rows: Seq<Seq<MixedDataValue<N>>>, k: int) -> nat
    decreases k,
{
    if k <= 0 {
        0
    } else {
        category_total(rows, k - 1) + if column_is_categorical(rows, k - 1) {
            column_categories(rows, k - 1).len()
        } else {
            0nat
        }
    }
}

/// Each column of the dataset holds only numbers or only categories.
pub open spec fn columns_have_kinds<N>(rows: Seq<Seq<MixedDataValue<N>>>, width: int) -> bool {
    forall|c: int| 0 <= c < width ==> column_is_categorical(rows, c) || column_is_numeric(rows, c)
}

proof fn lemma_distinct_nonempty(s: Seq<Seq<char>>)
    requires
        s.len() > 0,
    ensures
        distinct_in_order(s).len() > 0,
{
    let before = distinct_in_order(s.drop_last());
    if before.contains(s.last()) {
        assert(before.len() > 0);
    }
}

proof fn lemma_numeric_column_no_categories<N>(rows: Seq<Seq<MixedDataValue<N>>>, col: int)
    requires
        column_is_numeric(rows, col),
    ensures
        categorical_cells(rows, col).len() == 0,
    decreases rows.len(),
{
    if rows.len() > 0 {
        let init = rows.drop_last();
        assert forall|i: int| 0 <= i < init.len() implies (#[trigger] init[i])[col] is Numeric by {
            assert(init[i] == rows[i]);
        }
        lemma_numeric_column_no_categories(init, col);
        assert(rows[rows.len() - 1][col] is Numeric);
    }
}

proof fn lemma_categorical_column_has_categories<N>(rows: Seq<Seq<MixedDataValue<N>>>, col: int)
    requires
        column_is_categorical(rows, col),
        rows.len() > 0,
    ensures
        column_categories(rows, col).len() > 0,
{
    assert(rows[rows.len() - 1][col] is Categorical);
    assert(categorical_cells(rows, col).len() > 0);
    lemma_distinct_nonempty(categorical_cells(rows, col));
}

proof fn lemma_categories_for_push(map: CategoryMap, e: (Seq<char>, Seq<Seq<char>>), name: Seq<char>)
    ensures
        categories_for(map.push(e), name) == match categories_for(map, name) {
            Some(cats) => Some(cats),
            None => if e.0 == name { Some(e.1) } else { None },
        },
{
    let m2 = map.push(e);
    if exists|i: int| entry_position(map, name, i) {
        let i = choose|i: int| entry_position(map, name, i);
        assert(entry_position(m2, name, i));
        lemma_categories_for_entry(map, name, i);
        lemma_categories_for_entry(m2, name, i);
    } else {
        let n = map.len() as int;
        assert forall|j: int| 0 <= j < n implies m2[j].0 != name by {
            assert(m2[j] == map[j]);
            if map[j].0 == name {
                lemma_first_entry_exists(map, name, j);
            }
        }
        if e.0 == name {
            assert(entry_position(m2, name, n));
            lemma_categories_for_entry(m2, name, n);
        } else {
            assert(!exists|i: int| entry_position(m2, name, i)) by {
                if exists|i: int| entry_position(m2, name, i) {
                    let i = choose|i: int| entry_position(m2, name, i);
                    assert(m2[n].0 != name);
                }
            }
        }
    }
}

proof fn lemma_first_entry_exists(map: CategoryMap, name: Seq<char>, j: int)
    requires
        0 <= j < map.len(),
        map[j].0 == name,
    ensures
        exists|i: int| entry_position(map, name, i),
    decreases j,
{
    if exists|q: int| 0 <= q < j && map[q].0 == name {
        let q = choose|q: int| 0 <= q < j && map[q].0 == name;
        lemma_first_entry_exists(map, name, q);
    } else {
        assert(entry_position(map, name, j));
    }
}

proof fn lemma_fitted_lookup<N>(columns: Seq<Seq<char>>, rows: Seq<Seq<MixedDataValue<N>>>, k: int, c: int)
    requires
        columns.no_duplicates(),
        0 <= k <= columns.len(),
        0 <= c < columns.len(),
    ensures
        categories_for(fitted_map_upto(columns, rows, k), columns[c]) == if c < k
            && column_categories(rows, c).len() > 0 {
            Some(column_categories(rows, c))
        } else {
            None::<Seq<Seq<char>>>
        },
    decreases k,
{
    if k == 0 {
        let m = fitted_map_upto(columns, rows, 0);
        assert(m.len() == 0);
        assert(!exists|i: int| entry_position(m, columns[c], i));
    } else {
        lemma_fitted_lookup(columns, rows, k - 1, c);
        let before = fitted_map_upto(columns, rows, k - 1);
        let cats = column_categories(rows, k - 1);
        if cats.len() > 0 {
            lemma_categories_for_push(before, (columns[k - 1], cats), columns[c]);
            if c != k - 1 {
                assert(columns[k - 1] != columns[c]);
            }
        }
    }
}

/// Every column that is categorical (numeric) in `fitted` is categorical
/// (numeric) in `rows` too.
pub open spec fn same_column_kinds<N>(
    fitted: Seq<Seq<MixedDataValue<N>>>,
    rows: Seq<Seq<MixedDataValue<N>>>,
    width: int,
) -> bool {
    forall|c: int| 0 <= c < width ==> {
        &&& (column_is_categorical(fitted, c) ==> column_is_categorical(rows, c))
        &&& (column_is_numeric(fitted, c) ==> column_is_numeric(rows, c))
    }
}

proof fn lemma_encoded_widths<N>(
    columns: Seq<Seq<char>>,
    fitted: Seq<Seq<MixedDataValue<N>>>,
    rows: Seq<Seq<MixedDataValue<N>>>,
    row: Seq<MixedDataValue<N>>,
    off: N,
    on: N,
    k: int,
)
    requires
        columns.no_duplicates(),
        fitted.len() > 0,
        forall|i: int| 0 <= i < fitted.len() ==> (#[trigger] fitted[i]).len() == columns.len(),
        columns_have_kinds(fitted, columns.len() as int),
        same_column_kinds(fitted, rows, columns.len() as int),
        rows.contains(row),
        row.len() == columns.len(),
        0 <= k <= columns.len(),
    ensures
        encoded_names(fitted_map(columns, fitted), columns.subrange(0, k)).len()
            == numeric_count(fitted, k) + category_total(fitted, k),
        encode_row(fitted_map(columns, fitted), columns, row.subrange(0, k), off, on).len()
            == numeric_count(fitted, k) + category_total(fitted, k),
    decreases k,
{
    if k > 0 {
        lemma_encoded_widths(columns, fitted, rows, row, off, on, k - 1);
        let c = k - 1;
        assert(columns.subrange(0, k).drop_last() =~= columns.subrange(0, c));
        assert(row.subrange(0, k).drop_last() =~= row.subrange(0, c));
        lemma_fitted_lookup(columns, fitted, columns.len() as int, c);
        let ri = choose|i: int| 0 <= i < rows.len() && rows[i] == row;
        if column_is_numeric(fitted, c) {
            lemma_numeric_column_no_categories(fitted, c);
            assert(rows[ri][c] is Numeric);
            assert(!column_is_categorical(fitted, c)) by {
                assert(fitted[0][c] is Numeric);
            }
        } else {
            lemma_categorical_column_has_categories(fitted, c);
            assert(rows[ri][c] is Categorical);
        }
    }
}

/// One-hot column count: for an encoder fit on a dataset with distinct column
/// names and at least one row, each of whose columns holds only numbers or
/// only categories, the output has one column per numeric column plus one per
/// category of each categorical column; and every row of any dataset with the
/// same columns, typed alike, encodes to exactly that many values.
pub proof fn lemma_one_hot_width<N>(
    columns: Seq<Seq<char>>,
    fitted: Seq<Seq<MixedDataValue<N>>>,
    rows: Seq<Seq<MixedDataValue<N>>>,
    off: N,
    on: N,
)
    requires
        columns.no_duplicates(),
        fitted.len() > 0,
        forall|i: int| 0 <= i < fitted.len() ==> (#[trigger] fitted[i]).len() == columns.len(),
        columns_have_kinds(fitted, columns.len() as int),
        forall|i: int| 0 <= i < rows.len() ==> (#[trigger] rows[i]).len() == columns.len(),
        same_column_kinds(fitted, rows, columns.len() as int),
    ensures
        encoded_names(fitted_map(columns, fitted), columns).len()
            == numeric_count(fitted, columns.len() as int) + category_total(fitted, columns.len() as int),
        rows_match_names(fitted_map(columns, fitted), columns, rows, off, on),
{
    let n = columns.len() as int;
    assert(columns.subrange(0, n) =~= columns);
    assert(fitted.contains(fitted[0]));
    assert(same_column_kinds(fitted, fitted, n));
    lemma_encoded_widths(columns, fitted, fitted, fitted[0], off, on, n);
    assert forall|i: int| 0 <= i < rows.len() implies
        (#[trigger] encode_row(fitted_map(columns, fitted), columns, rows[i], off, on)).len()
            == encoded_names(fitted_map(columns, fitted), columns).len() by {
        assert(rows.contains(rows[i]));
        lemma_encoded_widths(columns, fitted, rows, rows[i], off, on, n);
        assert(rows[i].subrange(0, n) =~= rows[i]);
    }
}

proof fn lemma_fitted_categories_distinct<N>(columns: Seq<Seq<char>>, rows: Seq<Seq<MixedDataValue<N>>>, k: int)
    ensures
        forall|e: int| 0 <= e < fitted_map_upto(columns, rows, k).len()
            ==> (#[trigger] fitted_map_upto(columns, rows, k)[e]).1.no_duplicates(),
    decreases k,
{
    if k > 0 {
        lemma_fitted_categories_distinct(columns, rows, k - 1);
        lemma_distinct_in_order(categorical_cells(rows, k - 1));
        let before = fitted_map_upto(columns, rows, k - 1);
        let m = fitted_map_upto(columns, rows, k);
        assert forall|e: int| 0 <= e < m.len() implies (#[trigger] m[e]).1.no_duplicates() by {
            if e < before.len() {
                assert(m[e] == before[e]);
            }
        }
    }
}

/// One-hot indicator blocks: where the fitted map encodes column `name`, the
/// block for a value seen at fit time is `on` at exactly one position, that
/// category's index, and `off` elsewhere; the block for an unseen value is
/// `off` throughout.
pub proof fn lemma_one_hot_block<N>(
    columns: Seq<Seq<char>>,
    rows: Seq<Seq<MixedDataValue<N>>>,
    name: Seq<char>,
    v: Seq<char>,
    off: N,
    on: N,
)
    requires
        categories_for(fitted_map(columns, rows), name) is Some,
    ensures
        categories_for(fitted_map(columns, rows), name) matches Some(cats) && {
            &&& cats.contains(v) ==> exists|k: int| 0 <= k < cats.len() && cats[k] == v
                && forall|q: int| 0 <= q < cats.len()
                    ==> #[trigger] indicator_block(cats, v, off, on)[q] == if q == k { on } else { off }
            &&& !cats.contains(v) ==> forall|q: int| 0 <= q < cats.len()
                    ==> #[trigger] indicator_block(cats, v, off, on)[q] == off
        },
{
    let m = fitted_map(columns, rows);
    let i = choose|i: int| entry_position(m, name, i);
    lemma_categories_for_entry(m, name, i);
    lemma_fitted_categories_distinct(columns, rows, columns.len() as int);
    let cats = m[i].1;
    assert(cats.no_duplicates());
    if cats.contains(v) {
        let k = choose|k: int| 0 <= k < cats.len() && cats[k] == v;
        assert forall|q: int| 0 <= q < cats.len()
            implies #[trigger] indicator_block(cats, v, off, on)[q] == if q == k { on } else { off } by {
            if q != k && cats[q] == v {
                assert(cats[q] == cats[k]);
            }
        }
    } else {
        assert forall|q: int| 0 <= q < cats.len() implies #[trigger] indicator_block(cats, v, off, on)[q] == off by {
            assert(cats[q] != v);
        }
    }
}

proof fn lemma_encode_row_prefix<N>(
    map: CategoryMap,
    columns: Seq<Seq<char>>,
    row: Seq<MixedDataValue<N>>,
    off: N,
    on: N,
    k: int,
)
    requires
        0 <= k <= row.len(),
    ensures
        encode_row(map, columns, row.subrange(0, k), off, on).is_prefix_of(encode_row(map, columns, row, off, on)),
    decreases row.len() - k,
{
    if k < row.len() {
        lemma_encode_row_prefix(map, columns, row, off, on, k + 1);
        assert(row.subrange(0, k + 1).drop_last() =~= row.subrange(0, k));
    } else {
        assert(row.subrange(0, k) =~= row);
    }
}

/// Each cell's encoding sits in its encoded row right after the encodings of
/// the cells before it: cell `c` occupies the positions from the length of
/// the encoded cells `0..c` up to the length of the encoded cells `0..c+1`.
/// With `lemma_one_hot_block`, this places each indicator block in the row.
pub proof fn lemma_cell_position<N>(
    map: CategoryMap,
    columns: Seq<Seq<char>>,
    row: Seq<MixedDataValue<N>>,
    off: N,
    on: N,
    c: int,
)
    requires
        0 <= c < row.len(),
    ensures
        encode_row(map, columns, row.subrange(0, c + 1), off, on)
            == encode_row(map, columns, row.subrange(0, c), off, on)
                + encode_cell(map, columns[c], row[c], off, on),
        encode_row(map, columns, row, off, on).subrange(
            encode_row(map, columns, row.subrange(0, c), off, on).len() as int,
            encode_row(map, columns, row.subrange(0, c + 1), off, on).len() as int,
        ) == encode_cell(map, columns[c], row[c], off, on),
{
    let before = encode_row(map, columns, row.subrange(0, c), off, on);
    let upto = encode_row(map, columns, row.subrange(0, c + 1), off, on);
    let full = encode_row(map, columns, row, off, on);
    let cell = encode_cell(map, columns[c], row[c], off, on);
    assert(row.subrange(0, c + 1).drop_last() =~= row.subrange(0, c));
    assert(row.subrange(0, c + 1).last() == row[c]);
    assert(upto == before + cell);
    lemma_encode_row_prefix(map, columns, row, off, on, c + 1);
    assert(full.subrange(before.len() as int, upto.len() as int) =~= cell) by {
        assert forall|q: int| 0 <= q < cell.len() implies full[before.len() + q] == cell[q] by {
            assert(full[before.len() + q] == upto[before.len() + q]);
        }
    }
}

} // verus!
