//! Building datasets from a header row and data rows of text cells, and from
//! CSV text.

use vstd::prelude::*;
use crate::base::error::{Error, ErrorKind};
use crate::dataset::{rows_have_width, strings_view, Dataset, MixedDataValue, MixedDataset};
use crate::linalg::{all_rows_len, Matrix};
use crate::dataset::csv_reader::{csv_error_text, csv_table, read_csv, records_view};

verus! {

/// The cells of `row` that lie under a header other than `name`, in order.
pub open spec fn feature_cells<T>(headers: Seq<Seq<char>>, row: Seq<T>, name: Seq<char>) -> Seq<T>
    decreases row.len(),
{
    if row.len() == 0 {
        Seq::empty()
    } else {
        let before = feature_cells(headers, row.drop_last(), name);
        if headers[row.len() - 1] != name {
            before.push(row.last())
        } else {
            before
        }
    }
}

/// `t` is the first column whose header is `name`.
pub open spec fn first_position(headers: Seq<Seq<char>>, name: Seq<char>, t: int) -> bool {
    &&& 0 <= t < headers.len()
    &&& headers[t] == name
    &&& forall|j: int| 0 <= j < t ==> headers[j] != name
}

/// The first column whose header is `name` (meaningful when there is one).
pub open spec fn target_position(headers: Seq<Seq<char>>, name: Seq<char>) -> int {
    choose|t: int| first_position(headers, name, t)
}

/// The header holds `name`, there is at least one record, and every record
/// has one cell per header.
pub open spec fn table_well_shaped(
    headers: Seq<Seq<char>>,
    records: Seq<Vec<String>>,
    name: Seq<char>,
) -> bool {
    &&& headers.contains(name)
    &&& records.len() > 0
    &&& rows_have_width(records, headers.len())
}

/// The headers other than `name`, in order.
pub open spec fn without_target(headers: Seq<Seq<char>>, name: Seq<char>) -> Seq<Seq<char>> {
    headers.filter(|h: Seq<char>| h != name)
}

proof fn lemma_first_position_unique(headers: Seq<Seq<char>>, name: Seq<char>, t: int)
    requires
        first_position(headers, name, t),
    ensures
        target_position(headers, name) == t,
{
    let c = target_position(headers, name);
    assert(first_position(headers, name, c));
    if c < t {
        assert(headers[c] != name);
    } else if t < c {
        assert(headers[t] != name);
    }
}

proof fn lemma_feature_cells_len<A, B>(headers: Seq<Seq<char>>, a: Seq<A>, b: Seq<B>, name: Seq<char>)
    requires
        a.len() == b.len(),
        a.len() <= headers.len(),
    ensures
        feature_cells(headers, a, name).len() == feature_cells(headers, b, name).len(),
    decreases a.len(),
{
    if a.len() > 0 {
        lemma_feature_cells_len(headers, a.drop_last(), b.drop_last(), name);
    }
}

proof fn lemma_feature_cells_step<T>(headers: Seq<Seq<char>>, row: Seq<T>, name: Seq<char>, j: int)
    requires
        0 <= j < row.len(),
    ensures
        feature_cells(headers, row.subrange(0, j + 1), name) == if headers[j] != name {
            feature_cells(headers, row.subrange(0, j), name).push(row[j])
        } else {
            feature_cells(headers, row.subrange(0, j), name)
        },
{
    assert(row.subrange(0, j + 1).drop_last() =~= row.subrange(0, j));
}

proof fn lemma_features_exclude_name(headers: Seq<Seq<char>>, name: Seq<char>, k: int)
    requires
        0 <= k <= headers.len(),
    ensures
        !feature_cells(headers, headers.subrange(0, k), name).contains(name),
    decreases k,
{
    if k > 0 {
        lemma_features_exclude_name(headers, name, k - 1);
        lemma_feature_cells_step(headers, headers, name, k - 1);
        let before = feature_cells(headers, headers.subrange(0, k - 1), name);
        let after = feature_cells(headers, headers.subrange(0, k), name);
        if after.contains(name) {
            let q = choose|q: int| 0 <= q < after.len() && after[q] == name;
            if q < before.len() {
                assert(before[q] == name);
            }
        }
    }
}

proof fn lemma_header_cells_filter(headers: Seq<Seq<char>>, name: Seq<char>, k: int)
    requires
        0 <= k <= headers.len(),
    ensures
        feature_cells(headers, headers.subrange(0, k), name) == without_target(headers.subrange(0, k), name),
    decreases k,
{
    if k > 0 {
        lemma_header_cells_filter(headers, name, k - 1);
        lemma_feature_cells_step(headers, headers, name, k - 1);
        assert(headers.subrange(0, k).drop_last() =~= headers.subrange(0, k - 1));
        reveal_with_fuel(Seq::filter, 1);
    }
}

/// Finds the first column whose header is `target_column`.
pub fn find_target_column(headers: &Vec<String>, target_column: &str) -> (r: Result<usize, Error>)
    ensures
        match r {
            Ok(t) => first_position(strings_view(headers@), target_column@, t as int),
            Err(e) => {
                &&& !strings_view(headers@).contains(target_column@)
                &&& e.spec_kind() == ErrorKind::InvalidData
            },
        },
{
    let name = target_column.to_owned();
    let mut j: usize = 0;
    while j < headers.len()
        invariant
            name@ == target_column@,
            j <= headers@.len(),
            forall|k: int| 0 <= k < j ==> strings_view(headers@)[k] != target_column@,
        decreases headers@.len() - j,
    {
        if headers[j] == name {
            return Ok(j);
        }
        j = j + 1;
    }
    proof {
        if strings_view(headers@).contains(target_column@) {
            let k = choose|k: int| 0 <= k < strings_view(headers@).len() && strings_view(headers@)[k] == target_column@;
            assert(strings_view(headers@)[k] != target_column@);
        }
    }
    Err(Error::new(ErrorKind::InvalidData, "target column not found in the header row"))
}

/// The names of the columns other than `target_column`, in header order.
fn feature_names(headers: &Vec<String>, target_column: &str) -> (r: Vec<String>)
    ensures
        strings_view(r@) == without_target(strings_view(headers@), target_column@),
        strings_view(r@) == feature_cells(strings_view(headers@), strings_view(headers@), target_column@),
        !strings_view(r@).contains(target_column@),
{
    let ghost h = strings_view(headers@);
    let name = target_column.to_owned();
    let mut names: Vec<String> = Vec::new();
    let mut j: usize = 0;
    while j < headers.len()
        invariant
            name@ == target_column@,
            h == strings_view(headers@),
            j <= headers@.len(),
            strings_view(names@) == feature_cells(h, h.subrange(0, j as int), target_column@),
        decreases headers@.len() - j,
    {
        proof {
            lemma_feature_cells_step(h, h, target_column@, j as int);
        }
        if headers[j] != name {
            names.push(headers[j].clone());
            assert(strings_view(names@) =~= feature_cells(h, h.subrange(0, j as int), target_column@).push(h[j as int]));
        }
        j = j + 1;
    }
    proof {
        assert(h.subrange(0, h.len() as int) =~= h);
        lemma_header_cells_filter(h, target_column@, h.len() as int);
        lemma_features_exclude_name(h, target_column@, h.len() as int);
    }
    names
}


/// What a dataset built from `headers` and `records` holds: the columns other
/// than `name` as features, in header order, one row per record, each feature
/// cell parsed by `pf` and each target cell (the first column named `name`)
/// parsed by `pt`.
pub open spec fn parsed_dataset<N, Y, P: Fn(&String) -> Option<N>, Q: Fn(&String) -> Option<Y>>(
    d: Dataset<N, Y>,
    headers: Seq<Seq<char>>,
    records: Seq<Vec<String>>,
    name: Seq<char>,
    pf: P,
    pt: Q,
) -> bool {
    let t = target_position(headers, name);
    &&& d.spec_data_columns() == without_target(headers, name)
    &&& d.spec_target_column() == name
    &&& d.spec_data().spec_rows() == records.len()
    &&& d.spec_data().spec_cols() == without_target(headers, name).len()
    &&& forall|i: int| 0 <= i < records.len() ==>
            call_ensures(pt, (&(#[trigger] records[i])@[t],), Some(d.spec_target()[i]))
    &&& forall|i: int, p: int| 0 <= i < records.len() && 0 <= p < without_target(headers, name).len() ==>
            call_ensures(pf, (&feature_cells(headers, records[i]@, name)[p],),
                Some(#[trigger] d.spec_data().spec_row_seq()[i][p]))
}

/// Some cell of a record did not parse: its target cell under `pt`, or one of
/// its feature cells under `pf`.
pub open spec fn some_cell_unparsed<N, Y, P: Fn(&String) -> Option<N>, Q: Fn(&String) -> Option<Y>>(
    headers: Seq<Seq<char>>,
    records: Seq<Vec<String>>,
    name: Seq<char>,
    pf: P,
    pt: Q,
) -> bool {
    exists|i: int| 0 <= i < records.len() && {
        ||| call_ensures(pt, (&(#[trigger] records[i])@[target_position(headers, name)],), None)
        ||| exists|p: int| 0 <= p < feature_cells(headers, records[i]@, name).len()
                && call_ensures(pf, (&#[trigger] feature_cells(headers, records[i]@, name)[p],), None)
    }
}

/// Parses the feature cells of `record` (those not under `name`) with `parse`.
fn parse_feature_row<N, P: Fn(&String) -> Option<N>>(
    headers: &Vec<String>,
    record: &Vec<String>,
    name: &String,
    parse: &P,
) -> (r: Option<Vec<N>>)
    requires
        record@.len() == headers@.len(),
        forall|s: &String| parse.requires((s,)),
    ensures
        match r {
            Some(row) => {
                let cells = feature_cells(strings_view(headers@), record@, name@);
                &&& row@.len() == cells.len()
                &&& forall|p: int| 0 <= p < cells.len() ==> call_ensures(*parse, (&cells[p],), Some(#[trigger] row@[p]))
            },
            None => exists|p: int| 0 <= p < feature_cells(strings_view(headers@), record@, name@).len()
                && call_ensures(*parse, (&#[trigger] feature_cells(strings_view(headers@), record@, name@)[p],), None),
        },
{
    let ghost h = strings_view(headers@);
    let mut row: Vec<N> = Vec::new();
    let mut j: usize = 0;
    while j < record.len()
        invariant
            h == strings_view(headers@),
            record@.len() == headers@.len(),
            forall|s: &String| parse.requires((s,)),
            j <= record@.len(),
            row@.len() == feature_cells(h, record@.subrange(0, j as int), name@).len(),
            forall|p: int| 0 <= p < row@.len() ==> call_ensures(*parse,
                (&feature_cells(h, record@.subrange(0, j as int), name@)[p],), Some(#[trigger] row@[p])),
        decreases record@.len() - j,
    {
        proof {
            lemma_feature_cells_step(h, record@, name@, j as int);
        }
        if headers[j] != *name {
            match parse(&record[j]) {
                Some(v) => {
                    row.push(v);
                },
                None => {
                    proof {
                        let cells = feature_cells(h, record@, name@);
                        let p = row@.len() as int;
                        lemma_feature_cells_prefix(h, record@, name@, j + 1);
                        assert(cells[p] == record@[j as int]);
                    }
                    return None;
                },
            }
        }
        j = j + 1;
    }
    proof {
        assert(record@.subrange(0, record@.len() as int) =~= record@);
    }
    Some(row)
}

proof fn lemma_feature_cells_prefix<T>(headers: Seq<Seq<char>>, row: Seq<T>, name: Seq<char>, k: int)
    requires
        0 <= k <= row.len(),
    ensures
        feature_cells(headers, row.subrange(0, k), name).len() <= feature_cells(headers, row, name).len(),
        forall|p: int| 0 <= p < feature_cells(headers, row.subrange(0, k), name).len()
            ==> feature_cells(headers, row.subrange(0, k), name)[p] == #[trigger] feature_cells(headers, row, name)[p],
    decreases row.len() - k,
{
    if k < row.len() {
        lemma_feature_cells_prefix(headers, row, name, k + 1);
        lemma_feature_cells_step(headers, row, name, k);
    } else {
        assert(row.subrange(0, k) =~= row);
    }
}

impl<N, Y> Dataset<N, Y> {
    /// Builds a dataset from a header row and data rows of text cells. The
    /// column named `target_column` (its first occurrence) gives the target,
    /// parsed by `parse_target`; every other column is a feature, parsed by
    /// `parse_feature`. Fails with `InvalidData` when the header lacks the
    /// target column, when there are no data rows, when a row's length differs
    /// from the header's, or when a cell does not parse.
    pub fn from_records<P, Q>(
        headers: &Vec<String>,
        records: &Vec<Vec<String>>,
        target_column: &str,
        parse_feature: &P,
        parse_target: &Q,
    ) -> (r: Result<Dataset<N, Y>, Error>)
        where
            P: Fn(&String) -> Option<N>,
            Q: Fn(&String) -> Option<Y>,
        requires
            forall|s: &String| parse_feature.requires((s,)),
            forall|s: &String| parse_target.requires((s,)),
        ensures
            !table_well_shaped(strings_view(headers@), records@, target_column@) ==> r is Err,
            match r {
                Ok(d) => parsed_dataset(d, strings_view(headers@), records@, target_column@, *parse_feature, *parse_target),
                Err(e) => {
                    &&& e.spec_kind() == ErrorKind::InvalidData
                    &&& table_well_shaped(strings_view(headers@), records@, target_column@)
                        ==> some_cell_unparsed(strings_view(headers@), records@, target_column@, *parse_feature, *parse_target)
                },
            },
    {
        let ghost h = strings_view(headers@);
        let ghost name = target_column@;
        let t = match find_target_column(headers, target_column) {
            Ok(t) => t,
            Err(e) => {
                return Err(e);
            },
        };
        proof {
            lemma_first_position_unique(h, name, t as int);
            assert(h.contains(name));
        }
        if records.len() == 0 {
            return Err(Error::new(ErrorKind::InvalidData, "no data rows"));
        }
        let columns = feature_names(headers, target_column);
        let width = columns.len();
        let target_name = target_column.to_owned();
        let mut rows: Vec<Vec<N>> = Vec::new();
        let mut target: Vec<Y> = Vec::new();
        let mut i: usize = 0;
        while i < records.len()
            invariant
                h == strings_view(headers@),
                name == target_column@,
                target_name@ == name,
                first_position(h, name, t as int),
                t == target_position(h, name),
                strings_view(columns@) == without_target(h, name),
                strings_view(columns@) == feature_cells(h, h, name),
                width == columns@.len(),
                forall|s: &String| parse_feature.requires((s,)),
                forall|s: &String| parse_target.requires((s,)),
                i <= records@.len(),
                rows@.len() == i,
                target@.len() == i,
                rows_have_width(records@.subrange(0, i as int), headers@.len()),
                all_rows_len(rows@.map_values(|row: Vec<N>| row@), width as nat),
                forall|k: int| 0 <= k < i ==>
                    call_ensures(*parse_target, (&(#[trigger] records@[k])@[t as int],), Some(target@[k])),
                forall|k: int, p: int| 0 <= k < i && 0 <= p < width ==>
                    call_ensures(*parse_feature, (&feature_cells(h, records@[k]@, name)[p],),
                        Some(#[trigger] rows@[k]@[p])),
            decreases records@.len() - i,
        {
            let record = &records[i];
            if record.len() != headers.len() {
                return Err(Error::new(ErrorKind::InvalidData, "a data row's length differs from the header row's"));
            }
            let y = match parse_target(&record[t]) {
                Some(y) => y,
                None => {
                    return Err(Error::new(ErrorKind::InvalidData, "a target value does not parse"));
                },
            };
            let row = match parse_feature_row(headers, record, &target_name, parse_feature) {
                Some(row) => row,
                None => {
                    return Err(Error::new(ErrorKind::InvalidData, "a feature value does not parse"));
                },
            };
            proof {
                lemma_feature_cells_len(h, record@, h, name);
            }
            let ghost before = rows@;
            rows.push(row);
            target.push(y);
            proof {
                assert(records@.subrange(0, i + 1) =~= records@.subrange(0, i as int).push(records@[i as int]));
                assert(rows_have_width(records@.subrange(0, i + 1), headers@.len()));
                let views = rows@.map_values(|row: Vec<N>| row@);
                assert forall|k: int| 0 <= k < views.len() implies (#[trigger] views[k]).len() == width by {
                    assert(views[k] == rows@[k]@);
                    if k < i {
                        assert(rows@[k] == before[k]);
                        assert(before.map_values(|row: Vec<N>| row@)[k] == before[k]@);
                    }
                }
            }
            i = i + 1;
        }
        proof {
            assert(records@.subrange(0, i as int) =~= records@);
        }
        let data = Matrix::from_rows(rows, width);
        let r = Dataset::new(data, target, columns, target_name);
        Ok(r)
    }
}

/// `out` is what a mixed dataset holds for `cell`, a cell under `header`: a
/// number parsed by `pn` when `header` is one of `numeric`, else the cell's
/// text as a category.
pub open spec fn mixed_cell<N, P: Fn(&String) -> Option<N>>(
    numeric: Seq<Seq<char>>,
    header: Seq<char>,
    cell: String,
    pn: P,
    out: MixedDataValue<N>,
) -> bool {
    if numeric.contains(header) {
        out matches MixedDataValue::Numeric(v) && call_ensures(pn, (&cell,), Some(v))
    } else {
        out == MixedDataValue::<N>::Categorical(cell)
    }
}

/// What a mixed dataset built from `headers` and `records` holds: the columns
/// other than `name` as features, in header order, one row per record, each
/// cell as `mixed_cell` says, and each target cell parsed by `pt`.
pub open spec fn parsed_mixed_dataset<N, Y, P: Fn(&String) -> Option<N>, Q: Fn(&String) -> Option<Y>>(
    d: MixedDataset<N, Y>,
    headers: Seq<Seq<char>>,
    records: Seq<Vec<String>>,
    name: Seq<char>,
    numeric: Seq<Seq<char>>,
    pn: P,
    pt: Q,
) -> bool {
    let t = target_position(headers, name);
    &&& d.spec_data_columns() == without_target(headers, name)
    &&& d.spec_target_column() == name
    &&& d.spec_data().len() == records.len()
    &&& forall|i: int| 0 <= i < records.len() ==>
            call_ensures(pt, (&(#[trigger] records[i])@[t],), Some(d.spec_target()[i]))
    &&& forall|i: int, p: int| 0 <= i < records.len() && 0 <= p < without_target(headers, name).len() ==>
            mixed_cell(numeric, without_target(headers, name)[p], feature_cells(headers, records[i]@, name)[p],
                pn, #[trigger] d.spec_data()[i][p])
}

/// Some cell of a record did not parse: its target cell under `pt`, or one of
/// its cells in a numeric column under `pn`.
pub open spec fn some_mixed_cell_unparsed<N, Y, P: Fn(&String) -> Option<N>, Q: Fn(&String) -> Option<Y>>(
    headers: Seq<Seq<char>>,
    records: Seq<Vec<String>>,
    name: Seq<char>,
    numeric: Seq<Seq<char>>,
    pn: P,
    pt: Q,
) -> bool {
    exists|i: int| 0 <= i < records.len() && {
        ||| call_ensures(pt, (&(#[trigger] records[i])@[target_position(headers, name)],), None)
        ||| exists|p: int| 0 <= p < feature_cells(headers, records[i]@, name).len()
                && numeric.contains(without_target(headers, name)[p])
                && call_ensures(pn, (&#[trigger] feature_cells(headers, records[i]@, name)[p],), None)
    }
}

/// Whether `name` is one of `names`.
fn contains_name(names: &Vec<String>, name: &String) -> (r: bool)
    ensures
        r == strings_view(names@).contains(name@),
{
    let mut j: usize = 0;
    while j < names.len()
        invariant
            j <= names@.len(),
            forall|k: int| 0 <= k < j ==> strings_view(names@)[k] != name@,
        decreases names@.len() - j,
    {
        if names[j] == *name {
            assert(strings_view(names@)[j as int] == name@);
            return true;
        }
        j = j + 1;
    }
    proof {
        if strings_view(names@).contains(name@) {
            let k = choose|k: int| 0 <= k < strings_view(names@).len() && strings_view(names@)[k] == name@;
            assert(strings_view(names@)[k] != name@);
        }
    }
    false
}

/// Turns the cells of `record` not under `name` into mixed values: numbers
/// parsed by `parse` where the header is one of `numeric`, else categories.
fn parse_mixed_row<N, P: Fn(&String) -> Option<N>>(
    headers: &Vec<String>,
    record: &Vec<String>,
    name: &String,
    numeric: &Vec<String>,
    parse: &P,
) -> (r: Option<Vec<MixedDataValue<N>>>)
    requires
        record@.len() == headers@.len(),
        forall|s: &String| parse.requires((s,)),
    ensures
        match r {
            Some(row) => {
                let h = strings_view(headers@);
                let cells = feature_cells(h, record@, name@);
                &&& row@.len() == cells.len()
                &&& forall|p: int| 0 <= p < cells.len() ==> mixed_cell(strings_view(numeric@),
                        without_target(h, name@)[p], cells[p], *parse, #[trigger] row@[p])
            },
            None => exists|p: int| 0 <= p < feature_cells(strings_view(headers@), record@, name@).len()
                && strings_view(numeric@).contains(without_target(strings_view(headers@), name@)[p])
                && call_ensures(*parse, (&#[trigger] feature_cells(strings_view(headers@), record@, name@)[p],), None),
        },
{
    let ghost h = strings_view(headers@);
    let ghost num = strings_view(numeric@);
    let mut row: Vec<MixedDataValue<N>> = Vec::new();
    let mut j: usize = 0;
    while j < record.len()
        invariant
            h == strings_view(headers@),
            num == strings_view(numeric@),
            record@.len() == headers@.len(),
            forall|s: &String| parse.requires((s,)),
            j <= record@.len(),
            row@.len() == feature_cells(h, record@.subrange(0, j as int), name@).len(),
            row@.len() == feature_cells(h, h.subrange(0, j as int), name@).len(),
            forall|p: int| 0 <= p < row@.len() ==> mixed_cell(num,
                feature_cells(h, h.subrange(0, j as int), name@)[p],
                feature_cells(h, record@.subrange(0, j as int), name@)[p], *parse, #[trigger] row@[p]),
        decreases record@.len() - j,
    {
        proof {
            lemma_feature_cells_step(h, record@, name@, j as int);
            lemma_feature_cells_step(h, h, name@, j as int);
        }
        if headers[j] != *name {
            if contains_name(numeric, &headers[j]) {
                match parse(&record[j]) {
                    Some(v) => {
                        row.push(MixedDataValue::Numeric(v));
                    },
                    None => {
                        proof {
                            let p = row@.len() as int;
                            lemma_feature_cells_prefix(h, record@, name@, j + 1);
                            lemma_feature_cells_prefix(h, h, name@, j + 1);
                            lemma_header_cells_filter(h, name@, h.len() as int);
                            assert(h.subrange(0, h.len() as int) =~= h);
                            let cells = feature_cells(h, record@, name@);
                            assert(feature_cells(h, record@.subrange(0, j + 1), name@)[p] == record@[j as int]);
                            assert(feature_cells(h, h.subrange(0, j + 1), name@)[p] == h[j as int]);
                            assert(cells[p] == record@[j as int]);
                            assert(without_target(h, name@)[p] == h[j as int]);
                            assert(headers@[j as int]@ == h[j as int]);
                            assert(num.contains(without_target(h, name@)[p]));
                        }
                        return None;
                    },
                }
            } else {
                row.push(MixedDataValue::Categorical(record[j].clone()));
            }
        }
        j = j + 1;
    }
    proof {
        assert(record@.subrange(0, record@.len() as int) =~= record@);
        assert(h.subrange(0, h.len() as int) =~= h);
        lemma_header_cells_filter(h, name@, h.len() as int);
    }
    Some(row)
}

impl<N, Y> MixedDataset<N, Y> {
    /// Builds a mixed dataset from a header row and data rows of text cells.
    /// The column named `target_column` (its first occurrence) gives the
    /// target, parsed by `parse_target`; a column whose header is one of
    /// `numeric_columns` holds numbers, parsed by `parse_numeric`; every other
    /// column holds categories. Fails with `InvalidData` when the header lacks
    /// the target column, when there are no data rows, when a row's length
    /// differs from the header's, or when a cell does not parse.
    pub fn from_records<P, Q>(
        headers: &Vec<String>,
        records: &Vec<Vec<String>>,
        target_column: &str,
        numeric_columns: &Vec<String>,
        parse_numeric: &P,
        parse_target: &Q,
    ) -> (r: Result<MixedDataset<N, Y>, Error>)
        where
            P: Fn(&String) -> Option<N>,
            Q: Fn(&String) -> Option<Y>,
        requires
            forall|s: &String| parse_numeric.requires((s,)),
            forall|s: &String| parse_target.requires((s,)),
        ensures
            !table_well_shaped(strings_view(headers@), records@, target_column@) ==> r is Err,
            match r {
                Ok(d) => parsed_mixed_dataset(d, strings_view(headers@), records@, target_column@,
                    strings_view(numeric_columns@), *parse_numeric, *parse_target),
                Err(e) => {
                    &&& e.spec_kind() == ErrorKind::InvalidData
                    &&& table_well_shaped(strings_view(headers@), records@, target_column@)
                        ==> some_mixed_cell_unparsed(strings_view(headers@), records@, target_column@,
                            strings_view(numeric_columns@), *parse_numeric, *parse_target)
                },
            },
    {
        let ghost h = strings_view(headers@);
        let ghost name = target_column@;
        let ghost num = strings_view(numeric_columns@);
        let t = match find_target_column(headers, target_column) {
            Ok(t) => t,
            Err(e) => {
                return Err(e);
            },
        };
        proof {
            lemma_first_position_unique(h, name, t as int);
            assert(h.contains(name));
        }
        if records.len() == 0 {
            return Err(Error::new(ErrorKind::InvalidData, "no data rows"));
        }
        let columns = feature_names(headers, target_column);
        let width = columns.len();
        let target_name = target_column.to_owned();
        let mut rows: Vec<Vec<MixedDataValue<N>>> = Vec::new();
        let mut target: Vec<Y> = Vec::new();
        let mut i: usize = 0;
        while i < records.len()
            invariant
                h == strings_view(headers@),
                name == target_column@,
                num == strings_view(numeric_columns@),
                target_name@ == name,
                first_position(h, name, t as int),
                t == target_position(h, name),
                strings_view(columns@) == without_target(h, name),
                strings_view(columns@) == feature_cells(h, h, name),
                width == columns@.len(),
                forall|s: &String| parse_numeric.requires((s,)),
                forall|s: &String| parse_target.requires((s,)),
                i <= records@.len(),
                rows@.len() == i,
                target@.len() == i,
                rows_have_width(records@.subrange(0, i as int), headers@.len()),
                rows_have_width(rows@, width as nat),
                forall|k: int| 0 <= k < i ==>
                    call_ensures(*parse_target, (&(#[trigger] records@[k])@[t as int],), Some(target@[k])),
                forall|k: int, p: int| 0 <= k < i && 0 <= p < width ==>
                    mixed_cell(num, without_target(h, name)[p], feature_cells(h, records@[k]@, name)[p],
                        *parse_numeric, #[trigger] rows@[k]@[p]),
            decreases records@.len() - i,
        {
            let record = &records[i];
            if record.len() != headers.len() {
                return Err(Error::new(ErrorKind::InvalidData, "a data row's length differs from the header row's"));
            }
            let y = match parse_target(&record[t]) {
                Some(y) => y,
                None => {
                    return Err(Error::new(ErrorKind::InvalidData, "a target value does not parse"));
                },
            };
            let row = match parse_mixed_row(headers, record, &target_name, numeric_columns, parse_numeric) {
                Some(row) => row,
                None => {
                    return Err(Error::new(ErrorKind::InvalidData, "a numeric value does not parse"));
                },
            };
            proof {
                lemma_feature_cells_len(h, record@, h, name);
            }
            rows.push(row);
            target.push(y);
            proof {
                assert(records@.subrange(0, i + 1) =~= records@.subrange(0, i as int).push(records@[i as int]));
            }
            i = i + 1;
        }
        proof {
            assert(records@.subrange(0, i as int) =~= records@);
        }
        let r = MixedDataset::new(rows, target, columns, target_name);
        Ok(r)
    }
}

impl<N, Y> Dataset<N, Y> {
    /// Builds a dataset from CSV text whose first row is the header row, as
    /// `from_records` does from the rows that the CSV reader yields: it
    /// succeeds where that table is well shaped and every cell parses. Fails
    /// with `InvalidData` where the reader reports an error.
    pub fn from_csv_text<P, Q>(
        text: &[u8],
        target_column: &str,
        parse_feature: &P,
        parse_target: &Q,
    ) -> (r: Result<Dataset<N, Y>, Error>)
        where
            P: Fn(&String) -> Option<N>,
            Q: Fn(&String) -> Option<Y>,
        requires
            forall|s: &String| parse_feature.requires((s,)),
            forall|s: &String| parse_target.requires((s,)),
        ensures
            r matches Err(e) ==> e.spec_kind() == ErrorKind::InvalidData,
            match csv_table(text@) {
                None => r is Err,
                Some((headers, rows)) => {
                    &&& !(headers.contains(target_column@) && rows.len() > 0) ==> r is Err
                    &&& exists|records: Seq<Vec<String>>| records_view(records) == rows && {
                        &&& !table_well_shaped(headers, records, target_column@) ==> r is Err
                        &&& table_well_shaped(headers, records, target_column@)
                            && !some_cell_unparsed(headers, records, target_column@, *parse_feature, *parse_target)
                            ==> r is Ok
                        &&& r matches Ok(d) ==> parsed_dataset(d, headers, records, target_column@,
                            *parse_feature, *parse_target)
                    }
                },
            },
    {
        match read_csv(text) {
            Ok((headers, records)) => {
                let r = Dataset::from_records(&headers, &records, target_column, parse_feature, parse_target);
                assert(records_view(records@) == records_view(records@));
                r
            },
            Err(e) => Err(Error::new(ErrorKind::InvalidData, csv_error_text(&e).as_str())),
        }
    }
}

impl<N, Y> MixedDataset<N, Y> {
    /// Builds a mixed dataset from CSV text whose first row is the header row,
    /// as `from_records` does from the rows that the CSV reader yields: it
    /// succeeds where that table is well shaped and every target cell and
    /// numeric cell parses. Fails with `InvalidData` where the reader reports
    /// an error.
    pub fn from_csv_text<P, Q>(
        text: &[u8],
        target_column: &str,
        numeric_columns: &Vec<String>,
        parse_numeric: &P,
        parse_target: &Q,
    ) -> (r: Result<MixedDataset<N, Y>, Error>)
        where
            P: Fn(&String) -> Option<N>,
            Q: Fn(&String) -> Option<Y>,
        requires
            forall|s: &String| parse_numeric.requires((s,)),
            forall|s: &String| parse_target.requires((s,)),
        ensures
            r matches Err(e) ==> e.spec_kind() == ErrorKind::InvalidData,
            match csv_table(text@) {
                None => r is Err,
                Some((headers, rows)) => {
                    &&& !(headers.contains(target_column@) && rows.len() > 0) ==> r is Err
                    &&& exists|records: Seq<Vec<String>>| records_view(records) == rows && {
                        &&& !table_well_shaped(headers, records, target_column@) ==> r is Err
                        &&& table_well_shaped(headers, records, target_column@)
                            && !some_mixed_cell_unparsed(headers, records, target_column@,
                                strings_view(numeric_columns@), *parse_numeric, *parse_target)
                            ==> r is Ok
                        &&& r matches Ok(d) ==> parsed_mixed_dataset(d, headers, records, target_column@,
                            strings_view(numeric_columns@), *parse_numeric, *parse_target)
                    }
                },
            },
    {
        match read_csv(text) {
            Ok((headers, records)) => {
                let r = MixedDataset::from_records(&headers, &records, target_column, numeric_columns,
                    parse_numeric, parse_target);
                assert(records_view(records@) == records_view(records@));
                r
            },
            Err(e) => Err(Error::new(ErrorKind::InvalidData, csv_error_text(&e).as_str())),
        }
    }
}

} // verus!
