//! The CSV reader that ingestion relies on.

use vstd::prelude::*;
use crate::dataset::strings_view;
use csv::Error as CsvError;

verus! {

#[verifier::external_type_specification]
#[verifier::external_body]
pub struct ExCsvError(CsvError);

/// The header row and the data rows that a CSV reader yields for `text`, or
/// `None` where it reports an error.
pub uninterp spec fn csv_table(text: Seq<u8>) -> Option<(Seq<Seq<char>>, Seq<Seq<Seq<char>>>)>;

/// The views of rows of strings.
pub open spec fn records_view(records: Seq<Vec<String>>) -> Seq<Seq<Seq<char>>> {
    records.map_values(|row: Vec<String>| strings_view(row@))
}

/// Relies on csv's `Reader` (built by `ReaderBuilder` with a header row, the
/// default): its `headers` and its `records` over `text`, each field as a
/// `String`, or the first error it reports.
#[verifier::external_body]
pub(crate) fn read_csv(text: &[u8]) -> (r: Result<(Vec<String>, Vec<Vec<String>>), CsvError>)
    ensures
        match r {
            Ok((headers, records)) => csv_table(text@) == Some((strings_view(headers@), records_view(records@))),
            Err(_) => csv_table(text@) is None,
        },
{
    let mut reader = csv::ReaderBuilder::new().has_headers(true).from_reader(text);
    let headers = reader.headers()?.iter().map(String::from).collect();
    let mut records = Vec::new();
    for record in reader.records() {
        records.push(record?.iter().map(String::from).collect());
    }
    Ok((headers, records))
}

/// Relies on the `Display` of csv's `Error`: its description.
#[verifier::external_body]
pub(crate) fn csv_error_text(e: &CsvError) -> String {
    e.to_string()
}

} // verus!
