use vstd::prelude::*;

use crate::delimiter::{delimiter_outcome, detect_delimiter, DelimiterError};
use crate::frequency::{
    column_of, column_values, first_index, frequency_table, is_frequency_table,
    lemma_first_index_absent, lemma_first_index_bounds, lemma_first_index_is, total_count, Entry,
};
use crate::text::{chars_of, parse_usize, trim, trim_chars, usize_numeral};

verus! {

/// `csv::Error`, what the csv crate reports when it cannot read the text; its
/// contents are not looked at here.
#[verifier::external_type_specification]
#[verifier::external_body]
pub struct ExCsvError(csv::Error);

/// The fields of the header row that `csv::Reader::headers` gives for `data`
/// read with `delimiter` (and the builder's other defaults), or `None` when it
/// reports an error.
pub uninterp spec fn csv_header_fields(data: Seq<u8>, delimiter: u8) -> Option<Seq<Seq<char>>>;

/// The fields of each record that `csv::Reader::records` yields for `data`
/// read with `delimiter` and `has_headers` (and the builder's other defaults),
/// or `None` when it yields an error.
pub uninterp spec fn csv_record_fields(data: Seq<u8>, delimiter: u8, has_headers: bool) -> Option<
    Seq<Seq<Seq<char>>>,
>;

/// `csv::Reader::headers`, on a reader that `csv::ReaderBuilder` builds over
/// `data` with `delimiter`. Claimed: the call succeeds exactly when
/// `csv_header_fields` is defined there, and then gives those fields. What the
/// fields are is not stated; it is the csv crate's parsing.
#[verifier::external_body]
fn read_header_row(data: &[u8], delimiter: u8) -> (r: Result<Vec<String>, csv::Error>)
    ensures
        r is Ok <==> csv_header_fields(data@, delimiter) is Some,
        r matches Ok(header) ==> header.deep_view() == csv_header_fields(data@, delimiter)->0,
{
    let mut reader = csv::ReaderBuilder::new().delimiter(delimiter).from_reader(data);
    match reader.headers() {
        Ok(header) => Ok(header.iter().map(String::from).collect()),
        Err(e) => Err(e),
    }
}

/// `csv::Reader::records`, on a reader that `csv::ReaderBuilder` builds over
/// `data` with `delimiter` and `has_headers`, collected up to the first error.
/// Claimed: the result is `Ok` exactly when `csv_record_fields` is defined
/// there, and then holds those records. What the records are is not stated;
/// it is the csv crate's parsing.
#[verifier::external_body]
fn read_records(data: &[u8], delimiter: u8, has_headers: bool) -> (r: Result<
    Vec<Vec<String>>,
    csv::Error,
>)
    ensures
        r is Ok <==> csv_record_fields(data@, delimiter, has_headers) is Some,
        r matches Ok(rows) ==> rows.deep_view() == csv_record_fields(
            data@,
            delimiter,
            has_headers,
        )->0,
{
    let mut reader = csv::ReaderBuilder::new().has_headers(has_headers).delimiter(
        delimiter,
    ).from_reader(data);
    reader.records().map(|row| row.map(|fields| fields.iter().map(String::from).collect())).collect()
}

/// Why no histogram could be made.
#[derive(Debug)]
pub enum HistogramError {
    /// No delimiter could be detected.
    Delimiter(DelimiterError),
    /// Without a header row, the column must be a 1-based index; this is the
    /// column as it was given.
    InvalidColumnIndex(String),
    /// No header is named `name`; `available` lists the headers.
    ColumnNotFound { name: String, available: Vec<String> },
    /// The delimited text could not be read.
    Csv(csv::Error),
}

/// The column (from 0) that `column` selects in input without a header row:
/// a 1-based index, with surrounding whitespace allowed, or the first column
/// when none is given. `None` when `column` is no such index.
pub open spec fn indexed_column(column: Option<Seq<char>>) -> Option<usize> {
    match column {
        None => Some(0),
        Some(s) => match usize_numeral(trim(s)) {
            Some(i) => if i >= 1 {
                Some((i - 1) as usize)
            } else {
                None
            },
            None => None,
        },
    }
}

/// The column (from 0) named `name` in `header`: the first header equal to it.
pub open spec fn named_column(header: Seq<Seq<char>>, name: Seq<char>) -> Option<usize> {
    if first_index(header, name) < header.len() {
        Some(first_index(header, name) as usize)
    } else {
        None
    }
}

/// The column found by name is the first header equal to the name, and no
/// column is found only when no header equals it.
pub proof fn lemma_named_column_is_first_match(header: Seq<Seq<char>>, name: Seq<char>)
    requires
        header.len() <= usize::MAX,
    ensures
        named_column(header, name) matches Some(col) ==> col < header.len() && header[col as int]
            == name && forall|j: int| 0 <= j < col ==> #[trigger] header[j] != name,
        named_column(header, name) is None ==> forall|j: int|
            0 <= j < header.len() ==> #[trigger] header[j] != name,
{
    lemma_first_index_bounds(header, name);
}

/// The view of an optional string.
pub open spec fn optional_text(s: Option<&str>) -> Option<Seq<char>> {
    match s {
        Some(t) => Some(t@),
        None => None,
    }
}

/// `r` is what tabulating column `col` of the records of `data` gives.
pub open spec fn tabulated(
    r: Result<Vec<Entry>, HistogramError>,
    data: Seq<u8>,
    delimiter: u8,
    has_headers: bool,
    col: usize,
) -> bool {
    match csv_record_fields(data, delimiter, has_headers) {
        None => r matches Err(HistogramError::Csv(_)),
        Some(rows) => r matches Ok(table) && is_frequency_table(
            column_values(rows, col as int),
            table@,
        ) && total_count(table@) == column_values(rows, col as int).len(),
    }
}

/// `r` is what making the histogram gives, for input whose available start is
/// `peek` and whose whole content is `data`.
pub open spec fn histogram_result(
    r: Result<Vec<Entry>, HistogramError>,
    peek: Seq<u8>,
    data: Seq<u8>,
    column: Option<Seq<char>>,
    no_header: bool,
) -> bool {
    match delimiter_outcome(peek) {
        Err(e) => r matches Err(HistogramError::Delimiter(f)) && f == e,
        Ok(d) => {
            let delimiter = d as u8;
            if no_header {
                match indexed_column(column) {
                    None => r matches Err(HistogramError::InvalidColumnIndex(s)) && Some(s@)
                        == column,
                    Some(col) => tabulated(r, data, delimiter, false, col),
                }
            } else {
                match csv_header_fields(data, delimiter) {
                    None => r matches Err(HistogramError::Csv(_)),
                    Some(header) => match column {
                        None => tabulated(r, data, delimiter, true, 0),
                        Some(name) => match named_column(header, name) {
                            Some(col) => tabulated(r, data, delimiter, true, col),
                            None => r matches Err(
                                HistogramError::ColumnNotFound { name: n, available: a },
                            ) && n@ == name && a.deep_view() == header,
                        },
                    },
                }
            }
        },
    }
}

/// The column (from 0) that the 1-based index `column` names, in input without
/// a header row; whitespace around the number is allowed.
pub fn column_by_index(column: &str) -> (r: Result<usize, HistogramError>)
    ensures
        indexed_column(Some(column@)) matches Some(col) ==> r == Ok::<usize, HistogramError>(col),
        indexed_column(Some(column@)) is None ==> (r matches Err(
            HistogramError::InvalidColumnIndex(s),
        ) && s@ == column@),
{
    let chars = chars_of(column);
    let trimmed = trim_chars(&chars);
    match parse_usize(&trimmed) {
        Some(i) => {
            if i >= 1 {
                return Ok(i - 1);
            }
        },
        None => {},
    }
    Err(HistogramError::InvalidColumnIndex(String::from_str(column)))
}

/// The column (from 0) of the first header equal to `name`.
pub fn column_by_name(header: &Vec<String>, name: &str) -> (r: Result<usize, HistogramError>)
    ensures
        named_column(header.deep_view(), name@) matches Some(col) ==> r == Ok::<
            usize,
            HistogramError,
        >(col),
        named_column(header.deep_view(), name@) is None ==> (r matches Err(
            HistogramError::ColumnNotFound { name: n, available: a },
        ) && n@ == name@ && a.deep_view() == header.deep_view()),
        r matches Ok(col) ==> col < header@.len() && header@[col as int]@ == name@ && forall|j: int|
            0 <= j < col ==> #[trigger] header@[j]@ != name@,
        r is Err ==> forall|j: int| 0 <= j < header@.len() ==> #[trigger] header@[j]@ != name@,
{
    let ghost h = header.deep_view();
    let wanted = String::from_str(name);
    let mut i: usize = 0;
    while i < header.len()
        invariant
            i <= header@.len(),
            h == header.deep_view(),
            wanted@ == name@,
            forall|j: int| 0 <= j < i ==> h[j] != name@,
        decreases header@.len() - i,
    {
        if header[i] == wanted {
            proof {
                lemma_first_index_is(h, name@, i as int);
                assert(h[i as int] == header@[i as int]@);
                assert forall|j: int| 0 <= j < i implies #[trigger] header@[j]@ != name@ by {
                    assert(h[j] == header@[j]@);
                }
            }
            return Ok(i);
        }
        assert(h[i as int] == header@[i as int]@);
        i = i + 1;
    }
    proof {
        lemma_first_index_absent(h, name@);
        assert forall|j: int| 0 <= j < header@.len() implies #[trigger] header@[j]@ != name@ by {
            assert(h[j] == header@[j]@);
        }
    }
    let mut available: Vec<String> = Vec::new();
    let mut k: usize = 0;
    while k < header.len()
        invariant
            k <= header@.len(),
            available@.len() == k,
            forall|j: int| 0 <= j < k ==> #[trigger] available@[j] == header@[j],
        decreases header@.len() - k,
    {
        available.push(header[k].clone());
        k = k + 1;
    }
    assert(available.deep_view() =~= header.deep_view());
    Err(HistogramError::ColumnNotFound { name: wanted, available })
}

/// The frequency table of column `col` of `rows`.
pub fn tabulate(rows: &Vec<Vec<String>>, col: usize) -> (table: Vec<Entry>)
    ensures
        is_frequency_table(column_values(rows.deep_view(), col as int), table@),
        total_count(table@) == column_values(rows.deep_view(), col as int).len(),
{
    let values = column_of(rows, col);
    frequency_table(&values)
}

/// Makes the histogram of one column of delimited text: each distinct value
/// of the column with the number of rows that hold it, in the order in which
/// the values first occur. `peek` is the start of the input that is available
/// before any is consumed (the delimiter is detected from it) and `data` the
/// whole input. With a header row, `column` names the column (the first one
/// when `None`); with `no_header`, it is a 1-based index (1 when `None`).
pub fn histogram(peek: &[u8], data: &[u8], column: Option<&str>, no_header: bool) -> (r: Result<
    Vec<Entry>,
    HistogramError,
>)
    ensures
        histogram_result(r, peek@, data@, optional_text(column), no_header),
{
    let delimiter = match detect_delimiter(peek) {
        Ok(d) => d,
        Err(e) => return Err(HistogramError::Delimiter(e)),
    };
    let byte = delimiter as u8;
    let col = if no_header {
        match column {
            Some(s) => match column_by_index(s) {
                Ok(c) => c,
                Err(e) => return Err(e),
            },
            None => 0,
        }
    } else {
        let header = match read_header_row(data, byte) {
            Ok(h) => h,
            Err(e) => return Err(HistogramError::Csv(e)),
        };
        match column {
            Some(name) => match column_by_name(&header, name) {
                Ok(c) => c,
                Err(e) => return Err(e),
            },
            None => 0,
        }
    };
    let rows = match read_records(data, byte, !no_header) {
        Ok(rows) => rows,
        Err(e) => return Err(HistogramError::Csv(e)),
    };
    Ok(tabulate(&rows, col))
}

} // verus!
