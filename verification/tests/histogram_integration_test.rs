use plhistr::delimiter::DelimiterError;
use plhistr::frequency::Entry;
use plhistr::histogram::{histogram, HistogramError};
use plhistr::order::{sort_entries, sort_order};

// The contents that the command-line tests read from files.
const SAMPLE_COMMA: &str = "name,age,city,occupation\n\
Alice,30,New York,Engineer\n\
Bob,25,Los Angeles,Designer\n\
Charlie,35,Chicago,Manager\n\
Alice,28,New York,Engineer\n";

const SAMPLE_PIPE: &str = "product|category|price\n\
Hammer|Tools|12\n\
Laptop|Electronics|999\n\
Lamp|Home|40\n\
Wrench|Tools|15\n";

/// Numeric sort keys for the values, when all of them parse as numbers.
fn numeric_keys(table: &[Entry]) -> Option<Vec<u64>> {
    let mut keys = Vec::new();
    for entry in table {
        let x: f64 = entry.value.trim().parse().ok()?;
        let x = if x == 0.0 { 0.0 } else { x };
        let bits = x.to_bits();
        keys.push(if bits >> 63 == 1 { !bits } else { bits | (1 << 63) });
    }
    Some(keys)
}

/// Makes the histogram of `input` and sorts it as the command does.
fn run(
    input: &str,
    column: Option<&str>,
    no_header: bool,
    sort_index: bool,
) -> Result<Vec<(String, usize)>, HistogramError> {
    let data = input.as_bytes();
    let mut table = histogram(data, data, column, no_header)?;
    let keys = if sort_index { numeric_keys(&table) } else { None };
    let order = sort_order(sort_index, keys);
    sort_entries(&mut table, &order);
    Ok(table.into_iter().map(|e| (e.value, e.count)).collect())
}

fn rows(pairs: &[(&str, usize)]) -> Vec<(String, usize)> {
    pairs.iter().map(|(v, c)| (v.to_string(), *c)).collect()
}

#[test]
fn test_histogram_default_first_column_file() {
    let table = run(SAMPLE_COMMA, None, false, false).unwrap();
    let values: Vec<&str> = table.iter().map(|(v, _)| v.as_str()).collect();
    assert!(values.contains(&"Alice"));
    assert!(values.contains(&"Bob"));
    assert!(values.contains(&"Charlie"));
}

#[test]
fn test_histogram_column_selection() {
    let table = run(SAMPLE_COMMA, Some("city"), false, false).unwrap();
    let values: Vec<&str> = table.iter().map(|(v, _)| v.as_str()).collect();
    assert!(values.contains(&"New York"));
    assert!(values.contains(&"Los Angeles"));
    assert!(values.contains(&"Chicago"));
}

#[test]
fn test_histogram_with_duplicates_via_stdin() {
    let temp_csv = "city\nNew York\nLos Angeles\nNew York\nChicago\nNew York\nLos Angeles\n";
    let table = run(temp_csv, Some("city"), false, false).unwrap();
    assert_eq!(
        table,
        rows(&[("New York", 3), ("Los Angeles", 2), ("Chicago", 1)])
    );
}

#[test]
fn test_histogram_sort_index_alphabetic() {
    let temp_csv = "name\nCharlie\nAlice\nBob\nAlice\nCharlie\nCharlie\n";
    let table = run(temp_csv, Some("name"), false, true).unwrap();
    assert_eq!(table, rows(&[("Alice", 2), ("Bob", 1), ("Charlie", 3)]));
}

#[test]
fn test_histogram_sort_index_numeric() {
    let temp_csv = "value\n30\n10\n25\n30\n10\n10\n";
    let table = run(temp_csv, Some("value"), false, true).unwrap();
    // Sorted numerically: 10, 25, 30 (not lexicographically).
    assert_eq!(table, rows(&[("10", 3), ("25", 1), ("30", 2)]));
}

#[test]
fn test_histogram_pipe_delimited() {
    let table = run(SAMPLE_PIPE, Some("category"), false, false).unwrap();
    assert_eq!(table, rows(&[("Tools", 2), ("Electronics", 1), ("Home", 1)]));
}

#[test]
fn test_histogram_invalid_column() {
    match run(SAMPLE_COMMA, Some("invalid_column"), false, false) {
        Err(HistogramError::ColumnNotFound { name, available }) => {
            assert_eq!(name, "invalid_column");
            assert_eq!(available.join(", "), "name, age, city, occupation");
        }
        other => panic!("expected a missing column, got {:?}", other),
    }
}

#[test]
fn test_histogram_no_header_default_column() {
    let temp_csv = "5\n3\n5\n1\n5\n";
    let table = run(temp_csv, None, true, false).unwrap();
    // 5 appears 3 times and is the most frequent -> first data line.
    assert_eq!(table[0], ("5".to_string(), 3));
    assert_eq!(table, rows(&[("5", 3), ("3", 1), ("1", 1)]));
}

#[test]
fn test_histogram_no_header_column_index() {
    let temp_csv = "30,9\n10,9\n30,8\n";
    let table = run(temp_csv, Some("2"), true, false).unwrap();
    // Second column: 9, 9, 8 -> 9 twice, 8 once.
    assert_eq!(table, rows(&[("9", 2), ("8", 1)]));
}

#[test]
fn test_histogram_no_header_invalid_index() {
    match run("1\n2\n", Some("0"), true, false) {
        Err(HistogramError::InvalidColumnIndex(s)) => assert_eq!(s, "0"),
        other => panic!("expected an invalid column index, got {:?}", other),
    }
}

#[test]
fn test_histogram_single_value() {
    let table = run("value\n42\n", Some("value"), false, false).unwrap();
    assert_eq!(table, rows(&[("42", 1)]));
}

#[test]
fn test_histogram_all_same_value() {
    let table = run("name\nAlice\nAlice\nAlice\n", Some("name"), false, false).unwrap();
    assert_eq!(table, rows(&[("Alice", 3)]));
}

#[test]
fn test_histogram_empty_values_counted() {
    let temp_csv = "name,value\nAlice,A\nBob,\nCharlie,B\nDave,A\nEve,\nFrank,A\n";
    let table = run(temp_csv, Some("value"), false, false).unwrap();
    // A appears 3 times, empty appears 2 times, B appears 1 time.
    assert_eq!(table, rows(&[("A", 3), ("", 2), ("B", 1)]));
}

#[test]
fn test_histogram_empty_file() {
    match run("", None, false, false) {
        Err(HistogramError::Delimiter(e)) => {
            assert_eq!(e, DelimiterError::Empty);
            assert!(e.message().contains("empty"));
        }
        other => panic!("expected an empty input, got {:?}", other),
    }
}

#[test]
fn test_histogram_piped_input() {
    let table = run(SAMPLE_COMMA, Some("occupation"), false, false).unwrap();
    let values: Vec<&str> = table.iter().map(|(v, _)| v.as_str()).collect();
    assert!(values.contains(&"Engineer"));
    assert!(values.contains(&"Designer"));
    assert!(values.contains(&"Manager"));
}
