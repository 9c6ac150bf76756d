use plhistr::frequency::{column_of, frequency_table, Entry};
use plhistr::histogram::{column_by_index, column_by_name, histogram, tabulate, HistogramError};
use plhistr::layout::table_layout;
use plhistr::order::{ranking, sort_entries, sort_order, Order};
use plhistr::text::{chars_of, decimal_digits, parse_usize, trim_chars};

fn strings(values: &[&str]) -> Vec<String> {
    values.iter().map(|v| v.to_string()).collect()
}

fn entries(pairs: &[(&str, usize)]) -> Vec<Entry> {
    pairs
        .iter()
        .map(|(v, c)| Entry { value: v.to_string(), count: *c })
        .collect()
}

fn pairs(table: &[Entry]) -> Vec<(String, usize)> {
    table.iter().map(|e| (e.value.clone(), e.count)).collect()
}

#[test]
fn parse_usize_follows_the_standard_grammar() {
    let parse = |s: &str| parse_usize(&chars_of(s));
    assert_eq!(parse("42"), Some(42));
    assert_eq!(parse("+7"), Some(7));
    assert_eq!(parse("007"), Some(7));
    assert_eq!(parse(""), None);
    assert_eq!(parse("+"), None);
    assert_eq!(parse("-1"), None);
    assert_eq!(parse("1 2"), None);
    assert_eq!(parse("١"), None);
    assert_eq!(parse("18446744073709551615"), Some(usize::MAX));
    assert_eq!(parse("18446744073709551616"), None);
    assert_eq!(parse("99999999999999999999x"), None);
}

#[test]
fn trim_removes_unicode_whitespace_at_both_ends() {
    let trimmed = trim_chars(&chars_of("\u{a0} a b\u{2003}\n"));
    assert_eq!(trimmed, vec!['a', ' ', 'b']);
    assert!(trim_chars(&chars_of("\u{3000}\t")).is_empty());
}

#[test]
fn decimal_digits_counts_digits() {
    assert_eq!(decimal_digits(0), 1);
    assert_eq!(decimal_digits(9), 1);
    assert_eq!(decimal_digits(10), 2);
    assert_eq!(decimal_digits(12345), 5);
    assert_eq!(decimal_digits(usize::MAX), usize::MAX.to_string().len());
}

#[test]
fn column_by_index_is_one_based_and_trims() {
    assert_eq!(column_by_index("1").unwrap(), 0);
    assert_eq!(column_by_index(" 3 ").unwrap(), 2);
    assert_eq!(column_by_index("+2").unwrap(), 1);
    for bad in ["0", "x", "", "-1", "1.5"] {
        match column_by_index(bad) {
            Err(HistogramError::InvalidColumnIndex(s)) => assert_eq!(s, bad),
            other => panic!("{:?} should be refused, got {:?}", bad, other),
        }
    }
}

#[test]
fn column_by_name_takes_the_first_match() {
    let header = strings(&["a", "b", "a"]);
    assert_eq!(column_by_name(&header, "a").unwrap(), 0);
    assert_eq!(column_by_name(&header, "b").unwrap(), 1);
    match column_by_name(&header, "A") {
        Err(HistogramError::ColumnNotFound { name, available }) => {
            assert_eq!(name, "A");
            assert_eq!(available, header);
        }
        other => panic!("expected a missing column, got {:?}", other),
    }
}

#[test]
fn frequency_table_lists_values_in_first_seen_order() {
    let values = strings(&["b", "a", "b", "", "a", "b"]);
    let table = frequency_table(&values);
    assert_eq!(
        pairs(&table),
        vec![("b".to_string(), 3), ("a".to_string(), 2), ("".to_string(), 1)]
    );
    let total: usize = table.iter().map(|e| e.count).sum();
    assert_eq!(total, values.len());
    assert!(frequency_table(&Vec::new()).is_empty());
}

#[test]
fn column_of_skips_rows_without_the_column() {
    let rows = vec![strings(&["x", "1"]), strings(&["y"]), strings(&["z", "2"])];
    assert_eq!(column_of(&rows, 1), strings(&["1", "2"]));
    assert_eq!(column_of(&rows, 0), strings(&["x", "y", "z"]));
    assert!(column_of(&rows, 5).is_empty());
    let table = tabulate(&rows, 1);
    assert_eq!(pairs(&table), vec![("1".to_string(), 1), ("2".to_string(), 1)]);
}

#[test]
fn frequency_order_is_descending_and_keeps_ties_in_order() {
    let mut table = entries(&[("a", 1), ("b", 3), ("c", 1), ("d", 3), ("e", 2)]);
    sort_entries(&mut table, &Order::Frequency);
    let values: Vec<&str> = table.iter().map(|e| e.value.as_str()).collect();
    assert_eq!(values, vec!["b", "d", "e", "a", "c"]);
}

#[test]
fn alphabetical_order_compares_bytes() {
    let mut table = entries(&[("b", 1), ("B", 1), ("ä", 1), ("a", 1), ("ab", 1), ("", 1)]);
    sort_entries(&mut table, &Order::Alphabetical);
    let values: Vec<&str> = table.iter().map(|e| e.value.as_str()).collect();
    assert_eq!(values, vec!["", "B", "a", "ab", "b", "ä"]);
}

#[test]
fn numeric_order_follows_the_keys_and_keeps_ties_in_order() {
    let mut table = entries(&[("x", 1), ("y", 2), ("z", 3), ("w", 4)]);
    sort_entries(&mut table, &Order::Numeric(vec![5, 1, 5, 0]));
    let values: Vec<&str> = table.iter().map(|e| e.value.as_str()).collect();
    assert_eq!(values, vec!["w", "y", "x", "z"]);
}

#[test]
fn ranking_is_a_permutation() {
    let table = entries(&[("q", 2), ("r", 9), ("s", 2), ("t", 0), ("u", 9), ("v", 1), ("w", 4)]);
    let p = ranking(&table, &Order::Frequency);
    assert_eq!(p, vec![1, 4, 6, 0, 2, 5, 3]);
    let mut seen = p.clone();
    seen.sort();
    assert_eq!(seen, (0..table.len()).collect::<Vec<_>>());
    assert!(ranking(&Vec::new(), &Order::Alphabetical).is_empty());
}

#[test]
fn layout_gives_widths_totals_and_running_totals() {
    let table = entries(&[("Los Angeles", 12), ("é", 3), ("NY", 105)]);
    let layout = table_layout(&table);
    assert_eq!(layout.value_width, 11);
    assert_eq!(layout.count_width, 3);
    assert_eq!(layout.max_count, 105);
    assert_eq!(layout.total, 120);
    assert_eq!(layout.running_totals, vec![12, 15, 120]);
    assert_eq!(*layout.running_totals.last().unwrap(), layout.total);
    let accented = entries(&[("é", 1)]);
    assert_eq!(table_layout(&accented).value_width, 2);
}

#[test]
fn histogram_reports_unequal_record_lengths() {
    let data = b"a,b\n1,2\n3\n";
    match histogram(data, data, None, false) {
        Err(HistogramError::Csv(_)) => {}
        other => panic!("expected a csv error, got {:?}", other),
    }
}

#[test]
fn histogram_reads_quoted_fields() {
    let data = b"name,city\n\"Smith, J\",\"New York\"\nLee,\"New York\"\n";
    let table = histogram(data, data, Some("city"), false).unwrap();
    assert_eq!(pairs(&table), vec![("New York".to_string(), 2)]);
    let table = histogram(data, data, None, false).unwrap();
    assert_eq!(
        pairs(&table),
        vec![("Smith, J".to_string(), 1), ("Lee".to_string(), 1)]
    );
}

#[test]
fn histogram_without_header_counts_the_first_row() {
    let data = b"a;1\nb;2\na;3\n";
    let table = histogram(data, data, None, true).unwrap();
    assert_eq!(
        pairs(&table),
        vec![("a;1".to_string(), 1), ("b;2".to_string(), 1), ("a;3".to_string(), 1)]
    );
    let data = b"a\tx\nb\ty\na\tz\n";
    let table = histogram(data, data, Some("1"), true).unwrap();
    assert_eq!(pairs(&table), vec![("a".to_string(), 2), ("b".to_string(), 1)]);
    let table = histogram(data, data, Some("3"), true).unwrap();
    assert!(table.is_empty());
}

#[test]
fn histogram_detects_the_delimiter_from_the_peeked_bytes() {
    // Only the peeked start decides: here it shows a pipe.
    let data = b"k|v\nx|1\ny|2\n";
    let table = histogram(b"k|v", data, Some("v"), false).unwrap();
    assert_eq!(pairs(&table), vec![("1".to_string(), 1), ("2".to_string(), 1)]);
    match histogram(b"", data, None, false) {
        Err(HistogramError::Delimiter(_)) => {}
        other => panic!("expected no delimiter, got {:?}", other),
    }
}

#[test]
fn sort_order_picks_frequency_value_or_numeric() {
    assert!(matches!(sort_order(false, Some(vec![1])), Order::Frequency));
    assert!(matches!(sort_order(false, None), Order::Frequency));
    assert!(matches!(sort_order(true, None), Order::Alphabetical));
    match sort_order(true, Some(vec![3, 1])) {
        Order::Numeric(keys) => assert_eq!(keys, vec![3, 1]),
        _ => panic!("expected numeric keys"),
    }
}
