use vecmath_cli::error::VecMathError;
use vecmath_cli::table::csv_fields;
use vecmath_cli::text::{choose_reading, record_lines_of, trim_text};

#[test]
fn csv_fields_are_split_and_trimmed() {
    let (rows, err) = csv_fields(b"1, 2 ,3\n 4,5,6\n");
    assert!(err.is_none());
    assert_eq!(rows, vec![vec!["1", "2", "3"], vec!["4", "5", "6"]]);
}

#[test]
fn csv_quoted_fields_and_no_header() {
    let (rows, err) = csv_fields(b"\"1.5\",x\r\n7,8\n");
    assert!(err.is_none());
    assert_eq!(rows, vec![vec!["1.5", "x"], vec!["7", "8"]]);
}

#[test]
fn csv_unequal_rows_stop_with_an_error() {
    let (rows, err) = csv_fields(b"1,2\n3,4\n5\n6,7\n");
    assert_eq!(rows, vec![vec!["1", "2"], vec!["3", "4"]]);
    assert!(matches!(err, Some(VecMathError::CsvError(_))));
}

#[test]
fn csv_empty_input() {
    let (rows, err) = csv_fields(b"");
    assert!(rows.is_empty());
    assert!(err.is_none());
}

#[test]
fn trimming() {
    assert_eq!(trim_text("  a b \t"), "a b");
    assert_eq!(trim_text("\u{3000}x\u{85}"), "x");
    assert_eq!(trim_text("   "), "");
}

#[test]
fn reading_choice() {
    assert_eq!(choose_reading(&[vec![true, false], vec![true, true, true], vec![true]]), Some(1));
    assert_eq!(choose_reading(&[vec![], vec![true]]), Some(1));
    assert_eq!(choose_reading(&[vec![true], vec![true]]), Some(0));
    assert_eq!(choose_reading(&[vec![], vec![false]]), None);
    assert_eq!(choose_reading(&[]), None);
}

fn lines(text: &str) -> Vec<(usize, String)> {
    let chars: Vec<char> = text.chars().collect();
    record_lines_of(&chars).into_iter().map(|(n, l)| (n, l.into_iter().collect())).collect()
}

#[test]
fn jsonl_record_lines() {
    assert_eq!(
        lines("\u{FEFF}[1,2]\r\n\n  {\"vector\":[3]}  \n\t\n[4]"),
        vec![(0, "[1,2]".to_string()), (2, "{\"vector\":[3]}".to_string()), (4, "[4]".to_string())]
    );
    assert_eq!(lines(""), vec![]);
    assert_eq!(lines("\n\n"), vec![]);
    assert_eq!(lines("x\u{FEFF}\n"), vec![(0, "x\u{FEFF}".to_string())]);
}

use vecmath_cli::table::encode_csv;

fn strings(rows: &[&[&str]]) -> Vec<Vec<String>> {
    rows.iter().map(|r| r.iter().map(|f| f.to_string()).collect()).collect()
}

#[test]
fn csv_encoding() {
    let (bytes, err) = encode_csv(&strings(&[&["1", "2.5"], &["-3", "4"]]));
    assert!(err.is_none());
    assert_eq!(bytes, b"1,2.5\n-3,4\n".to_vec());
    let (bytes, err) = encode_csv(&[]);
    assert!(err.is_none());
    assert!(bytes.is_empty());
}

#[test]
fn csv_encoding_refuses_unequal_rows() {
    let (bytes, err) = encode_csv(&strings(&[&["1", "2"], &["3"], &["4", "5"]]));
    assert!(matches!(err, Some(VecMathError::CsvError(_))));
    assert!(bytes.starts_with(b"1,2\n"));
}

#[test]
fn csv_written_then_read_back() {
    let rows = strings(&[&["1", "2"], &["3.25", "-4e10"]]);
    let (bytes, err) = encode_csv(&rows);
    assert!(err.is_none());
    let (back, err) = csv_fields(&bytes);
    assert!(err.is_none());
    assert_eq!(back, rows);
}
