use vecmath_cli::error::VecMathError;
use vecmath_cli::io::{resolve_format, InputFormat};

#[test]
fn test_format_detection() {
    assert!(matches!(
        InputFormat::from_filename("vectors.jsonl").unwrap(),
        InputFormat::Jsonl
    ));
    assert!(matches!(
        InputFormat::from_filename("vectors.csv").unwrap(),
        InputFormat::Csv
    ));
    assert!(matches!(
        InputFormat::from_filename("vectors.bin").unwrap(),
        InputFormat::Binary
    ));
}

#[test]
fn filename_extensions_ignore_case() {
    assert_eq!(InputFormat::from_filename("DATA.JSON").unwrap(), InputFormat::Jsonl);
    assert_eq!(InputFormat::from_filename("a/b/c.Binary").unwrap(), InputFormat::Binary);
    assert_eq!(InputFormat::from_filename("x.CsV").unwrap(), InputFormat::Csv);
}

#[test]
fn unknown_extension_reports_lowercase_path() {
    match InputFormat::from_filename("Vectors.TXT") {
        Err(VecMathError::UnsupportedFormat(p)) => assert_eq!(p, "vectors.txt"),
        other => panic!("unexpected {:?}", other),
    }
    assert!(InputFormat::from_filename("vectors").is_err());
    assert!(InputFormat::from_filename("jsonl").is_err());
}

#[test]
fn format_names() {
    assert_eq!(InputFormat::from_str("JSONL").unwrap(), InputFormat::Jsonl);
    assert_eq!(InputFormat::from_str("json").unwrap(), InputFormat::Jsonl);
    assert_eq!(InputFormat::from_str("csv").unwrap(), InputFormat::Csv);
    assert_eq!(InputFormat::from_str("Bin").unwrap(), InputFormat::Binary);
    assert_eq!(InputFormat::from_str("binary").unwrap(), InputFormat::Binary);
    match InputFormat::from_str("XML") {
        Err(VecMathError::UnsupportedFormat(n)) => assert_eq!(n, "XML"),
        other => panic!("unexpected {:?}", other),
    }
    assert!(InputFormat::from_str(".csv").is_err());
}

#[test]
fn lowercase_forms() {
    assert_eq!(InputFormat::from_extension("x.jsonl"), Some(InputFormat::Jsonl));
    assert_eq!(InputFormat::from_extension("x.JSONL"), None);
    assert_eq!(InputFormat::from_name("bin"), Some(InputFormat::Binary));
    assert_eq!(InputFormat::from_name("BIN"), None);
}

#[test]
fn requested_format_wins() {
    assert_eq!(resolve_format("data.csv", Some(InputFormat::Binary)).unwrap(), InputFormat::Binary);
    assert_eq!(resolve_format("data.csv", None).unwrap(), InputFormat::Csv);
    assert!(matches!(
        resolve_format("data.dat", None),
        Err(VecMathError::UnsupportedFormat(_))
    ));
}

#[test]
fn extensions_agree_with_names() {
    for name in ["jsonl", "json", "csv", "bin", "binary", "JSON", "Bin"] {
        let by_path = InputFormat::from_filename(&format!("some.dir/data.{}", name)).unwrap();
        let by_name = InputFormat::from_str(name).unwrap();
        assert_eq!(by_path, by_name, "{}", name);
    }
}
