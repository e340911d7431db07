use vstd::prelude::*;

verus! {

/// `std::io::Error`, carried opaquely by `VecMathError::IoError`.
#[verifier::external_type_specification]
#[verifier::external_body]
pub struct ExIoError(std::io::Error);

/// `serde_json::Error`, carried opaquely by `VecMathError::JsonError`.
#[verifier::external_type_specification]
#[verifier::external_body]
pub struct ExJsonError(serde_json::Error);

/// `csv::Error`, carried opaquely by `VecMathError::CsvError`.
#[verifier::external_type_specification]
#[verifier::external_body]
pub struct ExCsvError(csv::Error);

/// Every failure the tool reports; each variant carries the values that
/// its message shows.
#[derive(Debug)]
pub enum VecMathError {
    DimensionMismatch { expected: usize, got: usize },
    ZeroVector,
    InvalidCrossDimension { dim: usize },
    DivisionByZero,
    NaNInInput { index: usize },
    InfInInput { index: usize },
    InvalidParameter { param: String, value: String, reason: String },
    EmptyVector,
    InsufficientControlPoints { expected: usize, got: usize },
    InvalidInterpolationParameter { t: String },
    IoError(std::io::Error),
    JsonError(serde_json::Error),
    CsvError(csv::Error),
    ParseError(String),
    MatrixMulDimensionMismatch { lrows: usize, lcols: usize, rrows: usize, rcols: usize },
    SingularMatrix,
    InsufficientData { expected: usize, got: usize },
    UnsupportedFormat(String),
    MatrixSizeMismatch { expected: usize, rows: usize, cols: usize },
    InvalidWorkerCount(usize),
    InsufficientVectors { expected: usize, got: usize },
}

} // verus!
