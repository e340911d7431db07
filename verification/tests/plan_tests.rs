use vecmath_cli::algebra::{AngleUnit, DistanceType, NormType};
use vecmath_cli::cli::{AlgebraOp, AngleArg, ArithmeticOp, BatchOp, BezierArg, DistanceArg, FormatArg, NormArg};
use vecmath_cli::commands::{
    arithmetic_operand_pairs, check_batch_inputs, check_matrix_rows, check_matrix_values,
    check_second_operand, check_worker_count,
};
use vecmath_cli::error::VecMathError;
use vecmath_cli::interpolation::{check_chain_dimensions, check_sample_request, BezierType};
use vecmath_cli::io::InputFormat;
use vecmath_cli::stats::{check_uniform_dimensions, filter_finite};

fn parse_message(r: Result<(), VecMathError>) -> String {
    match r {
        Err(VecMathError::ParseError(m)) => m,
        other => panic!("unexpected {:?}", other),
    }
}

#[test]
fn operand_pairing() {
    assert_eq!(arithmetic_operand_pairs(ArithmeticOp::Sub, 1, 1).unwrap(), vec![(0, 0)]);
    assert_eq!(arithmetic_operand_pairs(ArithmeticOp::Mul, 3, 3).unwrap(), vec![(0, 0), (1, 1), (2, 2)]);
    assert_eq!(arithmetic_operand_pairs(ArithmeticOp::Add, 3, 1).unwrap(), vec![(0, 0), (1, 0), (2, 0)]);
    assert!(matches!(
        arithmetic_operand_pairs(ArithmeticOp::Sub, 3, 1),
        Err(VecMathError::DimensionMismatch { expected: 3, got: 1 })
    ));
    assert!(matches!(
        arithmetic_operand_pairs(ArithmeticOp::Add, 2, 5),
        Err(VecMathError::DimensionMismatch { expected: 2, got: 5 })
    ));
    assert_eq!(arithmetic_operand_pairs(ArithmeticOp::Div, 0, 0).unwrap(), vec![]);
}

#[test]
fn worker_count() {
    assert!(check_worker_count(None).is_ok());
    assert!(check_worker_count(Some(4)).is_ok());
    assert!(matches!(check_worker_count(Some(0)), Err(VecMathError::InvalidWorkerCount(0))));
}

#[test]
fn second_operands() {
    assert!(check_second_operand(AlgebraOp::Norm, false).is_ok());
    assert!(check_second_operand(AlgebraOp::PairwiseDot, false).is_ok());
    assert!(check_second_operand(AlgebraOp::Dot, true).is_ok());
    assert_eq!(parse_message(check_second_operand(AlgebraOp::Dot, false)), "dot product requires second vector");
    assert_eq!(parse_message(check_second_operand(AlgebraOp::Similarity, false)), "cosine similarity requires second vector");
    assert_eq!(parse_message(check_second_operand(AlgebraOp::Reject, false)), "rejection requires second vector");
}

#[test]
fn batch_inputs() {
    assert!(check_batch_inputs(BatchOp::Normalize, false, false).is_ok());
    assert!(check_batch_inputs(BatchOp::Add, true, false).is_ok());
    assert_eq!(parse_message(check_batch_inputs(BatchOp::Sub, false, true)), "batch sub requires --input2");
    assert_eq!(parse_message(check_batch_inputs(BatchOp::Similarity, false, false)), "batch similarity requires --input2");
    assert_eq!(parse_message(check_batch_inputs(BatchOp::DivScalar, true, false)), "--scalar required");
    assert!(check_batch_inputs(BatchOp::MulScalar, false, true).is_ok());
}

#[test]
fn matrix_shapes() {
    assert!(check_matrix_rows(&[4, 4, 4, 4]).is_ok());
    assert!(matches!(
        check_matrix_rows(&[4, 4, 4]),
        Err(VecMathError::MatrixSizeMismatch { expected: 4, rows: 3, cols: 4 })
    ));
    assert!(matches!(
        check_matrix_rows(&[3, 4, 4, 4]),
        Err(VecMathError::MatrixSizeMismatch { expected: 4, rows: 4, cols: 3 })
    ));
    assert!(matches!(
        check_matrix_rows(&[4, 4, 5, 4]),
        Err(VecMathError::MatrixSizeMismatch { expected: 4, rows: 4, cols: 4 })
    ));
    assert!(matches!(
        check_matrix_rows(&[]),
        Err(VecMathError::MatrixSizeMismatch { expected: 4, rows: 0, cols: 0 })
    ));
    assert!(check_matrix_values(16).is_ok());
    assert!(matches!(
        check_matrix_values(15),
        Err(VecMathError::MatrixSizeMismatch { expected: 4, rows: 0, cols: 15 })
    ));
}

#[test]
fn sample_requests() {
    assert_eq!(BezierType::Cubic.control_points(), 4);
    assert!(check_sample_request(BezierType::Linear, 2, 3).is_ok());
    match check_sample_request(BezierType::Linear, 2, 0) {
        Err(VecMathError::InvalidParameter { param, value, reason }) => {
            assert_eq!(param, "samples");
            assert_eq!(value, "0");
            assert_eq!(reason, "must be positive");
        }
        other => panic!("unexpected {:?}", other),
    }
    assert!(matches!(
        check_sample_request(BezierType::Quadratic, 2, 5),
        Err(VecMathError::InsufficientControlPoints { expected: 3, got: 2 })
    ));
    assert!(matches!(
        check_sample_request(BezierType::Spherical, 1, 5),
        Err(VecMathError::InsufficientControlPoints { expected: 2, got: 1 })
    ));
}

#[test]
fn chained_dimensions() {
    assert!(check_chain_dimensions(&[3, 3, 3, 3]).is_ok());
    assert!(check_chain_dimensions(&[]).is_ok());
    assert!(matches!(
        check_chain_dimensions(&[2, 2, 5, 7]),
        Err(VecMathError::DimensionMismatch { expected: 2, got: 5 })
    ));
}

#[test]
fn test_nan_inf_filter() {
    let values: Vec<u64> = [1.0, f64::NAN, 2.0, f64::INFINITY, 3.0].iter().map(|v: &f64| v.to_bits()).collect();
    let stats = filter_finite(&values).unwrap();
    assert_eq!(stats.values.len(), 3);
    assert_eq!(stats.nan_count, 1);
    assert_eq!(stats.inf_count, 1);
}

#[test]
fn finite_values_are_kept() {
    let values: Vec<u64> = [1.0, f64::NAN, 2.0, f64::INFINITY, 3.0].iter().map(|v: &f64| v.to_bits()).collect();
    let f = filter_finite(&values).unwrap();
    assert_eq!(f.values, vec![1.0f64.to_bits(), 2.0f64.to_bits(), 3.0f64.to_bits()]);
    assert_eq!(f.nan_count, 1);
    assert_eq!(f.inf_count, 1);
    assert_eq!(f.values.len() + f.nan_count + f.inf_count, values.len());
    let none: Vec<u64> = [f64::NAN, f64::NEG_INFINITY].iter().map(|v: &f64| v.to_bits()).collect();
    assert!(matches!(filter_finite(&none), Err(VecMathError::InsufficientData { expected: 1, got: 0 })));
    assert!(filter_finite(&[]).is_err());
}

#[test]
fn uniform_dimensions() {
    assert_eq!(check_uniform_dimensions(&[2, 2, 2]).unwrap(), 2);
    assert!(matches!(
        check_uniform_dimensions(&[2, 2, 3, 1]),
        Err(VecMathError::DimensionMismatch { expected: 2, got: 3 })
    ));
    assert!(matches!(
        check_uniform_dimensions(&[]),
        Err(VecMathError::InsufficientData { expected: 1, got: 0 })
    ));
}

#[test]
fn argument_conversions() {
    assert_eq!(NormType::from(NormArg::Linf), NormType::LInf);
    assert_eq!(NormType::from(NormArg::L1), NormType::L1);
    assert_eq!(DistanceType::from(DistanceArg::Chebyshev), DistanceType::Chebyshev);
    assert_eq!(AngleUnit::from(AngleArg::Degrees), AngleUnit::Degrees);
    assert_eq!(BezierType::from(BezierArg::Spherical), BezierType::Spherical);
    assert_eq!(InputFormat::from(FormatArg::Binary), InputFormat::Binary);
}
