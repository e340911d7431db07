use vecmath_cli::algebra::{check_cross_dimensions, pairwise_pairs};
use vecmath_cli::error::VecMathError;
use vecmath_cli::vector::{check_dimension, check_divisors, check_same_dimension, validate};

fn bits(values: &[f64]) -> Vec<u64> {
    values.iter().map(|v| v.to_bits()).collect()
}

#[test]
fn test_validate() {
    let a = bits(&[1.0, f64::NAN]);
    assert!(validate(&a).is_err());
    let b = bits(&[1.0, f64::INFINITY]);
    assert!(validate(&b).is_err());
}

#[test]
fn test_dim_mismatch() {
    let a = bits(&[1.0, 2.0]);
    let b = bits(&[1.0, 2.0, 3.0]);
    assert!(check_same_dimension(a.len(), b.len()).is_err());
}

#[test]
fn validate_reports_first_bad_component() {
    assert!(matches!(validate(&bits(&[1.0, -2.5, 0.0])), Ok(())));
    assert!(matches!(validate(&[]), Err(VecMathError::EmptyVector)));
    assert!(matches!(
        validate(&bits(&[1.0, f64::NEG_INFINITY, f64::NAN])),
        Err(VecMathError::InfInInput { index: 1 })
    ));
    assert!(matches!(
        validate(&bits(&[f64::NAN, f64::INFINITY])),
        Err(VecMathError::NaNInInput { index: 0 })
    ));
    assert!(matches!(
        validate(&bits(&[0.0, f64::MAX, f64::MIN_POSITIVE, -f64::NAN])),
        Err(VecMathError::NaNInInput { index: 3 })
    ));
}

#[test]
fn dimension_checks() {
    assert!(check_dimension(3, 3).is_ok());
    assert!(matches!(
        check_dimension(2, 3),
        Err(VecMathError::DimensionMismatch { expected: 3, got: 2 })
    ));
    assert!(matches!(
        check_same_dimension(4, 1),
        Err(VecMathError::DimensionMismatch { expected: 4, got: 1 })
    ));
}

#[test]
fn divisors_may_not_be_zero_of_either_sign() {
    assert!(check_divisors(&bits(&[1.0, -3.0, 1e-300])).is_ok());
    assert!(matches!(check_divisors(&bits(&[1.0, 0.0])), Err(VecMathError::DivisionByZero)));
    assert!(matches!(check_divisors(&bits(&[-0.0])), Err(VecMathError::DivisionByZero)));
    assert!(check_divisors(&bits(&[f64::NAN])).is_ok());
}

#[test]
fn cross_needs_three_dimensions() {
    assert!(check_cross_dimensions(3, 3).is_ok());
    assert!(matches!(
        check_cross_dimensions(2, 4),
        Err(VecMathError::InvalidCrossDimension { dim: 2 })
    ));
    assert!(matches!(
        check_cross_dimensions(3, 4),
        Err(VecMathError::InvalidCrossDimension { dim: 4 })
    ));
}

#[test]
fn pairwise_visits_each_pair_once_in_order() {
    let p = pairwise_pairs(4).unwrap();
    assert_eq!(p, vec![(0, 1), (0, 2), (0, 3), (1, 2), (1, 3), (2, 3)]);
    assert_eq!(pairwise_pairs(2).unwrap(), vec![(0, 1)]);
    assert_eq!(pairwise_pairs(10).unwrap().len(), 45);
    assert!(matches!(
        pairwise_pairs(1),
        Err(VecMathError::InsufficientVectors { expected: 2, got: 1 })
    ));
    assert!(matches!(
        pairwise_pairs(0),
        Err(VecMathError::InsufficientVectors { expected: 2, got: 0 })
    ));
}
