//! Bezier interpolation requests: which curves exist, how many control
//! points each needs, and when a request for samples is refused.

use vstd::prelude::*;
use vstd::string::*;

use crate::error::VecMathError;

verus! {

/// A kind of Bezier curve.
#[derive(Debug, Clone, Copy, PartialEq, Eq, Structural)]
pub enum BezierType {
    Linear,
    Quadratic,
    Cubic,
    Spherical,
}

/// The number of control points a curve of kind `t` is built from.
pub open spec fn control_point_count(t: BezierType) -> nat {
    match t {
        BezierType::Linear => 2,
        BezierType::Quadratic => 3,
        BezierType::Cubic => 4,
        BezierType::Spherical => 2,
    }
}

impl BezierType {
    /// The number of control points a curve of this kind is built from.
    pub fn control_points(self) -> (n: usize)
        ensures
            n == control_point_count(self),
            self is Linear ==> n == 2,
            self is Quadratic ==> n == 3,
            self is Cubic ==> n == 4,
            self is Spherical ==> n == 2,
    {
        match self {
            BezierType::Linear => 2,
            BezierType::Quadratic => 3,
            BezierType::Cubic => 4,
            BezierType::Spherical => 2,
        }
    }
}

/// A request for `samples` points of a curve of kind `t` through
/// `points` control points: refused when no sample is asked for, then
/// when there are too few control points for the curve.
pub fn check_sample_request(t: BezierType, points: usize, samples: usize) -> (res: Result<
    (),
    VecMathError,
>)
    ensures
        samples == 0 ==> (res matches Err(
            VecMathError::InvalidParameter { param, value, reason },
        ) && param@ == "samples"@ && value@ == "0"@ && reason@ == "must be positive"@),
        samples > 0 && points < control_point_count(t) ==> res == Err::<(), VecMathError>(
            VecMathError::InsufficientControlPoints {
                expected: control_point_count(t) as usize,
                got: points,
            },
        ),
        samples > 0 && points >= control_point_count(t) ==> res is Ok,
{
    if samples == 0 {
        return Err(
            VecMathError::InvalidParameter {
                param: String::from_str("samples"),
                value: String::from_str("0"),
                reason: String::from_str("must be positive"),
            },
        );
    }
    let required = t.control_points();
    if points < required {
        return Err(VecMathError::InsufficientControlPoints { expected: required, got: points });
    }
    Ok(())
}

/// The first `i` at which the consecutive operands `i` and `i + 1` differ
/// in dimension.
pub open spec fn is_first_chain_break(dims: Seq<usize>, i: int) -> bool {
    &&& 0 <= i < dims.len() - 1
    &&& dims[i] != dims[i + 1]
    &&& forall|k: int| 0 <= k < i ==> dims[k] == #[trigger] dims[k + 1]
}

/// The operands of a curve, given by their dimensions in order, are
/// checked pairwise, each against the next; the first pair that differs
/// is reported with the earlier operand's dimension as the one expected.
pub fn check_chain_dimensions(dims: &[usize]) -> (res: Result<(), VecMathError>)
    ensures
        (forall|k: int| 0 <= k < dims@.len() - 1 ==> dims@[k] == #[trigger] dims@[k + 1])
            ==> res is Ok,
        forall|i: int|
            is_first_chain_break(dims@, i) ==> res == Err::<(), VecMathError>(
                VecMathError::DimensionMismatch { expected: dims@[i], got: dims@[i + 1] },
            ),
{
    if dims.len() == 0 {
        return Ok(());
    }
    let last = dims.len() - 1;
    let mut i: usize = 0;
    while i < last
        invariant
            forall|k: int| 0 <= k < i ==> dims@[k] == #[trigger] dims@[k + 1],
            last == dims@.len() - 1,
            i <= last,
        decreases dims.len() - i,
    {
        if dims[i] != dims[i + 1] {
            proof {
                assert forall|j: int| is_first_chain_break(dims@, j) implies j == i by {
                    if j < i {
                        assert(dims@[j] == dims@[j + 1]);
                    }
                    if i < j {
                        assert(dims@[i as int] == dims@[i + 1]);
                    }
                }
            }
            return Err(VecMathError::DimensionMismatch { expected: dims[i], got: dims[i + 1] });
        }
        i += 1;
    }
    Ok(())
}

} // verus!
