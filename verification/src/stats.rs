//! The checks and the filtering that come before statistics are computed:
//! which values take part, how many are set aside, and when there is too
//! little data. Values are given by their IEEE-754 binary64 bit patterns.

use vstd::prelude::*;

use crate::error::VecMathError;
use crate::vector::{is_finite_bits, is_infinite_bits, is_nan_bits};

verus! {

/// The finite values of `values`, in their order.
pub open spec fn finite_values(values: Seq<u64>) -> Seq<u64> {
    values.filter(|b: u64| is_finite_bits(b))
}

/// The NaN values of `values`.
pub open spec fn nan_values(values: Seq<u64>) -> Seq<u64> {
    values.filter(|b: u64| is_nan_bits(b))
}

/// The infinite values of `values`.
pub open spec fn infinite_values(values: Seq<u64>) -> Seq<u64> {
    values.filter(|b: u64| is_infinite_bits(b))
}

/// The values that statistics are computed over, and the number of NaN
/// and infinite values that were set aside.
pub struct FiniteValues {
    pub values: Vec<u64>,
    pub nan_count: usize,
    pub inf_count: usize,
}

/// Law: every value is either kept as finite or counted as NaN or as
/// infinite, and only once.
pub proof fn lemma_values_partitioned(values: Seq<u64>)
    ensures
        finite_values(values).len() + nan_values(values).len() + infinite_values(values).len()
            == values.len(),
    decreases values.len(),
{
    if values.len() > 0 {
        lemma_values_partitioned(values.drop_last());
        reveal_with_fuel(Seq::filter, 1);
    }
}

/// Sets the NaN and infinite values aside. With no finite value left there
/// is nothing to compute statistics over.
pub fn filter_finite(values: &[u64]) -> (res: Result<FiniteValues, VecMathError>)
    ensures
        finite_values(values@).len() == 0 ==> res == Err::<FiniteValues, VecMathError>(
            VecMathError::InsufficientData { expected: 1, got: 0 },
        ),
        finite_values(values@).len() > 0 ==> (res matches Ok(f) && f.values@ == finite_values(
            values@,
        ) && f.nan_count == nan_values(values@).len() && f.inf_count == infinite_values(
            values@,
        ).len()),
{
    let mut kept: Vec<u64> = Vec::new();
    let mut nan_count: usize = 0;
    let mut inf_count: usize = 0;
    let mut i: usize = 0;
    while i < values.len()
        invariant
            i <= values@.len(),
            kept@ == finite_values(values@.take(i as int)),
            nan_count == nan_values(values@.take(i as int)).len(),
            inf_count == infinite_values(values@.take(i as int)).len(),
        decreases values.len() - i,
    {
        proof {
            reveal_with_fuel(Seq::filter, 1);
            assert(values@.take(i + 1).drop_last() =~= values@.take(i as int));
            lemma_values_partitioned(values@.take(i as int));
        }
        let v = values[i];
        if crate::vector::bits_is_nan(v) {
            nan_count += 1;
        } else if crate::vector::bits_is_infinite(v) {
            inf_count += 1;
        } else {
            kept.push(v);
        }
        i += 1;
    }
    proof {
        assert(values@.take(values@.len() as int) =~= values@);
    }
    if kept.len() == 0 {
        return Err(VecMathError::InsufficientData { expected: 1, got: 0 });
    }
    Ok(FiniteValues { values: kept, nan_count, inf_count })
}

/// `k` is the first vector whose dimension differs from the first one's.
pub open spec fn is_first_odd_dimension(dims: Seq<usize>, k: int) -> bool {
    &&& 0 < k < dims.len()
    &&& dims[k] != dims[0]
    &&& forall|j: int| 0 <= j < k ==> #[trigger] dims[j] == dims[0]
}

/// Statistics per dimension need at least one vector, and all vectors of
/// the first one's dimension; that dimension is returned.
pub fn check_uniform_dimensions(dims: &[usize]) -> (res: Result<usize, VecMathError>)
    ensures
        dims@.len() == 0 ==> res == Err::<usize, VecMathError>(
            VecMathError::InsufficientData { expected: 1, got: 0 },
        ),
        dims@.len() > 0 && (forall|j: int| 0 <= j < dims@.len() ==> #[trigger] dims@[j]
            == dims@[0]) ==> res == Ok::<usize, VecMathError>(dims@[0]),
        forall|k: int|
            is_first_odd_dimension(dims@, k) ==> res == Err::<usize, VecMathError>(
                VecMathError::DimensionMismatch { expected: dims@[0], got: dims@[k] },
            ),
{
    if dims.len() == 0 {
        return Err(VecMathError::InsufficientData { expected: 1, got: 0 });
    }
    let dim = dims[0];
    let mut i: usize = 0;
    while i < dims.len()
        invariant
            i <= dims@.len(),
            dims@.len() > 0,
            dim == dims@[0],
            forall|j: int| 0 <= j < i ==> #[trigger] dims@[j] == dims@[0],
        decreases dims.len() - i,
    {
        if dims[i] != dim {
            proof {
                assert forall|k: int| is_first_odd_dimension(dims@, k) implies k == i by {
                    if k < i {
                        assert(dims@[k] == dims@[0]);
                    }
                    if i < k {
                        assert(dims@[i as int] == dims@[0]);
                    }
                }
            }
            return Err(VecMathError::DimensionMismatch { expected: dim, got: dims[i] });
        }
        i += 1;
    }
    Ok(dim)
}

} // verus!
