//! Checks on vectors that decide whether an operation may run. A vector's
//! components are IEEE-754 binary64 numbers; here each is given by its bit
//! pattern (sign bit 63, exponent bits 52..62, fraction bits 0..51), which
//! is all these checks read.

use vstd::prelude::*;

use crate::error::VecMathError;

verus! {

/// The biased exponent field of a binary64 bit pattern.
pub open spec fn exponent_field(bits: u64) -> int {
    (bits / 0x10_0000_0000_0000) as int % 0x800
}

/// The fraction (mantissa) field of a binary64 bit pattern.
pub open spec fn fraction_field(bits: u64) -> int {
    bits as int % 0x10_0000_0000_0000
}

/// The pattern encodes a NaN: all exponent bits set, fraction non-zero.
pub open spec fn is_nan_bits(bits: u64) -> bool {
    exponent_field(bits) == 0x7FF && fraction_field(bits) != 0
}

/// The pattern encodes positive or negative infinity.
pub open spec fn is_infinite_bits(bits: u64) -> bool {
    exponent_field(bits) == 0x7FF && fraction_field(bits) == 0
}

/// The pattern encodes a finite number (neither NaN nor infinite).
pub open spec fn is_finite_bits(bits: u64) -> bool {
    exponent_field(bits) != 0x7FF
}

/// The pattern encodes positive or negative zero.
pub open spec fn is_zero_bits(bits: u64) -> bool {
    bits as int % 0x8000_0000_0000_0000 == 0
}

/// `i` is the first index of `v` that holds a NaN or an infinity.
pub open spec fn is_first_non_finite(v: Seq<u64>, i: int) -> bool {
    &&& 0 <= i < v.len()
    &&& !is_finite_bits(v[i])
    &&& forall|k: int| 0 <= k < i ==> is_finite_bits(#[trigger] v[k])
}

/// What validating a vector with components `v` gives: an empty vector is
/// refused, then the first non-finite component is reported by its index
/// and kind; otherwise the vector is accepted.
pub open spec fn validation(v: Seq<u64>) -> Result<(), VecMathError> {
    if v.len() == 0 {
        Err(VecMathError::EmptyVector)
    } else if forall|k: int| 0 <= k < v.len() ==> is_finite_bits(#[trigger] v[k]) {
        Ok(())
    } else {
        let i = choose|i: int| is_first_non_finite(v, i);
        if is_nan_bits(v[i]) {
            Err(VecMathError::NaNInInput { index: i as usize })
        } else {
            Err(VecMathError::InfInInput { index: i as usize })
        }
    }
}

/// Whether the bit pattern encodes a NaN.
pub fn bits_is_nan(bits: u64) -> (res: bool)
    ensures
        res == is_nan_bits(bits),
{
    (bits / 0x10_0000_0000_0000) % 0x800 == 0x7FF && bits % 0x10_0000_0000_0000 != 0
}

/// Whether the bit pattern encodes an infinity.
pub fn bits_is_infinite(bits: u64) -> (res: bool)
    ensures
        res == is_infinite_bits(bits),
{
    (bits / 0x10_0000_0000_0000) % 0x800 == 0x7FF && bits % 0x10_0000_0000_0000 == 0
}

/// Validates a vector whose components have the bit patterns `bits`: it
/// must be non-empty and hold no NaN and no infinity.
pub fn validate(bits: &[u64]) -> (res: Result<(), VecMathError>)
    ensures
        res == validation(bits@),
{
    if bits.len() == 0 {
        return Err(VecMathError::EmptyVector);
    }
    let mut i: usize = 0;
    while i < bits.len()
        invariant
            i <= bits@.len(),
            forall|k: int| 0 <= k < i ==> is_finite_bits(#[trigger] bits@[k]),
        decreases bits.len() - i,
    {
        let b = bits[i];
        let nan = bits_is_nan(b);
        let inf = bits_is_infinite(b);
        if nan || inf {
            proof {
                assert(is_first_non_finite(bits@, i as int));
                let j = choose|j: int| is_first_non_finite(bits@, j);
                assert(j == i) by {
                    if j < i {
                        assert(is_finite_bits(bits@[j]));
                    }
                    if i < j {
                        assert(is_finite_bits(bits@[i as int]));
                    }
                }
            }
            if nan {
                return Err(VecMathError::NaNInInput { index: i });
            } else {
                return Err(VecMathError::InfInInput { index: i });
            }
        }
        i += 1;
    }
    Ok(())
}

/// A vector of dimension `got` where dimension `expected` is required.
pub fn check_dimension(got: usize, expected: usize) -> (res: Result<(), VecMathError>)
    ensures
        got == expected ==> res is Ok,
        got != expected ==> res == Err::<(), VecMathError>(
            VecMathError::DimensionMismatch { expected, got },
        ),
{
    if got != expected {
        return Err(VecMathError::DimensionMismatch { expected, got });
    }
    Ok(())
}

/// Two operands of dimensions `first` and `second` of an element-wise
/// operation; the first operand's dimension is the one expected.
pub fn check_same_dimension(first: usize, second: usize) -> (res: Result<(), VecMathError>)
    ensures
        first == second ==> res is Ok,
        first != second ==> res == Err::<(), VecMathError>(
            VecMathError::DimensionMismatch { expected: first, got: second },
        ),
{
    if first != second {
        return Err(VecMathError::DimensionMismatch { expected: first, got: second });
    }
    Ok(())
}

/// Whether the bit pattern encodes positive or negative zero.
pub fn bits_is_zero(bits: u64) -> (res: bool)
    ensures
        res == is_zero_bits(bits),
{
    bits % 0x8000_0000_0000_0000 == 0
}

/// An element-wise division by a divisor vector with component bit
/// patterns `divisor`: refused if any component is zero (of either sign).
pub fn check_divisors(divisor: &[u64]) -> (res: Result<(), VecMathError>)
    ensures
        (exists|k: int| 0 <= k < divisor@.len() && is_zero_bits(#[trigger] divisor@[k]))
            ==> res == Err::<(), VecMathError>(VecMathError::DivisionByZero),
        (forall|k: int| 0 <= k < divisor@.len() ==> !is_zero_bits(#[trigger] divisor@[k]))
            ==> res is Ok,
{
    let mut i: usize = 0;
    while i < divisor.len()
        invariant
            i <= divisor@.len(),
            forall|k: int| 0 <= k < i ==> !is_zero_bits(#[trigger] divisor@[k]),
        decreases divisor.len() - i,
    {
        if bits_is_zero(divisor[i]) {
            return Err(VecMathError::DivisionByZero);
        }
        i += 1;
    }
    Ok(())
}

} // verus!
