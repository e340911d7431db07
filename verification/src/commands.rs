//! The decisions the command handlers make before any arithmetic runs:
//! which operands are combined, which inputs an operation needs, and when
//! the command line is refused.

use vstd::prelude::*;
use vstd::string::*;

use crate::cli::{AlgebraOp, ArithmeticOp, BatchOp};
use crate::error::VecMathError;

verus! {

/// A worker count of zero is refused; no count leaves the default.
pub fn check_worker_count(workers: Option<usize>) -> (res: Result<(), VecMathError>)
    ensures
        workers == Some(0usize) ==> res == Err::<(), VecMathError>(
            VecMathError::InvalidWorkerCount(0),
        ),
        workers != Some(0usize) ==> res is Ok,
{
    match workers {
        Some(w) => {
            if w == 0 {
                return Err(VecMathError::InvalidWorkerCount(w));
            }
            Ok(())
        },
        None => Ok(()),
    }
}

/// Which vectors of the second operand list are combined with which of
/// the first, for element-wise arithmetic between two lists: one with
/// one, lists of equal length index by index, and, for addition only, a
/// single second vector added to every first one. Each pair is
/// `(index in first list, index in second list)`.
pub open spec fn operand_pairs(op: ArithmeticOp, a_len: nat, b_len: nat) -> Option<
    Seq<(usize, usize)>,
> {
    if a_len == b_len {
        Some(Seq::new(a_len, |i: int| (i as usize, i as usize)))
    } else if op is Add && b_len == 1 {
        Some(Seq::new(a_len, |i: int| (i as usize, 0usize)))
    } else {
        None
    }
}

/// The operand pairs of an element-wise arithmetic command, or the error
/// that refuses lists whose lengths do not match.
pub fn arithmetic_operand_pairs(op: ArithmeticOp, a_len: usize, b_len: usize) -> (res: Result<
    Vec<(usize, usize)>,
    VecMathError,
>)
    ensures
        operand_pairs(op, a_len as nat, b_len as nat) matches Some(p) ==> (res matches Ok(v)
            && v@ == p),
        operand_pairs(op, a_len as nat, b_len as nat) is None ==> res == Err::<
            Vec<(usize, usize)>,
            VecMathError,
        >(VecMathError::DimensionMismatch { expected: a_len, got: b_len }),
        a_len == b_len ==> (res matches Ok(v) && v@.len() == a_len && forall|i: int|
            0 <= i < a_len ==> #[trigger] v@[i] == (i as usize, i as usize)),
        a_len != b_len && op is Add && b_len == 1 ==> (res matches Ok(v) && v@.len() == a_len
            && forall|i: int| 0 <= i < a_len ==> #[trigger] v@[i] == (i as usize, 0usize)),
        a_len != b_len && !(op is Add && b_len == 1) ==> res == Err::<
            Vec<(usize, usize)>,
            VecMathError,
        >(VecMathError::DimensionMismatch { expected: a_len, got: b_len }),
{
    let broadcast = match op {
        ArithmeticOp::Add => b_len == 1,
        _ => false,
    };
    if a_len != b_len && !broadcast {
        return Err(VecMathError::DimensionMismatch { expected: a_len, got: b_len });
    }
    let mut pairs: Vec<(usize, usize)> = Vec::new();
    let mut i: usize = 0;
    while i < a_len
        invariant
            i <= a_len,
            a_len == b_len || broadcast,
            broadcast == (op is Add && b_len == 1),
            a_len == b_len ==> pairs@ == Seq::new(i as nat, |k: int| (k as usize, k as usize)),
            a_len != b_len ==> pairs@ == Seq::new(i as nat, |k: int| (k as usize, 0usize)),
        decreases a_len - i,
    {
        if a_len == b_len {
            pairs.push((i, i));
            proof {
                assert(pairs@ =~= Seq::new((i + 1) as nat, |k: int| (k as usize, k as usize)));
            }
        } else {
            pairs.push((i, 0));
            proof {
                assert(pairs@ =~= Seq::new((i + 1) as nat, |k: int| (k as usize, 0usize)));
            }
        }
        i += 1;
    }
    Ok(pairs)
}

/// Law: lists of equal length are combined index by index, whatever the
/// operation: vector `i` of the first list with vector `i` of the second.
/// Any other pairing is the broadcast of addition, which only happens when
/// the lengths differ and the second list holds one vector: then every
/// first vector is paired with that one. Lists that are neither are
/// refused.
pub proof fn lemma_operand_pairs_shape(op: ArithmeticOp, a_len: nat, b_len: nat)
    ensures
        a_len == b_len ==> (operand_pairs(op, a_len, b_len) matches Some(p) && p.len() == a_len
            && forall|i: int| 0 <= i < a_len ==> #[trigger] p[i] == (i as usize, i as usize)),
        operand_pairs(op, a_len, b_len) is Some <==> (a_len == b_len || (op is Add && b_len
            == 1)),
        operand_pairs(op, a_len, b_len) matches Some(p) ==> p.len() == a_len && forall|i: int|
            0 <= i < a_len ==> (#[trigger] p[i]).0 == i as usize && (p[i].1 == i as usize || (
            a_len != b_len && op is Add && b_len == 1 && p[i].1 == 0usize)),
{
}

/// The message that refuses an algebra operation given no second operand,
/// for the operations that need one.
pub open spec fn missing_operand_message(op: AlgebraOp) -> Option<Seq<char>> {
    match op {
        AlgebraOp::Dot => Some("dot product requires second vector"@),
        AlgebraOp::Cross => Some("cross product requires second vector"@),
        AlgebraOp::Distance => Some("distance requires second vector"@),
        AlgebraOp::Similarity => Some("cosine similarity requires second vector"@),
        AlgebraOp::Angle => Some("angle requires second vector"@),
        AlgebraOp::Project => Some("projection requires second vector"@),
        AlgebraOp::Reject => Some("rejection requires second vector"@),
        _ => None,
    }
}

/// An algebra operation with or without a second operand: refused, with
/// the operation's own message, when it needs one and has none.
pub fn check_second_operand(op: AlgebraOp, present: bool) -> (res: Result<(), VecMathError>)
    ensures
        present ==> res is Ok,
        !present && missing_operand_message(op) is None ==> res is Ok,
        !present ==> (missing_operand_message(op) matches Some(m) ==> (res matches Err(
            VecMathError::ParseError(s),
        ) && s@ == m)),
        (op is Norm || op is Normalize || op is PairwiseDot || op is PairwiseDistance) ==> res is Ok,
        (op is Dot || op is Cross || op is Distance || op is Similarity || op is Angle
            || op is Project || op is Reject) ==> (res is Ok <==> present),
{
    if present {
        return Ok(());
    }
    let message = match op {
        AlgebraOp::Dot => "dot product requires second vector",
        AlgebraOp::Cross => "cross product requires second vector",
        AlgebraOp::Distance => "distance requires second vector",
        AlgebraOp::Similarity => "cosine similarity requires second vector",
        AlgebraOp::Angle => "angle requires second vector",
        AlgebraOp::Project => "projection requires second vector",
        AlgebraOp::Reject => "rejection requires second vector",
        _ => {
            return Ok(());
        },
    };
    Err(VecMathError::ParseError(String::from_str(message)))
}

/// What a batch operation needs besides its input file.
#[derive(Debug, Clone, Copy, PartialEq, Eq, Structural)]
pub enum BatchInput {
    /// Nothing more.
    Nothing,
    /// A second input file of as many vectors as the first.
    SecondFile,
    /// A scalar operand.
    Scalar,
}

/// What the batch operation `op` needs besides its input file.
pub open spec fn batch_input(op: BatchOp) -> BatchInput {
    match op {
        BatchOp::Add | BatchOp::Sub | BatchOp::Distance | BatchOp::Dot
        | BatchOp::Similarity => BatchInput::SecondFile,
        BatchOp::MulScalar | BatchOp::DivScalar => BatchInput::Scalar,
        _ => BatchInput::Nothing,
    }
}

/// Law: the batch operations that combine two files (add, sub, distance,
/// dot, similarity) need the second file and nothing else; only
/// mul-scalar and div-scalar need the scalar; normalize, norm and
/// histogram need neither.
pub proof fn lemma_batch_input_by_operation(op: BatchOp)
    ensures
        batch_input(op) == BatchInput::SecondFile <==> (op is Add || op is Sub || op is Distance
            || op is Dot || op is Similarity),
        batch_input(op) == BatchInput::Scalar <==> (op is MulScalar || op is DivScalar),
        batch_input(op) == BatchInput::Nothing <==> (op is Normalize || op is Norm
            || op is Histogram),
{
}

/// The message that refuses a batch operation given no second input file.
pub open spec fn missing_file_message(op: BatchOp) -> Seq<char> {
    match op {
        BatchOp::Add => "batch add requires --input2"@,
        BatchOp::Sub => "batch sub requires --input2"@,
        BatchOp::Distance => "batch distance requires --input2"@,
        BatchOp::Dot => "batch dot requires --input2"@,
        _ => "batch similarity requires --input2"@,
    }
}

/// A batch operation with or without a second input file and a scalar:
/// refused, with the operation's own message, when it lacks what it needs.
pub fn check_batch_inputs(op: BatchOp, has_second_file: bool, has_scalar: bool) -> (res: Result<
    (),
    VecMathError,
>)
    ensures
        batch_input(op) == BatchInput::SecondFile && !has_second_file ==> (res matches Err(
            VecMathError::ParseError(s),
        ) && s@ == missing_file_message(op)),
        batch_input(op) == BatchInput::Scalar && !has_scalar ==> (res matches Err(
            VecMathError::ParseError(s),
        ) && s@ == "--scalar required"@),
        batch_input(op) == BatchInput::Nothing ==> res is Ok,
        batch_input(op) == BatchInput::SecondFile && has_second_file ==> res is Ok,
        batch_input(op) == BatchInput::Scalar && has_scalar ==> res is Ok,
        (op is Add || op is Sub || op is Distance || op is Dot || op is Similarity) ==> (res is Ok
            <==> has_second_file),
        (op is MulScalar || op is DivScalar) ==> (res is Ok <==> has_scalar),
        (op is Normalize || op is Norm || op is Histogram) ==> res is Ok,
{
    match op {
        BatchOp::Add | BatchOp::Sub | BatchOp::Distance | BatchOp::Dot | BatchOp::Similarity => {
            if has_second_file {
                return Ok(());
            }
            let message = match op {
                BatchOp::Add => "batch add requires --input2",
                BatchOp::Sub => "batch sub requires --input2",
                BatchOp::Distance => "batch distance requires --input2",
                BatchOp::Dot => "batch dot requires --input2",
                _ => "batch similarity requires --input2",
            };
            Err(VecMathError::ParseError(String::from_str(message)))
        },
        BatchOp::MulScalar | BatchOp::DivScalar => {
            if has_scalar {
                return Ok(());
            }
            Err(VecMathError::ParseError(String::from_str("--scalar required")))
        },
        _ => Ok(()),
    }
}

/// A 4x4 matrix given as rows of the lengths `row_lens`: refused unless
/// there are four rows of four values; the error reports the number of
/// rows and the length of the first row (zero when there is none).
pub fn check_matrix_rows(row_lens: &[usize]) -> (res: Result<(), VecMathError>)
    ensures
        row_lens@.len() == 4 && (forall|r: int| 0 <= r < 4 ==> #[trigger] row_lens@[r] == 4)
            ==> res is Ok,
        !(row_lens@.len() == 4 && (forall|r: int| 0 <= r < 4 ==> #[trigger] row_lens@[r] == 4))
            ==> res == Err::<(), VecMathError>(
            VecMathError::MatrixSizeMismatch {
                expected: 4,
                rows: row_lens@.len() as usize,
                cols: if row_lens@.len() > 0 {
                    row_lens@[0]
                } else {
                    0
                },
            },
        ),
{
    let mut ok = row_lens.len() == 4;
    let mut r: usize = 0;
    while ok && r < 4
        invariant
            ok ==> row_lens@.len() == 4,
            ok ==> forall|k: int| 0 <= k < r ==> #[trigger] row_lens@[k] == 4,
            !ok ==> !(row_lens@.len() == 4 && (forall|k: int|
                0 <= k < 4 ==> #[trigger] row_lens@[k] == 4)),
            r <= 4,
        decreases 4 - r,
    {
        if row_lens[r] != 4 {
            ok = false;
        }
        r += 1;
    }
    if ok {
        return Ok(());
    }
    let cols = if row_lens.len() > 0 {
        row_lens[0]
    } else {
        0
    };
    Err(VecMathError::MatrixSizeMismatch { expected: 4, rows: row_lens.len(), cols })
}

/// A 4x4 matrix given as `count` comma-separated values: refused unless
/// there are sixteen.
pub fn check_matrix_values(count: usize) -> (res: Result<(), VecMathError>)
    ensures
        count == 16 ==> res is Ok,
        count != 16 ==> res == Err::<(), VecMathError>(
            VecMathError::MatrixSizeMismatch { expected: 4, rows: 0, cols: count },
        ),
{
    if count != 16 {
        return Err(VecMathError::MatrixSizeMismatch { expected: 4, rows: 0, cols: count });
    }
    Ok(())
}

} // verus!
