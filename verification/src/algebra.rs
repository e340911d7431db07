use vstd::prelude::*;

use crate::error::VecMathError;

verus! {

/// Which vector norm to take.
#[derive(Debug, Clone, Copy, PartialEq, Eq, Structural)]
pub enum NormType {
    L1,
    L2,
    LInf,
}

/// Which metric measures the distance between two vectors.
#[derive(Debug, Clone, Copy, PartialEq, Eq, Structural)]
pub enum DistanceType {
    Euclidean,
    Manhattan,
    Chebyshev,
}

/// The unit in which an angle is reported.
#[derive(Debug, Clone, Copy, PartialEq, Eq, Structural)]
pub enum AngleUnit {
    Radians,
    Degrees,
}

/// The pairs `(i, j)` with `first <= i < j < n`, row by row: for each `i`
/// in increasing order, every `j` above it in increasing order.
pub open spec fn pairs_from(first: nat, n: nat) -> Seq<(usize, usize)>
    decreases n - first,
{
    if first >= n {
        Seq::empty()
    } else {
        Seq::new((n - first - 1) as nat, |k: int| (first as usize, (first + 1 + k) as usize))
            + pairs_from(first + 1, n)
    }
}

/// Every unordered pair of the indices `0..n`, in the order in which the
/// pairwise operations visit them.
pub open spec fn index_pairs(n: nat) -> Seq<(usize, usize)> {
    pairs_from(0, n)
}

/// The number of pairs `(i, j)` with `first <= i < j < n`.
pub open spec fn pair_count_from(first: nat, n: nat) -> nat
    decreases n - first,
{
    if first >= n {
        0
    } else {
        (n - first - 1) as nat + pair_count_from(first + 1, n)
    }
}

proof fn lemma_pairs_from_len(first: nat, n: nat)
    ensures
        pairs_from(first, n).len() == pair_count_from(first, n),
    decreases n - first,
{
    if first < n {
        lemma_pairs_from_len(first + 1, n);
    }
}

proof fn lemma_pair_count_closed(first: nat, n: nat)
    requires
        first <= n,
    ensures
        2 * pair_count_from(first, n) == (n - first) * (n - first - 1),
    decreases n - first,
{
    if first < n {
        lemma_pair_count_closed(first + 1, n);
        let m: int = n - first;
        assert(m * (m - 1) == (m - 1) * (m - 2) + 2 * (m - 1)) by (nonlinear_arith);
        assert(pair_count_from(first, n) == (m - 1) + pair_count_from(first + 1, n));
        assert((n - (first + 1)) * (n - (first + 1) - 1) == (m - 1) * (m - 2));
    } else {
        assert((n - first) * (n - first - 1) == 0) by (nonlinear_arith)
            requires
                first == n,
        ;
    }
}

/// The pairs listed by `pairs_from(first, n)` are exactly those `(i, j)`
/// with `first <= i < j < n`, and they come in strictly increasing
/// lexicographic order.
proof fn lemma_pairs_from_members(first: nat, n: nat)
    requires
        n <= usize::MAX + 1,
    ensures
        forall|k: int|
            0 <= k < pairs_from(first, n).len() ==> {
                let p = #[trigger] pairs_from(first, n)[k];
                first <= p.0 < p.1 < n
            },
        forall|i: usize, j: usize|
            first <= i < j < n ==> pairs_from(first, n).contains((i, j)),
        forall|k: int, l: int|
            0 <= k < l < pairs_from(first, n).len() ==> lex_less(
                #[trigger] pairs_from(first, n)[k],
                #[trigger] pairs_from(first, n)[l],
            ),
    decreases n - first,
{
    if first < n {
        lemma_pairs_from_members(first + 1, n);
        let row = Seq::new(
            (n - first - 1) as nat,
            |k: int| (first as usize, (first + 1 + k) as usize),
        );
        let rest = pairs_from(first + 1, n);
        assert(pairs_from(first, n) == row + rest);
        assert forall|i: usize, j: usize| first <= i < j < n implies pairs_from(
            first,
            n,
        ).contains((i, j)) by {
            if i == first {
                let k = j - first - 1;
                assert(pairs_from(first, n)[k] == (i, j));
            } else {
                assert(rest.contains((i, j)));
                let k = choose|k: int| 0 <= k < rest.len() && rest[k] == (i, j);
                assert(pairs_from(first, n)[row.len() + k] == (i, j));
            }
        }
    }
}

/// `a` comes strictly before `b` when pairs are ordered by first index,
/// then by second index.
pub open spec fn lex_less(a: (usize, usize), b: (usize, usize)) -> bool {
    a.0 < b.0 || (a.0 == b.0 && a.1 < b.1)
}

/// Law: the pairwise operations visit every pair `i < j` of the `n` inputs
/// exactly once, `n(n-1)/2` pairs in all, in lexicographic order.
pub proof fn lemma_index_pairs_enumerate(n: nat)
    requires
        n <= usize::MAX + 1,
    ensures
        2 * index_pairs(n).len() == n * (n - 1),
        forall|k: int|
            0 <= k < index_pairs(n).len() ==> {
                let p = #[trigger] index_pairs(n)[k];
                p.0 < p.1 < n
            },
        forall|i: usize, j: usize| i < j < n ==> index_pairs(n).contains((i, j)),
        forall|k: int, l: int|
            0 <= k < l < index_pairs(n).len() ==> lex_less(
                #[trigger] index_pairs(n)[k],
                #[trigger] index_pairs(n)[l],
            ),
{
    lemma_pairs_from_len(0, n);
    lemma_pair_count_closed(0, n);
    lemma_pairs_from_members(0, n);
}

/// The index pairs `(i, j)`, `i < j`, over which `pairwise_dot` and
/// `pairwise_distance` compute their results, in the order of the output.
/// Fewer than two vectors is an error.
pub fn pairwise_pairs(n: usize) -> (res: Result<Vec<(usize, usize)>, VecMathError>)
    ensures
        n < 2 ==> res == Err::<Vec<(usize, usize)>, VecMathError>(
            VecMathError::InsufficientVectors { expected: 2, got: n },
        ),
        n >= 2 ==> (res matches Ok(pairs) && pairs@ == index_pairs(n as nat)),
{
    if n < 2 {
        return Err(VecMathError::InsufficientVectors { expected: 2, got: n });
    }
    let mut pairs: Vec<(usize, usize)> = Vec::new();
    let mut i: usize = 0;
    while i < n
        invariant
            i <= n,
            pairs@ + pairs_from(i as nat, n as nat) == index_pairs(n as nat),
        decreases n - i,
    {
        let ghost before = pairs@;
        let mut j: usize = i + 1;
        while j < n
            invariant
                i < n,
                i + 1 <= j <= n,
                pairs@ == before + Seq::new(
                    (j - i - 1) as nat,
                    |k: int| (i, (i + 1 + k) as usize),
                ),
            decreases n - j,
        {
            pairs.push((i, j));
            j += 1;
        }
        assert(pairs_from(i as nat, n as nat) == Seq::new(
            (n - i - 1) as nat,
            |k: int| (i, (i + 1 + k) as usize),
        ) + pairs_from((i + 1) as nat, n as nat));
        i += 1;
    }
    Ok(pairs)
}

/// The cross product is defined for three-dimensional operands only; the
/// first operand is checked first.
pub fn check_cross_dimensions(a_dim: usize, b_dim: usize) -> (res: Result<(), VecMathError>)
    ensures
        a_dim != 3 ==> res == Err::<(), VecMathError>(
            VecMathError::InvalidCrossDimension { dim: a_dim },
        ),
        a_dim == 3 && b_dim != 3 ==> res == Err::<(), VecMathError>(
            VecMathError::InvalidCrossDimension { dim: b_dim },
        ),
        a_dim == 3 && b_dim == 3 ==> res is Ok,
{
    if a_dim != 3 {
        return Err(VecMathError::InvalidCrossDimension { dim: a_dim });
    }
    if b_dim != 3 {
        return Err(VecMathError::InvalidCrossDimension { dim: b_dim });
    }
    Ok(())
}

} // verus!
