//! The choices a user makes on the command line, and how each maps to
//! the option type of the operation it selects.

use vstd::prelude::*;

use crate::algebra::{AngleUnit, DistanceType, NormType};
use crate::interpolation::BezierType;
use crate::io::InputFormat;

verus! {

/// An element-wise or scalar arithmetic operation.
#[derive(Copy, Clone, Debug)]
pub enum ArithmeticOp {
    Add,
    Sub,
    Mul,
    Div,
}

/// An operation of vector algebra.
#[derive(Copy, Clone, Debug)]
pub enum AlgebraOp {
    Dot,
    Cross,
    Norm,
    Normalize,
    Distance,
    Similarity,
    Angle,
    Project,
    Reject,
    PairwiseDot,
    PairwiseDistance,
}

/// The Bezier curve requested on the command line.
#[derive(Copy, Clone, Debug)]
pub enum BezierArg {
    Linear,
    Quadratic,
    Cubic,
    Spherical,
}

/// The norm requested on the command line.
#[derive(Copy, Clone, Debug)]
pub enum NormArg {
    L1,
    L2,
    Linf,
}

/// The distance metric requested on the command line.
#[derive(Copy, Clone, Debug)]
pub enum DistanceArg {
    Euclidean,
    Manhattan,
    Chebyshev,
}

/// The angle unit requested on the command line.
#[derive(Copy, Clone, Debug)]
pub enum AngleArg {
    Radians,
    Degrees,
}

/// The file format requested on the command line.
#[derive(Copy, Clone, Debug)]
pub enum FormatArg {
    Jsonl,
    Csv,
    Binary,
}

/// Whether a matrix transforms points (with translation) or directions.
#[derive(Copy, Clone, Debug)]
pub enum TransformMode {
    Position,
    Direction,
}

/// An operation applied to every vector of an input file.
#[derive(Copy, Clone, Debug)]
pub enum BatchOp {
    Normalize,
    Norm,
    Add,
    Sub,
    MulScalar,
    DivScalar,
    Distance,
    Dot,
    Similarity,
    Histogram,
}

impl From<NormArg> for NormType {
    fn from(n: NormArg) -> (res: NormType)
        ensures
            n is L1 <==> res is L1,
            n is L2 <==> res is L2,
            n is Linf <==> res is LInf,
    {
        match n {
            NormArg::L1 => NormType::L1,
            NormArg::L2 => NormType::L2,
            NormArg::Linf => NormType::LInf,
        }
    }
}

impl vstd::std_specs::convert::FromSpecImpl<NormArg> for NormType {
    open spec fn obeys_from_spec() -> bool {
        true
    }

    open spec fn from_spec(n: NormArg) -> NormType {
        match n {
            NormArg::L1 => NormType::L1,
            NormArg::L2 => NormType::L2,
            NormArg::Linf => NormType::LInf,
        }
    }
}

impl From<DistanceArg> for DistanceType {
    fn from(d: DistanceArg) -> (res: DistanceType)
        ensures
            d is Euclidean <==> res is Euclidean,
            d is Manhattan <==> res is Manhattan,
            d is Chebyshev <==> res is Chebyshev,
    {
        match d {
            DistanceArg::Euclidean => DistanceType::Euclidean,
            DistanceArg::Manhattan => DistanceType::Manhattan,
            DistanceArg::Chebyshev => DistanceType::Chebyshev,
        }
    }
}

impl vstd::std_specs::convert::FromSpecImpl<DistanceArg> for DistanceType {
    open spec fn obeys_from_spec() -> bool {
        true
    }

    open spec fn from_spec(d: DistanceArg) -> DistanceType {
        match d {
            DistanceArg::Euclidean => DistanceType::Euclidean,
            DistanceArg::Manhattan => DistanceType::Manhattan,
            DistanceArg::Chebyshev => DistanceType::Chebyshev,
        }
    }
}

impl From<AngleArg> for AngleUnit {
    fn from(a: AngleArg) -> (res: AngleUnit)
        ensures
            a is Radians <==> res is Radians,
            a is Degrees <==> res is Degrees,
    {
        match a {
            AngleArg::Radians => AngleUnit::Radians,
            AngleArg::Degrees => AngleUnit::Degrees,
        }
    }
}

impl vstd::std_specs::convert::FromSpecImpl<AngleArg> for AngleUnit {
    open spec fn obeys_from_spec() -> bool {
        true
    }

    open spec fn from_spec(a: AngleArg) -> AngleUnit {
        match a {
            AngleArg::Radians => AngleUnit::Radians,
            AngleArg::Degrees => AngleUnit::Degrees,
        }
    }
}

impl From<BezierArg> for BezierType {
    fn from(b: BezierArg) -> (res: BezierType)
        ensures
            b is Linear <==> res is Linear,
            b is Quadratic <==> res is Quadratic,
            b is Cubic <==> res is Cubic,
            b is Spherical <==> res is Spherical,
    {
        match b {
            BezierArg::Linear => BezierType::Linear,
            BezierArg::Quadratic => BezierType::Quadratic,
            BezierArg::Cubic => BezierType::Cubic,
            BezierArg::Spherical => BezierType::Spherical,
        }
    }
}

impl vstd::std_specs::convert::FromSpecImpl<BezierArg> for BezierType {
    open spec fn obeys_from_spec() -> bool {
        true
    }

    open spec fn from_spec(b: BezierArg) -> BezierType {
        match b {
            BezierArg::Linear => BezierType::Linear,
            BezierArg::Quadratic => BezierType::Quadratic,
            BezierArg::Cubic => BezierType::Cubic,
            BezierArg::Spherical => BezierType::Spherical,
        }
    }
}

impl From<FormatArg> for InputFormat {
    fn from(f: FormatArg) -> (res: InputFormat)
        ensures
            f is Jsonl <==> res is Jsonl,
            f is Csv <==> res is Csv,
            f is Binary <==> res is Binary,
    {
        match f {
            FormatArg::Jsonl => InputFormat::Jsonl,
            FormatArg::Csv => InputFormat::Csv,
            FormatArg::Binary => InputFormat::Binary,
        }
    }
}

impl vstd::std_specs::convert::FromSpecImpl<FormatArg> for InputFormat {
    open spec fn obeys_from_spec() -> bool {
        true
    }

    open spec fn from_spec(f: FormatArg) -> InputFormat {
        match f {
            FormatArg::Jsonl => InputFormat::Jsonl,
            FormatArg::Csv => InputFormat::Csv,
            FormatArg::Binary => InputFormat::Binary,
        }
    }
}

/// Law: each norm chosen on the command line selects the norm of the same
/// name (L1, L2, and the maximum norm for `linf`), so two different
/// choices never select the same norm.
pub proof fn lemma_norm_choice_named(n: NormArg, m: NormArg)
    ensures
        n is L1 <==> <NormType as vstd::std_specs::convert::FromSpec<NormArg>>::from_spec(n) is L1,
        n is L2 <==> <NormType as vstd::std_specs::convert::FromSpec<NormArg>>::from_spec(n) is L2,
        n is Linf <==> <NormType as vstd::std_specs::convert::FromSpec<NormArg>>::from_spec(n) is LInf,
        <NormType as vstd::std_specs::convert::FromSpec<NormArg>>::from_spec(n) == <NormType as vstd::std_specs::convert::FromSpec<
            NormArg,
        >>::from_spec(m) ==> n == m,
{
}

/// Law: each metric chosen on the command line selects the metric of the
/// same name, and different choices select different metrics.
pub proof fn lemma_distance_choice_named(d: DistanceArg, e: DistanceArg)
    ensures
        d is Euclidean <==> <DistanceType as vstd::std_specs::convert::FromSpec<DistanceArg>>::from_spec(d) is Euclidean,
        d is Manhattan <==> <DistanceType as vstd::std_specs::convert::FromSpec<DistanceArg>>::from_spec(d) is Manhattan,
        d is Chebyshev <==> <DistanceType as vstd::std_specs::convert::FromSpec<DistanceArg>>::from_spec(d) is Chebyshev,
        <DistanceType as vstd::std_specs::convert::FromSpec<DistanceArg>>::from_spec(d) == <DistanceType as vstd::std_specs::convert::FromSpec<
            DistanceArg,
        >>::from_spec(e) ==> d == e,
{
}

/// Law: each angle unit chosen on the command line selects the unit of
/// the same name, and different choices select different units.
pub proof fn lemma_angle_choice_named(a: AngleArg, b: AngleArg)
    ensures
        a is Radians <==> <AngleUnit as vstd::std_specs::convert::FromSpec<AngleArg>>::from_spec(a) is Radians,
        a is Degrees <==> <AngleUnit as vstd::std_specs::convert::FromSpec<AngleArg>>::from_spec(a) is Degrees,
        <AngleUnit as vstd::std_specs::convert::FromSpec<AngleArg>>::from_spec(a) == <AngleUnit as vstd::std_specs::convert::FromSpec<
            AngleArg,
        >>::from_spec(b) ==> a == b,
{
}

/// Law: each curve chosen on the command line selects the curve of the
/// same name, and different choices select different curves.
pub proof fn lemma_bezier_choice_named(b: BezierArg, c: BezierArg)
    ensures
        b is Linear <==> <BezierType as vstd::std_specs::convert::FromSpec<BezierArg>>::from_spec(b) is Linear,
        b is Quadratic <==> <BezierType as vstd::std_specs::convert::FromSpec<BezierArg>>::from_spec(b) is Quadratic,
        b is Cubic <==> <BezierType as vstd::std_specs::convert::FromSpec<BezierArg>>::from_spec(b) is Cubic,
        b is Spherical <==> <BezierType as vstd::std_specs::convert::FromSpec<BezierArg>>::from_spec(b) is Spherical,
        <BezierType as vstd::std_specs::convert::FromSpec<BezierArg>>::from_spec(b) == <BezierType as vstd::std_specs::convert::FromSpec<
            BezierArg,
        >>::from_spec(c) ==> b == c,
{
}

/// Law: each file format chosen on the command line selects the format of
/// the same name, and different choices select different formats.
pub proof fn lemma_format_choice_named(f: FormatArg, g: FormatArg)
    ensures
        f is Jsonl <==> <InputFormat as vstd::std_specs::convert::FromSpec<FormatArg>>::from_spec(f) is Jsonl,
        f is Csv <==> <InputFormat as vstd::std_specs::convert::FromSpec<FormatArg>>::from_spec(f) is Csv,
        f is Binary <==> <InputFormat as vstd::std_specs::convert::FromSpec<FormatArg>>::from_spec(f) is Binary,
        <InputFormat as vstd::std_specs::convert::FromSpec<FormatArg>>::from_spec(f) == <InputFormat as vstd::std_specs::convert::FromSpec<
            FormatArg,
        >>::from_spec(g) ==> f == g,
{
}

} // verus!
