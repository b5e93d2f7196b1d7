//! The distance metrics a namespace can use. The distance computations
//! themselves work on floating-point numbers and live outside the library.
use vstd::prelude::*;

verus! {

/// How the distance between two vectors is measured in a namespace.
/// A namespace starts out with `CosineDistance`.
#[derive(Debug, Clone, Copy, PartialEq, Eq, Structural)]
pub enum DistanceMetric {
    CosineDistance,
    EuclideanSquared,
}

impl DistanceMetric {
    /// The metric a namespace gets before any write chooses one.
    pub fn default_metric() -> (m: DistanceMetric)
        ensures
            m == DistanceMetric::CosineDistance,
    {
        DistanceMetric::CosineDistance
    }

    /// The metric's name as it is written in messages and requests.
    pub fn name(&self) -> (s: &'static str)
        ensures
            s@ == metric_name(*self),
    {
        match self {
            DistanceMetric::CosineDistance => "CosineDistance",
            DistanceMetric::EuclideanSquared => "EuclideanSquared",
        }
    }
}

/// The name of each metric.
pub open spec fn metric_name(m: DistanceMetric) -> Seq<char> {
    match m {
        DistanceMetric::CosineDistance => "CosineDistance"@,
        DistanceMetric::EuclideanSquared => "EuclideanSquared"@,
    }
}

} // verus!
