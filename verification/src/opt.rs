//! The pipeline-optimization posture a transform is built with.

use vstd::prelude::*;

verus! {

/// Which pipeline-optimization posture a transform uses.
#[derive(Clone, Copy, Debug, PartialEq, Eq, Structural)]
pub enum OptimizationStrategy {
    /// Full in-place pipeline evaluation: the most accurate, and the default.
    Accurate,
    /// The full default optimizer chain (curve joining, matrix shaper,
    /// linearization, resampling), lossy but the common default.
    Lcms2Compat,
    /// Lossless speedups that keep byte-for-byte parity with `Accurate`.
    AccurateFast,
}

impl Default for OptimizationStrategy {
    fn default() -> (r: OptimizationStrategy)
        ensures
            r == OptimizationStrategy::Accurate,
    {
        OptimizationStrategy::Accurate
    }
}

} // verus!
