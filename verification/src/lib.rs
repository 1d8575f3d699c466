//! A decision-tree classifier over categorical records.
//!
//! The tree is grown by recursive partitioning with information-gain-ratio
//! attribute selection; leaves hold the probability of the positive class as
//! an exact rational. Entropy-like quantities are computed in fixed-point
//! units (one bit of entropy is `SCALE` units), so the whole computation is
//! deterministic integer arithmetic.

use vstd::prelude::*;

pub mod bench;
pub mod classifier;
pub mod counting;
pub mod data;
pub mod entropy;
pub mod fixed;
pub mod laws;

verus! {

/// An exact probability: `num / den`, with `num <= den` and `den >= 1`.
#[derive(Clone, Copy, Debug, PartialEq, Eq, Structural)]
pub struct Prob {
    pub num: u64,
    pub den: u64,
}

impl Prob {
    /// A probability value is meaningful only when it lies in [0, 1].
    pub open spec fn valid(self) -> bool {
        self.num <= self.den && self.den >= 1
    }
}

/// Failures of tree construction.
#[derive(Clone, Copy, Debug, PartialEq, Eq, Structural)]
pub enum BuildError {
    EmptyDataset,
    InconsistentRecordShape,
}

/// Failures of prediction.
#[derive(Clone, Copy, Debug, PartialEq, Eq, Structural)]
pub enum PredictError {
    UnseenCategory,
    AttributeIndexOutOfRange,
}

} // verus!
