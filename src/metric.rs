//! The DCG ranking metric's configuration: its truncation level.
use vstd::prelude::*;

verus! {

/// Discounted cumulative gain truncated at rank `truncation_level`
/// (0: not truncated).
pub struct DCGScorer {
    pub truncation_level: usize,
}

impl DCGScorer {
    /// Creates a scorer truncated at `truncation_level`.
    pub fn new(truncation_level: usize) -> (r: DCGScorer)
        ensures
            r.truncation_level == truncation_level,
    {
        DCGScorer { truncation_level }
    }

    /// Returns the truncation level.
    pub fn get_k(&self) -> (r: usize)
        ensures
            r == self.truncation_level,
    {
        self.truncation_level
    }

    /// The number of leading ranks a list of `n` labels is scored on:
    /// all of them when the truncation level is 0 (no truncation).
    pub fn scored_len(&self, n: usize) -> (r: usize)
        ensures
            r == if self.truncation_level == 0 || n < self.truncation_level { n } else { self.truncation_level },
    {
        if self.truncation_level == 0 || n < self.truncation_level {
            n
        } else {
            self.truncation_level
        }
    }
}

} // verus!
