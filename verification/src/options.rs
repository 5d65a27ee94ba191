//! Configuration of the disjunctive propagators.

use vstd::prelude::*;

verus! {

/// How strong an explanation the propagator emits.  Only the naive form
/// is produced here; the stronger forms are future options.
#[derive(Clone, Copy, Debug)]
pub enum DisjunctiveExplanationType {
    Naive,
    PrevScheduledTasks,
    LastCluster,
}

/// Options of the disjunctive propagators.
#[derive(Clone, Copy, Debug)]
pub struct DisjunctivePropagatorOptions {
    pub explanation_type: DisjunctiveExplanationType,
}

impl Default for DisjunctiveExplanationType {
    fn default() -> (r: DisjunctiveExplanationType)
        ensures
            r is Naive,
    {
        DisjunctiveExplanationType::Naive
    }
}

impl Default for DisjunctivePropagatorOptions {
    fn default() -> (r: DisjunctivePropagatorOptions)
        ensures
            r.explanation_type is Naive,
    {
        DisjunctivePropagatorOptions { explanation_type: DisjunctiveExplanationType::Naive }
    }
}

} // verus!
