//! Wall-clock timings of the pipeline steps.
use std::time::Duration;

use vstd::prelude::*;

verus! {

/// Wall-clock time spent in each pipeline step.
#[derive(Debug, Clone, Copy)]
pub struct PipelineTimings {
    /// Trip generation (step 1, runs once).
    pub generation: Duration,
    /// Trip distribution (step 2, cumulative across feedback loops).
    pub distribution: Duration,
    /// Mode choice (step 3, cumulative across feedback loops).
    pub mode_choice: Duration,
    /// Traffic assignment (step 4, cumulative across feedback loops).
    pub assignment: Duration,
    /// Total pipeline wall time.
    pub total: Duration,
}

} // verus!
