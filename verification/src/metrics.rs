use vstd::prelude::*;
use crate::settings::RePathSettings;

verus! {

/// Performance counters for an external sink: wall times are measured by the
/// caller (the core has no clock) and recorded here in integer time units.
#[derive(Debug, Clone)]
pub struct Metrics {
    pub settings: RePathSettings,
    pub precomputation_time: u64,
    pub pathfinding_time: u64,
    pub total_paths_precomputed: usize,
}

impl Metrics {
    pub fn new(settings: RePathSettings) -> (m: Metrics)
        ensures
            m.settings == settings,
            m.precomputation_time == 0,
            m.pathfinding_time == 0,
            m.total_paths_precomputed == 0,
    {
        Metrics {
            settings,
            precomputation_time: 0,
            pathfinding_time: 0,
            total_paths_precomputed: 0,
        }
    }
}

} // verus!
