//! Global simulation parameters.

use vstd::prelude::*;

use crate::fixed::FP_SCALE;
use crate::fixed::PARAM_LIMIT;

verus! {

/// Parameters that control the simulation of the force graph.
///
/// Every field is a fixed-point number of `FP_SCALE` ticks per unit:
/// `force_charge` scales repulsion, `force_spring` scales attraction,
/// `force_max` clamps each accumulated force component, `node_speed` scales
/// how fast velocity responds to force, and `damping_factor` (in `(0, 1]`)
/// decays velocity once per step.
#[derive(Clone, Copy, Debug)]
pub struct SimulationParameters {
    pub force_charge: i64,
    pub force_spring: i64,
    pub force_max: i64,
    pub node_speed: i64,
    pub damping_factor: i64,
}

impl SimulationParameters {
    /// The strengths are nonnegative and bounded, and damping lies in
    /// `(0, 1]`, so one simulation step never overflows.
    pub open spec fn valid(&self) -> bool {
        &&& 0 <= self.force_charge <= PARAM_LIMIT
        &&& 0 <= self.force_spring <= PARAM_LIMIT
        &&& 0 <= self.force_max <= PARAM_LIMIT
        &&& 0 <= self.node_speed <= PARAM_LIMIT
        &&& 0 < self.damping_factor <= FP_SCALE
    }
}

impl Default for SimulationParameters {
    /// The stock parameter set: charge 12000, spring 0.3, force clamp 280,
    /// node speed 7000, damping 0.95 (all in units, stored as ticks).
    fn default() -> (p: Self)
        ensures
            p.force_charge == 12_000_000i64,
            p.force_spring == 300i64,
            p.force_max == 280_000i64,
            p.node_speed == 7_000_000i64,
            p.damping_factor == 950i64,
            p.valid(),
    {
        SimulationParameters {
            force_charge: 12_000_000,
            force_spring: 300,
            force_max: 280_000,
            node_speed: 7_000_000,
            damping_factor: 950,
        }
    }
}

} // verus!
