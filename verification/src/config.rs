//! Conductor configuration.
use vstd::prelude::*;

use crate::pacing::Pacing;

verus! {

/// Conductor configuration.
#[derive(Debug, PartialEq, Eq)]
pub struct ConductorConfig {
    /// World name: fills the world segment of every key expression
    /// (`continuo/{world}/...`).
    pub world_name: String,
    /// World seed: the root of every component's deterministic randomness and
    /// the starting point of the running world hash. Same seed and same
    /// scenario give identical runs.
    pub world_seed: u64,
    /// How the run advances through simulation time.
    pub pacing: Pacing,
}

impl Clone for ConductorConfig {
    fn clone(&self) -> (copy: Self)
        ensures
            copy == *self,
    {
        ConductorConfig {
            world_name: self.world_name.clone(),
            world_seed: self.world_seed,
            pacing: self.pacing,
        }
    }
}

impl Default for ConductorConfig {
    fn default() -> (config: Self)
        ensures
            config.world_name@ == "world"@,
            config.world_seed == 0,
            config.pacing == Pacing::FreeRun,
    {
        ConductorConfig {
            world_name: "world".to_owned(),
            world_seed: 0,
            pacing: Pacing::FreeRun,
        }
    }
}

} // verus!
