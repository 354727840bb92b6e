//! Physical lifetime of an entity.
use vstd::prelude::*;

verus! {

/// Age of an entity and its maximum lifespan, in ticks.
#[derive(Debug, Clone, Copy, PartialEq, Eq, Structural)]
pub struct Age {
    pub ticks: u64,
    pub max_lifespan: u64,
}

impl Default for Age {
    /// Newborn with a lifespan of 5000 ticks.
    fn default() -> (a: Self)
        ensures
            a == (Age { ticks: 0, max_lifespan: 5000 }),
    {
        Age { ticks: 0, max_lifespan: 5000 }
    }
}

} // verus!
