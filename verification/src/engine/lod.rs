//! Level-of-detail tiers for entity simulation fidelity.
use vstd::prelude::*;

verus! {

/// Level-of-detail tiers: how much of the simulation runs for an entity.
#[derive(Debug, Clone, Copy, PartialEq, Eq, Hash, Structural)]
pub enum LodLevel {
    /// All systems execute for this entity.
    Full,
    /// Skip perception (the most expensive read-only system).
    Reduced,
    /// Only aging and metabolism. No perception, drives, or decisions.
    Minimal,
}

} // verus!
