//! Lineage and birth information.
use vstd::prelude::*;

verus! {

/// Tracks lineage and birth information for an entity.
#[derive(Debug, Clone, Copy, PartialEq, Eq, Structural)]
pub struct Identity {
    pub generation: u32,
    /// Entity ID bits of the parent, `None` for generation 0.
    pub parent_id: Option<u64>,
    pub birth_tick: u64,
}

impl Default for Identity {
    /// Generation 0, no parent, born at tick 0.
    fn default() -> (id: Self)
        ensures
            id == (Identity { generation: 0, parent_id: None, birth_tick: 0 }),
    {
        Identity { generation: 0, parent_id: None, birth_tick: 0 }
    }
}

} // verus!
