//! Tribe membership, and tribes as groups of member entities.
use std::collections::HashSet;
use vstd::prelude::*;

verus! {

/// The tribe an entity belongs to, if any.
#[derive(Debug, Clone, Copy, PartialEq, Eq, Hash, Structural)]
pub struct TribeId(pub Option<u64>);

impl Default for TribeId {
    /// No tribe.
    fn default() -> (t: Self)
        ensures
            t == TribeId(None),
    {
        TribeId(None)
    }
}

/// Minimum number of mutually positive entities required to form a tribe.
pub const MIN_TRIBE_SIZE: usize = 3;

/// Below this member count, a tribe dissolves.
pub const MIN_TRIBE_SURVIVAL_SIZE: usize = 2;

/// A persistent social group: its identity, its members and when it formed.
/// Where its territory lies is real-valued and kept beside it.
#[derive(Debug)]
pub struct Tribe {
    /// Unique identifier of the tribe.
    pub id: u64,
    /// Entity IDs of the current members.
    pub member_ids: HashSet<u64>,
    /// Tick when the tribe was first formed.
    pub founding_tick: u64,
}

impl Tribe {
    /// A tribe with the given founding members.
    pub fn new(id: u64, member_ids: HashSet<u64>, founding_tick: u64) -> (t: Self)
        ensures
            t.id == id,
            t.member_ids@ == member_ids@,
            t.founding_tick == founding_tick,
    {
        Tribe { id, member_ids, founding_tick }
    }

    /// Whether an entity is a member of the tribe.
    pub fn contains(&self, entity_id: u64) -> (r: bool)
        ensures
            r == self.member_ids@.contains(entity_id),
    {
        self.member_ids.contains(&entity_id)
    }

    /// Number of members.
    pub fn size(&self) -> (n: usize)
        ensures
            n == self.member_ids@.len(),
    {
        self.member_ids.len()
    }
}

} // verus!
