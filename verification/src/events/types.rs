//! Simulation events, as the narrative and summary logic reads them.
use vstd::prelude::*;

verus! {

/// Why an entity died.
#[derive(Debug, Clone, Copy, PartialEq, Eq, Structural)]
pub enum DeathCause {
    Starvation,
    OldAge,
    /// Killed in combat by another entity.
    Combat { killer_id: u64 },
}

/// A simulation event.
///
/// Positions, energies and damage amounts are not held here: the logic of
/// this library reads only the identities involved, ages and causes, and of
/// an attack whether it left the target without health and whether it dealt
/// more than 30 damage.
#[derive(Debug)]
pub enum SimEvent {
    EntitySpawned { entity_id: u64, generation: u32, parent_id: Option<u64> },
    EntityDied { entity_id: u64, age: u64, cause: DeathCause },
    EntityMoved { entity_id: u64 },
    EntityAte { entity_id: u64, resource_id: u64 },
    EntityReproduced { parent_id: u64, offspring_id: u64 },
    ResourceDepleted { resource_id: u64 },
    ResourceRegrown { resource_id: u64 },
    /// `target_killed`: the target's remaining health is at or below zero;
    /// `heavy_hit`: the damage exceeded 30.
    EntityAttacked { attacker_id: u64, target_id: u64, target_killed: bool, heavy_hit: bool },
    CompositeReproduced { parent_id: u64, offspring_id: u64 },
    CompositeFormed { leader_id: u64, member_id: u64 },
    CompositeDecomposed { leader_id: u64, released_member_ids: Vec<u64> },
}

/// The kind of a simulation event, without its payload.
#[derive(Debug, Clone, Copy, PartialEq, Eq, Structural)]
pub enum SimEventKind {
    EntitySpawned,
    EntityDied,
    EntityMoved,
    EntityAte,
    EntityReproduced,
    ResourceDepleted,
    ResourceRegrown,
    EntityAttacked,
    CompositeReproduced,
    CompositeFormed,
    CompositeDecomposed,
}

/// The kind of an event.
pub open spec fn kind_of(e: SimEvent) -> SimEventKind {
    match e {
        SimEvent::EntitySpawned { .. } => SimEventKind::EntitySpawned,
        SimEvent::EntityDied { .. } => SimEventKind::EntityDied,
        SimEvent::EntityMoved { .. } => SimEventKind::EntityMoved,
        SimEvent::EntityAte { .. } => SimEventKind::EntityAte,
        SimEvent::EntityReproduced { .. } => SimEventKind::EntityReproduced,
        SimEvent::ResourceDepleted { .. } => SimEventKind::ResourceDepleted,
        SimEvent::ResourceRegrown { .. } => SimEventKind::ResourceRegrown,
        SimEvent::EntityAttacked { .. } => SimEventKind::EntityAttacked,
        SimEvent::CompositeReproduced { .. } => SimEventKind::CompositeReproduced,
        SimEvent::CompositeFormed { .. } => SimEventKind::CompositeFormed,
        SimEvent::CompositeDecomposed { .. } => SimEventKind::CompositeDecomposed,
    }
}

/// Two events carry the same data (the released members compared by their
/// contents).
pub open spec fn same_event(a: SimEvent, b: SimEvent) -> bool {
    match (a, b) {
        (
            SimEvent::CompositeDecomposed { leader_id: la, released_member_ids: ra },
            SimEvent::CompositeDecomposed { leader_id: lb, released_member_ids: rb },
        ) => la == lb && ra@ == rb@,
        (SimEvent::CompositeDecomposed { .. }, _) => false,
        (_, SimEvent::CompositeDecomposed { .. }) => false,
        _ => a == b,
    }
}

impl SimEvent {
    /// The kind of this event.
    pub fn kind(&self) -> (k: SimEventKind)
        ensures
            k == kind_of(*self),
    {
        match self {
            SimEvent::EntitySpawned { .. } => SimEventKind::EntitySpawned,
            SimEvent::EntityDied { .. } => SimEventKind::EntityDied,
            SimEvent::EntityMoved { .. } => SimEventKind::EntityMoved,
            SimEvent::EntityAte { .. } => SimEventKind::EntityAte,
            SimEvent::EntityReproduced { .. } => SimEventKind::EntityReproduced,
            SimEvent::ResourceDepleted { .. } => SimEventKind::ResourceDepleted,
            SimEvent::ResourceRegrown { .. } => SimEventKind::ResourceRegrown,
            SimEvent::EntityAttacked { .. } => SimEventKind::EntityAttacked,
            SimEvent::CompositeReproduced { .. } => SimEventKind::CompositeReproduced,
            SimEvent::CompositeFormed { .. } => SimEventKind::CompositeFormed,
            SimEvent::CompositeDecomposed { .. } => SimEventKind::CompositeDecomposed,
        }
    }
}

/// A copy of a list of plain values.
pub(crate) fn copy_vec<T: Copy>(ids: &Vec<T>) -> (r: Vec<T>)
    ensures
        r@ == ids@,
{
    let mut r: Vec<T> = Vec::new();
    for i in 0..ids.len()
        invariant
            r@ == ids@.take(i as int),
    {
        r.push(ids[i]);
        assert(ids@.take(i + 1) =~= ids@.take(i as int).push(ids@[i as int]));
    }
    assert(ids@.take(ids@.len() as int) =~= ids@);
    r
}

impl Clone for SimEvent {
    /// An event with the same data.
    fn clone(&self) -> (c: Self)
        ensures
            same_event(c, *self),
    {
        match self {
            SimEvent::EntitySpawned { entity_id, generation, parent_id } => SimEvent::EntitySpawned {
                entity_id: *entity_id,
                generation: *generation,
                parent_id: *parent_id,
            },
            SimEvent::EntityDied { entity_id, age, cause } => SimEvent::EntityDied {
                entity_id: *entity_id,
                age: *age,
                cause: *cause,
            },
            SimEvent::EntityMoved { entity_id } => SimEvent::EntityMoved { entity_id: *entity_id },
            SimEvent::EntityAte { entity_id, resource_id } => SimEvent::EntityAte {
                entity_id: *entity_id,
                resource_id: *resource_id,
            },
            SimEvent::EntityReproduced { parent_id, offspring_id } => SimEvent::EntityReproduced {
                parent_id: *parent_id,
                offspring_id: *offspring_id,
            },
            SimEvent::ResourceDepleted { resource_id } => SimEvent::ResourceDepleted {
                resource_id: *resource_id,
            },
            SimEvent::ResourceRegrown { resource_id } => SimEvent::ResourceRegrown {
                resource_id: *resource_id,
            },
            SimEvent::EntityAttacked { attacker_id, target_id, target_killed, heavy_hit } =>
                SimEvent::EntityAttacked {
                attacker_id: *attacker_id,
                target_id: *target_id,
                target_killed: *target_killed,
                heavy_hit: *heavy_hit,
            },
            SimEvent::CompositeReproduced { parent_id, offspring_id } => SimEvent::CompositeReproduced {
                parent_id: *parent_id,
                offspring_id: *offspring_id,
            },
            SimEvent::CompositeFormed { leader_id, member_id } => SimEvent::CompositeFormed {
                leader_id: *leader_id,
                member_id: *member_id,
            },
            SimEvent::CompositeDecomposed { leader_id, released_member_ids } =>
                SimEvent::CompositeDecomposed {
                leader_id: *leader_id,
                released_member_ids: copy_vec(released_member_ids),
            },
        }
    }
}

} // verus!
