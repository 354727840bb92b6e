//! How narratively interesting an event is.
use crate::events::types::{DeathCause, SimEvent};
use vstd::prelude::*;

verus! {

/// The significance score of an event, in hundredths: from 0 (routine) to
/// 100 (most interesting).
pub open spec fn significance(e: SimEvent) -> u32 {
    match e {
        SimEvent::EntitySpawned { parent_id, .. } => if parent_id is Some {
            30
        } else {
            20
        },
        SimEvent::EntityDied { age, cause, .. } => match cause {
            DeathCause::Combat { .. } => 80,
            DeathCause::OldAge => if age > 3000 {
                60
            } else {
                30
            },
            DeathCause::Starvation => 40,
        },
        SimEvent::EntityMoved { .. } => 5,
        SimEvent::EntityAte { .. } => 5,
        SimEvent::EntityReproduced { .. } => 40,
        SimEvent::ResourceDepleted { .. } => 10,
        SimEvent::ResourceRegrown { .. } => 2,
        SimEvent::EntityAttacked { target_killed, heavy_hit, .. } => if target_killed {
            70
        } else if heavy_hit {
            50
        } else {
            30
        },
        SimEvent::CompositeReproduced { .. } => 60,
        SimEvent::CompositeFormed { .. } => 70,
        SimEvent::CompositeDecomposed { .. } => 50,
    }
}

/// Minimum significance, in hundredths, for an event to be worth tracking.
pub const SIGNIFICANCE_THRESHOLD: u32 = 25;

/// Significance score of an event, in hundredths (0 to 100): births with a
/// parent score above spontaneous spawns, combat deaths highest, deaths of
/// old age above 3000 ticks of age above younger ones, near-kill attacks
/// above heavy hits above other attacks.
pub fn score_event(event: &SimEvent) -> (s: u32)
    ensures
        s == significance(*event),
        s <= 100,
{
    match event {
        SimEvent::EntitySpawned { parent_id, .. } => {
            if parent_id.is_some() {
                30
            } else {
                20
            }
        },
        SimEvent::EntityDied { age, cause, .. } => match cause {
            DeathCause::Combat { .. } => 80,
            DeathCause::OldAge => {
                if *age > 3000 {
                    60
                } else {
                    30
                }
            },
            DeathCause::Starvation => 40,
        },
        SimEvent::EntityMoved { .. } => 5,
        SimEvent::EntityAte { .. } => 5,
        SimEvent::EntityReproduced { .. } => 40,
        SimEvent::ResourceDepleted { .. } => 10,
        SimEvent::ResourceRegrown { .. } => 2,
        SimEvent::EntityAttacked { target_killed, heavy_hit, .. } => {
            if *target_killed {
                70
            } else if *heavy_hit {
                50
            } else {
                30
            }
        },
        SimEvent::CompositeReproduced { .. } => 60,
        SimEvent::CompositeFormed { .. } => 70,
        SimEvent::CompositeDecomposed { .. } => 50,
    }
}

/// Whether an event is significant enough to track.
pub fn is_significant(event: &SimEvent) -> (r: bool)
    ensures
        r == (significance(*event) >= SIGNIFICANCE_THRESHOLD),
{
    score_event(event) >= SIGNIFICANCE_THRESHOLD
}

/// Law: every score lies between 0 and 100; deaths, attacks and
/// reproduction are significant, while movement, feeding and resource
/// events are not (a spawn's significance depends on whether it has a
/// parent, and is not stated here).
pub proof fn law_significance_classes(e: SimEvent)
    ensures
        significance(e) <= 100,
        e is EntityDied ==> significance(e) >= SIGNIFICANCE_THRESHOLD,
        e is EntityAttacked ==> significance(e) >= SIGNIFICANCE_THRESHOLD,
        e is EntityReproduced ==> significance(e) >= SIGNIFICANCE_THRESHOLD,
        (e is EntityMoved || e is EntityAte || e is ResourceDepleted || e is ResourceRegrown)
            ==> significance(e) < SIGNIFICANCE_THRESHOLD,
{
}

} // verus!
