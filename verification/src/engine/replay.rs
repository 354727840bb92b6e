//! Choosing the tick a replay runs to.
use vstd::prelude::*;

verus! {

/// Why a replay cannot run.
#[derive(Debug, Clone, Copy, PartialEq, Eq, Structural)]
pub enum ReplayError {
    /// The requested tick lies before the snapshot's tick.
    TargetBeforeSnapshot { target_tick: u64, snapshot_tick: u64 },
}

/// The tick a replay from a snapshot taken at `start_tick` runs to: the
/// requested tick, or the snapshot's own tick when none is requested. A
/// requested tick before the snapshot is refused.
pub fn replay_target(start_tick: u64, to_tick: Option<u64>) -> (r: Result<u64, ReplayError>)
    ensures
        to_tick is None ==> r == Ok::<u64, ReplayError>(start_tick),
        to_tick matches Some(t) ==> (t >= start_tick ==> r == Ok::<u64, ReplayError>(t)),
        to_tick matches Some(t) ==> (t < start_tick ==> r == Err::<u64, ReplayError>(
            ReplayError::TargetBeforeSnapshot { target_tick: t, snapshot_tick: start_tick },
        )),
{
    let target_tick = match to_tick {
        Some(t) => t,
        None => start_tick,
    };
    if target_tick < start_tick {
        Err(ReplayError::TargetBeforeSnapshot { target_tick, snapshot_tick: start_tick })
    } else {
        Ok(target_tick)
    }
}

/// Number of ticks a replay runs: from the snapshot's tick to the target.
pub fn ticks_to_replay(start_tick: u64, target_tick: u64) -> (n: u64)
    requires
        start_tick <= target_tick,
    ensures
        n == target_tick - start_tick,
{
    target_tick - start_tick
}

} // verus!
