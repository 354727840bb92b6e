//! Seasons of the simulation year, and droughts.
use vstd::prelude::*;

verus! {

/// Length of one full seasonal cycle in ticks.
pub const SEASON_CYCLE_TICKS: u64 = 8000;

/// Length of one season in ticks (a quarter of the cycle).
pub const TICKS_PER_SEASON: u64 = 2000;

/// The four seasons.
#[derive(Debug, Clone, Copy, PartialEq, Eq, Structural)]
pub enum Season {
    Spring,
    Summer,
    Autumn,
    Winter,
}

/// The season of a tick: the cycle repeats every 8000 ticks, each season
/// lasting 2000, in the order Spring, Summer, Autumn, Winter.
pub open spec fn season_of(tick: u64) -> Season {
    let phase = tick % SEASON_CYCLE_TICKS;
    if phase / TICKS_PER_SEASON == 0 {
        Season::Spring
    } else if phase / TICKS_PER_SEASON == 1 {
        Season::Summer
    } else if phase / TICKS_PER_SEASON == 2 {
        Season::Autumn
    } else {
        Season::Winter
    }
}

/// Determine the season from the current tick.
pub fn season_from_tick(tick: u64) -> (s: Season)
    ensures
        s == season_of(tick),
{
    let phase = tick % SEASON_CYCLE_TICKS;
    match phase / TICKS_PER_SEASON {
        0 => Season::Spring,
        1 => Season::Summer,
        2 => Season::Autumn,
        _ => Season::Winter,
    }
}

/// Law: the seasons repeat every full cycle.
pub proof fn law_seasons_cycle(tick: u64)
    requires
        tick + SEASON_CYCLE_TICKS <= u64::MAX,
    ensures
        season_of((tick + SEASON_CYCLE_TICKS) as u64) == season_of(tick),
{
    assert(((tick + 8000) as u64) % 8000 == tick % 8000);
}

/// Ticks a drought lasts once it starts.
pub const DEFAULT_DROUGHT_DURATION: u64 = 500;

/// Whether a drought is under way, and how many ticks it has left.
#[derive(Debug, Clone, Copy, PartialEq, Eq, Structural)]
pub struct Drought {
    pub active: bool,
    pub ticks_remaining: u64,
}

/// The drought after one tick. A drought under way counts down (not below
/// zero) and is over once nothing is left, whatever the draw; without one,
/// a drought of the default duration starts when the tick's draw
/// (`starts`) says so, and otherwise nothing changes.
pub open spec fn drought_after(d: Drought, starts: bool) -> Drought {
    if d.active {
        let left: u64 = if d.ticks_remaining > 0 {
            (d.ticks_remaining - 1) as u64
        } else {
            0
        };
        Drought { active: left != 0, ticks_remaining: left }
    } else if starts {
        Drought { active: true, ticks_remaining: DEFAULT_DROUGHT_DURATION }
    } else {
        d
    }
}

/// The drought after a run of ticks, one draw per tick.
pub open spec fn drought_after_ticks(d: Drought, draws: Seq<bool>) -> Drought
    decreases draws.len(),
{
    if draws.len() == 0 {
        d
    } else {
        drought_after(drought_after_ticks(d, draws.drop_last()), draws.last())
    }
}

/// No drought, nothing left.
pub fn no_drought() -> (d: Drought)
    ensures
        !d.active,
        d.ticks_remaining == 0,
{
    Drought { active: false, ticks_remaining: 0 }
}

/// One tick of drought management; `starts` is whether this tick's draw
/// starts a drought, and is only read when none is under way.
pub fn drought_step(d: Drought, starts: bool) -> (next: Drought)
    ensures
        next == drought_after(d, starts),
{
    if d.active {
        let mut left = d.ticks_remaining;
        if left > 0 {
            left = left - 1;
        }
        Drought { active: left != 0, ticks_remaining: left }
    } else if starts {
        Drought { active: true, ticks_remaining: DEFAULT_DROUGHT_DURATION }
    } else {
        d
    }
}

/// A drought under way with `r` ticks left stays under way for the next
/// `k < r - 1` ticks with `r - k` left, whatever the draws.
proof fn lemma_drought_counts_down(d: Drought, draws: Seq<bool>)
    requires
        d.active,
        draws.len() + 1 < d.ticks_remaining,
    ensures
        drought_after_ticks(d, draws).active,
        drought_after_ticks(d, draws).ticks_remaining == d.ticks_remaining - draws.len(),
    decreases draws.len(),
{
    if draws.len() > 0 {
        lemma_drought_counts_down(d, draws.drop_last());
    }
}

/// Law: droughts end. One under way with `r >= 1` ticks left is still under
/// way after `r - 1` more ticks and over after `r`, whatever the draws of
/// those ticks.
pub proof fn law_drought_ends(d: Drought, draws: Seq<bool>)
    requires
        d.active,
        d.ticks_remaining >= 1,
        draws.len() == d.ticks_remaining,
    ensures
        drought_after_ticks(d, draws.take(d.ticks_remaining - 1)).active,
        !drought_after_ticks(d, draws).active,
{
    let r = d.ticks_remaining as int;
    if r >= 2 {
        if r >= 3 {
            lemma_drought_counts_down(d, draws.take(r - 2));
        }
        let before = drought_after_ticks(d, draws.take(r - 2));
        assert(before.active && before.ticks_remaining == 2);
        assert(draws.take(r - 1).drop_last() =~= draws.take(r - 2));
        assert(draws.drop_last() =~= draws.take(r - 1));
    } else {
        assert(draws.take(0) =~= Seq::<bool>::empty());
        assert(draws.drop_last() =~= Seq::<bool>::empty());
    }
}

} // verus!
