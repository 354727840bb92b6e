//! What the main loop does after a tick, decided from the tick number.
use crate::engine::perf::PerformanceStats;
use vstd::prelude::*;

verus! {

/// Ticks between refreshes of the snapshot sent to newly connecting viewers.
pub const VIEWER_SNAPSHOT_INTERVAL: u64 = 100;

/// Ticks between progress log lines.
pub const PROGRESS_LOG_INTERVAL: u64 = 1000;

/// The periodic actions due after a tick.
#[derive(Debug, Clone, Copy, PartialEq, Eq, Structural)]
pub struct TickActions {
    /// Log the performance summary.
    pub log_perf: bool,
    /// Refresh the snapshot handed to newly connecting viewers.
    pub refresh_viewer_snapshot: bool,
    /// Write a snapshot to disk.
    pub save_snapshot: bool,
    /// Log a progress line.
    pub log_progress: bool,
}

/// Whether the performance summary is due: statistics present, enabled,
/// holding at least one tick, at a multiple of their log interval.
pub open spec fn perf_log_due(stats: Option<PerformanceStats>, tick: u64) -> bool {
    match stats {
        Some(s) => s.enabled && s.tick_timing.count > 0 && tick % s.log_interval == 0,
        None => false,
    }
}

/// The periodic actions due after `tick`.
///
/// A snapshot interval of 0 disables disk snapshots. When performance
/// statistics are enabled and hold a tick, their log interval must not be 0.
pub fn tick_actions(tick: u64, snapshot_interval: u64, perf: &Option<PerformanceStats>) -> (a: TickActions)
    requires
        perf matches Some(s) ==> (s.enabled && s.tick_timing.count > 0 ==> s.log_interval > 0),
    ensures
        a.log_perf == perf_log_due(*perf, tick),
        a.refresh_viewer_snapshot == (tick % VIEWER_SNAPSHOT_INTERVAL == 0),
        a.save_snapshot == (snapshot_interval > 0 && tick % snapshot_interval == 0),
        a.log_progress == (tick % PROGRESS_LOG_INTERVAL == 0),
{
    let log_perf = match perf {
        Some(s) => s.enabled && s.tick_timing.count > 0 && tick % s.log_interval == 0,
        None => false,
    };
    TickActions {
        log_perf,
        refresh_viewer_snapshot: tick % VIEWER_SNAPSHOT_INTERVAL == 0,
        save_snapshot: snapshot_interval > 0 && tick % snapshot_interval == 0,
        log_progress: tick % PROGRESS_LOG_INTERVAL == 0,
    }
}

} // verus!
