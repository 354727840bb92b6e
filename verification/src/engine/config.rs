//! Defaults of the simulation configuration.
use vstd::prelude::*;

verus! {

/// Default snapshot interval: every 1000 ticks.
pub fn default_snapshot_interval() -> (n: u64)
    ensures
        n == 1000,
{
    1000
}

/// Default directory for snapshot files: "snapshots".
pub fn default_snapshot_dir() -> (d: String)
    ensures
        d@ == "snapshots"@,
{
    String::from_str("snapshots")
}

} // verus!
