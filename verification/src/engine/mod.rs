pub mod config;
pub mod lod;
pub mod perf;
pub mod replay;
pub mod rng;
pub mod schedule;
pub mod snapshot;
