use std::time::Duration;

use rand::Rng;
use simulation_engine::engine::config::{default_snapshot_dir, default_snapshot_interval};
use simulation_engine::engine::perf::{time_system, PerformanceStats, SystemTiming, DURATION_MAX_NANOS};
use simulation_engine::engine::replay::{replay_target, ticks_to_replay, ReplayError};
use simulation_engine::engine::rng::SimulationRng;
use simulation_engine::engine::snapshot::{compress_snapshot, decompress_snapshot, SnapshotError};

fn ns(d: Duration) -> u128 {
    d.as_nanos()
}

#[test]
fn system_timing_records_min_max() {
    let mut timing = SystemTiming::default();
    timing.record(ns(Duration::from_micros(100)));
    timing.record(ns(Duration::from_micros(200)));
    timing.record(ns(Duration::from_micros(50)));

    assert_eq!(timing.min, ns(Duration::from_micros(50)));
    assert_eq!(timing.max, ns(Duration::from_micros(200)));
    assert_eq!(timing.count, 3);
    assert_eq!(timing.last, ns(Duration::from_micros(50)));
}

#[test]
fn system_timing_avg() {
    let mut timing = SystemTiming::default();
    timing.record(ns(Duration::from_micros(100)));
    timing.record(ns(Duration::from_micros(200)));

    // Average of 100us and 200us = 150us
    assert_eq!(timing.avg(), ns(Duration::from_micros(150)));
}

#[test]
fn system_timing_avg_rounds_down_like_duration() {
    let mut timing = SystemTiming::default();
    timing.record(1);
    timing.record(2);
    timing.record(2);
    assert_eq!(timing.avg(), ns(Duration::from_nanos(5) / 3));
    assert_eq!(timing.avg(), 1);
}

#[test]
fn system_timing_avg_empty() {
    let timing = SystemTiming::default();
    assert_eq!(timing.avg(), ns(Duration::ZERO));
}

#[test]
fn system_timing_reset() {
    let mut timing = SystemTiming::default();
    timing.record(ns(Duration::from_micros(100)));
    timing.reset();

    assert_eq!(timing.count, 0);
    assert_eq!(timing.total, ns(Duration::ZERO));
    assert_eq!(timing.min, ns(Duration::MAX));
    assert_eq!(timing.max, ns(Duration::ZERO));
}

#[test]
fn duration_max_nanos_matches_std() {
    assert_eq!(DURATION_MAX_NANOS, Duration::MAX.as_nanos());
}

#[test]
fn performance_stats_record_system() {
    let mut stats = PerformanceStats::new(true);
    stats.record_system("perception", ns(Duration::from_micros(500)));
    stats.record_system("perception", ns(Duration::from_micros(300)));
    stats.record_system("drives", ns(Duration::from_micros(200)));

    assert_eq!(stats.systems.len(), 2);
    assert_eq!(stats.system("perception").unwrap().count, 2);
    assert_eq!(stats.system("drives").unwrap().count, 1);
}

#[test]
fn performance_stats_reset() {
    let mut stats = PerformanceStats::new(true);
    stats.record_system("perception", ns(Duration::from_micros(500)));
    stats.record_tick(ns(Duration::from_micros(1000)));
    stats.reset();

    assert!(stats.systems.is_empty());
    assert_eq!(stats.tick_timing.count, 0);
}

#[test]
fn performance_stats_new_defaults() {
    let stats = PerformanceStats::new(false);
    assert!(!stats.enabled);
    assert_eq!(stats.log_interval, 100);
    assert_eq!(stats.last_entity_count, 0);
    assert!(stats.system("anything").is_none());
}

#[test]
fn time_system_records_duration() {
    let mut stats = Some(PerformanceStats::new(true));
    let result = time_system(&mut stats, "test_system", || 42);

    assert_eq!(result, 42);
    let stats = stats.unwrap();
    assert_eq!(stats.system("test_system").unwrap().count, 1);
}

#[test]
fn time_system_disabled_skips_timing() {
    let mut stats = Some(PerformanceStats::new(false));
    let result = time_system(&mut stats, "test_system", || 42);

    assert_eq!(result, 42);
    let stats = stats.unwrap();
    assert!(stats.systems.is_empty(), "disabled stats should not record");
}

#[test]
fn time_system_none_stats() {
    let mut stats: Option<PerformanceStats> = None;
    let result = time_system(&mut stats, "test_system", || 42);

    assert_eq!(result, 42);
    assert!(stats.is_none());
}

#[test]
fn same_seed_same_sequence() {
    let rng_provider = SimulationRng::new(42);
    let mut rng1 = rng_provider.system_rng("movement");
    let mut rng2 = rng_provider.system_rng("movement");

    let values1: Vec<f64> = (0..10).map(|_| rng1.gen()).collect();
    let values2: Vec<f64> = (0..10).map(|_| rng2.gen()).collect();
    assert_eq!(values1, values2);
}

#[test]
fn different_systems_different_sequences() {
    let rng_provider = SimulationRng::new(42);
    let mut rng1 = rng_provider.system_rng("movement");
    let mut rng2 = rng_provider.system_rng("feeding");

    let val1: f64 = rng1.gen();
    let val2: f64 = rng2.gen();
    assert_ne!(val1, val2);
}

#[test]
fn tick_rng_is_deterministic() {
    let rng_provider = SimulationRng::new(42);
    let mut rng1 = rng_provider.tick_rng("movement", 100);
    let mut rng2 = rng_provider.tick_rng("movement", 100);

    let val1: f64 = rng1.gen();
    let val2: f64 = rng2.gen();
    assert_eq!(val1, val2);
}

#[test]
fn different_ticks_different_values() {
    let rng_provider = SimulationRng::new(42);
    let mut rng1 = rng_provider.tick_rng("movement", 1);
    let mut rng2 = rng_provider.tick_rng("movement", 2);

    let val1: f64 = rng1.gen();
    let val2: f64 = rng2.gen();
    assert_ne!(val1, val2);
}

#[test]
fn derive_seed_exact_value() {
    let rng = SimulationRng::new(7);
    // 7 * 31 + 'a'(97) = 314; 314 * 31 + 'b'(98) = 9832
    assert_eq!(rng.derive_seed("ab"), 9832);
    assert_eq!(rng.derive_seed(""), 7);
    assert_eq!(rng.master_seed(), 7);
}

#[test]
fn tick_rng_at_zero_matches_system_rng() {
    let provider = SimulationRng::new(9);
    let mut a = provider.tick_rng("feeding", 0);
    let mut b = provider.system_rng("feeding");
    let x: u64 = a.gen();
    let y: u64 = b.gen();
    assert_eq!(x, y);
}

#[test]
fn snapshot_error_display() {
    let err = SnapshotError::Io("file not found".to_string());
    let msg = err.message();
    assert!(msg.contains("IO error"));
    assert!(msg.contains("file not found"));
}

#[test]
fn snapshot_error_messages_exact() {
    assert_eq!(SnapshotError::Serialize("x".to_string()).message(), "serialize error: x");
    assert_eq!(SnapshotError::Deserialize("y".to_string()).message(), "deserialize error: y");
    assert_eq!(SnapshotError::Compress("z".to_string()).message(), "compression error: z");
    assert_eq!(SnapshotError::Decompress("w".to_string()).message(), "decompression error: w");
    assert_eq!(SnapshotError::Io("v".to_string()).message(), "IO error: v");
}

#[test]
fn config_defaults() {
    assert_eq!(default_snapshot_interval(), 1000);
    assert_eq!(default_snapshot_dir(), "snapshots");
}

#[test]
fn replay_target_defaults_to_snapshot_tick() {
    assert_eq!(replay_target(500, None), Ok(500));
    assert_eq!(replay_target(500, Some(800)), Ok(800));
    assert_eq!(replay_target(500, Some(500)), Ok(500));
    assert_eq!(ticks_to_replay(500, 800), 300);
}

#[test]
fn replay_target_before_snapshot_is_refused() {
    assert_eq!(
        replay_target(500, Some(499)),
        Err(ReplayError::TargetBeforeSnapshot { target_tick: 499, snapshot_tick: 500 })
    );
}

#[test]
fn compressed_snapshot_bytes_roundtrip() {
    let raw: Vec<u8> = (0..4000u32).map(|i| (i % 7) as u8).collect();
    let compressed = compress_snapshot(&raw).unwrap();
    // Repetitive bytes compress well.
    assert!(compressed.len() < raw.len());
    assert_ne!(compressed, raw);
    assert_eq!(decompress_snapshot(&compressed).unwrap(), raw);
}

#[test]
fn empty_snapshot_bytes_roundtrip() {
    let compressed = compress_snapshot(&[]).unwrap();
    assert!(!compressed.is_empty());
    assert_eq!(decompress_snapshot(&compressed).unwrap(), Vec::<u8>::new());
}

#[test]
fn deserialize_invalid_data_returns_error() {
    let result = decompress_snapshot(b"not valid snapshot data");
    match result {
        Err(SnapshotError::Decompress(_)) => {}
        other => panic!("expected a decompression error, got {:?}", other),
    }
}

#[test]
fn record_measured_counts_each_timing() {
    let mut stats = PerformanceStats::new(true);
    stats.record_measured("perception", 500);
    stats.record_measured("perception", 300);
    stats.record_measured("perception", DURATION_MAX_NANOS);
    let t = stats.system("perception").unwrap();
    assert_eq!(t.count, 3);
    assert_eq!(t.total, DURATION_MAX_NANOS);
    assert_eq!(t.last, DURATION_MAX_NANOS);
    assert_eq!(t.min, 300);
}

#[test]
fn record_measured_skips_a_full_count() {
    let mut stats = PerformanceStats::new(true);
    stats.systems.push((
        "full",
        SystemTiming { min: 1, max: 1, total: 1, count: u64::MAX, last: 1 },
    ));
    stats.record_measured("full", 7);
    assert_eq!(stats.system("full").unwrap().count, u64::MAX);
    assert_eq!(stats.system("full").unwrap().last, 1);
    stats.record_measured("other", DURATION_MAX_NANOS + 1);
    assert!(stats.system("other").is_none());
}

#[test]
fn time_system_times_every_call() {
    let mut stats = Some(PerformanceStats::new(true));
    for _ in 0..3 {
        time_system(&mut stats, "loop", || 1);
    }
    assert_eq!(stats.unwrap().system("loop").unwrap().count, 3);
}

#[test]
fn system_timing_avg_divides_by_full_count() {
    let t = SystemTiming { min: 1, max: 1, total: 1u128 << 40, count: 1u64 << 32, last: 1 };
    assert_eq!(t.avg(), 256);
}

#[test]
fn systems_by_cost_orders_by_average() {
    let mut stats = PerformanceStats::new(true);
    stats.record_system("cheap", 10);
    stats.record_system("dear", 500);
    stats.record_system("middle", 100);
    stats.record_system("middle", 200);
    let names: Vec<&str> = stats.systems_by_cost().iter().map(|e| e.0).collect();
    assert_eq!(names, vec!["dear", "middle", "cheap"]);
    assert!(PerformanceStats::new(true).systems_by_cost().is_empty());
}
