use simulation_engine::civilization::hierarchy::{detect_role_kind, role_distribution, DetectedRole};
use std::collections::HashMap;

use simulation_engine::civilization::culture::compute_bt_pattern_hash;
use simulation_engine::civilization::neat::NeatGenome;
use simulation_engine::civilization::settlement::{
    cluster_entities, settlement_clusters, ProductionStats, SettlementRound, MIN_SETTLEMENT_POPULATION,
};
use simulation_engine::civilization::trade::{
    detect_trade_trips, observe_entity, prune_inactive_routes, EntityMovementRecord, TradeRoute,
};

#[test]
fn bt_pattern_hash_deterministic() {
    let counts = vec![{
        let mut m = HashMap::new();
        m.insert("Eat".to_string(), 10u64);
        m.insert("Wander".to_string(), 5);
        m
    }];
    let hash1 = compute_bt_pattern_hash(&counts);
    let hash2 = compute_bt_pattern_hash(&counts);
    assert_eq!(hash1, hash2);
}

#[test]
fn bt_pattern_hash_different_inputs() {
    let counts1 = vec![{
        let mut m = HashMap::new();
        m.insert("Eat".to_string(), 10u64);
        m
    }];
    let counts2 = vec![{
        let mut m = HashMap::new();
        m.insert("Attack".to_string(), 10u64);
        m
    }];
    let hash1 = compute_bt_pattern_hash(&counts1);
    let hash2 = compute_bt_pattern_hash(&counts2);
    assert_ne!(hash1, hash2);
}

#[test]
fn bt_pattern_hash_empty() {
    assert_eq!(compute_bt_pattern_hash(&[]), 0);
}

/// FNV-1a computed by hand over the sorted tally "A"=1, "B"=2.
fn fnv_reference(entries: &[(&str, u64)]) -> u64 {
    let mut h: u64 = 0xcbf29ce484222325;
    for (k, c) in entries {
        for b in k.bytes() {
            h ^= b as u64;
            h = h.wrapping_mul(0x100000001b3);
        }
        h ^= *c;
        h = h.wrapping_mul(0x100000001b3);
    }
    h
}

#[test]
fn bt_pattern_hash_exact_value_sorted_and_summed() {
    let mut m1 = HashMap::new();
    m1.insert("B".to_string(), 1u64);
    m1.insert("A".to_string(), 1u64);
    let mut m2 = HashMap::new();
    m2.insert("B".to_string(), 1u64);
    let got = compute_bt_pattern_hash(&[m1, m2]);
    assert_eq!(got, fnv_reference(&[("A", 1), ("B", 2)]));
}

#[test]
fn bt_pattern_hash_member_order_irrelevant() {
    let mut m1 = HashMap::new();
    m1.insert("Eat".to_string(), 3u64);
    let mut m2 = HashMap::new();
    m2.insert("Flee".to_string(), 4u64);
    m2.insert("Eat".to_string(), 1u64);
    let a = compute_bt_pattern_hash(&[m1.clone(), m2.clone()]);
    let b = compute_bt_pattern_hash(&[m2, m1]);
    assert_eq!(a, b);
}

#[test]
fn bt_pattern_hash_empty_tables_give_offset_basis() {
    let counts: Vec<HashMap<String, u64>> = vec![HashMap::new(), HashMap::new()];
    assert_eq!(compute_bt_pattern_hash(&counts), 0xcbf29ce484222325);
}

#[test]
fn neat_genome_minimal() {
    let genome = NeatGenome::new_minimal(5, 3);
    assert_eq!(genome.input_count, 5);
    assert_eq!(genome.output_count, 3);
    assert_eq!(genome.connection_count, 0);
    assert_eq!(genome.complexity(), 0);
}

#[test]
fn trade_route_new_defaults() {
    let route = TradeRoute::new(1, 2, 100);
    assert_eq!(route.from_settlement, 1);
    assert_eq!(route.to_settlement, 2);
    assert_eq!(route.volume, 0);
    assert_eq!(route.trip_count, 0);
    assert!(route.resource_type.is_none());
}

#[test]
fn trade_route_record_trip() {
    let mut route = TradeRoute::new(1, 2, 100);
    route.record_trip(Some("food"), 5, 110);
    assert_eq!(route.trip_count, 1);
    assert_eq!(route.volume, 5);
    assert_eq!(route.resource_type.as_deref(), Some("food"));
    assert_eq!(route.last_active_tick, 110);
}

#[test]
fn trade_route_record_trip_without_type_keeps_type() {
    let mut route = TradeRoute::new(1, 2, 100);
    route.record_trip(Some("wood"), 2, 105);
    route.record_trip(None, 3, 120);
    assert_eq!(route.trip_count, 2);
    assert_eq!(route.volume, 5);
    assert_eq!(route.resource_type.as_deref(), Some("wood"));
    assert_eq!(route.last_active_tick, 120);
}

#[test]
fn trade_route_is_active() {
    let route = TradeRoute::new(1, 2, 100);
    assert!(route.is_active(150, 100)); // within max_age
    assert!(!route.is_active(250, 100)); // beyond max_age
}

#[test]
fn trade_route_is_active_edges() {
    let route = TradeRoute::new(1, 2, 100);
    assert!(route.is_active(200, 100)); // exactly max_age
    assert!(!route.is_active(201, 100));
    assert!(route.is_active(50, 0)); // before the last trip: no time has passed
}

#[test]
fn trade_route_key_is_sorted() {
    let route1 = TradeRoute::new(5, 2, 0);
    let route2 = TradeRoute::new(2, 5, 0);
    assert_eq!(route1.route_key(), (2, 5));
    assert_eq!(route2.route_key(), (2, 5));
}

#[test]
fn prune_removes_old_routes() {
    let mut routes = HashMap::new();
    routes.insert((1, 2), TradeRoute::new(1, 2, 50));
    routes.insert((3, 4), TradeRoute::new(3, 4, 150));

    prune_inactive_routes(&mut routes, 200, 100);

    assert_eq!(routes.len(), 1);
    assert!(routes.contains_key(&(3, 4)));
}

#[test]
fn prune_keeps_route_exactly_at_limit() {
    let mut routes = HashMap::new();
    routes.insert((1, 2), TradeRoute::new(1, 2, 100));
    routes.insert((3, 4), TradeRoute::new(3, 4, 99));
    prune_inactive_routes(&mut routes, 200, 100);
    assert_eq!(routes.len(), 1);
    assert_eq!(routes[&(1, 2)].last_active_tick, 100);
}

// The confidence of a role assignment is real-valued and computed outside
// the library; these check the role.

#[test]
fn detect_role_gatherer() {
    // feed 20, attack 2, build 1, moved 100.0
    assert_eq!(detect_role_kind(20, 2, 1, false), DetectedRole::Gatherer);
}

#[test]
fn detect_role_warrior() {
    assert_eq!(detect_role_kind(3, 25, 1, false), DetectedRole::Warrior);
}

#[test]
fn detect_role_builder() {
    assert_eq!(detect_role_kind(1, 2, 30, false), DetectedRole::Builder);
}

#[test]
fn detect_role_explorer() {
    // moved 800.0 > 500 with 3 activities
    assert_eq!(detect_role_kind(2, 1, 0, true), DetectedRole::Explorer);
}

#[test]
fn detect_role_generalist_no_activity() {
    assert_eq!(detect_role_kind(0, 0, 0, true), DetectedRole::Generalist);
}

#[test]
fn detect_role_ties_and_busy_travellers() {
    assert_eq!(detect_role_kind(4, 4, 4, false), DetectedRole::Gatherer);
    assert_eq!(detect_role_kind(1, 4, 4, false), DetectedRole::Warrior);
    // ten activities: far travel no longer makes an explorer
    assert_eq!(detect_role_kind(5, 3, 2, true), DetectedRole::Gatherer);
}

#[test]
fn bt_pattern_hash_depends_only_on_aggregate() {
    let split = vec![
        {
            let mut m = HashMap::new();
            m.insert("Eat".to_string(), 3u64);
            m.insert("Rest".to_string(), 1u64);
            m
        },
        {
            let mut m = HashMap::new();
            m.insert("Eat".to_string(), 7u64);
            m
        },
    ];
    let merged = vec![{
        let mut m = HashMap::new();
        m.insert("Rest".to_string(), 1u64);
        m.insert("Eat".to_string(), 10u64);
        m
    }];
    let reversed: Vec<HashMap<String, u64>> = split.iter().rev().cloned().collect();
    assert_eq!(compute_bt_pattern_hash(&split), compute_bt_pattern_hash(&merged));
    assert_eq!(compute_bt_pattern_hash(&split), compute_bt_pattern_hash(&reversed));
}

#[test]
fn role_distribution_counts() {
    let roles = vec![DetectedRole::Gatherer, DetectedRole::Gatherer, DetectedRole::Warrior, DetectedRole::Builder];
    let dist: HashMap<DetectedRole, usize> = role_distribution(&roles).into_iter().collect();
    assert_eq!(dist[&DetectedRole::Gatherer], 2);
    assert_eq!(dist[&DetectedRole::Warrior], 1);
    assert_eq!(dist[&DetectedRole::Builder], 1);
    assert_eq!(dist.len(), 3);
}

#[test]
fn role_distribution_lists_each_role_once_in_first_seen_order() {
    let roles = vec![DetectedRole::Explorer, DetectedRole::Gatherer, DetectedRole::Explorer];
    assert_eq!(
        role_distribution(&roles),
        vec![(DetectedRole::Explorer, 2), (DetectedRole::Gatherer, 1)]
    );
    assert!(role_distribution(&[]).is_empty());
}

#[test]
fn detect_trade_trip_between_settlements() {
    let mut records: HashMap<u64, EntityMovementRecord> = HashMap::new();
    let mut routes: HashMap<(u64, u64), TradeRoute> = HashMap::new();

    // Entity 100 starts near settlement 1 carrying items.
    detect_trade_trips(&mut records, &[(100, Some(1), true)], &mut routes, 100);
    // It arrives near settlement 2 still carrying items.
    detect_trade_trips(&mut records, &[(100, Some(2), true)], &mut routes, 110);

    assert_eq!(routes.len(), 1);
    let route = routes.values().next().unwrap();
    assert_eq!(route.trip_count, 1);
    assert_eq!(route.volume, 1);
    assert_eq!(route.last_active_tick, 110);
    assert_eq!((route.from_settlement, route.to_settlement), (1, 2));
}

#[test]
fn no_trade_without_carrying() {
    let mut records: HashMap<u64, EntityMovementRecord> = HashMap::new();
    let mut routes: HashMap<(u64, u64), TradeRoute> = HashMap::new();

    detect_trade_trips(&mut records, &[(100, Some(1), false)], &mut routes, 100);
    detect_trade_trips(&mut records, &[(100, Some(2), false)], &mut routes, 110);

    assert!(routes.is_empty());
    assert_eq!(records[&100].last_settlement_id, Some(2));
}

#[test]
fn trips_both_ways_share_one_route() {
    let mut records: HashMap<u64, EntityMovementRecord> = HashMap::new();
    let mut routes: HashMap<(u64, u64), TradeRoute> = HashMap::new();
    detect_trade_trips(&mut records, &[(7, Some(5), true), (8, Some(3), true)], &mut routes, 1);
    detect_trade_trips(&mut records, &[(7, Some(3), true), (8, Some(5), true)], &mut routes, 2);
    assert_eq!(routes.len(), 1);
    let route = &routes[&(3, 5)];
    assert_eq!(route.trip_count, 2);
    // The route keeps the direction of its first trip.
    assert_eq!((route.from_settlement, route.to_settlement), (5, 3));
}

#[test]
fn observe_entity_away_from_settlements_keeps_last_one_forgotten() {
    let mut records: HashMap<u64, EntityMovementRecord> = HashMap::new();
    let mut routes: HashMap<(u64, u64), TradeRoute> = HashMap::new();
    observe_entity(&mut records, &mut routes, 1, Some(4), true, 10);
    // Leaving the settlement area forgets where it was.
    observe_entity(&mut records, &mut routes, 1, None, true, 11);
    observe_entity(&mut records, &mut routes, 1, Some(6), true, 12);
    assert!(routes.is_empty());
    assert_eq!(
        records[&1],
        EntityMovementRecord { entity_id: 1, last_settlement_id: Some(6), carrying_items: true }
    );
}

// -- Settlement clusters --

const SETTLEMENT_RADIUS: f64 = 60.0;

/// Which pairs of points lie within the settlement radius of each other.
fn nearness(points: &[(f64, f64)]) -> Vec<Vec<bool>> {
    points
        .iter()
        .map(|a| {
            points
                .iter()
                .map(|b| {
                    let (dx, dy) = (a.0 - b.0, a.1 - b.1);
                    dx * dx + dy * dy <= SETTLEMENT_RADIUS * SETTLEMENT_RADIUS
                })
                .collect()
        })
        .collect()
}

#[test]
fn detect_clusters_finds_nearby_same_tribe() {
    let near = nearness(&[(10.0, 10.0), (15.0, 10.0), (12.0, 12.0)]);
    let clusters = settlement_clusters(&near);
    assert_eq!(clusters.len(), 1);
    assert_eq!(clusters[0].len(), 3);
    // Depth-first order: the last neighbour pushed is visited next.
    assert_eq!(clusters[0], vec![0, 2, 1]);
}

#[test]
fn detect_clusters_rejects_small_groups() {
    let near = nearness(&[(10.0, 10.0), (15.0, 10.0)]);
    assert!(settlement_clusters(&near).is_empty());
    assert_eq!(cluster_entities(&near), vec![vec![0, 1]]);
    assert_eq!(MIN_SETTLEMENT_POPULATION, 3);
}

#[test]
fn detect_clusters_splits_distant_groups() {
    let near = nearness(&[
        (10.0, 10.0),
        (15.0, 10.0),
        (12.0, 12.0),
        (500.0, 500.0),
        (505.0, 500.0),
        (502.0, 502.0),
    ]);
    let clusters = settlement_clusters(&near);
    assert_eq!(clusters.len(), 2);
    let mut first = clusters[0].clone();
    let mut second = clusters[1].clone();
    first.sort();
    second.sort();
    assert_eq!(first, vec![0, 1, 2]);
    assert_eq!(second, vec![3, 4, 5]);
}

#[test]
fn clusters_follow_chains_of_near_points() {
    // A chain 0 - 1 - 2 where 0 and 2 are not near each other, and an
    // isolated point 3.
    let near = nearness(&[(0.0, 0.0), (50.0, 0.0), (100.0, 0.0), (400.0, 0.0)]);
    assert!(!near[0][2]);
    assert_eq!(cluster_entities(&near), vec![vec![0, 1, 2], vec![3]]);
    assert!(cluster_entities(&Vec::new()).is_empty());
}

#[test]
fn settlement_record_production() {
    let mut stats = ProductionStats::new();
    stats.record_production("food", 10);
    stats.record_production("food", 5);
    stats.record_production("stone", 3);
    assert_eq!(stats.get("food"), Some(15));
    assert_eq!(stats.get("stone"), Some(3));
    assert_eq!(stats.get("wood"), None);
}

#[test]
fn settlement_dominant_resource() {
    let mut stats = ProductionStats::new();
    stats.record_production("food", 10);
    stats.record_production("stone", 20);
    let (name, count) = stats.dominant_resource().unwrap();
    assert_eq!(name, "stone");
    assert_eq!(count, 20);
}

#[test]
fn settlement_dominant_resource_empty() {
    let stats = ProductionStats::new();
    assert!(stats.is_empty());
    assert!(stats.dominant_resource().is_none());
}

#[test]
fn dominant_resource_tie_takes_last_listed() {
    let mut stats = ProductionStats::new();
    stats.record_production("food", 7);
    stats.record_production("stone", 7);
    stats.record_production("wood", 2);
    assert_eq!(stats.dominant_resource(), Some(("stone".to_string(), 7)));
}

#[test]
fn bt_pattern_hash_depends_only_on_summed_counts() {
    let table = |pairs: &[(&str, u64)]| -> HashMap<String, u64> {
        pairs.iter().map(|(k, v)| (k.to_string(), *v)).collect()
    };
    let split = vec![table(&[("Sequence", 2), ("Action", 1)]), table(&[("Action", 4)]), table(&[])];
    let merged = vec![table(&[("Action", 5), ("Sequence", 2)])];
    assert_eq!(compute_bt_pattern_hash(&split), compute_bt_pattern_hash(&merged));
    let other = vec![table(&[("Action", 5), ("Sequence", 3)])];
    assert_ne!(compute_bt_pattern_hash(&split), compute_bt_pattern_hash(&other));
}

#[test]
fn cluster_members_in_depth_first_order() {
    // All three points near each other: the search visits 0, then the last
    // neighbour pushed (2), then 1.
    let near = vec![vec![true, true, true], vec![true, true, true], vec![true, true, true]];
    assert_eq!(cluster_entities(&near), vec![vec![0, 2, 1]]);
    // A chain 0-1-2 and a lone point 3.
    let near = vec![
        vec![true, true, false, false],
        vec![true, true, true, false],
        vec![false, true, true, false],
        vec![false, false, false, true],
    ];
    assert_eq!(cluster_entities(&near), vec![vec![0, 1, 2], vec![3]]);
}

#[test]
fn settlement_round_allocates_and_keeps() {
    let mut round = SettlementRound::new(7);
    assert_eq!(round.place(None), 7);
    assert_eq!(round.place(Some(3)), 3);
    assert_eq!(round.place(None), 8);
    assert_eq!(round.next_id(), 9);
    assert!(round.keeps(7) && round.keeps(3) && round.keeps(8));
    assert!(!round.keeps(4));
    assert!(!SettlementRound::new(0).keeps(0));
}
