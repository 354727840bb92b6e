use std::collections::HashMap;

use simulation_engine::events::types::{DeathCause, SimEvent};
use simulation_engine::narrative::arcs::{ArcDetector, ArcType, StoryArc, Tension};
use simulation_engine::narrative::biography::{BiographyCompiler, BiographyEventKind};
use simulation_engine::narrative::ledgers::{extinct_species, AttackLedger, DominanceLedger, PairMap};
use simulation_engine::narrative::significance::{is_significant, score_event, SIGNIFICANCE_THRESHOLD};
use simulation_engine::narrative::tracker::{event_involves_entity, EventSearchCriteria, NarrativeTracker};

fn attack(attacker: u64, target: u64) -> SimEvent {
    SimEvent::EntityAttacked { attacker_id: attacker, target_id: target, target_killed: false, heavy_hit: false }
}

fn make_spawn(id: u64) -> SimEvent {
    SimEvent::EntitySpawned { entity_id: id, generation: 0, parent_id: None }
}

fn tension_value(t: Tension) -> f64 {
    t.num as f64 / t.den as f64
}

fn no_moves(events: &[SimEvent]) -> Vec<bool> {
    vec![false; events.len()]
}

// ---------------------------------------------------------------------------
// Arcs
// ---------------------------------------------------------------------------

#[test]
fn rivalry_detected_after_mutual_attacks() {
    let mut detector = ArcDetector::new();

    // Entity 1 attacks entity 2 twice
    let events1 = vec![attack(1, 2)];
    assert!(detector.process_events(&events1, &no_moves(&events1), 1).is_empty());
    assert!(detector.process_events(&events1, &no_moves(&events1), 2).is_empty());

    // Entity 2 attacks entity 1 once -- total mutual attacks = 3
    let events2 = vec![attack(2, 1)];
    let new_arcs = detector.process_events(&events2, &no_moves(&events2), 3);
    assert_eq!(new_arcs.len(), 1);
    assert_eq!(new_arcs[0].arc_type, ArcType::Rivalry);
    assert!(new_arcs[0].protagonists.contains(&1));
    assert!(new_arcs[0].protagonists.contains(&2));
}

#[test]
fn no_rivalry_with_insufficient_attacks() {
    let mut detector = ArcDetector::new();
    let events = vec![attack(1, 2)];
    let new_arcs = detector.process_events(&events, &no_moves(&events), 1);
    assert!(new_arcs.is_empty());
}

#[test]
fn extinction_detected_when_species_reaches_zero() {
    let mut detector = ArcDetector::new();

    let mut pop = HashMap::new();
    pop.insert(100, 5);
    detector.update_species_populations(&pop, 10);

    pop.insert(100, 0);
    let new_arcs = detector.update_species_populations(&pop, 20);
    assert_eq!(new_arcs.len(), 1);
    assert_eq!(new_arcs[0].arc_type, ArcType::Extinction);
    assert!(!new_arcs[0].active);
}

#[test]
fn rise_detected_after_enough_offspring_and_kills() {
    let mut detector = ArcDetector::new();

    // Entity 1 reproduces 5 times
    for tick in 1..=5 {
        let events = vec![SimEvent::EntityReproduced { parent_id: 1, offspring_id: 100 + tick }];
        let arcs = detector.process_events(&events, &no_moves(&events), tick);
        if tick == 5 {
            assert_eq!(arcs.len(), 1, "Rise should be detected at tick 5");
            assert_eq!(arcs[0].arc_type, ArcType::Rise);
        }
    }
}

#[test]
fn fall_detected_on_dominant_entity_death() {
    let mut detector = ArcDetector::new();

    // Build up dominance first
    for tick in 1..=5 {
        let events = vec![SimEvent::EntityReproduced { parent_id: 1, offspring_id: 100 + tick }];
        detector.process_events(&events, &no_moves(&events), tick);
    }

    // Entity 1 dies
    let death = vec![SimEvent::EntityDied { entity_id: 1, age: 1000, cause: DeathCause::Starvation }];
    let arcs = detector.process_events(&death, &no_moves(&death), 10);
    let fall_arcs: Vec<_> = arcs.iter().filter(|a| a.arc_type == ArcType::Fall).collect();
    assert_eq!(fall_arcs.len(), 1, "Fall arc should be detected");
    assert!(!fall_arcs[0].active);
}

#[test]
fn alliance_detected_after_sustained_positive_relationship() {
    let mut detector = ArcDetector::new();

    // Report positive relationship for 500+ ticks
    for tick in 0..=500 {
        let result = detector.check_alliance(1, 2, true, tick);
        if tick == 500 {
            assert!(result.is_some(), "Alliance should be detected at tick 500");
            let arc = result.unwrap();
            assert_eq!(arc.arc_type, ArcType::Alliance);
        }
    }
}

#[test]
fn alliance_broken_by_negative_relationship() {
    let mut detector = ArcDetector::new();

    // Start positive
    for tick in 0..200 {
        detector.check_alliance(1, 2, true, tick);
    }

    // Relationship turns negative
    detector.check_alliance(1, 2, false, 200);

    // Resume positive -- counter should restart
    for tick in 201..700 {
        let result = detector.check_alliance(1, 2, true, tick);
        if tick < 701 {
            // 201 + 500 = 701, so at tick 700 duration = 499 which is not yet 500
            assert!(result.is_none(), "Alliance should not re-form too early at tick {}", tick);
        }
    }
}

#[test]
fn prune_old_records_removes_stale_attacks() {
    let mut detector = ArcDetector::new();
    let events = vec![attack(1, 2)];
    detector.process_events(&events, &no_moves(&events), 100);

    detector.prune_old_records(2000, 1000);
    // Attack at tick 100 is older than 2000 - 1000 = 1000, so should be pruned
    assert_eq!(detector.mutual_attack_count(1, 2), 0);
}

#[test]
fn story_arc_tension_updates() {
    let mut arc = StoryArc::new(ArcType::Rivalry, vec![1, 2], 0);
    assert!((tension_value(arc.current_tension()) - 0.3).abs() < f64::EPSILON);

    arc.add_tension(10, Tension { num: 7, den: 10 });
    assert!((tension_value(arc.current_tension()) - 0.7).abs() < f64::EPSILON);

    arc.complete(20);
    assert!(!arc.active);
    assert!((tension_value(arc.current_tension()) - 0.0).abs() < f64::EPSILON);
    assert_eq!(arc.end_tick, Some(20));
}

#[test]
fn active_arcs_filters_correctly() {
    let mut detector = ArcDetector::new();

    // Create a rivalry (active)
    for tick in 1..=3 {
        let events = vec![attack(1, 2)];
        detector.process_events(&events, &no_moves(&events), tick);
    }

    // Create an extinction (completed)
    let mut pop = HashMap::new();
    pop.insert(100, 5);
    detector.update_species_populations(&pop, 10);
    pop.insert(100, 0);
    detector.update_species_populations(&pop, 20);

    let active = detector.active_arcs();
    assert_eq!(active.len(), 1);
    assert_eq!(active[0].arc_type, ArcType::Rivalry);
}

#[test]
fn rivalry_detected_once_then_gains_tension() {
    let mut detector = ArcDetector::new();
    for tick in 1..=3 {
        let events = vec![attack(1, 2)];
        detector.process_events(&events, &no_moves(&events), tick);
    }
    assert_eq!(detector.arcs().len(), 1);
    let rivalry = &detector.arcs()[0];
    assert_eq!(rivalry.start_tick, 1); // the first attack
    assert_eq!(rivalry.protagonists, vec![1, 2]);
    // A fourth attack, the other way round: no new arc, tension 4/10 and a key event.
    let events = vec![attack(2, 1)];
    assert!(detector.process_events(&events, &no_moves(&events), 4).is_empty());
    assert_eq!(detector.arcs().len(), 1);
    let rivalry = &detector.arcs()[0];
    assert_eq!(rivalry.tension_curve.last().unwrap(), &(4, Tension { num: 4, den: 10 }));
    assert_eq!(rivalry.key_event_ticks, vec![1, 4]);
    assert_eq!(detector.mutual_attack_count(1, 2), 4);
    assert_eq!(detector.mutual_attack_count(2, 1), 4);
}

#[test]
fn rivalry_tension_capped_at_one() {
    let mut detector = ArcDetector::new();
    for tick in 1..=12 {
        let events = vec![attack(1, 2)];
        detector.process_events(&events, &no_moves(&events), tick);
    }
    let rivalry = &detector.arcs()[0];
    assert_eq!(rivalry.current_tension(), Tension { num: 10, den: 10 });
}

#[test]
fn death_completes_rivalry_of_the_dead() {
    let mut detector = ArcDetector::new();
    for tick in 1..=3 {
        let events = vec![attack(1, 2)];
        detector.process_events(&events, &no_moves(&events), tick);
    }
    let death = vec![SimEvent::EntityDied { entity_id: 2, age: 10, cause: DeathCause::Combat { killer_id: 1 } }];
    let arcs = detector.process_events(&death, &no_moves(&death), 9);
    assert!(arcs.is_empty());
    let rivalry = &detector.arcs()[0];
    assert!(!rivalry.active);
    assert_eq!(rivalry.end_tick, Some(9));
    assert_eq!(rivalry.current_tension(), Tension { num: 0, den: 1 });
    assert!(detector.active_arcs().is_empty());
}

#[test]
fn fall_completes_rise_of_the_dead() {
    let mut detector = ArcDetector::new();
    for tick in 1..=5 {
        let events = vec![SimEvent::EntityReproduced { parent_id: 7, offspring_id: 100 + tick }];
        detector.process_events(&events, &no_moves(&events), tick);
    }
    // The Rise arc is stored and active; a sixth offspring raises its tension to 6/15.
    let events = vec![SimEvent::EntityReproduced { parent_id: 7, offspring_id: 200 }];
    assert!(detector.process_events(&events, &no_moves(&events), 6).is_empty());
    assert_eq!(detector.arcs()[0].arc_type, ArcType::Rise);
    assert_eq!(detector.arcs()[0].current_tension(), Tension { num: 6, den: 15 });
    let death = vec![SimEvent::EntityDied { entity_id: 7, age: 90, cause: DeathCause::OldAge }];
    let arcs = detector.process_events(&death, &no_moves(&death), 8);
    assert_eq!(arcs.len(), 1);
    assert_eq!(arcs[0].arc_type, ArcType::Fall);
    assert_eq!(arcs[0].tension_curve, vec![
        (8, Tension { num: 3, den: 10 }),
        (8, Tension { num: 1, den: 1 }),
        (8, Tension { num: 0, den: 1 }),
    ]);
    assert!(!detector.arcs()[0].active);
    assert_eq!(detector.arcs().len(), 2);
}

#[test]
fn migration_arc_from_flagged_move() {
    let mut detector = ArcDetector::new();
    let events = vec![SimEvent::EntityMoved { entity_id: 4 }, SimEvent::EntityMoved { entity_id: 5 }];
    let arcs = detector.process_events(&events, &[false, true], 30);
    assert_eq!(arcs.len(), 1);
    assert_eq!(arcs[0].arc_type, ArcType::Migration);
    assert_eq!(arcs[0].protagonists, vec![5]);
    assert_eq!(arcs[0].tension_curve[1], (30, Tension { num: 1, den: 2 }));
    assert!(!arcs[0].active);
}

#[test]
fn kills_count_towards_rise() {
    let mut detector = ArcDetector::new();
    let mut events = Vec::new();
    for victim in 10..15 {
        events.push(SimEvent::EntityDied { entity_id: victim, age: 5, cause: DeathCause::Combat { killer_id: 1 } });
    }
    let arcs = detector.process_events(&events, &no_moves(&events), 3);
    assert_eq!(arcs.len(), 1);
    assert_eq!(arcs[0].arc_type, ArcType::Rise);
    assert_eq!(arcs[0].protagonists, vec![1]);
}

#[test]
fn alliance_completed_by_negative_relationship() {
    let mut detector = ArcDetector::new();
    // The detected alliance is returned, not stored: nothing to complete.
    detector.check_alliance(3, 1, true, 0);
    let arc = detector.check_alliance(1, 3, true, 500).unwrap();
    assert_eq!(arc.protagonists, vec![1, 3]);
    assert_eq!(arc.start_tick, 0);
    assert!(detector.check_alliance(1, 3, true, 600).is_none());
    assert!(detector.check_alliance(1, 3, false, 700).is_none());
    assert!(detector.arcs().is_empty());
}

// ---------------------------------------------------------------------------
// Ledgers
// ---------------------------------------------------------------------------

#[test]
fn attack_ledger_counts_and_prunes() {
    let mut ledger = AttackLedger::new();
    ledger.record_attack(1, 2, 10);
    ledger.record_attack(2, 1, 5);
    ledger.record_attack(1, 2, 30);
    assert_eq!(ledger.mutual_attack_count(1, 2), 3);
    assert_eq!(ledger.earliest_attack_tick(1, 2), Some(5));
    assert_eq!(ledger.earliest_attack_tick(3, 4), None);
    ledger.prune_old_records(40, 20);
    assert_eq!(ledger.mutual_attack_count(2, 1), 1);
    assert_eq!(ledger.earliest_attack_tick(2, 1), Some(30));
    ledger.prune_old_records(40, 20);
    assert_eq!(ledger.mutual_attack_count(2, 1), 1);
}

#[test]
fn dominance_ledger_adds_offspring_and_kills() {
    let mut ledger = DominanceLedger::new();
    ledger.record_offspring(1);
    ledger.record_offspring(1);
    ledger.record_kill(1);
    ledger.record_kill(2);
    assert_eq!(ledger.entity_dominance(1), 3);
    assert_eq!(ledger.entity_dominance(2), 1);
    assert_eq!(ledger.entity_dominance(3), 0);
}

#[test]
fn extinct_species_lists_each_once() {
    let mut before = HashMap::new();
    before.insert(1, 4);
    before.insert(2, 0);
    before.insert(3, 7);
    let mut now = HashMap::new();
    now.insert(1, 0);
    now.insert(2, 0);
    now.insert(3, 2);
    now.insert(4, 0);
    assert_eq!(extinct_species(&before, &now), vec![1]);
}

#[test]
fn pair_map_insert_remove_take() {
    let mut m: PairMap<usize> = PairMap::new();
    m.insert((1, 2), 0);
    m.insert((2, 3), 1);
    m.insert((1, 2), 5);
    m.insert((4, 5), 2);
    assert_eq!(m.get((1, 2)), Some(5));
    let taken = m.take_involving(2);
    assert_eq!(taken, vec![5, 1]);
    assert_eq!(m.get((1, 2)), None);
    assert_eq!(m.get((4, 5)), Some(2));
    m.remove((4, 5));
    assert_eq!(m.get((4, 5)), None);
}

// ---------------------------------------------------------------------------
// Biographies
// ---------------------------------------------------------------------------

#[test]
fn biography_tracks_birth() {
    let mut compiler = BiographyCompiler::new();
    let events = vec![make_spawn(1)];
    compiler.process_events(&events, 0);

    let bio = compiler.get(1).expect("biography should exist");
    assert_eq!(bio.entity_id, 1);
    assert_eq!(bio.birth_tick, 0);
    assert!(bio.is_alive());
}

#[test]
fn biography_tracks_reproduction() {
    let mut compiler = BiographyCompiler::new();
    // Create entity first
    compiler.process_events(&[make_spawn(1)], 0);

    // Record reproduction
    compiler.process_events(&[SimEvent::EntityReproduced { parent_id: 1, offspring_id: 2 }], 100);

    let bio = compiler.get(1).unwrap();
    assert_eq!(bio.offspring_count, 1);
}

#[test]
fn biography_tracks_death() {
    let mut compiler = BiographyCompiler::new();
    compiler.process_events(&[make_spawn(1)], 0);
    compiler.process_events(&[SimEvent::EntityDied { entity_id: 1, age: 500, cause: DeathCause::OldAge }], 500);

    let bio = compiler.get(1).unwrap();
    assert!(!bio.is_alive());
    assert_eq!(bio.death_tick, Some(500));
    assert_eq!(bio.lifespan(), Some(500));
}

#[test]
fn biography_tracks_kills() {
    let mut compiler = BiographyCompiler::new();
    // Spawn both entities
    compiler.process_events(&[make_spawn(1), make_spawn(2)], 0);
    // Entity 1 kills entity 2
    compiler.process_events(
        &[SimEvent::EntityDied { entity_id: 2, age: 100, cause: DeathCause::Combat { killer_id: 1 } }],
        100,
    );

    let killer_bio = compiler.get(1).unwrap();
    assert_eq!(killer_bio.kill_count, 1);

    let victim_bio = compiler.get(2).unwrap();
    assert!(!victim_bio.is_alive());
}

#[test]
fn composite_events_recorded_in_biography() {
    let mut compiler = BiographyCompiler::new();
    compiler.process_events(&[make_spawn(1), make_spawn(2)], 0);

    compiler.process_events(&[SimEvent::CompositeFormed { leader_id: 1, member_id: 2 }], 50);

    let bio1 = compiler.get(1).unwrap();
    // Should have born + composite formed = 2 events
    assert!(bio1.events.len() >= 2);

    let bio2 = compiler.get(2).unwrap();
    // Should have born + joined composite = 2 events
    assert!(bio2.events.len() >= 2);
}

#[test]
fn biography_ignores_insignificant_events_and_unknown_entities() {
    let mut compiler = BiographyCompiler::new();
    compiler.process_events(&[make_spawn(1)], 0);
    compiler.process_events(
        &[
            SimEvent::EntityMoved { entity_id: 1 },
            SimEvent::EntityAte { entity_id: 1, resource_id: 3 },
            SimEvent::EntityReproduced { parent_id: 9, offspring_id: 10 },
            SimEvent::EntityAttacked { attacker_id: 1, target_id: 2, target_killed: true, heavy_hit: true },
        ],
        5,
    );
    let bio = compiler.get(1).unwrap();
    assert_eq!(bio.events.len(), 1);
    assert_eq!(bio.events[0].description, BiographyEventKind::Born { parent_id: None });
    assert_eq!(bio.events[0].significance, 20);
    assert!(compiler.get(9).is_none());
    assert_eq!(compiler.len(), 1);
}

#[test]
fn biography_records_decomposition_for_each_member() {
    let mut compiler = BiographyCompiler::new();
    compiler.process_events(&[make_spawn(1), make_spawn(2), make_spawn(3)], 0);
    compiler.process_events(
        &[SimEvent::CompositeDecomposed { leader_id: 1, released_member_ids: vec![2, 3, 2] }],
        7,
    );
    assert_eq!(compiler.get(1).unwrap().events.len(), 2);
    assert_eq!(compiler.get(2).unwrap().events.len(), 3);
    assert_eq!(compiler.get(3).unwrap().events[1].description, BiographyEventKind::CompositeDecomposed);
    assert_eq!(compiler.get(3).unwrap().events[1].significance, 50);
}

#[test]
fn biography_retain_keeps_living_and_chosen() {
    let mut compiler = BiographyCompiler::new();
    compiler.process_events(&[make_spawn(1), make_spawn(2), make_spawn(3)], 0);
    compiler.process_events(
        &[
            SimEvent::EntityDied { entity_id: 2, age: 10, cause: DeathCause::Starvation },
            SimEvent::EntityDied { entity_id: 3, age: 10, cause: DeathCause::OldAge },
        ],
        10,
    );
    compiler.retain_alive_or(&[3]);
    assert!(compiler.get(1).is_some());
    assert!(compiler.get(2).is_none());
    assert!(compiler.get(3).is_some());
}

// ---------------------------------------------------------------------------
// Significance
// ---------------------------------------------------------------------------

#[test]
fn combat_death_is_highly_significant() {
    let event = SimEvent::EntityDied { entity_id: 1, age: 100, cause: DeathCause::Combat { killer_id: 2 } };
    let score = score_event(&event);
    assert!(score >= 70, "combat death should score >= 70 hundredths, got {}", score);
    assert!(is_significant(&event));
}

#[test]
fn movement_is_low_significance() {
    let event = SimEvent::EntityMoved { entity_id: 1 };
    let score = score_event(&event);
    assert!(score < SIGNIFICANCE_THRESHOLD, "movement should be below threshold, got {}", score);
    assert!(!is_significant(&event));
}

#[test]
fn reproduction_is_significant() {
    let event = SimEvent::EntityReproduced { parent_id: 1, offspring_id: 2 };
    assert!(is_significant(&event));
}

#[test]
fn old_age_death_of_elder_is_notable() {
    let event = SimEvent::EntityDied { entity_id: 1, age: 4000, cause: DeathCause::OldAge };
    let score = score_event(&event);
    assert!(score >= 50, "elder death should be notable, got {}", score);
}

#[test]
fn resource_regrown_is_not_significant() {
    let event = SimEvent::ResourceRegrown { resource_id: 1 };
    assert!(!is_significant(&event));
}

#[test]
fn composite_formed_is_significant() {
    let event = SimEvent::CompositeFormed { leader_id: 1, member_id: 2 };
    assert!(is_significant(&event));
    assert!(score_event(&event) >= 60);
}

#[test]
fn near_kill_attack_is_more_significant() {
    let near_kill = SimEvent::EntityAttacked { attacker_id: 1, target_id: 2, target_killed: true, heavy_hit: true };
    let light_hit = SimEvent::EntityAttacked { attacker_id: 1, target_id: 2, target_killed: false, heavy_hit: false };
    assert!(score_event(&near_kill) > score_event(&light_hit));
}

#[test]
fn spawned_with_parent_more_interesting_than_spontaneous() {
    let with_parent = SimEvent::EntitySpawned { entity_id: 2, generation: 1, parent_id: Some(1) };
    let spontaneous = SimEvent::EntitySpawned { entity_id: 1, generation: 0, parent_id: None };
    assert!(score_event(&with_parent) > score_event(&spontaneous));
}

#[test]
fn significance_scores_exact() {
    assert_eq!(score_event(&make_spawn(1)), 20);
    assert_eq!(score_event(&SimEvent::EntityDied { entity_id: 1, age: 3000, cause: DeathCause::OldAge }), 30);
    assert_eq!(score_event(&SimEvent::EntityDied { entity_id: 1, age: 3001, cause: DeathCause::OldAge }), 60);
    assert_eq!(score_event(&SimEvent::EntityDied { entity_id: 1, age: 1, cause: DeathCause::Starvation }), 40);
    assert_eq!(score_event(&SimEvent::EntityAte { entity_id: 1, resource_id: 2 }), 5);
    assert_eq!(score_event(&SimEvent::ResourceDepleted { resource_id: 2 }), 10);
    assert_eq!(score_event(&SimEvent::ResourceRegrown { resource_id: 2 }), 2);
    assert_eq!(
        score_event(&SimEvent::EntityAttacked { attacker_id: 1, target_id: 2, target_killed: false, heavy_hit: true }),
        50
    );
    assert_eq!(score_event(&SimEvent::CompositeReproduced { parent_id: 1, offspring_id: 2 }), 60);
    assert_eq!(
        score_event(&SimEvent::CompositeDecomposed { leader_id: 1, released_member_ids: vec![] }),
        50
    );
}

// ---------------------------------------------------------------------------
// Tracker
// ---------------------------------------------------------------------------

fn process(tracker: &mut NarrativeTracker, events: &[SimEvent], tick: u64) {
    tracker.process_tick(events, &no_moves(events), tick, &HashMap::new(), &[], &[]);
}

#[test]
fn tracker_processes_events_and_stores_significant() {
    let mut tracker = NarrativeTracker::new();
    let events = vec![
        make_spawn(1),
        SimEvent::EntityDied { entity_id: 2, age: 100, cause: DeathCause::Combat { killer_id: 1 } },
    ];
    process(&mut tracker, &events, 1);
    // Combat death is significant, spawn with parent_id=None has score 20 < 25
    assert!(tracker.event_history_len() >= 1);
    assert_eq!(tracker.event_history_len(), 1);
}

#[test]
fn event_search_by_entity() {
    let mut tracker = NarrativeTracker::new();
    let events = vec![
        SimEvent::EntityDied { entity_id: 1, age: 100, cause: DeathCause::Combat { killer_id: 2 } },
        SimEvent::EntityReproduced { parent_id: 3, offspring_id: 4 },
    ];
    process(&mut tracker, &events, 10);

    let results = tracker.search_events(&EventSearchCriteria { entity_id: Some(1), ..Default::default() });
    assert!(!results.is_empty());
    for r in &results {
        assert!(event_involves_entity(&r.event, 1));
    }
}

#[test]
fn event_search_by_tick_range() {
    let mut tracker = NarrativeTracker::new();
    for tick in 1..=10 {
        let events = vec![SimEvent::EntityReproduced { parent_id: 1, offspring_id: 100 + tick }];
        process(&mut tracker, &events, tick);
    }

    let results = tracker.search_events(&EventSearchCriteria { tick_range: Some((5, 8)), ..Default::default() });
    for r in &results {
        assert!(r.tick >= 5 && r.tick <= 8);
    }
    assert_eq!(results.len(), 4);
}

#[test]
fn event_search_with_limit() {
    let mut tracker = NarrativeTracker::new();
    for tick in 1..=20 {
        let events = vec![SimEvent::EntityReproduced { parent_id: 1, offspring_id: 100 + tick }];
        process(&mut tracker, &events, tick);
    }

    let results = tracker.search_events(&EventSearchCriteria { limit: Some(5), ..Default::default() });
    assert!(results.len() <= 5);
    assert_eq!(results.len(), 5);
}

#[test]
fn event_search_most_significant_first_stable() {
    let mut tracker = NarrativeTracker::new();
    let events = vec![
        SimEvent::EntityReproduced { parent_id: 1, offspring_id: 2 },
        SimEvent::EntityDied { entity_id: 3, age: 1, cause: DeathCause::Combat { killer_id: 1 } },
        SimEvent::EntityReproduced { parent_id: 5, offspring_id: 6 },
        SimEvent::EntityAttacked { attacker_id: 1, target_id: 3, target_killed: false, heavy_hit: false },
    ];
    process(&mut tracker, &events, 3);
    let results = tracker.search_events(&EventSearchCriteria::default());
    let scores: Vec<u32> = results.iter().map(|r| r.significance).collect();
    assert_eq!(scores, vec![80, 40, 40, 30]);
    assert!(event_involves_entity(&results[1].event, 2));
    assert!(event_involves_entity(&results[2].event, 6));
    let strong = tracker.search_events(&EventSearchCriteria { min_significance: Some(41), ..Default::default() });
    assert_eq!(strong.len(), 1);
}

#[test]
fn event_involves_entity_checks_all_variants() {
    assert!(event_involves_entity(&make_spawn(1), 1));
    assert!(!event_involves_entity(&make_spawn(1), 2));
    assert!(event_involves_entity(&attack(1, 2), 1));
    assert!(event_involves_entity(&attack(1, 2), 2));
    assert!(!event_involves_entity(&attack(1, 2), 3));

    let reproduced = SimEvent::EntityReproduced { parent_id: 1, offspring_id: 2 };
    assert!(event_involves_entity(&reproduced, 1));
    assert!(event_involves_entity(&reproduced, 2));
    assert!(!event_involves_entity(&reproduced, 3));

    // Resource events never involve entities
    let resource = SimEvent::ResourceDepleted { resource_id: 1 };
    assert!(!event_involves_entity(&resource, 1));
}

#[test]
fn event_involves_released_members_and_parent() {
    let split = SimEvent::CompositeDecomposed { leader_id: 1, released_member_ids: vec![4, 5] };
    assert!(event_involves_entity(&split, 5));
    assert!(!event_involves_entity(&split, 6));
    let child = SimEvent::EntitySpawned { entity_id: 8, generation: 2, parent_id: Some(3) };
    assert!(event_involves_entity(&child, 3));
}

#[test]
fn narrative_tracker_default_works() {
    let tracker = NarrativeTracker::default();
    assert_eq!(tracker.event_history_len(), 0);
    assert!(tracker.arcs().is_empty());
}

#[test]
fn tracker_auto_tracks_given_entities_and_checks_alliances() {
    let mut tracker = NarrativeTracker::new();
    tracker.tracked_entities.bookmark(9);
    tracker.process_tick(&[], &[], 0, &HashMap::new(), &[1, 2], &[(1, 2, true)]);
    assert!(tracker.tracked_entities.is_tracked(1));
    assert!(tracker.tracked_entities.is_tracked(9));
    tracker.process_tick(&[], &[], 1, &HashMap::new(), &[2], &[]);
    assert!(!tracker.tracked_entities.is_tracked(1));
    // Alliance checks only every 50 ticks; the first positive note was at tick 0.
    tracker.process_tick(&[], &[], 500, &HashMap::new(), &[], &[(1, 2, true)]);
    assert!(tracker.arcs().is_empty());
}

#[test]
fn tracker_compiles_biographies_and_keeps_chosen() {
    let mut tracker = NarrativeTracker::new();
    process(&mut tracker, &[make_spawn(1), make_spawn(2)], 0);
    process(&mut tracker, &[SimEvent::EntityDied { entity_id: 2, age: 3, cause: DeathCause::Starvation }], 3);
    assert_eq!(tracker.biography(2).unwrap().death_tick, Some(3));
    tracker.retain_biographies(&[]);
    assert!(tracker.biography(1).is_some());
    assert!(tracker.biography(2).is_none());
}

#[test]
fn tick_fits_ordinary_batches() {
    let tracker = NarrativeTracker::new();
    let events = vec![
        SimEvent::EntitySpawned { entity_id: 1, generation: 0, parent_id: None },
        SimEvent::EntityReproduced { parent_id: 1, offspring_id: 2 },
        SimEvent::EntityAttacked { attacker_id: 1, target_id: 3, target_killed: false, heavy_hit: false },
    ];
    assert!(tracker.tick_fits(&events, &[false, false, false], 5));
    assert!(!tracker.tick_fits(&events, &[false], 5));
    assert!(tracker.tick_fits(&[], &[], 5));
}

#[test]
fn two_rivalries_in_one_batch_track_their_own_arcs() {
    let mut detector = ArcDetector::new();
    let events = vec![attack(1, 2), attack(1, 2), attack(1, 2), attack(3, 4), attack(3, 4), attack(3, 4)];
    let new_arcs = detector.process_events(&events, &no_moves(&events), 1);
    assert_eq!(new_arcs.len(), 2);
    assert!(detector.arcs()[1].protagonists.contains(&3));
    let before0 = detector.arcs()[0].tension_curve.len();
    let before1 = detector.arcs()[1].tension_curve.len();
    let later = vec![attack(3, 4)];
    detector.process_events(&later, &no_moves(&later), 2);
    // The later attack raises the tension of the (3, 4) rivalry, not of (1, 2).
    assert_eq!(detector.arcs()[0].tension_curve.len(), before0);
    assert_eq!(detector.arcs()[1].tension_curve.len(), before1 + 1);
}
