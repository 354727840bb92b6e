use simulation_engine::components::composite::{
    CellRole, CompositeBody, CompositeMember, CompositeMemberMarker, CompositionPattern,
};
use simulation_engine::components::behavior_tree::{depth, node_count, tick_bt, BtShape, BtStatus, LeafOutcome};
use simulation_engine::components::bt_ops::{
    apply_structural_op, copy_shape, crossover, crossover_at, enforce_depth_limit, get_subtree, is_valid_shape,
    mutate_structure_at, replace_subtree, simplify, within_depth_limit, StructuralOp, MAX_DEPTH,
};
use simulation_engine::engine::rng::SimulationRng;
use simulation_engine::components::genome::species_id_from_traits;
use simulation_engine::components::identity::Identity;
use simulation_engine::components::memory::{Memory, MemoryEntry, MemoryKind};
use simulation_engine::components::physical::Age;
use simulation_engine::components::tribe::{Tribe, TribeId, MIN_TRIBE_SIZE, MIN_TRIBE_SURVIVAL_SIZE};
use simulation_engine::components::world_object::Inventory;

#[test]
fn composite_body_new() {
    let body = CompositeBody::new(42, 100);
    assert_eq!(body.leader_id, 42);
    assert_eq!(body.formed_tick, 100);
    assert_eq!(body.member_count(), 0);
    assert_eq!(body.total_size(), 1);
}

#[test]
fn add_and_remove_members() {
    let mut body = CompositeBody::new(1, 0);
    body.add_member(10, CellRole::Locomotion);
    body.add_member(20, CellRole::Sensing);
    assert_eq!(body.member_count(), 2);
    assert_eq!(body.total_size(), 3);
    assert!(body.has_member(10));
    assert!(body.has_member(20));
    assert!(!body.has_member(30));

    let removed = body.remove_member(10);
    assert!(removed.is_some());
    assert_eq!(removed.unwrap().entity_id, 10);
    assert_eq!(body.member_count(), 1);
    assert!(!body.has_member(10));
}

#[test]
fn remove_nonexistent_member() {
    let mut body = CompositeBody::new(1, 0);
    body.add_member(10, CellRole::Locomotion);
    let removed = body.remove_member(99);
    assert!(removed.is_none());
    assert_eq!(body.member_count(), 1);
}

#[test]
fn remove_member_takes_first_of_duplicates() {
    let mut body = CompositeBody::new(1, 0);
    body.add_member(10, CellRole::Attack);
    body.add_member(10, CellRole::Defense);
    let removed = body.remove_member(10).unwrap();
    assert_eq!(removed.role, CellRole::Attack);
    assert!(body.has_member(10));
    assert_eq!(body.members[0].role, CellRole::Defense);
}

#[test]
fn composite_member_marker_stores_leader() {
    let marker = CompositeMemberMarker { leader_id: 99 };
    assert_eq!(marker.leader_id, 99);
}

#[test]
fn composition_pattern_default() {
    let p = CompositionPattern::default();
    assert_eq!(p.sensing_count, 1);
    assert_eq!(p.locomotion_count, 1);
    assert_eq!(p.attack_count, 1);
    assert_eq!(p.defense_count, 1);
    assert_eq!(p.digestion_count, 0);
    assert_eq!(p.reproduction_count, 0);
    assert_eq!(p.total_member_slots(), 4);
}

#[test]
fn composition_pattern_member_roles() {
    let p = CompositionPattern {
        sensing_count: 2,
        locomotion_count: 1,
        attack_count: 0,
        defense_count: 1,
        digestion_count: 0,
        reproduction_count: 1,
    };
    let roles = p.member_roles();
    assert_eq!(roles.len(), 5);
    assert_eq!(roles.iter().filter(|r| **r == CellRole::Sensing).count(), 2);
    assert_eq!(roles.iter().filter(|r| **r == CellRole::Locomotion).count(), 1);
    assert_eq!(roles.iter().filter(|r| **r == CellRole::Defense).count(), 1);
    assert_eq!(roles.iter().filter(|r| **r == CellRole::Reproduction).count(), 1);
}

#[test]
fn composition_pattern_member_roles_order() {
    let p = CompositionPattern {
        sensing_count: 1,
        locomotion_count: 1,
        attack_count: 1,
        defense_count: 1,
        digestion_count: 1,
        reproduction_count: 1,
    };
    assert_eq!(
        p.member_roles(),
        vec![
            CellRole::Sensing,
            CellRole::Locomotion,
            CellRole::Attack,
            CellRole::Defense,
            CellRole::Digestion,
            CellRole::Reproduction
        ]
    );
}

#[test]
fn composition_pattern_from_members() {
    let members = vec![
        CompositeMember { entity_id: 1, role: CellRole::Sensing },
        CompositeMember { entity_id: 2, role: CellRole::Sensing },
        CompositeMember { entity_id: 3, role: CellRole::Attack },
        CompositeMember { entity_id: 4, role: CellRole::Locomotion },
        CompositeMember { entity_id: 5, role: CellRole::Undifferentiated },
    ];
    let pattern = CompositionPattern::from_members(&members);
    assert_eq!(pattern.sensing_count, 2);
    assert_eq!(pattern.attack_count, 1);
    assert_eq!(pattern.locomotion_count, 1);
    assert_eq!(pattern.defense_count, 0);
    // Undifferentiated is not counted in pattern
    assert_eq!(pattern.total_member_slots(), 4);
}

#[test]
fn composition_pattern_round_trip_through_members() {
    let p = CompositionPattern {
        sensing_count: 3,
        locomotion_count: 0,
        attack_count: 2,
        defense_count: 1,
        digestion_count: 4,
        reproduction_count: 1,
    };
    let members: Vec<CompositeMember> = p
        .member_roles()
        .into_iter()
        .enumerate()
        .map(|(i, role)| CompositeMember { entity_id: i as u64, role })
        .collect();
    assert_eq!(CompositionPattern::from_members(&members), p);
}

#[test]
fn identity_default_values() {
    let id = Identity::default();
    assert_eq!(id.generation, 0);
    assert!(id.parent_id.is_none());
    assert_eq!(id.birth_tick, 0);
}

#[test]
fn age_default() {
    let a = Age::default();
    assert_eq!(a.ticks, 0);
    assert_eq!(a.max_lifespan, 5000);
}

#[test]
fn tribe_id_default_is_none() {
    let tid = TribeId::default();
    assert!(tid.0.is_none());
}

#[test]
fn tribe_id_can_be_set() {
    let tid = TribeId(Some(42));
    assert_eq!(tid.0, Some(42));
}

#[test]
fn inventory_add_and_remove() {
    let mut inv = Inventory::new(3);
    assert!(inv.has_room());
    assert!(inv.add(1));
    assert!(inv.add(2));
    assert!(inv.add(3));
    assert!(!inv.has_room());
    assert!(inv.is_full());
    assert!(!inv.add(4)); // full
    assert!(inv.remove(2));
    assert!(inv.has_room());
    assert_eq!(inv.items, vec![1, 3]);
}

#[test]
fn inventory_contains() {
    let mut inv = Inventory::new(5);
    inv.add(10);
    assert!(inv.contains(10));
    assert!(!inv.contains(99));
}

#[test]
fn inventory_equip_and_unequip_on_remove() {
    let mut inv = Inventory::new(5);
    inv.add(10);
    inv.add(20);
    assert!(inv.equip(10));
    assert_eq!(inv.equipped, Some(10));
    // Cannot equip item not in inventory.
    assert!(!inv.equip(99));
    // Removing equipped item unequips it.
    inv.remove(10);
    assert_eq!(inv.equipped, None);
}

#[test]
fn inventory_remove_other_item_keeps_equipped() {
    let mut inv = Inventory::new(5);
    inv.add(10);
    inv.add(20);
    assert!(inv.equip(20));
    assert!(inv.remove(10));
    assert_eq!(inv.equipped, Some(20));
    assert!(!inv.remove(10));
    assert_eq!(inv.items, vec![20]);
}

#[test]
fn inventory_zero_capacity_is_full() {
    let mut inv = Inventory::new(0);
    assert!(inv.is_full());
    assert!(!inv.add(1));
    assert!(inv.items.is_empty());
}

// ---------------------------------------------------------------------------
// Behavior trees: the leaves' outcomes are those the conditions and
// actions give in the contexts named in each test.
// ---------------------------------------------------------------------------

fn leaf(status: BtStatus, acts: bool) -> LeafOutcome {
    LeafOutcome { status, acts }
}

const SUCCEED: LeafOutcome = LeafOutcome { status: BtStatus::Success, acts: false };
const FAIL: LeafOutcome = LeafOutcome { status: BtStatus::Failure, acts: false };
const ACT: LeafOutcome = LeafOutcome { status: BtStatus::Success, acts: true };

/// Selector(Sequence(hunger > 0.3, resource within 50, move toward it, eat), wander).
fn default_starter_shape() -> BtShape {
    BtShape::Selector(vec![
        BtShape::Sequence(vec![BtShape::Leaf(0), BtShape::Leaf(1), BtShape::Leaf(2), BtShape::Leaf(3)]),
        BtShape::Leaf(4),
    ])
}

#[test]
fn sequence_succeeds_when_all_succeed() {
    // hunger 0.8 > 0.5; eat with food at hand.
    let bt = BtShape::Sequence(vec![BtShape::Leaf(0), BtShape::Leaf(1)]);
    let (status, action) = tick_bt(&bt, &[SUCCEED, ACT]);
    assert_eq!(status, BtStatus::Success);
    assert_eq!(action, Some(1)); // Eat
}

#[test]
fn sequence_fails_on_first_failure() {
    // hunger 0.8 is not > 0.9
    let bt = BtShape::Sequence(vec![BtShape::Leaf(0), BtShape::Leaf(1)]);
    let (status, _) = tick_bt(&bt, &[FAIL, ACT]);
    assert_eq!(status, BtStatus::Failure);
}

#[test]
fn selector_succeeds_on_first_success() {
    // fear 0.0 is not > 0.5; wander.
    let bt = BtShape::Selector(vec![BtShape::Leaf(0), BtShape::Leaf(1)]);
    let (status, action) = tick_bt(&bt, &[FAIL, ACT]);
    assert_eq!(status, BtStatus::Success);
    assert_eq!(action, Some(1)); // Wander { speed: 1.0 }
}

#[test]
fn selector_fails_when_all_fail() {
    let bt = BtShape::Selector(vec![BtShape::Leaf(0), BtShape::Leaf(1)]);
    let (status, _) = tick_bt(&bt, &[FAIL, FAIL]);
    assert_eq!(status, BtStatus::Failure);
}

#[test]
fn inverter_flips_success_to_failure() {
    // Rest
    let bt = BtShape::Inverter(Box::new(BtShape::Leaf(0)));
    let (status, _) = tick_bt(&bt, &[ACT]);
    assert_eq!(status, BtStatus::Failure);
}

#[test]
fn inverter_flips_failure_to_success() {
    let bt = BtShape::Inverter(Box::new(BtShape::Leaf(0)));
    let (status, _) = tick_bt(&bt, &[FAIL]);
    assert_eq!(status, BtStatus::Success);
}

#[test]
fn always_succeed_wraps_failure() {
    let bt = BtShape::AlwaysSucceed(Box::new(BtShape::Leaf(0)));
    let (status, _) = tick_bt(&bt, &[FAIL]);
    assert_eq!(status, BtStatus::Success);
}

#[test]
fn default_bt_hungry_with_food_seeks_food() {
    let bt = default_starter_shape();
    let (status, action) = tick_bt(&bt, &[SUCCEED, SUCCEED, ACT, ACT, ACT]);
    assert_eq!(status, BtStatus::Success);
    // The sequence produces MoveTowardResource then Eat; the last action wins.
    assert_eq!(action, Some(3));
}

#[test]
fn default_bt_not_hungry_wanders() {
    let bt = default_starter_shape();
    // hunger 0.1, no food: the first condition fails, move and eat fail too.
    let (status, action) = tick_bt(&bt, &[FAIL, FAIL, FAIL, FAIL, ACT]);
    assert_eq!(status, BtStatus::Success);
    assert_eq!(action, Some(4)); // Wander { speed: 1.5 }
}

#[test]
fn default_bt_hungry_no_food_wanders() {
    let bt = default_starter_shape();
    let (status, action) = tick_bt(&bt, &[SUCCEED, FAIL, FAIL, FAIL, ACT]);
    assert_eq!(status, BtStatus::Success);
    assert_eq!(action, Some(4));
}

#[test]
fn bt_running_child_stops_sequence_with_latest_action() {
    let bt = BtShape::Sequence(vec![BtShape::Leaf(0), BtShape::Leaf(1), BtShape::Leaf(2)]);
    let (status, action) = tick_bt(&bt, &[ACT, leaf(BtStatus::Running, false), ACT]);
    assert_eq!(status, BtStatus::Running);
    assert_eq!(action, Some(0));
    let sel = BtShape::Selector(vec![BtShape::Leaf(0), BtShape::Leaf(1)]);
    assert_eq!(tick_bt(&sel, &[leaf(BtStatus::Running, true), ACT]), (BtStatus::Running, Some(0)));
    let seq = BtShape::Sequence(vec![BtShape::Leaf(0), BtShape::Leaf(1)]);
    assert_eq!(tick_bt(&seq, &[ACT, FAIL]), (BtStatus::Failure, None));
    let empty = BtShape::Selector(vec![]);
    assert_eq!(tick_bt(&empty, &[]), (BtStatus::Failure, None));
}

#[test]
fn node_count_leaf() {
    assert_eq!(node_count(&BtShape::Leaf(0)), 1);
    assert_eq!(node_count(&BtShape::Leaf(7)), 1);
}

#[test]
fn node_count_default_bt() {
    let bt = default_starter_shape();
    // Selector(1) + Sequence(1) + 4 leaves + Wander(1) = 7
    assert_eq!(node_count(&bt), 7);
}

#[test]
fn depth_leaf() {
    assert_eq!(depth(&BtShape::Leaf(0)), 1);
}

#[test]
fn depth_default_bt() {
    let bt = default_starter_shape();
    // Selector -> Sequence -> leaf = 3
    assert_eq!(depth(&bt), 3);
}

#[test]
fn depth_and_count_of_decorators() {
    let bt = BtShape::Inverter(Box::new(BtShape::AlwaysSucceed(Box::new(BtShape::Selector(vec![
        BtShape::Leaf(0),
        BtShape::Sequence(vec![BtShape::Leaf(1)]),
    ])))));
    assert_eq!(depth(&bt), 5);
    assert_eq!(node_count(&bt), 6);
    assert_eq!(depth(&BtShape::Sequence(vec![])), 1);
}

// -- Structural operations --

const EAT: usize = 3;
const REST: usize = 5;

fn leaf_node(i: usize) -> BtShape {
    BtShape::Leaf(i)
}

fn inverters(levels: usize) -> BtShape {
    let mut tree = leaf_node(EAT);
    for _ in 0..levels {
        tree = BtShape::Inverter(Box::new(tree));
    }
    tree
}

#[test]
fn simplify_single_child_sequence() {
    let tree = BtShape::Sequence(vec![leaf_node(EAT)]);
    assert_eq!(simplify(&tree, REST), leaf_node(EAT));
}

#[test]
fn simplify_single_child_selector() {
    let tree = BtShape::Selector(vec![leaf_node(REST)]);
    assert_eq!(simplify(&tree, REST), leaf_node(REST));
}

#[test]
fn simplify_double_inverter() {
    let tree = BtShape::Inverter(Box::new(BtShape::Inverter(Box::new(leaf_node(EAT)))));
    assert_eq!(simplify(&tree, REST), leaf_node(EAT));
}

#[test]
fn simplify_double_always_succeed() {
    let tree = BtShape::AlwaysSucceed(Box::new(BtShape::AlwaysSucceed(Box::new(leaf_node(EAT)))));
    assert_eq!(simplify(&tree, REST), BtShape::AlwaysSucceed(Box::new(leaf_node(EAT))));
}

#[test]
fn simplify_nested_sequences_flatten() {
    let tree = BtShape::Sequence(vec![
        leaf_node(EAT),
        BtShape::Sequence(vec![leaf_node(REST), leaf_node(EAT)]),
    ]);
    assert_eq!(
        simplify(&tree, REST),
        BtShape::Sequence(vec![leaf_node(EAT), leaf_node(REST), leaf_node(EAT)])
    );
}

#[test]
fn simplify_empty_sequence() {
    let tree = BtShape::Sequence(vec![]);
    assert_eq!(simplify(&tree, REST), leaf_node(REST));
}

#[test]
fn simplify_empty_selector_and_triple_inverter() {
    assert_eq!(simplify(&BtShape::Selector(vec![]), REST), leaf_node(REST));
    assert_eq!(simplify(&inverters(3), REST), inverters(1));
}

#[test]
fn simplify_keeps_selector_inside_sequence() {
    let tree = BtShape::Sequence(vec![
        BtShape::Selector(vec![leaf_node(1), leaf_node(2)]),
        BtShape::Sequence(vec![BtShape::Sequence(vec![])]),
        leaf_node(4),
    ]);
    assert_eq!(
        simplify(&tree, REST),
        BtShape::Sequence(vec![
            BtShape::Selector(vec![leaf_node(1), leaf_node(2)]),
            leaf_node(REST),
            leaf_node(4),
        ])
    );
}

#[test]
fn within_depth_limit_accepts_valid_tree() {
    assert!(within_depth_limit(&default_starter_shape()));
}

#[test]
fn within_depth_limit_rejects_deep_tree() {
    assert!(!within_depth_limit(&inverters(MAX_DEPTH + 1)));
}

#[test]
fn within_depth_limit_boundary() {
    assert!(within_depth_limit(&inverters(MAX_DEPTH - 1)));
    assert_eq!(depth(&inverters(MAX_DEPTH - 1)), MAX_DEPTH);
    assert!(!within_depth_limit(&inverters(MAX_DEPTH)));
}

#[test]
fn get_and_replace_subtree_roundtrip() {
    let tree = default_starter_shape();
    let total = node_count(&tree);
    for i in 0..total {
        let sub = get_subtree(&tree, i).unwrap();
        let rebuilt = replace_subtree(&tree, i, &sub);
        assert_eq!(tree, rebuilt, "roundtrip failed at index {i}");
    }
}

#[test]
fn get_subtree_by_preorder_position() {
    let tree = default_starter_shape();
    assert_eq!(get_subtree(&tree, 0), Some(default_starter_shape()));
    assert_eq!(
        get_subtree(&tree, 1),
        Some(BtShape::Sequence(vec![leaf_node(0), leaf_node(1), leaf_node(2), leaf_node(3)]))
    );
    assert_eq!(get_subtree(&tree, 2), Some(leaf_node(0)));
    assert_eq!(get_subtree(&tree, 5), Some(leaf_node(3)));
    assert_eq!(get_subtree(&tree, 6), Some(leaf_node(4)));
    assert_eq!(get_subtree(&tree, 7), None);
}

#[test]
fn replace_subtree_at_positions() {
    let tree = default_starter_shape();
    let replaced = replace_subtree(&tree, 3, &leaf_node(9));
    assert_eq!(
        replaced,
        BtShape::Selector(vec![
            BtShape::Sequence(vec![leaf_node(0), leaf_node(9), leaf_node(2), leaf_node(3)]),
            leaf_node(4),
        ])
    );
    assert_eq!(replace_subtree(&tree, 0, &leaf_node(9)), leaf_node(9));
    // A position past the end leaves the tree as it is.
    assert_eq!(replace_subtree(&tree, 7, &leaf_node(9)), tree);
}

#[test]
fn copy_shape_is_equal() {
    let tree = default_starter_shape();
    assert_eq!(copy_shape(&tree), tree);
}

#[test]
fn crossover_at_inserts_donor_subtree() {
    let a = default_starter_shape();
    let b = BtShape::Inverter(Box::new(leaf_node(7)));
    let offspring = crossover_at(&a, &b, 6, 1);
    assert_eq!(
        offspring,
        BtShape::Selector(vec![
            BtShape::Sequence(vec![leaf_node(0), leaf_node(1), leaf_node(2), leaf_node(3)]),
            leaf_node(7),
        ])
    );
    // A donor position past the end of `b` gives `a` back.
    assert_eq!(crossover_at(&a, &b, 6, 2), a);
}

#[test]
fn crossover_at_too_deep_gives_first_parent() {
    let a = inverters(MAX_DEPTH - 1);
    let b = BtShape::Inverter(Box::new(leaf_node(REST)));
    // Replacing the innermost leaf of `a` by `b` makes the tree one level too deep.
    let offspring = crossover_at(&a, &b, MAX_DEPTH - 1, 0);
    assert_eq!(offspring, a);
    let shallow = crossover_at(&a, &b, MAX_DEPTH - 2, 0);
    assert_eq!(depth(&shallow), MAX_DEPTH);
}

#[test]
fn crossover_at_root_replaces_entire_tree() {
    let mut rng = SimulationRng::new(0).system_rng("crossover");
    let a = leaf_node(EAT);
    let b = leaf_node(REST);
    let offspring = crossover(&a, &b, &mut rng);
    assert!(within_depth_limit(&offspring));
    assert_eq!(offspring, leaf_node(REST));
}

#[test]
fn crossover_produces_valid_tree() {
    let mut rng = SimulationRng::new(7).system_rng("crossover");
    let a = default_starter_shape();
    let b = BtShape::Selector(vec![inverters(3), BtShape::Sequence(vec![leaf_node(1), inverters(2)])]);
    for _ in 0..100 {
        let offspring = crossover(&a, &b, &mut rng);
        assert!(within_depth_limit(&offspring), "crossover produced invalid tree: depth={}", depth(&offspring));
    }
}

// -- Memory --

#[derive(Debug, Clone, Copy, PartialEq)]
struct Feeling {
    importance: f64,
    valence: f64,
}

fn make_entry(tick: u64, kind: MemoryKind, importance: f64, valence: f64) -> MemoryEntry<Feeling> {
    MemoryEntry { tick, kind, associated_entity_id: None, details: Feeling { importance, valence } }
}

#[test]
fn default_memory_has_capacity_20() {
    let m: Memory<Feeling> = Memory::default();
    assert_eq!(m.capacity, 20);
    assert!(m.is_empty());
    assert_eq!(m.len(), 0);
}

#[test]
fn add_entry_increases_len() {
    let mut m = Memory::new(5);
    m.add(make_entry(1, MemoryKind::FoundFood, 0.5, 0.5), 0);
    assert_eq!(m.len(), 1);
    m.add(make_entry(2, MemoryKind::WasAttacked, 0.8, -0.9), 0);
    assert_eq!(m.len(), 2);
}

#[test]
fn capacity_enforced_on_add() {
    let mut m = Memory::new(3);
    m.add(make_entry(1, MemoryKind::FoundFood, 0.1, 0.1), 0);
    m.add(make_entry(2, MemoryKind::FoundFood, 0.2, 0.2), 0);
    m.add(make_entry(3, MemoryKind::FoundFood, 0.3, 0.3), 0);
    assert_eq!(m.len(), 3);

    m.add(make_entry(10, MemoryKind::NearDeath, 1.0, -1.0), 0);
    assert_eq!(m.len(), 3);
}

#[test]
fn eviction_swaps_last_into_evicted_place() {
    let mut m = Memory::new(3);
    m.add(make_entry(1, MemoryKind::FoundFood, 0.1, 0.1), 0);
    m.add(make_entry(2, MemoryKind::Reproduced, 0.2, 0.2), 0);
    m.add(make_entry(3, MemoryKind::Migrated, 0.3, 0.3), 0);
    m.add(make_entry(4, MemoryKind::NearDeath, 1.0, -1.0), 0);
    let ticks: Vec<u64> = m.entries.iter().map(|e| e.tick).collect();
    assert_eq!(ticks, vec![3, 2, 4]);
}

#[test]
fn recall_filters_by_kind() {
    let mut m = Memory::new(10);
    m.add(make_entry(1, MemoryKind::FoundFood, 0.5, 0.5), 0);
    m.add(make_entry(2, MemoryKind::WasAttacked, 0.8, -0.9), 0);
    m.add(make_entry(3, MemoryKind::FoundFood, 0.6, 0.4), 0);

    let food = m.recall(MemoryKind::FoundFood, u64::MAX, 10);
    assert_eq!(food.len(), 2);
    let attacked = m.recall(MemoryKind::WasAttacked, u64::MAX, 10);
    assert_eq!(attacked.len(), 1);
}

#[test]
fn recall_filters_by_max_age() {
    let mut m = Memory::new(10);
    m.add(make_entry(10, MemoryKind::FoundFood, 0.5, 0.5), 0);
    m.add(make_entry(50, MemoryKind::FoundFood, 0.6, 0.4), 0);
    m.add(make_entry(90, MemoryKind::FoundFood, 0.7, 0.3), 0);

    let recent = m.recall(MemoryKind::FoundFood, 20, 100);
    assert_eq!(recent.len(), 1);
    assert_eq!(recent[0].tick, 90);
}

#[test]
fn recall_returns_most_recent_first() {
    let mut m = Memory::new(10);
    m.add(make_entry(5, MemoryKind::Encountered, 0.5, 0.0), 0);
    m.add(make_entry(1, MemoryKind::Encountered, 0.5, 0.0), 0);
    m.add(make_entry(8, MemoryKind::Encountered, 0.5, 0.0), 0);

    let results = m.recall(MemoryKind::Encountered, u64::MAX, 10);
    assert_eq!(results.len(), 3);
    assert_eq!(results[0].tick, 8);
    assert_eq!(results[1].tick, 5);
    assert_eq!(results[2].tick, 1);
}

#[test]
fn recall_keeps_storage_order_on_equal_ticks() {
    let mut m = Memory::new(10);
    m.add(make_entry(4, MemoryKind::Encountered, 0.1, 0.0), 0);
    m.add(make_entry(7, MemoryKind::Encountered, 0.2, 0.0), 0);
    m.add(make_entry(4, MemoryKind::Encountered, 0.3, 0.0), 0);
    m.add(make_entry(7, MemoryKind::Encountered, 0.4, 0.0), 0);
    assert_eq!(m.recall_positions(Some(MemoryKind::Encountered), u64::MAX, 10), vec![1, 3, 0, 2]);
    let results = m.recall(MemoryKind::Encountered, u64::MAX, 10);
    let importance: Vec<f64> = results.iter().map(|e| e.details.importance).collect();
    assert_eq!(importance, vec![0.2, 0.4, 0.1, 0.3]);
}

#[test]
fn recall_all_returns_all_kinds() {
    let mut m = Memory::new(10);
    m.add(make_entry(1, MemoryKind::FoundFood, 0.5, 0.5), 0);
    m.add(make_entry(2, MemoryKind::WasAttacked, 0.8, -0.9), 0);
    m.add(make_entry(3, MemoryKind::Reproduced, 0.9, 0.9), 0);

    let all = m.recall_all(u64::MAX, 10);
    assert_eq!(all.len(), 3);
    assert_eq!(all[0].kind, MemoryKind::Reproduced);
}

#[test]
fn recall_all_respects_max_age() {
    let mut m = Memory::new(10);
    m.add(make_entry(10, MemoryKind::FoundFood, 0.5, 0.5), 0);
    m.add(make_entry(90, MemoryKind::WasAttacked, 0.8, -0.9), 0);

    let recent = m.recall_all(20, 100);
    assert_eq!(recent.len(), 1);
    assert_eq!(recent[0].kind, MemoryKind::WasAttacked);
}

#[test]
fn recall_age_boundary_is_inclusive() {
    let mut m = Memory::new(10);
    m.add(make_entry(80, MemoryKind::FoundFood, 0.5, 0.5), 0);
    m.add(make_entry(79, MemoryKind::FoundFood, 0.5, 0.5), 0);
    assert_eq!(m.recall_all(20, 100).len(), 1);
    // A max age beyond the current tick reaches back to tick 0.
    assert_eq!(m.recall_all(500, 100).len(), 2);
}

#[test]
fn empty_recall_returns_empty() {
    let m: Memory<Feeling> = Memory::new(10);
    let results = m.recall(MemoryKind::FoundFood, 100, 50);
    assert!(results.is_empty());
    let all = m.recall_all(100, 50);
    assert!(all.is_empty());
}

#[test]
fn add_to_zero_capacity_still_works() {
    // Edge case: capacity of 1.
    let mut m = Memory::new(1);
    m.add(make_entry(1, MemoryKind::FoundFood, 0.5, 0.5), 0);
    assert_eq!(m.len(), 1);
    m.add(make_entry(2, MemoryKind::NearDeath, 1.0, -1.0), 0);
    assert_eq!(m.len(), 1);
    assert_eq!(m.entries[0].kind, MemoryKind::NearDeath);
}

#[test]
fn memory_entry_with_associated_entity() {
    let entry = MemoryEntry {
        tick: 42,
        kind: MemoryKind::WasAttacked,
        associated_entity_id: Some(12345),
        details: Feeling { importance: 0.9, valence: -0.8 },
    };
    assert_eq!(entry.associated_entity_id, Some(12345));
    assert_eq!(entry.kind, MemoryKind::WasAttacked);
}

#[test]
fn memory_kind_all_variants_exist() {
    let kinds = [
        MemoryKind::FoundFood,
        MemoryKind::WasAttacked,
        MemoryKind::AttackedOther,
        MemoryKind::Reproduced,
        MemoryKind::Encountered,
        MemoryKind::EnvironmentChange,
        MemoryKind::NearDeath,
        MemoryKind::Migrated,
        MemoryKind::Observed,
    ];
    assert_eq!(kinds.len(), 9);
    for i in 0..kinds.len() {
        for j in (i + 1)..kinds.len() {
            assert_ne!(kinds[i], kinds[j]);
        }
    }
}

#[test]
fn enforce_depth_limit_prunes_deep_tree() {
    let tree = inverters(MAX_DEPTH + 3);
    assert!(depth(&tree) > MAX_DEPTH);
    let (pruned, fresh) = enforce_depth_limit(&tree, 40);
    assert!(depth(&pruned) <= MAX_DEPTH, "pruned tree should be within MAX_DEPTH: depth={}", depth(&pruned));
    assert_eq!(fresh, 1);
    // The inverter at the limit became the fresh leaf 40.
    let mut expected = leaf_node(40);
    for _ in 0..MAX_DEPTH - 1 {
        expected = BtShape::Inverter(Box::new(expected));
    }
    assert_eq!(pruned, expected);
}

#[test]
fn enforce_depth_limit_numbers_fresh_leaves_in_order() {
    let deep = |leaf: usize| {
        let mut t = leaf_node(leaf);
        for _ in 0..MAX_DEPTH {
            t = BtShape::AlwaysSucceed(Box::new(t));
        }
        t
    };
    let tree = BtShape::Selector(vec![deep(1), leaf_node(2), deep(3)]);
    let (pruned, fresh) = enforce_depth_limit(&tree, 10);
    assert_eq!(fresh, 2);
    let mut first = leaf_node(10);
    let mut second = leaf_node(11);
    for _ in 0..MAX_DEPTH - 2 {
        first = BtShape::AlwaysSucceed(Box::new(first));
        second = BtShape::AlwaysSucceed(Box::new(second));
    }
    assert_eq!(pruned, BtShape::Selector(vec![first, leaf_node(2), second]));
}

#[test]
fn enforce_depth_limit_keeps_valid_tree() {
    let tree = default_starter_shape();
    let (pruned, fresh) = enforce_depth_limit(&tree, 7);
    assert_eq!(fresh, 0);
    assert_eq!(pruned, tree);
}

#[test]
fn default_bt_is_valid() {
    assert!(is_valid_shape(&default_starter_shape()));
}

#[test]
fn empty_composite_is_not_valid() {
    assert!(!is_valid_shape(&BtShape::Sequence(vec![])));
    assert!(!is_valid_shape(&BtShape::Inverter(Box::new(BtShape::Selector(vec![])))));
    assert!(!is_valid_shape(&inverters(MAX_DEPTH)));
    assert!(is_valid_shape(&inverters(MAX_DEPTH - 1)));
}

#[test]
fn structural_ops_on_nodes() {
    let seq = BtShape::Sequence(vec![leaf_node(1), leaf_node(2)]);
    assert_eq!(
        apply_structural_op(&seq, StructuralOp::Insert { sibling: 9, sequence: false }),
        BtShape::Selector(vec![seq_copy(&seq), leaf_node(9)])
    );
    assert_eq!(apply_structural_op(&seq, StructuralOp::Delete { child: 1 }), leaf_node(2));
    assert_eq!(
        apply_structural_op(&seq, StructuralOp::Replace { leaf: 9 }),
        BtShape::Selector(vec![leaf_node(1), leaf_node(2)])
    );
    let inv = BtShape::Inverter(Box::new(leaf_node(3)));
    assert_eq!(apply_structural_op(&inv, StructuralOp::Delete { child: 0 }), leaf_node(3));
    assert_eq!(
        apply_structural_op(&inv, StructuralOp::Replace { leaf: 9 }),
        BtShape::AlwaysSucceed(Box::new(leaf_node(3)))
    );
    assert_eq!(apply_structural_op(&leaf_node(3), StructuralOp::Replace { leaf: 9 }), leaf_node(9));
    assert_eq!(apply_structural_op(&leaf_node(3), StructuralOp::Delete { child: 0 }), leaf_node(3));
    assert_eq!(apply_structural_op(&BtShape::Sequence(vec![]), StructuralOp::Delete { child: 5 }), BtShape::Sequence(vec![]));
}

fn seq_copy(t: &BtShape) -> BtShape {
    copy_shape(t)
}

#[test]
fn mutate_structure_at_positions() {
    let tree = default_starter_shape();
    // Replace the Wander leaf (position 6) by leaf 8.
    assert_eq!(
        mutate_structure_at(&tree, 6, StructuralOp::Replace { leaf: 8 }),
        BtShape::Selector(vec![
            BtShape::Sequence(vec![leaf_node(0), leaf_node(1), leaf_node(2), leaf_node(3)]),
            leaf_node(8),
        ])
    );
    // Delete the sequence (position 1), keeping its third child.
    assert_eq!(
        mutate_structure_at(&tree, 1, StructuralOp::Delete { child: 2 }),
        BtShape::Selector(vec![leaf_node(2), leaf_node(4)])
    );
    // No position 7: the tree is kept.
    assert_eq!(mutate_structure_at(&tree, 7, StructuralOp::Replace { leaf: 8 }), tree);
}

#[test]
fn mutate_structure_at_too_deep_keeps_tree() {
    let tree = inverters(MAX_DEPTH - 1);
    // Wrapping the innermost leaf makes the tree one level too deep.
    let wrapped = mutate_structure_at(&tree, MAX_DEPTH - 1, StructuralOp::Insert { sibling: 1, sequence: true });
    assert_eq!(wrapped, tree);
    let shallower = mutate_structure_at(&tree, MAX_DEPTH - 2, StructuralOp::Delete { child: 0 });
    assert_eq!(depth(&shallower), MAX_DEPTH - 1);
}

#[test]
fn simplify_is_idempotent() {
    let tree = BtShape::Selector(vec![
        BtShape::Inverter(Box::new(BtShape::Inverter(Box::new(BtShape::Sequence(vec![leaf_node(1)]))))),
        BtShape::Selector(vec![leaf_node(2), BtShape::Selector(vec![])]),
        BtShape::AlwaysSucceed(Box::new(BtShape::AlwaysSucceed(Box::new(leaf_node(3))))),
    ]);
    let once = simplify(&tree, REST);
    assert_eq!(
        once,
        BtShape::Selector(vec![
            leaf_node(1),
            leaf_node(2),
            leaf_node(REST),
            BtShape::AlwaysSucceed(Box::new(leaf_node(3))),
        ])
    );
    assert_eq!(simplify(&once, REST), once);
}

#[test]
fn species_id_of_default_traits() {
    // Default genome: max energy 100.0, metabolism 0.1, speed 2.0, size 5.0
    // in tenths, lifespan 5000.
    assert_eq!(species_id_from_traits(&[1000, 1, 20, 50, 5000]), 15625790217422022164);
    assert_eq!(species_id_from_traits(&[0, 0, 0, 0, 0]), 16482136530319305039);
}

#[test]
fn species_id_depends_on_every_trait() {
    let base = species_id_from_traits(&[1000, 1, 20, 50, 5000]);
    assert_ne!(species_id_from_traits(&[1001, 1, 20, 50, 5000]), base);
    assert_ne!(species_id_from_traits(&[1000, 1, 20, 50, 5001]), base);
    assert_ne!(species_id_from_traits(&[1000, 20, 1, 50, 5000]), base);
}

#[test]
fn tribe_new_sets_fields() {
    let members: std::collections::HashSet<u64> = [1, 2, 3].into_iter().collect();
    let tribe = Tribe::new(100, members.clone(), 10);
    assert_eq!(tribe.id, 100);
    assert_eq!(tribe.member_ids, members);
    assert_eq!(tribe.founding_tick, 10);
}

#[test]
fn tribe_contains_member() {
    let members: std::collections::HashSet<u64> = [1, 2, 3].into_iter().collect();
    let tribe = Tribe::new(100, members, 0);
    assert!(tribe.contains(1));
    assert!(tribe.contains(2));
    assert!(tribe.contains(3));
    assert!(!tribe.contains(4));
}

#[test]
fn tribe_size() {
    let members: std::collections::HashSet<u64> = [10, 20, 30, 40].into_iter().collect();
    let tribe = Tribe::new(1, members, 0);
    assert_eq!(tribe.size(), 4);
}

#[test]
fn tribe_empty_membership() {
    let tribe = Tribe::new(1, std::collections::HashSet::new(), 0);
    assert_eq!(tribe.size(), 0);
    assert!(!tribe.contains(1));
}

#[test]
fn tribe_size_thresholds() {
    assert_eq!(MIN_TRIBE_SIZE, 3);
    assert_eq!(MIN_TRIBE_SURVIVAL_SIZE, 2);
}

#[test]
fn simplify_keeps_status_and_shrinks() {
    let tree = BtShape::Selector(vec![
        BtShape::Inverter(Box::new(BtShape::Inverter(Box::new(BtShape::Leaf(0))))),
        BtShape::Selector(vec![BtShape::Sequence(vec![BtShape::Leaf(1)]), BtShape::Leaf(2)]),
    ]);
    let simple = simplify(&tree, 0);
    assert_eq!(simple, BtShape::Selector(vec![BtShape::Leaf(0), BtShape::Leaf(1), BtShape::Leaf(2)]));
    assert!(node_count(&simple) <= node_count(&tree));
    assert!(depth(&simple) <= depth(&tree));
    let outcomes = [BtStatus::Success, BtStatus::Failure, BtStatus::Running];
    for a in outcomes {
        for b in outcomes {
            for c in outcomes {
                let leaves = [
                    LeafOutcome { status: a, acts: false },
                    LeafOutcome { status: b, acts: false },
                    LeafOutcome { status: c, acts: false },
                ];
                assert_eq!(tick_bt(&simple, &leaves).0, tick_bt(&tree, &leaves).0);
            }
        }
    }
}
