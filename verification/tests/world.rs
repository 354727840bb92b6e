use simulation_engine::environment::chunks::{
    activate, lifecycle_tick, new_lifecycle, remove_entity_id, viewer_chunk_coords, Chunk, ChunkManager, ChunkState,
    DEFAULT_DORMANT_TIMEOUT,
};
use simulation_engine::environment::climate::{
    drought_step, no_drought, season_from_tick, Drought, Season, DEFAULT_DROUGHT_DURATION,
};
use simulation_engine::environment::spatial_index::SpatialGrid;
use simulation_engine::environment::structures::Storage;
use simulation_engine::environment::terrain::{TerrainCells, TerrainType};
use simulation_engine::events::log::{EventLog, TickSummary};
use simulation_engine::events::types::{DeathCause, SimEvent, SimEventKind};
use simulation_engine::narrative::arcs::normalize_pair;
use simulation_engine::narrative::tracker::TrackedEntities;
use simulation_engine::net::bridge::terrain_type_to_i32;
use simulation_engine::net::diff::{detail_fields, DetailLevel, DiffEngine, Observation};

#[test]
fn season_from_tick_cycles_correctly() {
    assert_eq!(season_from_tick(0), Season::Spring);
    assert_eq!(season_from_tick(1999), Season::Spring);
    assert_eq!(season_from_tick(2000), Season::Summer);
    assert_eq!(season_from_tick(3999), Season::Summer);
    assert_eq!(season_from_tick(4000), Season::Autumn);
    assert_eq!(season_from_tick(5999), Season::Autumn);
    assert_eq!(season_from_tick(6000), Season::Winter);
    assert_eq!(season_from_tick(7999), Season::Winter);
    // Full cycle wraps
    assert_eq!(season_from_tick(8000), Season::Spring);
    assert_eq!(season_from_tick(10000), Season::Summer);
}

#[test]
fn water_is_impassable() {
    assert!(!TerrainType::Water.is_passable());
    assert!(TerrainType::Grassland.is_passable());
    assert!(TerrainType::Desert.is_passable());
    assert!(TerrainType::Forest.is_passable());
    assert!(TerrainType::Mountain.is_passable());
}

#[test]
fn terrain_codes() {
    assert_eq!(terrain_type_to_i32(TerrainType::Grassland), 0);
    assert_eq!(terrain_type_to_i32(TerrainType::Desert), 1);
    assert_eq!(terrain_type_to_i32(TerrainType::Water), 2);
    assert_eq!(terrain_type_to_i32(TerrainType::Forest), 3);
    assert_eq!(terrain_type_to_i32(TerrainType::Mountain), 4);
}

#[test]
fn normalize_pair_is_symmetric() {
    assert_eq!(normalize_pair(5, 3), normalize_pair(3, 5));
    assert_eq!(normalize_pair(1, 1), (1, 1));
}

#[test]
fn normalize_pair_orders_smaller_first() {
    assert_eq!(normalize_pair(9, 2), (2, 9));
    assert_eq!(normalize_pair(2, 9), (2, 9));
}

#[test]
fn tracked_entities_bookmark() {
    let mut tracking = TrackedEntities::new();
    tracking.bookmark(42);
    assert!(tracking.is_tracked(42));
    assert!(!tracking.is_tracked(99));

    tracking.unbookmark(42);
    assert!(!tracking.is_tracked(42));
}

#[test]
fn tracked_entities_union_of_both_sets() {
    let mut tracking = TrackedEntities::new();
    tracking.bookmark(1);
    tracking.bookmark(2);
    tracking.auto_tracked.insert(2);
    tracking.auto_tracked.insert(3);
    let all = tracking.all_tracked();
    let mut v: Vec<u64> = all.into_iter().collect();
    v.sort();
    assert_eq!(v, vec![1, 2, 3]);
    tracking.unbookmark(3);
    assert!(tracking.is_tracked(3));
    let copy = tracking.clone();
    assert!(copy.is_tracked(1) && copy.is_tracked(3));
}

#[test]
fn tick_summary_counts_births_deaths_feedings() {
    let events = vec![
        SimEvent::EntitySpawned { entity_id: 1, generation: 0, parent_id: None },
        SimEvent::EntitySpawned { entity_id: 2, generation: 0, parent_id: None },
        SimEvent::EntityDied { entity_id: 3, age: 100, cause: DeathCause::Starvation },
        SimEvent::EntityAte { entity_id: 1, resource_id: 10 },
        SimEvent::EntityAte { entity_id: 2, resource_id: 11 },
        SimEvent::EntityMoved { entity_id: 1 },
        SimEvent::EntityReproduced { parent_id: 1, offspring_id: 4 },
    ];

    let summary = TickSummary::from_events(42, 3, &events);
    assert_eq!(summary.tick, 42);
    assert_eq!(summary.event_count, 7);
    assert_eq!(summary.entity_count, 3);
    assert_eq!(summary.births, 3); // 2 spawned + 1 reproduced
    assert_eq!(summary.deaths, 1);
    assert_eq!(summary.feedings, 2);
}

#[test]
fn tick_summary_empty_events() {
    let summary = TickSummary::from_events(0, 0, &[]);
    assert_eq!(summary.tick, 0);
    assert_eq!(summary.event_count, 0);
    assert_eq!(summary.births, 0);
    assert_eq!(summary.deaths, 0);
    assert_eq!(summary.feedings, 0);
}

#[test]
fn tick_summary_other_events_count_only_as_events() {
    let events = vec![
        SimEvent::ResourceDepleted { resource_id: 1 },
        SimEvent::CompositeDecomposed { leader_id: 1, released_member_ids: vec![2, 3] },
        SimEvent::EntityAttacked { attacker_id: 1, target_id: 2, target_killed: false, heavy_hit: true },
    ];
    let summary = TickSummary::from_events(5, 9, &events);
    assert_eq!(summary.event_count, 3);
    assert_eq!(summary.births + summary.deaths + summary.feedings, 0);
    assert_eq!(events[1].kind(), SimEventKind::CompositeDecomposed);
}

fn seen(id: u64, visible: bool, changed: bool) -> Observation {
    Observation { id, visible, changed }
}

#[test]
fn first_tick_all_entities_spawned() {
    let mut diff = DiffEngine::new();
    let current: Vec<Observation> = (1..=5).map(|id| seen(id, true, false)).collect();
    let delta = diff.classify_entities(&current);
    assert_eq!(delta.spawned, vec![1, 2, 3, 4, 5]);
    assert!(delta.updated.is_empty());
    assert!(delta.died.is_empty());
}

#[test]
fn second_tick_only_changes_sent() {
    let mut diff = DiffEngine::new();
    diff.classify_entities(&[seen(1, true, false), seen(2, true, false), seen(3, true, false)]);
    let delta = diff.classify_entities(&[seen(1, true, true), seen(2, true, false), seen(3, true, true)]);
    assert!(delta.spawned.is_empty());
    assert_eq!(delta.updated, vec![1, 3]);
    assert!(delta.died.is_empty());
}

#[test]
fn unchanged_entities_not_sent() {
    let mut diff = DiffEngine::new();
    let current = vec![seen(7, true, false), seen(8, true, false)];
    diff.classify_entities(&current);
    let delta = diff.classify_entities(&current);
    assert!(delta.spawned.is_empty());
    assert!(delta.updated.is_empty());
    assert!(delta.died.is_empty());
}

#[test]
fn died_entities_detected() {
    let mut diff = DiffEngine::new();
    diff.classify_entities(&[seen(1, true, false), seen(2, true, false), seen(3, true, false)]);
    let delta = diff.classify_entities(&[]);
    let mut died = delta.died.clone();
    died.sort();
    assert_eq!(died, vec![1, 2, 3]);
    assert!(delta.spawned.is_empty());
}

#[test]
fn died_entities_reported_regardless_of_viewport() {
    let mut diff = DiffEngine::new();
    // Entity 2 is outside the viewport: not sent, but still recorded.
    let delta = diff.classify_entities(&[seen(1, true, false), seen(2, false, false)]);
    assert_eq!(delta.spawned, vec![1]);
    let delta = diff.classify_entities(&[seen(1, true, false)]);
    assert_eq!(delta.died, vec![2]);
}

#[test]
fn viewport_filters_entities_outside_bounds() {
    let mut diff = DiffEngine::new();
    let delta = diff.classify_entities(&[seen(1, false, false), seen(2, true, false)]);
    assert_eq!(delta.spawned, vec![2]);
    // A recorded entity that moves out of view is neither updated nor spawned.
    let delta = diff.classify_entities(&[seen(1, false, true), seen(2, false, true)]);
    assert!(delta.spawned.is_empty());
    assert!(delta.updated.is_empty());
    // Entity 1 was recorded while hidden, so coming into view with a change updates it.
    let delta = diff.classify_entities(&[seen(1, true, true), seen(2, true, false)]);
    assert_eq!(delta.updated, vec![1]);
    assert!(delta.spawned.is_empty());
}

#[test]
fn repeated_ids_reported_once_as_dead() {
    let mut diff = DiffEngine::new();
    diff.classify_entities(&[seen(4, true, false), seen(4, true, false), seen(5, true, false)]);
    let delta = diff.classify_entities(&[seen(5, true, false)]);
    assert_eq!(delta.died, vec![4]);
}

#[test]
fn resource_changes_detected() {
    let mut diff = DiffEngine::new();
    // First tick: every visible resource is new.
    let changes = diff.classify_resources(&[seen(10, true, false), seen(11, false, false), seen(12, true, false)]);
    assert_eq!(changes, vec![10, 12]);
    // Second tick: only changed visible resources, and new ones.
    let changes = diff.classify_resources(&[
        seen(10, true, true),
        seen(11, false, true),
        seen(12, true, false),
        seen(13, true, false),
    ]);
    assert_eq!(changes, vec![10, 13]);
    // Resources and entities are recorded apart.
    let delta = diff.classify_entities(&[seen(10, true, false)]);
    assert_eq!(delta.spawned, vec![10]);
}

#[test]
fn detail_levels_keep_fields() {
    let minimal = detail_fields(DetailLevel::Minimal);
    assert!(!minimal.vitals && !minimal.lifecycle);
    let standard = detail_fields(DetailLevel::Standard);
    assert!(standard.vitals && !standard.lifecycle);
    let detailed = detail_fields(DetailLevel::Detailed);
    assert!(detailed.vitals && detailed.lifecycle);
}

// -- Chunks --

fn grass_chunk(coords: (i32, i32), capacity: u32) -> Chunk {
    Chunk::new(coords, vec![TerrainType::Grassland; 16], 4, 4, capacity)
}

#[test]
fn chunk_new_creates_active_chunk() {
    let chunk = grass_chunk((0, 0), 10);
    assert_eq!(chunk.state, ChunkState::Active);
    assert_eq!(chunk.coords, (0, 0));
    assert!(chunk.entity_ids.is_empty());
    assert_eq!(chunk.dormant_population, 0);
    assert_eq!(chunk.ticks_since_active, 0);
}

#[test]
fn chunk_add_remove_entity() {
    let mut chunk = grass_chunk((0, 0), 10);
    assert_eq!(chunk.entity_count(), 0);

    chunk.add_entity(42);
    assert_eq!(chunk.entity_count(), 1);
    assert!(chunk.has_entities());

    assert!(chunk.remove_entity(42));
    assert_eq!(chunk.entity_count(), 0);
    assert!(!chunk.has_entities());

    // Removing a non-existent entity returns false.
    assert!(!chunk.remove_entity(999));
}

#[test]
fn chunk_remove_swaps_last_into_place() {
    let mut ids = vec![1, 2, 3, 2];
    assert!(remove_entity_id(&mut ids, 2));
    assert_eq!(ids, vec![1, 2, 3]);
    assert!(remove_entity_id(&mut ids, 1));
    assert_eq!(ids, vec![3, 2]);
    assert!(!remove_entity_id(&mut ids, 7));
    assert_eq!(ids, vec![3, 2]);
}

#[test]
fn chunk_terrain_at_local_clamps() {
    let terrain = vec![TerrainType::Grassland, TerrainType::Desert, TerrainType::Water, TerrainType::Forest];
    let chunk = Chunk::new((0, 0), terrain, 2, 2, 0);
    assert_eq!(chunk.terrain_at_local(0, 0), TerrainType::Grassland);
    assert_eq!(chunk.terrain_at_local(1, 0), TerrainType::Desert);
    assert_eq!(chunk.terrain_at_local(0, 1), TerrainType::Water);
    assert_eq!(chunk.terrain_at_local(9999, 9999), TerrainType::Forest);
    assert_eq!(chunk.terrain_at_local(9999, 0), TerrainType::Desert);
}

#[test]
fn chunk_manager_ensure_creates_chunk() {
    let mut mgr = ChunkManager::new();
    assert_eq!(mgr.loaded_chunk_count(), 0);
    assert_eq!(mgr.dormant_timeout(), DEFAULT_DORMANT_TIMEOUT);

    mgr.ensure_chunk((0, 0), grass_chunk((0, 0), 0));
    assert_eq!(mgr.loaded_chunk_count(), 1);
    assert_eq!(mgr.active_chunk_count(), 1);

    // Ensuring the same chunk again doesn't create a duplicate.
    mgr.ensure_chunk((0, 0), grass_chunk((0, 0), 0));
    assert_eq!(mgr.loaded_chunk_count(), 1);
}

#[test]
fn chunk_manager_add_entity_creates_chunk() {
    let mut mgr = ChunkManager::new();
    mgr.add_entity(1, (0, 0), grass_chunk((0, 0), 0));

    assert_eq!(mgr.loaded_chunk_count(), 1);
    let chunk = mgr.get_chunk((0, 0)).unwrap();
    assert_eq!(chunk.entity_count(), 1);
    assert!(mgr.get_chunk((1, 0)).is_none());
}

#[test]
fn chunk_manager_move_entity_across_chunks() {
    let mut mgr = ChunkManager::new();
    mgr.add_entity(1, (0, 0), grass_chunk((0, 0), 0));
    assert_eq!(mgr.get_chunk((0, 0)).unwrap().entity_count(), 1);

    mgr.move_entity(1, (0, 0), (1, 0), grass_chunk((1, 0), 0));
    assert_eq!(mgr.get_chunk((0, 0)).unwrap().entity_count(), 0);
    assert_eq!(mgr.get_chunk((1, 0)).unwrap().entity_count(), 1);
    assert_eq!(mgr.loaded_chunk_count(), 2);
}

#[test]
fn chunk_manager_move_within_same_chunk() {
    let mut mgr = ChunkManager::new();
    mgr.add_entity(1, (0, 0), grass_chunk((0, 0), 0));

    mgr.move_entity(1, (0, 0), (0, 0), grass_chunk((0, 0), 0));
    assert_eq!(mgr.get_chunk((0, 0)).unwrap().entity_count(), 1);
    assert_eq!(mgr.loaded_chunk_count(), 1);
}

#[test]
fn chunk_manager_remove_entity() {
    let mut mgr = ChunkManager::new();
    mgr.add_entity(1, (2, 3), grass_chunk((2, 3), 0));
    assert!(!mgr.remove_entity(1, (0, 0)));
    assert_eq!(mgr.loaded_chunk_count(), 1);
    assert!(mgr.remove_entity(1, (2, 3)));
    assert!(!mgr.remove_entity(1, (2, 3)));
}

#[test]
fn chunk_manager_tick_deactivates_empty_chunks() {
    let mut mgr = ChunkManager::new();
    mgr.ensure_chunk((0, 0), grass_chunk((0, 0), 0));
    assert_eq!(mgr.active_chunk_count(), 1);

    // Tick with no entities and no viewer: the chunk goes dormant.
    mgr.tick();
    assert_eq!(mgr.active_chunk_count(), 0);
    assert_eq!(mgr.dormant_chunk_count(), 1);
}

#[test]
fn chunk_manager_tick_keeps_chunk_with_entities_active() {
    let mut mgr = ChunkManager::new();
    mgr.add_entity(1, (0, 0), grass_chunk((0, 0), 0));

    mgr.tick();
    assert_eq!(mgr.active_chunk_count(), 1);
    assert_eq!(mgr.dormant_chunk_count(), 0);
}

#[test]
fn chunk_manager_tick_keeps_viewer_chunks_active() {
    let mut mgr = ChunkManager::new();
    mgr.ensure_chunk((0, 0), grass_chunk((0, 0), 0));
    mgr.set_viewer_position((0, 0), 0);

    mgr.tick();
    assert_eq!(mgr.active_chunk_count(), 1);
}

#[test]
fn chunk_manager_dormant_timeout_unloads_chunks() {
    let mut mgr = ChunkManager::new();
    mgr.set_dormant_timeout(5);
    mgr.ensure_chunk((0, 0), grass_chunk((0, 0), 0));

    // Tick once to go dormant.
    mgr.tick();
    assert_eq!(mgr.dormant_chunk_count(), 1);

    // Four more ticks leave it loaded; the fifth reaches the timeout.
    for _ in 0..4 {
        mgr.tick();
    }
    assert_eq!(mgr.loaded_chunk_count(), 1);
    mgr.tick();
    assert_eq!(mgr.loaded_chunk_count(), 0);
}

#[test]
fn chunk_manager_reactivates_dormant_chunk() {
    let mut mgr = ChunkManager::new();
    mgr.ensure_chunk((0, 0), grass_chunk((0, 0), 0));
    mgr.tick();
    mgr.tick();
    assert_eq!(mgr.get_chunk((0, 0)).unwrap().ticks_since_active, 1);
    mgr.add_entity(5, (0, 0), grass_chunk((0, 0), 0));
    let chunk = mgr.get_chunk((0, 0)).unwrap();
    assert_eq!(chunk.state, ChunkState::Active);
    assert_eq!(chunk.ticks_since_active, 0);
    assert_eq!(chunk.entity_ids, vec![5]);
}

#[test]
fn chunk_manager_negative_coords_work() {
    let mut mgr = ChunkManager::new();
    mgr.add_entity(1, (-1, -1), grass_chunk((-1, -1), 0));
    let chunk = mgr.get_chunk((-1, -1)).unwrap();
    assert_eq!(chunk.entity_count(), 1);
    assert!(mgr.get_chunk((1, 1)).is_none());
    assert!(mgr.get_chunk((-1, 1)).is_none());
}

#[test]
fn chunk_manager_set_viewer_position_creates_radius() {
    let mut mgr = ChunkManager::new();
    mgr.set_viewer_position((0, 0), 1);

    // Radius 1: a 3x3 grid of viewer chunks.
    assert_eq!(mgr.viewer_chunks().len(), 9);
    assert!(mgr.viewer_chunks().contains(&(0, 0)));
    assert!(mgr.viewer_chunks().contains(&(-1, -1)));
    assert!(mgr.viewer_chunks().contains(&(1, 1)));
    assert_eq!(viewer_chunk_coords((5, 5), 1)[0], (4, 4));
    assert_eq!(viewer_chunk_coords((5, 5), 1)[8], (6, 6));
    assert!(viewer_chunk_coords((0, 0), -1).is_empty());
}

#[test]
fn chunk_manager_loaded_coords() {
    let mut mgr = ChunkManager::new();
    mgr.ensure_chunk((0, 0), grass_chunk((0, 0), 0));
    mgr.ensure_chunk((-3, 7), grass_chunk((-3, 7), 0));
    mgr.ensure_chunk((0, 0), grass_chunk((0, 0), 0));
    let mut coords = mgr.loaded_coords();
    coords.sort();
    assert_eq!(coords, vec![(-3, 7), (0, 0)]);
}

#[test]
fn dormant_simulation_population_grows() {
    let mut mgr = ChunkManager::new();
    mgr.ensure_chunk((0, 0), grass_chunk((0, 0), 10));
    // The first tick puts the empty chunk to rest; then every tenth tick
    // moves its population one step toward the capacity.
    mgr.tick();
    for _ in 0..200 {
        mgr.tick();
    }
    let chunk = mgr.get_chunk((0, 0)).unwrap();
    assert_eq!(chunk.state, ChunkState::Dormant);
    assert_eq!(chunk.dormant_population, 10);
    assert_eq!(chunk.ticks_since_active, 200);
}

#[test]
fn dormant_population_steps_every_tenth_tick() {
    let mut life = new_lifecycle();
    assert!(lifecycle_tick(&mut life, false, false, 3, 1000));
    assert_eq!(life.state, ChunkState::Dormant);
    for _ in 0..9 {
        lifecycle_tick(&mut life, false, false, 3, 1000);
    }
    assert_eq!(life.dormant_population, 0);
    lifecycle_tick(&mut life, false, false, 3, 1000);
    assert_eq!(life.dormant_population, 1);
    // Reactivation keeps the population and clears the count.
    activate(&mut life);
    assert_eq!(life.state, ChunkState::Active);
    assert_eq!(life.ticks_since_active, 0);
    assert_eq!(life.dormant_population, 1);
}

// -- Storage --

#[test]
fn storage_deposit_withdraw_items() {
    let mut storage = Storage::new(1, 5, None);
    assert!(storage.deposit_item(10));
    assert!(storage.deposit_item(20));
    assert_eq!(storage.items.len(), 2);

    assert!(storage.withdraw_item(10));
    assert!(!storage.withdraw_item(10)); // already removed
    assert_eq!(storage.items.len(), 1);
}

#[test]
fn storage_capacity_limit() {
    let mut storage = Storage::new(1, 2, None);
    assert!(storage.deposit_item(1));
    assert!(storage.deposit_item(2));
    assert!(!storage.deposit_item(3)); // full
    assert_eq!(storage.items, vec![1, 2]);
}

#[test]
fn storage_withdraw_keeps_order() {
    let mut storage = Storage::new(1, 5, None);
    for id in [4, 5, 6, 5] {
        assert!(storage.deposit_item(id));
    }
    assert!(storage.withdraw_item(5));
    assert_eq!(storage.items, vec![4, 6, 5]);
}

#[test]
fn storage_tribe_access() {
    let storage = Storage::new(1, 5, Some(42));
    assert!(storage.can_access(Some(42)));
    assert!(!storage.can_access(Some(99)));
    assert!(!storage.can_access(None));
}

#[test]
fn storage_no_tribe_anyone_can_access() {
    let storage = Storage::new(1, 5, None);
    assert!(storage.can_access(Some(42)));
    assert!(storage.can_access(None));
}

// -- Event log --

#[test]
fn new_log_is_empty() {
    let log: EventLog<SimEvent> = EventLog::new();
    assert!(log.is_empty());
    assert_eq!(log.len(), 0);
}

#[test]
fn push_increments_len() {
    let mut log = EventLog::new();
    log.push(SimEvent::EntitySpawned { entity_id: 1, generation: 0, parent_id: None });
    assert_eq!(log.len(), 1);
    assert!(!log.is_empty());
}

#[test]
fn drain_returns_events_and_clears() {
    let mut log = EventLog::new();
    log.push(SimEvent::EntitySpawned { entity_id: 1, generation: 0, parent_id: None });
    log.push(SimEvent::EntityMoved { entity_id: 1 });
    let drained = log.drain();
    assert_eq!(drained.len(), 2);
    assert!(matches!(drained[1], SimEvent::EntityMoved { entity_id: 1 }));
    assert!(log.is_empty());
}

#[test]
fn clear_removes_all_events() {
    let mut log = EventLog::new();
    log.push(SimEvent::EntitySpawned { entity_id: 1, generation: 0, parent_id: None });
    log.clear();
    assert!(log.is_empty());
}

#[test]
fn events_returns_slice() {
    let mut log = EventLog::new();
    log.push(SimEvent::ResourceDepleted { resource_id: 10 });
    let events = log.events();
    assert_eq!(events.len(), 1);
    assert!(matches!(events[0], SimEvent::ResourceDepleted { resource_id: 10 }));
}

// -- Terrain cells --

fn small_grid(caves: Vec<bool>) -> TerrainCells {
    let cells = vec![
        TerrainType::Grassland,
        TerrainType::Water,
        TerrainType::Forest,
        TerrainType::Forest,
        TerrainType::Desert,
        TerrainType::Mountain,
    ];
    TerrainCells::new(cells, caves, 3, 2)
}

#[test]
fn terrain_cells_get_clamps_to_grid() {
    let grid = small_grid(vec![]);
    assert_eq!(grid.cell_count(), 6);
    assert_eq!(grid.get(0, 0), TerrainType::Grassland);
    assert_eq!(grid.get(1, 0), TerrainType::Water);
    assert_eq!(grid.get(2, 1), TerrainType::Mountain);
    assert_eq!(grid.get(100, 0), TerrainType::Forest);
    assert_eq!(grid.get(100, 100), TerrainType::Mountain);
    assert_eq!((grid.cols(), grid.rows()), (3, 2));
}

#[test]
fn terrain_cells_count_terrain() {
    let grid = small_grid(vec![]);
    assert_eq!(grid.count_terrain(TerrainType::Forest), 2);
    assert_eq!(grid.count_terrain(TerrainType::Water), 1);
    assert_eq!(grid.count_terrain(TerrainType::Desert), 1);
}

#[test]
fn terrain_cells_caves() {
    let flat = small_grid(vec![]);
    assert!(!flat.has_caves());
    assert!(!flat.is_cave_at_cell(0, 0));
    assert_eq!(flat.count_caves(), 0);
    let caves = small_grid(vec![false, false, true, false, true, false]);
    assert!(caves.has_caves());
    assert!(caves.is_cave_at_cell(2, 0));
    assert!(caves.is_cave_at_cell(1, 9));
    assert!(!caves.is_cave_at_cell(0, 0));
    assert_eq!(caves.count_caves(), 2);
}

#[test]
fn spatial_grid_starts_empty() {
    let g: SpatialGrid<u64> = SpatialGrid::new(4, 4);
    assert_eq!(g.cols(), 4);
    assert_eq!(g.rows(), 4);
    for i in 0..16 {
        assert!(g.cell(i).is_empty());
    }
    assert_eq!(g.cells_in_range(0, 3, 0, 3), (0..16).collect::<Vec<usize>>());
}

#[test]
fn spatial_grid_insert_files_item_under_its_cell() {
    let mut g: SpatialGrid<u64> = SpatialGrid::new(4, 4);
    g.insert(2, 2, 42);
    g.insert(2, 2, 43);
    assert_eq!(g.cell_index(2, 2), 10);
    assert_eq!(g.cell(10), &vec![42, 43]);
    for i in 0..16 {
        if i != 10 {
            assert!(g.cell(i).is_empty());
        }
    }
}

#[test]
fn spatial_grid_clamps_outside_cells() {
    let mut g: SpatialGrid<u64> = SpatialGrid::new(4, 3);
    g.insert(-1, -5, 7);
    g.insert(9, 9, 8);
    g.insert(1, 7, 9);
    assert_eq!(g.cell(0), &vec![7]);
    assert_eq!(g.cell(11), &vec![8]);
    assert_eq!(g.cell(9), &vec![9]);
    assert_eq!(g.cell_index(i64::MIN, i64::MAX), 8);
}

#[test]
fn spatial_grid_range_lists_cells_row_major() {
    let g: SpatialGrid<u64> = SpatialGrid::new(4, 4);
    assert_eq!(g.cells_in_range(1, 2, 1, 2), vec![5, 6, 9, 10]);
    assert_eq!(g.cells_in_range(-3, 1, -3, 0), vec![0, 1]);
    assert_eq!(g.cells_in_range(3, 10, 3, 10), vec![15]);
}

#[test]
fn spatial_grid_inverted_range_is_empty() {
    let g: SpatialGrid<u64> = SpatialGrid::new(4, 4);
    assert!(g.cells_in_range(2, 1, 0, 3).is_empty());
    assert!(g.cells_in_range(0, 3, 3, 2).is_empty());
}

#[test]
fn spatial_grid_clear_empties_cells() {
    let mut g: SpatialGrid<u64> = SpatialGrid::new(2, 2);
    g.insert(0, 0, 1);
    g.insert(1, 1, 2);
    g.clear();
    assert_eq!(g.cols(), 2);
    for i in 0..4 {
        assert!(g.cell(i).is_empty());
    }
}

#[test]
fn spatial_grid_range_covering_position_finds_item() {
    let mut g: SpatialGrid<u64> = SpatialGrid::new(4, 4);
    g.insert(3, 1, 7);
    g.insert(6, -2, 8);
    let found: Vec<u64> = g.cells_in_range(2, 5, 0, 1).into_iter().flat_map(|c| g.cell(c).clone()).collect();
    assert!(found.contains(&7));
    let found: Vec<u64> = g.cells_in_range(5, 9, -4, -1).into_iter().flat_map(|c| g.cell(c).clone()).collect();
    assert_eq!(found, vec![8]);
}

#[test]
fn drought_starts_only_on_a_draw() {
    let calm = no_drought();
    assert_eq!(drought_step(calm, false), calm);
    let d = drought_step(calm, true);
    assert!(d.active);
    assert_eq!(d.ticks_remaining, DEFAULT_DROUGHT_DURATION);
    assert_eq!(DEFAULT_DROUGHT_DURATION, 500);
}

#[test]
fn drought_counts_down_whatever_the_draw() {
    let d = Drought { active: true, ticks_remaining: 3 };
    let d = drought_step(d, true);
    assert_eq!(d, Drought { active: true, ticks_remaining: 2 });
    let d = drought_step(d, false);
    assert_eq!(d, Drought { active: true, ticks_remaining: 1 });
    let d = drought_step(d, true);
    assert_eq!(d, Drought { active: false, ticks_remaining: 0 });
}

#[test]
fn drought_ends_after_default_duration() {
    let mut d = drought_step(no_drought(), true);
    for tick in 0..DEFAULT_DROUGHT_DURATION {
        assert!(d.active, "still under way before tick {}", tick);
        d = drought_step(d, tick % 2 == 0);
    }
    assert!(!d.active);
    let stuck = Drought { active: true, ticks_remaining: 0 };
    assert_eq!(drought_step(stuck, true), Drought { active: false, ticks_remaining: 0 });
}

#[test]
fn drought_eventually_ends() {
    let mut drought = Drought { active: true, ticks_remaining: 10 };
    for _ in 0..10 {
        // A drought under way reads no draw.
        drought = drought_step(drought, false);
    }
    assert!(!drought.active);
    assert_eq!(drought.ticks_remaining, 0);
}

#[test]
fn spatial_grid_without_cells_can_be_made_and_cleared() {
    let mut g: SpatialGrid<u64> = SpatialGrid::new(0, 5);
    assert_eq!(g.cols(), 0);
    assert_eq!(g.rows(), 5);
    g.clear();
    let g: SpatialGrid<u64> = SpatialGrid::new(0, 0);
    assert_eq!(g.rows(), 0);
}

#[test]
fn repeated_tick_sends_nothing() {
    let mut engine = DiffEngine::new();
    let obs = vec![
        Observation { id: 1, visible: true, changed: false },
        Observation { id: 2, visible: false, changed: false },
    ];
    let first = engine.classify_entities(&obs);
    assert_eq!(first.spawned, vec![1]);
    let first_resources = engine.classify_resources(&obs);
    assert_eq!(first_resources, vec![1]);
    let second = engine.classify_entities(&obs);
    assert!(second.spawned.is_empty() && second.updated.is_empty() && second.died.is_empty());
    assert!(engine.classify_resources(&obs).is_empty());
}
