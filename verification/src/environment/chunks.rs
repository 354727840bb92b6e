//! World chunks: their lifecycle (which are simulated, which rest, which
//! unload), the entities in them, and the manager that holds them.
use crate::environment::terrain::TerrainType;
use crate::narrative::ids::map_keys;
use std::collections::HashMap;
use vstd::prelude::*;

verus! {

/// Lifecycle state of a chunk: Unloaded -> Active <-> Dormant -> Unloaded.
#[derive(Debug, Clone, Copy, PartialEq, Eq, Structural)]
pub enum ChunkState {
    /// Fully simulated with all entities and terrain loaded.
    Active,
    /// Simplified statistical simulation (no individual entities).
    Dormant,
    /// Not in memory. Terrain and entities must be generated/loaded.
    Unloaded,
}

/// Ticks a chunk stays dormant before it is unloaded, by default.
pub const DEFAULT_DORMANT_TIMEOUT: u64 = 1000;

/// Ticks between adjustments of a dormant chunk's population.
pub const DORMANT_ADJUST_INTERVAL: u64 = 10;

/// The lifecycle part of a chunk's state.
#[derive(Debug, Clone, Copy, PartialEq, Eq, Structural)]
pub struct ChunkLifecycle {
    /// Current lifecycle state.
    pub state: ChunkState,
    /// Statistical population count (used when dormant).
    pub dormant_population: u32,
    /// Number of ticks since any entity or viewer was present.
    pub ticks_since_active: u64,
}

/// The lifecycle of a freshly created chunk: active, empty.
pub open spec fn fresh_lifecycle() -> ChunkLifecycle {
    ChunkLifecycle { state: ChunkState::Active, dormant_population: 0, ticks_since_active: 0 }
}

/// A freshly created chunk's lifecycle.
pub fn new_lifecycle() -> (l: ChunkLifecycle)
    ensures
        l == fresh_lifecycle(),
{
    ChunkLifecycle { state: ChunkState::Active, dormant_population: 0, ticks_since_active: 0 }
}

/// The lifecycle after a chunk is needed again: it becomes active with its
/// inactivity count cleared; an active chunk is unchanged.
pub open spec fn activated(l: ChunkLifecycle) -> ChunkLifecycle {
    if l.state != ChunkState::Active {
        ChunkLifecycle { state: ChunkState::Active, ticks_since_active: 0, ..l }
    } else {
        l
    }
}

/// Activate a chunk that is needed (it holds an entity or is looked at).
pub fn activate(life: &mut ChunkLifecycle)
    ensures
        *final(life) == activated(*old(life)),
{
    match life.state {
        ChunkState::Active => {},
        _ => {
            life.state = ChunkState::Active;
            life.ticks_since_active = 0;
        },
    }
}

/// A dormant population moved one step toward the carrying capacity.
pub open spec fn population_step(pop: u32, capacity: u32) -> u32 {
    if pop < capacity {
        (pop + 1) as u32
    } else if pop > capacity {
        (pop - 1) as u32
    } else {
        pop
    }
}

/// The lifecycle after one tick.
///
/// An active chunk with neither entities nor a viewer goes dormant with no
/// population and a cleared count. A dormant chunk counts one more tick, and
/// every tenth tick moves its population one step toward the carrying
/// capacity.
pub open spec fn lifecycle_after_tick(
    l: ChunkLifecycle,
    has_entities: bool,
    has_viewer: bool,
    carrying_capacity: u32,
) -> ChunkLifecycle {
    match l.state {
        ChunkState::Active => if !has_entities && !has_viewer {
            ChunkLifecycle { state: ChunkState::Dormant, dormant_population: 0, ticks_since_active: 0 }
        } else {
            l
        },
        ChunkState::Dormant => {
            let t = (l.ticks_since_active + 1) as u64;
            ChunkLifecycle {
                ticks_since_active: t,
                dormant_population: if t % DORMANT_ADJUST_INTERVAL == 0 {
                    population_step(l.dormant_population, carrying_capacity)
                } else {
                    l.dormant_population
                },
                ..l
            }
        },
        ChunkState::Unloaded => l,
    }
}

/// Whether a chunk stays loaded: every chunk but one dormant for at least
/// the timeout.
pub open spec fn stays_loaded(l: ChunkLifecycle, dormant_timeout: u64) -> bool {
    !(l.state == ChunkState::Dormant && l.ticks_since_active >= dormant_timeout)
}

/// Advance a chunk's lifecycle by one tick; returns whether the chunk stays
/// loaded afterwards.
pub fn lifecycle_tick(
    life: &mut ChunkLifecycle,
    has_entities: bool,
    has_viewer: bool,
    carrying_capacity: u32,
    dormant_timeout: u64,
) -> (keep: bool)
    requires
        old(life).state == ChunkState::Dormant ==> old(life).ticks_since_active < u64::MAX,
    ensures
        *final(life) == lifecycle_after_tick(*old(life), has_entities, has_viewer, carrying_capacity),
        keep == stays_loaded(*final(life), dormant_timeout),
{
    match life.state {
        ChunkState::Active => {
            if !has_entities && !has_viewer {
                life.state = ChunkState::Dormant;
                life.dormant_population = 0;
                life.ticks_since_active = 0;
            }
        },
        ChunkState::Dormant => {
            life.ticks_since_active = life.ticks_since_active + 1;
            if life.ticks_since_active % DORMANT_ADJUST_INTERVAL == 0 {
                let pop = life.dormant_population;
                if pop < carrying_capacity {
                    life.dormant_population = pop + 1;
                } else if pop > carrying_capacity {
                    life.dormant_population = pop - 1;
                }
            }
        },
        ChunkState::Unloaded => {},
    }
    match life.state {
        ChunkState::Dormant => life.ticks_since_active < dormant_timeout,
        _ => true,
    }
}

/// Law: a chunk that holds an entity or is looked at stays as it was for
/// the tick when active, and an active chunk is never unloaded in a tick
/// unless the timeout is 0.
pub proof fn law_occupied_chunk_stays_active(
    l: ChunkLifecycle,
    has_entities: bool,
    has_viewer: bool,
    carrying_capacity: u32,
    dormant_timeout: u64,
)
    requires
        l.state == ChunkState::Active,
    ensures
        (has_entities || has_viewer) ==> lifecycle_after_tick(l, has_entities, has_viewer, carrying_capacity)
            == l,
        dormant_timeout > 0 ==> stays_loaded(
            lifecycle_after_tick(l, has_entities, has_viewer, carrying_capacity),
            dormant_timeout,
        ),
{
}

/// Law: a dormant population never moves away from the carrying capacity.
pub proof fn law_population_approaches_capacity(pop: u32, capacity: u32)
    ensures
        pop <= capacity ==> pop <= population_step(pop, capacity) <= capacity,
        pop >= capacity ==> capacity <= population_step(pop, capacity) <= pop,
{
}

/// Law: activation leaves a chunk active with a cleared inactivity count
/// unless it was already active; it keeps the dormant population.
pub proof fn law_activation(l: ChunkLifecycle)
    ensures
        activated(l).state == ChunkState::Active,
        activated(l).dormant_population == l.dormant_population,
        l.state != ChunkState::Active ==> activated(l).ticks_since_active == 0,
        stays_loaded(activated(l), 0),
{
}

/// Index of the first occurrence of `id` in `ids`.
pub open spec fn first_id_index(ids: Seq<u64>, id: u64) -> int {
    choose|i: int| 0 <= i < ids.len() && ids[i] == id && forall|j: int| 0 <= j < i ==> ids[j] != id
}

/// Remove the first occurrence of an entity ID from a chunk's entity list by
/// swapping the last entry into its place; returns whether it was found.
pub fn remove_entity_id(ids: &mut Vec<u64>, entity_id: u64) -> (found: bool)
    ensures
        found == old(ids)@.contains(entity_id),
        found ==> ({
            let p = first_id_index(old(ids)@, entity_id);
            final(ids)@ == old(ids)@.update(p, old(ids)@.last()).drop_last()
        }),
        !found ==> final(ids)@ == old(ids)@,
{
    let mut i: usize = 0;
    while i < ids.len()
        invariant
            i <= ids@.len(),
            ids@ == old(ids)@,
            forall|j: int| 0 <= j < i ==> ids@[j] != entity_id,
        decreases ids@.len() - i,
    {
        if ids[i] == entity_id {
            let ghost p = first_id_index(ids@, entity_id);
            assert(p == i as int) by {
                if p < i {
                    assert(ids@[p] != entity_id);
                } else if p > i {
                    assert(ids@[i as int] == entity_id);
                }
            }
            ids.swap_remove(i);
            return true;
        }
        i = i + 1;
    }
    false
}

/// The chunk coordinates around `center` within `radius` chunks, row by row:
/// entry `k` is `(cx - r + k % w, cy - r + k / w)` with `w = 2r + 1`.
pub open spec fn viewer_coord(center: (i32, i32), radius: int, k: int) -> (i32, i32) {
    let w = 2 * radius + 1;
    ((center.0 - radius + k % w) as i32, (center.1 - radius + k / w) as i32)
}

/// The chunks a viewer at chunk `center` observes: the square of side
/// `2 * radius + 1` around it, row by row. A negative radius observes
/// nothing.
pub fn viewer_chunk_coords(center: (i32, i32), radius: i32) -> (coords: Vec<(i32, i32)>)
    requires
        radius < i32::MAX,
        radius >= 0 ==> i32::MIN + radius <= center.0 <= i32::MAX - radius,
        radius >= 0 ==> i32::MIN + radius <= center.1 <= i32::MAX - radius,
    ensures
        radius < 0 ==> coords@.len() == 0,
        radius >= 0 ==> coords@.len() == (2 * radius + 1) * (2 * radius + 1),
        radius >= 0 ==> forall|k: int|
            0 <= k < coords@.len() ==> #[trigger] coords@[k] == viewer_coord(center, radius as int, k),
{
    let mut coords: Vec<(i32, i32)> = Vec::new();
    if radius < 0 {
        return coords;
    }
    let ghost w: int = 2 * radius + 1;
    let mut dy: i32 = -radius;
    proof {
        assert((dy + radius) * w == 0) by (nonlinear_arith)
            requires
                dy + radius == 0,
        ;
    }
    while dy <= radius
        invariant
            0 <= radius < i32::MAX,
            w == 2 * radius + 1,
            i32::MIN + radius <= center.0 <= i32::MAX - radius,
            i32::MIN + radius <= center.1 <= i32::MAX - radius,
            -radius <= dy <= radius + 1,
            coords@.len() == (dy + radius) * w,
            forall|k: int| 0 <= k < coords@.len() ==> #[trigger] coords@[k] == viewer_coord(center, radius as int, k),
        decreases radius + 1 - dy,
    {
        let mut dx: i32 = -radius;
        let ghost row_start: int = coords@.len() as int;
        while dx <= radius
            invariant
                0 <= radius < i32::MAX,
                w == 2 * radius + 1,
                i32::MIN + radius <= center.0 <= i32::MAX - radius,
                i32::MIN + radius <= center.1 <= i32::MAX - radius,
                -radius <= dy <= radius,
                -radius <= dx <= radius + 1,
                row_start == (dy + radius) * w,
                coords@.len() == row_start + (dx + radius),
                forall|k: int| 0 <= k < coords@.len() ==> #[trigger] coords@[k] == viewer_coord(center, radius as int, k),
            decreases radius + 1 - dx,
        {
            let ghost k: int = coords@.len() as int;
            proof {
                let r = radius as int;
                let a = (dy + r) as int;
                let b = (dx + r) as int;
                assert(k == a * w + b);
                assert(0 <= b < w);
                assert(k % w == b && k / w == a) by (nonlinear_arith)
                    requires
                        k == a * w + b,
                        0 <= b < w,
                        a >= 0,
                ;
            }
            coords.push((center.0 + dx, center.1 + dy));
            dx = dx + 1;
        }
        proof {
            assert((dy + 1 + radius) * w == (dy + radius) * w + w) by (nonlinear_arith);
        }
        dy = dy + 1;
    }
    coords
}


// ---------------------------------------------------------------------------
// Chunks
// ---------------------------------------------------------------------------

/// A fixed-size region of the world: its lifecycle, the entities in it and
/// its terrain.
#[derive(Debug)]
pub struct Chunk {
    /// Grid coordinates of this chunk.
    pub coords: (i32, i32),
    /// Current lifecycle state.
    pub state: ChunkState,
    /// IDs of the entities residing in this chunk.
    pub entity_ids: Vec<u64>,
    /// Terrain cells, row-major.
    pub terrain: Vec<TerrainType>,
    /// Number of terrain columns.
    pub terrain_cols: usize,
    /// Number of terrain rows.
    pub terrain_rows: usize,
    /// Statistical population count (used when dormant).
    pub dormant_population: u32,
    /// The population a dormant chunk tends to (twenty times its average
    /// resource density, rounded down).
    pub carrying_capacity: u32,
    /// Number of ticks since any entity or viewer was present.
    pub ticks_since_active: u64,
}

impl Chunk {
    /// The lifecycle part of the chunk.
    pub open spec fn life(self) -> ChunkLifecycle {
        ChunkLifecycle {
            state: self.state,
            dormant_population: self.dormant_population,
            ticks_since_active: self.ticks_since_active,
        }
    }

    /// The row-major index of the cell at (`col`, `row`), each clamped to
    /// the grid.
    pub open spec fn clamped_cell(self, col: int, row: int) -> int {
        let c = if col < self.terrain_cols - 1 { col } else { self.terrain_cols - 1 };
        let r = if row < self.terrain_rows - 1 { row } else { self.terrain_rows - 1 };
        r * self.terrain_cols + c
    }

    /// The terrain grid is non-empty and has as many cells as its sides say.
    pub open spec fn terrain_fits(self) -> bool {
        &&& self.terrain_cols > 0
        &&& self.terrain_rows > 0
        &&& self.terrain@.len() == self.terrain_cols * self.terrain_rows
    }

    /// A new active chunk without entities, with the given terrain
    /// (row-major, `terrain_cols` by `terrain_rows`) and carrying capacity.
    pub fn new(
        coords: (i32, i32),
        terrain: Vec<TerrainType>,
        terrain_cols: usize,
        terrain_rows: usize,
        carrying_capacity: u32,
    ) -> (c: Chunk)
        ensures
            c.coords == coords,
            c.life() == fresh_lifecycle(),
            c.entity_ids@ == Seq::<u64>::empty(),
            c.terrain == terrain,
            c.terrain_cols == terrain_cols,
            c.terrain_rows == terrain_rows,
            c.carrying_capacity == carrying_capacity,
    {
        Chunk {
            coords,
            state: ChunkState::Active,
            entity_ids: Vec::new(),
            terrain,
            terrain_cols,
            terrain_rows,
            dormant_population: 0,
            carrying_capacity,
            ticks_since_active: 0,
        }
    }

    /// The lifecycle part of the chunk.
    pub fn lifecycle(&self) -> (l: ChunkLifecycle)
        ensures
            l == self.life(),
    {
        ChunkLifecycle {
            state: self.state,
            dormant_population: self.dormant_population,
            ticks_since_active: self.ticks_since_active,
        }
    }

    /// The terrain at a cell of this chunk, the coordinates clamped to the
    /// grid.
    pub fn terrain_at_local(&self, col: usize, row: usize) -> (t: TerrainType)
        requires
            self.terrain_fits(),
        ensures
            t == self.terrain@[self.clamped_cell(col as int, row as int)],
    {
        let c = if col < self.terrain_cols - 1 { col } else { self.terrain_cols - 1 };
        let r = if row < self.terrain_rows - 1 { row } else { self.terrain_rows - 1 };
        let len = self.terrain.len();
        proof {
            let cols = self.terrain_cols as int;
            let rows = self.terrain_rows as int;
            assert(0 <= r * cols && r * cols + c < rows * cols) by (nonlinear_arith)
                requires
                    0 <= r < rows,
                    0 <= c < cols,
            ;
        }
        self.terrain[r * self.terrain_cols + c]
    }

    /// Number of entities in this chunk.
    pub fn entity_count(&self) -> (n: usize)
        ensures
            n == self.entity_ids@.len(),
    {
        self.entity_ids.len()
    }

    /// Whether any entity is in this chunk.
    pub fn has_entities(&self) -> (r: bool)
        ensures
            r == (self.entity_ids@.len() > 0),
    {
        self.entity_ids.len() > 0
    }

    /// Add an entity to this chunk.
    pub fn add_entity(&mut self, entity_id: u64)
        ensures
            final(self).entity_ids@ == old(self).entity_ids@.push(entity_id),
            final(self).life() == old(self).life(),
            same_place(*old(self), *final(self)),
    {
        self.entity_ids.push(entity_id);
    }

    /// Remove an entity from this chunk (its first occurrence, the last
    /// entry taking its place); returns whether it was there.
    pub fn remove_entity(&mut self, entity_id: u64) -> (found: bool)
        ensures
            chunk_removed(*old(self), *final(self), entity_id),
            found == old(self).entity_ids@.contains(entity_id),
    {
        remove_entity_id(&mut self.entity_ids, entity_id)
    }
}

/// Two chunks lie at the same place with the same terrain and capacity.
pub open spec fn same_place(a: Chunk, b: Chunk) -> bool {
    &&& a.coords == b.coords
    &&& a.terrain == b.terrain
    &&& a.terrain_cols == b.terrain_cols
    &&& a.terrain_rows == b.terrain_rows
    &&& a.carrying_capacity == b.carrying_capacity
}

/// An entity list with the first occurrence of `id` removed, the last entry
/// taking its place.
pub open spec fn ids_without(ids: Seq<u64>, id: u64) -> Seq<u64> {
    if ids.contains(id) {
        let p = first_id_index(ids, id);
        ids.update(p, ids.last()).drop_last()
    } else {
        ids
    }
}

/// `b` is `a` with the entity `id` taken out.
pub open spec fn chunk_removed(a: Chunk, b: Chunk, id: u64) -> bool {
    &&& b.entity_ids@ == ids_without(a.entity_ids@, id)
    &&& b.life() == a.life()
    &&& same_place(a, b)
}

/// `b` is `a` activated, with the entity `id` added.
pub open spec fn chunk_added(a: Chunk, b: Chunk, id: u64) -> bool {
    &&& b.entity_ids@ == a.entity_ids@.push(id)
    &&& b.life() == activated(a.life())
    &&& same_place(a, b)
}

/// `b` is `a` with the lifecycle `l`.
pub open spec fn chunk_relifed(a: Chunk, b: Chunk, l: ChunkLifecycle) -> bool {
    &&& b.entity_ids@ == a.entity_ids@
    &&& b.life() == l
    &&& same_place(a, b)
}

/// Activate a chunk (see `activate`).
fn activate_chunk(c: &mut Chunk)
    ensures
        chunk_relifed(*old(c), *final(c), activated(old(c).life())),
{
    let mut life = c.lifecycle();
    activate(&mut life);
    c.state = life.state;
    c.dormant_population = life.dormant_population;
    c.ticks_since_active = life.ticks_since_active;
}

// ---------------------------------------------------------------------------
// Chunk manager
// ---------------------------------------------------------------------------

/// The key of a chunk: both coordinates shifted to be non-negative and
/// packed into one integer.
pub open spec fn coord_key(c: (i32, i32)) -> u64 {
    ((c.0 + 0x8000_0000) * 0x1_0000_0000 + (c.1 + 0x8000_0000)) as u64
}

fn chunk_key(c: (i32, i32)) -> (k: u64)
    ensures
        k == coord_key(c),
{
    let hi: u64 = (c.0 as i64 + 0x8000_0000) as u64;
    let lo: u64 = (c.1 as i64 + 0x8000_0000) as u64;
    hi * 0x1_0000_0000 + lo
}

/// Law: distinct coordinates have distinct keys.
pub proof fn law_coord_key_injective(a: (i32, i32), b: (i32, i32))
    ensures
        coord_key(a) == coord_key(b) ==> a == b,
{
}

/// Whether a list of chunk coordinates holds `c`.
fn coords_contain(v: &Vec<(i32, i32)>, c: (i32, i32)) -> (r: bool)
    ensures
        r == v@.contains(c),
{
    let mut i: usize = 0;
    while i < v.len()
        invariant
            i <= v@.len(),
            forall|j: int| 0 <= j < i ==> v@[j] != c,
        decreases v@.len() - i,
    {
        if v[i].0 == c.0 && v[i].1 == c.1 {
            assert(v@[i as int] == c);
            return true;
        }
        i = i + 1;
    }
    false
}

/// The lifecycle of a chunk after one tick, given who is in it and who
/// looks at it.
pub open spec fn life_after_tick(c: Chunk, viewer_chunks: Seq<(i32, i32)>) -> ChunkLifecycle {
    lifecycle_after_tick(c.life(), c.entity_ids@.len() > 0, viewer_chunks.contains(c.coords), c.carrying_capacity)
}

/// The chunk a key is given when it is needed: the loaded one, else `fresh`.
pub open spec fn base_chunk(m: Map<u64, Chunk>, k: u64, fresh: Chunk) -> Chunk {
    if m.contains_key(k) {
        m[k]
    } else {
        fresh
    }
}

/// The number of loaded chunks in a state.
pub open spec fn count_in_state(m: Map<u64, Chunk>, s: ChunkState) -> nat {
    m.dom().filter(|k: u64| m[k].state == s).len()
}

/// The chunks of the world that are loaded, keyed by their coordinates.
#[derive(Debug)]
pub struct ChunkManager {
    chunks: HashMap<u64, Chunk>,
    dormant_timeout: u64,
    viewer_chunks: Vec<(i32, i32)>,
}

impl ChunkManager {
    /// The loaded chunks, by key.
    pub closed spec fn chunk_map(&self) -> Map<u64, Chunk> {
        self.chunks@
    }

    /// Number of ticks a chunk remains dormant before being unloaded.
    pub closed spec fn timeout_of(&self) -> u64 {
        self.dormant_timeout
    }

    /// Coordinates of the chunks that the viewer is observing.
    pub closed spec fn viewers(&self) -> Seq<(i32, i32)> {
        self.viewer_chunks@
    }

    /// Number of ticks a chunk remains dormant before being unloaded.
    pub fn dormant_timeout(&self) -> (t: u64)
        ensures
            t == self.timeout_of(),
    {
        self.dormant_timeout
    }

    /// Set the number of ticks a chunk remains dormant before being unloaded.
    pub fn set_dormant_timeout(&mut self, timeout: u64)
        ensures
            final(self).timeout_of() == timeout,
            final(self).chunk_map() == old(self).chunk_map(),
            final(self).viewers() == old(self).viewers(),
            old(self).wf() ==> final(self).wf(),
    {
        self.dormant_timeout = timeout;
    }

    /// Coordinates of the chunks that the viewer is observing.
    pub fn viewer_chunks(&self) -> (v: &Vec<(i32, i32)>)
        ensures
            v@ == self.viewers(),
    {
        &self.viewer_chunks
    }

    /// Every chunk is held under the key of its coordinates, and a dormant
    /// chunk can count one more tick.
    pub closed spec fn wf(&self) -> bool {
        forall|k: u64| #[trigger]
            self.chunks@.contains_key(k) ==> coord_key(self.chunks@[k].coords) == k && (
            self.chunks@[k].state == ChunkState::Dormant ==> self.chunks@[k].ticks_since_active
                < u64::MAX)
    }

    /// No chunk loaded, the default dormant timeout, no viewer.
    pub fn new() -> (m: Self)
        ensures
            m.wf(),
            m.chunk_map() == Map::<u64, Chunk>::empty(),
            m.timeout_of() == DEFAULT_DORMANT_TIMEOUT,
            m.viewers() == Seq::<(i32, i32)>::empty(),
    {
        ChunkManager { chunks: HashMap::new(), dormant_timeout: DEFAULT_DORMANT_TIMEOUT, viewer_chunks: Vec::new() }
    }

    /// The chunk at the given coordinates, if loaded.
    pub fn get_chunk(&self, coords: (i32, i32)) -> (r: Option<&Chunk>)
        ensures
            match r {
                Some(c) => self.chunk_map().contains_key(coord_key(coords)) && *c == self.chunk_map()[coord_key(coords)],
                None => !self.chunk_map().contains_key(coord_key(coords)),
            },
    {
        let key = chunk_key(coords);
        self.chunks.get(&key)
    }

    /// Make sure the chunk at `coords` is loaded and active: a loaded chunk
    /// is activated, a missing one is loaded from `fresh` (made for these
    /// coordinates) and activated.
    pub fn ensure_chunk(&mut self, coords: (i32, i32), fresh: Chunk)
        requires
            old(self).wf(),
            fresh.coords == coords,
        ensures
            final(self).wf(),
            final(self).chunk_map().dom() == old(self).chunk_map().dom().insert(coord_key(coords)),
            forall|j: u64|
                j != coord_key(coords) && #[trigger] old(self).chunk_map().contains_key(j) ==> final(self).chunk_map()[j] == old(self).chunk_map()[j],
            ({
                let base = base_chunk(old(self).chunk_map(), coord_key(coords), fresh);
                chunk_relifed(base, final(self).chunk_map()[coord_key(coords)], activated(base.life()))
            }),
            final(self).timeout_of() == old(self).timeout_of(),
            final(self).viewers() == old(self).viewers(),
    {
        let key = chunk_key(coords);
        let mut chunk = match self.chunks.remove(&key) {
            Some(c) => c,
            None => fresh,
        };
        activate_chunk(&mut chunk);
        self.chunks.insert(key, chunk);
    }

    /// Add an entity to the chunk at `coords`, loading it from `fresh` (made
    /// for these coordinates) if needed; the chunk is activated.
    pub fn add_entity(&mut self, entity_id: u64, coords: (i32, i32), fresh: Chunk)
        requires
            old(self).wf(),
            fresh.coords == coords,
        ensures
            final(self).wf(),
            final(self).chunk_map().dom() == old(self).chunk_map().dom().insert(coord_key(coords)),
            forall|j: u64|
                j != coord_key(coords) && #[trigger] old(self).chunk_map().contains_key(j) ==> final(self).chunk_map()[j] == old(self).chunk_map()[j],
            chunk_added(
                base_chunk(old(self).chunk_map(), coord_key(coords), fresh),
                final(self).chunk_map()[coord_key(coords)],
                entity_id,
            ),
            final(self).timeout_of() == old(self).timeout_of(),
            final(self).viewers() == old(self).viewers(),
    {
        let key = chunk_key(coords);
        let mut chunk = match self.chunks.remove(&key) {
            Some(c) => c,
            None => fresh,
        };
        activate_chunk(&mut chunk);
        chunk.add_entity(entity_id);
        self.chunks.insert(key, chunk);
    }

    /// Remove an entity from the chunk at `coords`; returns whether it was
    /// there. A chunk that is not loaded is not loaded for this.
    pub fn remove_entity(&mut self, entity_id: u64, coords: (i32, i32)) -> (found: bool)
        requires
            old(self).wf(),
        ensures
            final(self).wf(),
            final(self).chunk_map().dom() == old(self).chunk_map().dom(),
            forall|j: u64|
                j != coord_key(coords) && #[trigger] old(self).chunk_map().contains_key(j) ==> final(self).chunk_map()[j] == old(self).chunk_map()[j],
            old(self).chunk_map().contains_key(coord_key(coords)) ==> chunk_removed(
                old(self).chunk_map()[coord_key(coords)],
                final(self).chunk_map()[coord_key(coords)],
                entity_id,
            ),
            found == (old(self).chunk_map().contains_key(coord_key(coords)) && old(self).chunk_map()[coord_key(coords)].entity_ids@.contains(entity_id)),
            final(self).timeout_of() == old(self).timeout_of(),
            final(self).viewers() == old(self).viewers(),
    {
        let key = chunk_key(coords);
        match self.chunks.remove(&key) {
            Some(mut chunk) => {
                let found = chunk.remove_entity(entity_id);
                self.chunks.insert(key, chunk);
                proof {
                    assert(self.chunks@.dom() =~= old(self).chunks@.dom());
                }
                found
            },
            None => false,
        }
    }

    /// Move an entity between chunks: when the chunks differ, it leaves the
    /// one at `from` (if loaded) and joins the one at `to`, loaded from
    /// `fresh` (made for `to`) if needed and activated.
    pub fn move_entity(&mut self, entity_id: u64, from: (i32, i32), to: (i32, i32), fresh: Chunk)
        requires
            old(self).wf(),
            fresh.coords == to,
        ensures
            final(self).wf(),
            from == to ==> final(self).chunk_map() == old(self).chunk_map(),
            from != to ==> {
                &&& final(self).chunk_map().dom() == old(self).chunk_map().dom().insert(coord_key(to))
                &&& forall|j: u64|
                    j != coord_key(from) && j != coord_key(to) && #[trigger] old(self).chunk_map().contains_key(j) ==> final(self).chunk_map()[j] == old(self).chunk_map()[j]
                &&& old(self).chunk_map().contains_key(coord_key(from)) ==> chunk_removed(
                    old(self).chunk_map()[coord_key(from)],
                    final(self).chunk_map()[coord_key(from)],
                    entity_id,
                )
                &&& chunk_added(
                    base_chunk(old(self).chunk_map(), coord_key(to), fresh),
                    final(self).chunk_map()[coord_key(to)],
                    entity_id,
                )
            },
            final(self).timeout_of() == old(self).timeout_of(),
            final(self).viewers() == old(self).viewers(),
    {
        if from.0 == to.0 && from.1 == to.1 {
            return;
        }
        proof {
            law_coord_key_injective(from, to);
        }
        self.remove_entity(entity_id, from);
        self.add_entity(entity_id, to, fresh);
    }

    /// Number of loaded chunks (active and dormant).
    pub fn loaded_chunk_count(&self) -> (n: usize)
        ensures
            n == self.chunk_map().dom().len(),
    {
        self.chunks.len()
    }

    /// Number of loaded chunks in a state.
    fn count_state(&self, s: ChunkState) -> (n: usize)
        ensures
            n == count_in_state(self.chunk_map(), s),
    {
        let keys = map_keys(&self.chunks);
        let ghost m = self.chunks@;
        let ghost pred = |k: u64| m[k].state == s;
        let mut n: usize = 0;
        let ghost mut counted: Seq<u64> = Seq::empty();
        for i in 0..keys.len()
            invariant
                m == self.chunks@,
                pred == (|k: u64| m[k].state == s),
                keys@.no_duplicates(),
                keys@.to_set() == m.dom(),
                n == counted.len(),
                n <= i,
                counted.no_duplicates(),
                forall|x: u64| #[trigger]
                    counted.contains(x) <==> (keys@.take(i as int).contains(x) && pred(x)),
        {
            let key = keys[i];
            proof {
                lemma_take_step(keys@, i as int);
                lemma_next_not_taken(keys@, i as int);
                assert(keys@.to_set().contains(key));
            }
            let c = self.chunks.get(&key).unwrap();
            if c.state == s {
                proof {
                    lemma_push_new(counted, key);
                    counted = counted.push(key);
                }
                n = n + 1;
            }
        }
        proof {
            assert(keys@.take(keys@.len() as int) =~= keys@);
            assert(counted.to_set() =~= m.dom().filter(pred)) by {
                assert forall|x: u64| counted.to_set().contains(x) implies m.dom().filter(pred).contains(x) by {
                    assert(keys@.contains(x));
                    assert(keys@.to_set().contains(x));
                }
                assert forall|x: u64| m.dom().filter(pred).contains(x) implies counted.to_set().contains(x) by {
                    assert(keys@.to_set().contains(x));
                }
            }
            counted.unique_seq_to_set();
        }
        n
    }

    /// Number of active chunks.
    pub fn active_chunk_count(&self) -> (n: usize)
        ensures
            n == count_in_state(self.chunk_map(), ChunkState::Active),
    {
        self.count_state(ChunkState::Active)
    }

    /// Number of dormant chunks.
    pub fn dormant_chunk_count(&self) -> (n: usize)
        ensures
            n == count_in_state(self.chunk_map(), ChunkState::Dormant),
    {
        self.count_state(ChunkState::Dormant)
    }

    /// The coordinates of every loaded chunk, each once, in no particular
    /// order.
    pub fn loaded_coords(&self) -> (coords: Vec<(i32, i32)>)
        requires
            self.wf(),
        ensures
            coords@.len() == self.chunk_map().dom().len(),
            forall|c: (i32, i32)| #[trigger]
                coords@.contains(c) <==> self.chunk_map().contains_key(coord_key(c)),
    {
        let keys = map_keys(&self.chunks);
        let ghost m = self.chunks@;
        let mut coords: Vec<(i32, i32)> = Vec::new();
        for i in 0..keys.len()
            invariant
                m == self.chunks@,
                self.wf(),
                keys@.no_duplicates(),
                keys@.to_set() == m.dom(),
                coords@.len() == i,
                forall|j: int| 0 <= j < i ==> #[trigger] coord_key(coords@[j]) == keys@[j],
        {
            let key = keys[i];
            proof {
                assert(keys@.to_set().contains(key));
            }
            let c = self.chunks.get(&key).unwrap();
            coords.push(c.coords);
        }
        proof {
            keys@.unique_seq_to_set();
            assert forall|c: (i32, i32)| #[trigger] coords@.contains(c) implies m.contains_key(coord_key(c)) by {
                let j = choose|j: int| 0 <= j < coords@.len() && coords@[j] == c;
                assert(coord_key(coords@[j]) == keys@[j]);
                assert(keys@.to_set().contains(keys@[j]));
            }
            assert forall|c: (i32, i32)| m.contains_key(coord_key(c)) implies #[trigger] coords@.contains(c) by {
                assert(keys@.to_set().contains(coord_key(c)));
                let j = choose|j: int| 0 <= j < keys@.len() && keys@[j] == coord_key(c);
                assert(coord_key(coords@[j]) == coord_key(c));
                law_coord_key_injective(coords@[j], c);
            }
        }
        coords
    }

    /// Set the chunks the viewer observes: the square of side
    /// `2 * radius_chunks + 1` around the viewer's chunk `center`, row by row.
    pub fn set_viewer_position(&mut self, center: (i32, i32), radius_chunks: i32)
        requires
            radius_chunks < i32::MAX,
            radius_chunks >= 0 ==> i32::MIN + radius_chunks <= center.0 <= i32::MAX - radius_chunks,
            radius_chunks >= 0 ==> i32::MIN + radius_chunks <= center.1 <= i32::MAX - radius_chunks,
        ensures
            final(self).chunk_map() == old(self).chunk_map(),
            final(self).timeout_of() == old(self).timeout_of(),
            radius_chunks < 0 ==> final(self).viewers().len() == 0,
            radius_chunks >= 0 ==> final(self).viewers().len() == (2 * radius_chunks + 1) * (2
                * radius_chunks + 1),
            radius_chunks >= 0 ==> forall|k: int|
                0 <= k < final(self).viewers().len() ==> #[trigger] final(self).viewers()[k]
                    == viewer_coord(center, radius_chunks as int, k),
    {
        self.viewer_chunks = viewer_chunk_coords(center, radius_chunks);
    }

    /// One tick of every loaded chunk: an active chunk with neither entities
    /// nor a viewer goes dormant, a dormant one ages and moves its
    /// population toward its capacity, and one dormant for the timeout is
    /// unloaded.
    pub fn tick(&mut self)
        requires
            old(self).wf(),
        ensures
            final(self).wf(),
            forall|k: u64| #[trigger]
                final(self).chunk_map().contains_key(k) <==> (old(self).chunk_map().contains_key(k)
                    && stays_loaded(
                    life_after_tick(old(self).chunk_map()[k], old(self).viewers()),
                    old(self).timeout_of(),
                )),
            forall|k: u64| #[trigger]
                final(self).chunk_map().contains_key(k) ==> chunk_relifed(
                    old(self).chunk_map()[k],
                    final(self).chunk_map()[k],
                    life_after_tick(old(self).chunk_map()[k], old(self).viewers()),
                ),
            forall|k: u64| #[trigger]
                final(self).chunk_map().contains_key(k) ==> stays_loaded(
                    final(self).chunk_map()[k].life(),
                    final(self).timeout_of(),
                ),
            final(self).timeout_of() == old(self).timeout_of(),
            final(self).viewers() == old(self).viewers(),
    {
        let keys = map_keys(&self.chunks);
        let ghost m = self.chunks@;
        let ghost viewer = self.viewer_chunks@;
        let ghost timeout = self.dormant_timeout;
        for i in 0..keys.len()
            invariant
                keys@.no_duplicates(),
                keys@.to_set() == m.dom(),
                viewer == self.viewer_chunks@,
                timeout == self.dormant_timeout,
                forall|k: u64| #[trigger] m.contains_key(k) ==> coord_key(m[k].coords) == k && (
                    m[k].state == ChunkState::Dormant ==> m[k].ticks_since_active < u64::MAX),
                forall|k: u64| #[trigger]
                    self.chunks@.contains_key(k) <==> (m.contains_key(k) && (keys@.take(i as int).contains(k)
                        ==> stays_loaded(life_after_tick(m[k], viewer), timeout))),
                forall|k: u64| #[trigger]
                    self.chunks@.contains_key(k) ==> (if keys@.take(i as int).contains(k) {
                        chunk_relifed(m[k], self.chunks@[k], life_after_tick(m[k], viewer))
                    } else {
                        self.chunks@[k] == m[k]
                    }),
        {
            let key = keys[i];
            proof {
                lemma_take_step(keys@, i as int);
                lemma_next_not_taken(keys@, i as int);
                assert(keys@.to_set().contains(key));
                assert(self.chunks@.contains_key(key));
            }
            let ghost before = self.chunks@;
            if let Some(mut chunk) = self.chunks.remove(&key) {
                let has_entities = chunk.has_entities();
                let has_viewer = coords_contain(&self.viewer_chunks, chunk.coords);
                let mut life = chunk.lifecycle();
                let keep = lifecycle_tick(
                    &mut life,
                    has_entities,
                    has_viewer,
                    chunk.carrying_capacity,
                    self.dormant_timeout,
                );
                chunk.state = life.state;
                chunk.dormant_population = life.dormant_population;
                chunk.ticks_since_active = life.ticks_since_active;
                if keep {
                    self.chunks.insert(key, chunk);
                }
                proof {
                    assert forall|k: u64| #[trigger]
                        self.chunks@.contains_key(k) <==> (m.contains_key(k) && (keys@.take(i + 1).contains(k)
                            ==> stays_loaded(life_after_tick(m[k], viewer), timeout))) by {
                        if k != key {
                            assert(self.chunks@.contains_key(k) == before.contains_key(k));
                        }
                    }
                    assert forall|k: u64| #[trigger]
                        self.chunks@.contains_key(k) implies (if keys@.take(i + 1).contains(k) {
                            chunk_relifed(m[k], self.chunks@[k], life_after_tick(m[k], viewer))
                        } else {
                            self.chunks@[k] == m[k]
                        }) by {
                        if k != key {
                            assert(before.contains_key(k));
                            assert(self.chunks@[k] == before[k]);
                        }
                    }
                }
            }
        }
        proof {
            assert(keys@.take(keys@.len() as int) =~= keys@);
            assert forall|k: u64| #[trigger] m.contains_key(k) implies keys@.contains(k) by {
                assert(keys@.to_set().contains(k));
            }
        }
    }
}

/// Law of the manager's tick for one chunk: an active chunk that holds an
/// entity or is looked at keeps its lifecycle and stays loaded (for a
/// non-zero timeout); a dormant chunk whose count reaches the timeout with
/// this tick is unloaded, and one below it stays dormant.
pub proof fn law_tick_per_chunk(c: Chunk, viewer_chunks: Seq<(i32, i32)>, timeout: u64)
    requires
        c.state == ChunkState::Dormant ==> c.ticks_since_active < u64::MAX,
    ensures
        c.state == ChunkState::Active && (c.entity_ids@.len() > 0 || viewer_chunks.contains(c.coords))
            ==> life_after_tick(c, viewer_chunks) == c.life() && (timeout > 0 ==> stays_loaded(
            life_after_tick(c, viewer_chunks),
            timeout,
        )),
        c.state == ChunkState::Dormant ==> life_after_tick(c, viewer_chunks).state == ChunkState::Dormant
            && (stays_loaded(life_after_tick(c, viewer_chunks), timeout) <==> c.ticks_since_active + 1
            < timeout),
{
    if c.state == ChunkState::Active {
        law_occupied_chunk_stays_active(
            c.life(),
            c.entity_ids@.len() > 0,
            viewer_chunks.contains(c.coords),
            c.carrying_capacity,
            timeout,
        );
    }
}

/// Taking one more element of a list adds exactly that element.
proof fn lemma_take_step(s: Seq<u64>, i: int)
    requires
        0 <= i < s.len(),
    ensures
        forall|x: u64| #[trigger] s.take(i + 1).contains(x) <==> (s.take(i).contains(x) || x == s[i]),
{
    assert forall|x: u64| #[trigger] s.take(i + 1).contains(x) <==> (s.take(i).contains(x) || x == s[i]) by {
        if s.take(i + 1).contains(x) {
            let j = choose|j: int| #![trigger s.take(i + 1)[j]] 0 <= j < i + 1 && s.take(i + 1)[j] == x;
            if j < i {
                assert(s.take(i)[j] == x);
            }
        }
        if s.take(i).contains(x) {
            let j = choose|j: int| #![trigger s.take(i)[j]] 0 <= j < i && s.take(i)[j] == x;
            assert(s.take(i + 1)[j] == x);
        }
        if x == s[i] {
            assert(s.take(i + 1)[i] == x);
        }
    }
}

/// In a list without repeats, an element is not among those before it.
proof fn lemma_next_not_taken(s: Seq<u64>, i: int)
    requires
        0 <= i < s.len(),
        s.no_duplicates(),
    ensures
        !s.take(i).contains(s[i]),
{
    if s.take(i).contains(s[i]) {
        let j = choose|j: int| #![trigger s.take(i)[j]] 0 <= j < i && s.take(i)[j] == s[i];
        assert(s[j] == s[i]);
    }
}

/// Pushing a value not in a list without repeats keeps it without repeats.
proof fn lemma_push_new(s: Seq<u64>, a: u64)
    requires
        s.no_duplicates(),
        !s.contains(a),
    ensures
        s.push(a).no_duplicates(),
        forall|x: u64| #[trigger] s.push(a).contains(x) <==> (s.contains(x) || x == a),
{
    let t = s.push(a);
    assert forall|i: int, j: int| 0 <= i < t.len() && 0 <= j < t.len() && i != j implies t[i] != t[j] by {
        if i < s.len() && j < s.len() {
            assert(s[i] != s[j]);
        } else if i < s.len() {
            assert(s.contains(s[i]));
        } else {
            assert(s.contains(s[j]));
        }
    }
    assert forall|x: u64| #[trigger] t.contains(x) <==> (s.contains(x) || x == a) by {
        if t.contains(x) {
            let k = choose|k: int| 0 <= k < t.len() && t[k] == x;
            if k < s.len() {
                assert(s[k] == x);
            }
        }
        if s.contains(x) {
            let k = choose|k: int| 0 <= k < s.len() && s[k] == x;
            assert(t[k] == x);
        }
        if x == a {
            assert(t[s.len() as int] == x);
        }
    }
}

} // verus!
