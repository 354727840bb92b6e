//! Biographies compiled from simulation events.
use crate::events::types::{DeathCause, SimEvent};
use crate::narrative::ids::map_keys;
use crate::narrative::significance::{score_event, significance, SIGNIFICANCE_THRESHOLD};
use std::collections::HashMap;
use vstd::prelude::*;

verus! {

/// A life phase classification for biography generation.
#[derive(Debug, Clone, Copy, PartialEq, Eq, Structural)]
pub enum LifePhase {
    /// Early life: first 20% of lifespan.
    Youth,
    /// Prime years: 20% to 60%.
    Prime,
    /// Later years: 60% to 100%.
    Elder,
}

/// Kinds of biographical events.
#[derive(Debug, Clone, Copy, PartialEq, Eq, Structural)]
pub enum BiographyEventKind {
    Born { parent_id: Option<u64> },
    Reproduced { offspring_id: u64 },
    Killed { victim_id: u64 },
    WasKilledBy { killer_id: u64 },
    DiedOfOldAge,
    DiedOfStarvation,
    FormedComposite { partner_id: u64 },
    JoinedComposite { leader_id: u64 },
    CompositeDecomposed,
}

/// A single significant event in an entity's biography.
#[derive(Debug, Clone, Copy, PartialEq, Eq, Structural)]
pub struct BiographyEvent {
    pub tick: u64,
    pub description: BiographyEventKind,
    /// Significance of the event, in hundredths.
    pub significance: u32,
}

/// The biographical data of one entity (distance traveled and relationship
/// valences are real-valued and kept beside it by the caller).
#[derive(Debug, Clone)]
pub struct Biography {
    pub entity_id: u64,
    pub birth_tick: u64,
    pub death_tick: Option<u64>,
    /// Chronological list of significant events.
    pub events: Vec<BiographyEvent>,
    /// Number of offspring produced.
    pub offspring_count: u32,
    /// Number of kills.
    pub kill_count: u32,
}

/// A biography as a mathematical value.
pub struct BioView {
    pub entity_id: u64,
    pub birth_tick: u64,
    pub death_tick: Option<u64>,
    pub events: Seq<BiographyEvent>,
    pub offspring_count: u32,
    pub kill_count: u32,
}

impl View for Biography {
    type V = BioView;

    open spec fn view(&self) -> BioView {
        BioView {
            entity_id: self.entity_id,
            birth_tick: self.birth_tick,
            death_tick: self.death_tick,
            events: self.events@,
            offspring_count: self.offspring_count,
            kill_count: self.kill_count,
        }
    }
}

/// A biography with one more event recorded.
pub open spec fn with_event(b: BioView, ev: BiographyEvent) -> BioView {
    BioView { events: b.events.push(ev), ..b }
}

/// The biography of an entity born at `tick`.
pub open spec fn born(entity_id: u64, tick: u64, parent_id: Option<u64>, sig: u32) -> BioView {
    BioView {
        entity_id,
        birth_tick: tick,
        death_tick: None,
        events: seq![
            BiographyEvent { tick, description: BiographyEventKind::Born { parent_id }, significance: sig },
        ],
        offspring_count: 0,
        kill_count: 0,
    }
}

impl Biography {
    /// A biography with nothing recorded yet.
    pub fn new(entity_id: u64, birth_tick: u64) -> (b: Self)
        ensures
            b@ == (BioView {
                entity_id,
                birth_tick,
                death_tick: None,
                events: Seq::empty(),
                offspring_count: 0,
                kill_count: 0,
            }),
    {
        Biography {
            entity_id,
            birth_tick,
            death_tick: None,
            events: Vec::new(),
            offspring_count: 0,
            kill_count: 0,
        }
    }

    /// Record a significant event in this biography.
    pub fn record_event(&mut self, tick: u64, kind: BiographyEventKind, sig: u32)
        ensures
            final(self)@ == with_event(
                old(self)@,
                BiographyEvent { tick, description: kind, significance: sig },
            ),
    {
        self.events.push(BiographyEvent { tick, description: kind, significance: sig });
    }

    /// Whether the entity is still alive (no death recorded).
    pub fn is_alive(&self) -> (r: bool)
        ensures
            r == (self.death_tick is None),
    {
        self.death_tick.is_none()
    }

    /// Total lifespan in ticks (`None` while alive).
    pub fn lifespan(&self) -> (r: Option<u64>)
        requires
            self.death_tick matches Some(d) ==> d >= self.birth_tick,
        ensures
            r == (match self.death_tick {
                Some(d) => Some((d - self.birth_tick) as u64),
                None => None,
            }),
    {
        match self.death_tick {
            Some(d) => Some(d - self.birth_tick),
            None => None,
        }
    }
}

// ---------------------------------------------------------------------------
// The compiler
// ---------------------------------------------------------------------------

/// The biographies of a map, as values.
pub open spec fn bios_view(m: Map<u64, Biography>) -> Map<u64, BioView> {
    m.map_values(|b: Biography| b@)
}

/// Record an event on the biography of `id`, if there is one.
pub open spec fn note(
    bios: Map<u64, BioView>,
    id: u64,
    tick: u64,
    kind: BiographyEventKind,
    sig: u32,
) -> Map<u64, BioView> {
    if bios.contains_key(id) {
        bios.insert(
            id,
            with_event(bios[id], BiographyEvent { tick, description: kind, significance: sig }),
        )
    } else {
        bios
    }
}

/// Record an event on the biography of each of `ids`, in order.
pub open spec fn note_all(
    bios: Map<u64, BioView>,
    ids: Seq<u64>,
    tick: u64,
    kind: BiographyEventKind,
    sig: u32,
) -> Map<u64, BioView>
    decreases ids.len(),
{
    if ids.len() == 0 {
        bios
    } else {
        note(note_all(bios, ids.drop_last(), tick, kind, sig), ids.last(), tick, kind, sig)
    }
}

/// The biography event that records a death of the given cause.
pub open spec fn death_kind(cause: DeathCause) -> BiographyEventKind {
    match cause {
        DeathCause::Combat { killer_id } => BiographyEventKind::WasKilledBy { killer_id },
        DeathCause::OldAge => BiographyEventKind::DiedOfOldAge,
        DeathCause::Starvation => BiographyEventKind::DiedOfStarvation,
    }
}

/// Spawns and deaths are always recorded; other events only when
/// significant.
pub open spec fn is_recorded(e: SimEvent) -> bool {
    e is EntitySpawned || e is EntityDied || significance(e) >= SIGNIFICANCE_THRESHOLD
}

/// What one event at `tick` does to the biographies.
pub open spec fn bio_step(bios: Map<u64, BioView>, e: SimEvent, tick: u64) -> Map<u64, BioView> {
    let sig = significance(e);
    if !is_recorded(e) {
        bios
    } else {
        match e {
            SimEvent::EntitySpawned { entity_id, parent_id, .. } => bios.insert(
                entity_id,
                born(entity_id, tick, parent_id, sig),
            ),
            SimEvent::EntityReproduced { parent_id, offspring_id } => if bios.contains_key(
                parent_id,
            ) {
                let b = bios[parent_id];
                bios.insert(
                    parent_id,
                    with_event(
                        BioView { offspring_count: (b.offspring_count + 1) as u32, ..b },
                        BiographyEvent {
                            tick,
                            description: BiographyEventKind::Reproduced { offspring_id },
                            significance: sig,
                        },
                    ),
                )
            } else {
                bios
            },
            SimEvent::EntityDied { entity_id, cause, .. } => {
                let after_death = if bios.contains_key(entity_id) {
                    bios.insert(
                        entity_id,
                        with_event(
                            BioView { death_tick: Some(tick), ..bios[entity_id] },
                            BiographyEvent { tick, description: death_kind(cause), significance: sig },
                        ),
                    )
                } else {
                    bios
                };
                match cause {
                    DeathCause::Combat { killer_id } => if after_death.contains_key(killer_id) {
                        let k = after_death[killer_id];
                        after_death.insert(
                            killer_id,
                            with_event(
                                BioView { kill_count: (k.kill_count + 1) as u32, ..k },
                                BiographyEvent {
                                    tick,
                                    description: BiographyEventKind::Killed { victim_id: entity_id },
                                    significance: sig,
                                },
                            ),
                        )
                    } else {
                        after_death
                    },
                    _ => after_death,
                }
            },
            SimEvent::CompositeFormed { leader_id, member_id } => note(
                note(
                    bios,
                    leader_id,
                    tick,
                    BiographyEventKind::FormedComposite { partner_id: member_id },
                    sig,
                ),
                member_id,
                tick,
                BiographyEventKind::JoinedComposite { leader_id },
                sig,
            ),
            SimEvent::CompositeDecomposed { leader_id, released_member_ids } => note_all(
                note(bios, leader_id, tick, BiographyEventKind::CompositeDecomposed, sig),
                released_member_ids@,
                tick,
                BiographyEventKind::CompositeDecomposed,
                sig,
            ),
            _ => bios,
        }
    }
}

/// An event can be recorded without a count passing `u32::MAX`.
pub open spec fn step_fits(bios: Map<u64, BioView>, e: SimEvent) -> bool {
    match e {
        SimEvent::EntityReproduced { parent_id, .. } => bios.contains_key(parent_id)
            ==> bios[parent_id].offspring_count < u32::MAX,
        SimEvent::EntityDied { cause, .. } => match cause {
            DeathCause::Combat { killer_id } => bios.contains_key(killer_id)
                ==> bios[killer_id].kill_count < u32::MAX,
            _ => true,
        },
        _ => true,
    }
}

/// The biographies after a tick's events, in order.
pub open spec fn bio_steps(bios: Map<u64, BioView>, events: Seq<SimEvent>, tick: u64) -> Map<
    u64,
    BioView,
>
    decreases events.len(),
{
    if events.len() == 0 {
        bios
    } else {
        bio_step(bio_steps(bios, events.drop_last(), tick), events.last(), tick)
    }
}

/// No count passes `u32::MAX` while a tick's events are recorded.
pub open spec fn steps_fit(bios: Map<u64, BioView>, events: Seq<SimEvent>, tick: u64) -> bool
    decreases events.len(),
{
    if events.len() == 0 {
        true
    } else {
        steps_fit(bios, events.drop_last(), tick) && step_fits(
            bio_steps(bios, events.drop_last(), tick),
            events.last(),
        )
    }
}

/// Compiler that builds biographies from simulation events.
#[derive(Debug, Clone)]
pub struct BiographyCompiler {
    biographies: HashMap<u64, Biography>,
}

impl View for BiographyCompiler {
    type V = Map<u64, BioView>;

    closed spec fn view(&self) -> Map<u64, BioView> {
        bios_view(self.biographies@)
    }
}

impl BiographyCompiler {
    /// No biographies yet.
    pub fn new() -> (c: Self)
        ensures
            c@ == Map::<u64, BioView>::empty(),
    {
        let c = BiographyCompiler { biographies: HashMap::new() };
        assert(c@ =~= Map::<u64, BioView>::empty());
        c
    }

    /// Put a biography under its key.
    fn put(&mut self, id: u64, b: Biography)
        ensures
            final(self)@ == old(self)@.insert(id, b@),
    {
        self.biographies.insert(id, b);
        assert(bios_view(self.biographies@) =~= bios_view(old(self).biographies@).insert(id, b@));
    }

    /// Take the biography of `id` out, if there is one.
    fn take(&mut self, id: u64) -> (r: Option<Biography>)
        ensures
            match r {
                Some(b) => old(self)@.contains_key(id) && b@ == old(self)@[id],
                None => !old(self)@.contains_key(id),
            },
            final(self)@ == old(self)@.remove(id),
    {
        let r = self.biographies.remove(&id);
        assert(bios_view(self.biographies@) =~= bios_view(old(self).biographies@).remove(id));
        r
    }

    /// Record an event on the biography of `id`, if there is one.
    fn note(&mut self, id: u64, tick: u64, kind: BiographyEventKind, sig: u32)
        ensures
            final(self)@ == note(old(self)@, id, tick, kind, sig),
    {
        match self.take(id) {
            Some(mut b) => {
                b.record_event(tick, kind, sig);
                self.put(id, b);
                assert(self@ =~= note(old(self)@, id, tick, kind, sig));
            },
            None => {
                assert(self@ =~= old(self)@);
            },
        }
    }

    /// Record the same event on the biography of each of `ids`.
    fn note_all(&mut self, ids: &Vec<u64>, tick: u64, kind: BiographyEventKind, sig: u32)
        ensures
            final(self)@ == note_all(old(self)@, ids@, tick, kind, sig),
    {
        let n = ids.len();
        for i in 0..n
            invariant
                n == ids@.len(),
                self@ == note_all(old(self)@, ids@.take(i as int), tick, kind, sig),
        {
            proof {
                assert(ids@.take(i + 1).drop_last() =~= ids@.take(i as int));
            }
            self.note(ids[i], tick, kind, sig);
        }
        assert(ids@.take(n as int) =~= ids@);
    }

    /// Record one event of `tick`.
    fn process_event(&mut self, event: &SimEvent, tick: u64)
        requires
            step_fits(old(self)@, *event),
        ensures
            final(self)@ == bio_step(old(self)@, *event, tick),
    {
        let sig = score_event(event);
        let lifecycle = match event {
            SimEvent::EntitySpawned { .. } | SimEvent::EntityDied { .. } => true,
            _ => false,
        };
        if !lifecycle && sig < SIGNIFICANCE_THRESHOLD {
            return ;
        }
        match event {
            SimEvent::EntitySpawned { entity_id, parent_id, .. } => {
                let mut b = Biography::new(*entity_id, tick);
                b.record_event(tick, BiographyEventKind::Born { parent_id: *parent_id }, sig);
                assert(b@.events =~= seq![
                    BiographyEvent { tick, description: BiographyEventKind::Born { parent_id: *parent_id }, significance: sig },
                ]);
                self.put(*entity_id, b);
            },
            SimEvent::EntityReproduced { parent_id, offspring_id } => {
                match self.take(*parent_id) {
                    Some(mut b) => {
                        b.offspring_count = b.offspring_count + 1;
                        b.record_event(
                            tick,
                            BiographyEventKind::Reproduced { offspring_id: *offspring_id },
                            sig,
                        );
                        self.put(*parent_id, b);
                        assert(self@ =~= bio_step(old(self)@, *event, tick));
                    },
                    None => {
                        assert(self@ =~= old(self)@);
                    },
                }
            },
            SimEvent::EntityDied { entity_id, cause, .. } => {
                match self.take(*entity_id) {
                    Some(mut b) => {
                        b.death_tick = Some(tick);
                        let kind = match cause {
                            DeathCause::Combat { killer_id } => BiographyEventKind::WasKilledBy {
                                killer_id: *killer_id,
                            },
                            DeathCause::OldAge => BiographyEventKind::DiedOfOldAge,
                            DeathCause::Starvation => BiographyEventKind::DiedOfStarvation,
                        };
                        b.record_event(tick, kind, sig);
                        self.put(*entity_id, b);
                    },
                    None => {
                        assert(self@ =~= old(self)@);
                    },
                }
                let ghost after_death = self@;
                if let DeathCause::Combat { killer_id } = cause {
                    match self.take(*killer_id) {
                        Some(mut k) => {
                            assert(k.kill_count < u32::MAX);
                            k.kill_count = k.kill_count + 1;
                            k.record_event(
                                tick,
                                BiographyEventKind::Killed { victim_id: *entity_id },
                                sig,
                            );
                            self.put(*killer_id, k);
                            assert(self@ =~= bio_step(old(self)@, *event, tick));
                        },
                        None => {
                            assert(self@ =~= after_death);
                        },
                    }
                }
            },
            SimEvent::CompositeFormed { leader_id, member_id } => {
                self.note(
                    *leader_id,
                    tick,
                    BiographyEventKind::FormedComposite { partner_id: *member_id },
                    sig,
                );
                self.note(*member_id, tick, BiographyEventKind::JoinedComposite { leader_id: *leader_id }, sig);
            },
            SimEvent::CompositeDecomposed { leader_id, released_member_ids } => {
                self.note(*leader_id, tick, BiographyEventKind::CompositeDecomposed, sig);
                self.note_all(released_member_ids, tick, BiographyEventKind::CompositeDecomposed, sig);
            },
            _ => {},
        }
    }

    /// Process a tick's events, updating biographies: spawns and deaths are
    /// always recorded, other events only when significant.
    pub fn process_events(&mut self, events: &[SimEvent], tick: u64)
        requires
            steps_fit(old(self)@, events@, tick),
        ensures
            final(self)@ == bio_steps(old(self)@, events@, tick),
    {
        let n = events.len();
        for i in 0..n
            invariant
                n == events@.len(),
                self@ == bio_steps(old(self)@, events@.take(i as int), tick),
                steps_fit(old(self)@, events@, tick),
        {
            proof {
                let s = events@.take(i + 1);
                assert(s.drop_last() =~= events@.take(i as int));
                lemma_steps_fit_prefix(old(self)@, events@, tick, i + 1);
            }
            self.process_event(&events[i], tick);
        }
        assert(events@.take(n as int) =~= events@);
    }

    /// The biography of an entity.
    pub fn get(&self, entity_id: u64) -> (r: Option<&Biography>)
        ensures
            match r {
                Some(b) => self@.contains_key(entity_id) && b@ == self@[entity_id],
                None => !self@.contains_key(entity_id),
            },
    {
        self.biographies.get(&entity_id)
    }

    /// All biographies, by entity.
    pub fn all(&self) -> (r: &HashMap<u64, Biography>)
        ensures
            bios_view(r@) == self@,
    {
        &self.biographies
    }

    /// Number of biographies.
    pub fn len(&self) -> (n: usize)
        ensures
            n == self@.len(),
    {
        proof {
            assert(self@.dom() =~= self.biographies@.dom());
        }
        self.biographies.len()
    }

    /// Keep the biographies of living entities and of the entities in
    /// `keep`; drop the others.
    pub fn retain_alive_or(&mut self, keep: &[u64])
        ensures
            final(self)@ == old(self)@.restrict(
                old(self)@.dom().filter(
                    |id: u64| old(self)@[id].death_tick is None || keep@.contains(id),
                ),
            ),
    {
        let ids = map_keys(&self.biographies);
        let ghost start = self@;
        let n = ids.len();
        for i in 0..n
            invariant
                n == ids@.len(),
                ids@.to_set() == start.dom(),
                ids@.no_duplicates(),
                self@ == start.restrict(
                    start.dom().filter(
                        |id: u64|
                            !seen(ids@, i as int, id) || start[id].death_tick is None
                                || keep@.contains(id),
                    ),
                ),
        {
            let id = ids[i];
            let ghost before = self@;
            proof {
                assert(start.dom().contains(id)) by {
                    assert(ids@.to_set().contains(id));
                }
                assert(!seen(ids@, i as int, id)) by {
                    if seen(ids@, i as int, id) {
                        let j = choose|j: int| 0 <= j < i && ids@[j] == id;
                        assert(ids@[j] == ids@[i as int]);
                    }
                }
                assert(before.contains_key(id) && before[id] == start[id]);
            }
            let keep_it = match self.get(id) {
                Some(b) => b.is_alive() || slice_contains(keep, id),
                None => true,
            };
            assert(keep_it == (start[id].death_tick is None || keep@.contains(id)));
            if !keep_it {
                let _ = self.take(id);
            }
            proof {
                assert(start.dom().contains(id)) by {
                    assert(ids@.to_set().contains(id));
                }
                assert forall|x: u64| #[trigger] seen(ids@, i + 1, x) == (seen(ids@, i as int, x) || x == id) by {
                    if x == id {
                        assert(ids@[i as int] == x);
                    }
                    if seen(ids@, i + 1, x) && x != id {
                        let j = choose|j: int| 0 <= j < i + 1 && ids@[j] == x;
                        assert(j < i);
                    }
                }
                assert(!seen(ids@, i as int, id)) by {
                    if seen(ids@, i as int, id) {
                        let j = choose|j: int| 0 <= j < i && ids@[j] == id;
                        assert(ids@[j] == ids@[i as int]);
                    }
                }
                assert(self@ =~= start.restrict(
                    start.dom().filter(
                        |x: u64|
                            !seen(ids@, i + 1, x) || start[x].death_tick is None
                                || keep@.contains(x),
                    ),
                ));
            }
        }
        proof {
            assert forall|x: u64| start.dom().contains(x) implies seen(ids@, n as int, x) by {
                assert(ids@.to_set().contains(x));
                let j = choose|j: int| 0 <= j < ids@.len() && ids@[j] == x;
                assert(ids@[j] == x);
            }
            assert(self@ =~= start.restrict(
                start.dom().filter(|id: u64| start[id].death_tick is None || keep@.contains(id)),
            ));
        }
    }
}

/// Whether `x` is among the first `i` of `ids`.
pub open spec fn seen(ids: Seq<u64>, i: int, x: u64) -> bool {
    exists|j: int| 0 <= j < i && ids[j] == x
}

/// Whether a slice holds a value.
fn slice_contains(s: &[u64], x: u64) -> (r: bool)
    ensures
        r == s@.contains(x),
{
    let mut i: usize = 0;
    while i < s.len()
        invariant
            i <= s@.len(),
            forall|j: int| 0 <= j < i ==> s@[j] != x,
        decreases s@.len() - i,
    {
        if s[i] == x {
            assert(s@[i as int] == x);
            return true;
        }
        i = i + 1;
    }
    false
}

/// The steps of a prefix of a tick's events fit when those of all of them do.
proof fn lemma_steps_fit_prefix(bios: Map<u64, BioView>, events: Seq<SimEvent>, tick: u64, k: int)
    requires
        steps_fit(bios, events, tick),
        0 <= k <= events.len(),
    ensures
        steps_fit(bios, events.take(k), tick),
    decreases events.len() - k,
{
    if k < events.len() {
        lemma_steps_fit_prefix(bios, events, tick, k + 1);
        assert(events.take(k + 1).drop_last() =~= events.take(k));
    } else {
        assert(events.take(k) =~= events);
    }
}


/// The entity spawned by an event, if it is a spawn.
pub open spec fn spawned_by(e: SimEvent) -> Set<u64> {
    match e {
        SimEvent::EntitySpawned { entity_id, .. } => set![entity_id],
        _ => Set::empty(),
    }
}

/// The entities spawned by a batch of events.
pub open spec fn spawned_in(events: Seq<SimEvent>) -> Set<u64>
    decreases events.len(),
{
    if events.len() == 0 {
        Set::empty()
    } else {
        spawned_in(events.drop_last()).union(spawned_by(events.last()))
    }
}

/// Whether an event names an entity: as the entity itself, a parent, an
/// offspring, a killer, a composite's leader or member, or a released member.
pub open spec fn names_entity(e: SimEvent, id: u64) -> bool {
    match e {
        SimEvent::EntitySpawned { entity_id, parent_id, .. } => entity_id == id || parent_id == Some(id),
        SimEvent::EntityDied { entity_id, cause, .. } => entity_id == id || cause == (DeathCause::Combat {
            killer_id: id,
        }),
        SimEvent::EntityMoved { entity_id } => entity_id == id,
        SimEvent::EntityAte { entity_id, .. } => entity_id == id,
        SimEvent::EntityReproduced { parent_id, offspring_id } => parent_id == id || offspring_id == id,
        SimEvent::EntityAttacked { attacker_id, target_id, .. } => attacker_id == id || target_id == id,
        SimEvent::CompositeReproduced { parent_id, offspring_id } => parent_id == id || offspring_id
            == id,
        SimEvent::CompositeFormed { leader_id, member_id } => leader_id == id || member_id == id,
        SimEvent::CompositeDecomposed { leader_id, released_member_ids } => leader_id == id
            || released_member_ids@.contains(id),
        _ => false,
    }
}

/// Noting an event on some biographies keeps the set of biographies, and
/// leaves those of entities not listed as they were.
proof fn lemma_note_all_keeps(
    bios: Map<u64, BioView>,
    ids: Seq<u64>,
    tick: u64,
    kind: BiographyEventKind,
    sig: u32,
)
    ensures
        note_all(bios, ids, tick, kind, sig).dom() == bios.dom(),
        forall|x: u64| !ids.contains(x) && bios.contains_key(x) ==> #[trigger] note_all(bios, ids, tick, kind, sig)[x]
            == bios[x],
    decreases ids.len(),
{
    if ids.len() > 0 {
        let init = ids.drop_last();
        lemma_note_all_keeps(bios, init, tick, kind, sig);
        let mid = note_all(bios, init, tick, kind, sig);
        assert(note(mid, ids.last(), tick, kind, sig).dom() =~= mid.dom());
        assert forall|x: u64| !ids.contains(x) && bios.contains_key(x) implies #[trigger] note_all(
            bios,
            ids,
            tick,
            kind,
            sig,
        )[x] == bios[x] by {
            assert(!init.contains(x)) by {
                if init.contains(x) {
                    let k = choose|k: int| 0 <= k < init.len() && init[k] == x;
                    assert(ids[k] == x);
                }
            }
            assert(ids[ids.len() - 1] != x);
        }
    }
}

/// One event adds the biography of the entity it spawns, if any, and
/// changes no biography of an entity it does not name.
proof fn lemma_bio_step_keys(bios: Map<u64, BioView>, e: SimEvent, tick: u64)
    ensures
        bio_step(bios, e, tick).dom() == bios.dom().union(spawned_by(e)),
        forall|x: u64| !names_entity(e, x) && bios.contains_key(x) ==> #[trigger] bio_step(bios, e, tick)[x]
            == bios[x],
{
    let sig = significance(e);
    let after = bio_step(bios, e, tick);
    if is_recorded(e) {
        match e {
            SimEvent::EntitySpawned { entity_id, parent_id, .. } => {
                assert(after.dom() =~= bios.dom().union(spawned_by(e)));
            },
            SimEvent::EntityReproduced { parent_id, offspring_id } => {
                assert(after.dom() =~= bios.dom().union(spawned_by(e)));
            },
            SimEvent::EntityDied { entity_id, cause, .. } => {
                assert(after.dom() =~= bios.dom().union(spawned_by(e)));
            },
            SimEvent::CompositeFormed { leader_id, member_id } => {
                let k1 = BiographyEventKind::FormedComposite { partner_id: member_id };
                let k2 = BiographyEventKind::JoinedComposite { leader_id };
                let m1 = note(bios, leader_id, tick, k1, sig);
                assert(m1.dom() =~= bios.dom());
                assert(note(m1, member_id, tick, k2, sig).dom() =~= m1.dom());
                assert(after.dom() =~= bios.dom().union(spawned_by(e)));
            },
            SimEvent::CompositeDecomposed { leader_id, released_member_ids } => {
                let k = BiographyEventKind::CompositeDecomposed;
                let m1 = note(bios, leader_id, tick, k, sig);
                assert(m1.dom() =~= bios.dom());
                lemma_note_all_keeps(m1, released_member_ids@, tick, k, sig);
                assert(after.dom() =~= bios.dom().union(spawned_by(e)));
            },
            _ => {
                assert(after.dom() =~= bios.dom().union(spawned_by(e)));
            },
        }
    } else {
        assert(after.dom() =~= bios.dom().union(spawned_by(e)));
    }
}

/// Law: a batch of events adds exactly the biographies of the entities it
/// spawns, and leaves the biography of every entity that no event names as
/// it was.
pub proof fn law_batch_keys(bios: Map<u64, BioView>, events: Seq<SimEvent>, tick: u64)
    ensures
        bio_steps(bios, events, tick).dom() == bios.dom().union(spawned_in(events)),
        forall|x: u64|
            bios.contains_key(x) && (forall|i: int| 0 <= i < events.len() ==> !names_entity(#[trigger] events[i], x))
                ==> #[trigger] bio_steps(bios, events, tick)[x] == bios[x],
    decreases events.len(),
{
    if events.len() > 0 {
        let init = events.drop_last();
        law_batch_keys(bios, init, tick);
        let mid = bio_steps(bios, init, tick);
        lemma_bio_step_keys(mid, events.last(), tick);
        assert(bio_steps(bios, events, tick).dom() =~= bios.dom().union(spawned_in(events)));
        assert forall|x: u64|
            bios.contains_key(x) && (forall|i: int| 0 <= i < events.len() ==> !names_entity(#[trigger] events[i], x))
                implies #[trigger] bio_steps(bios, events, tick)[x] == bios[x] by {
            assert forall|i: int| 0 <= i < init.len() implies !names_entity(#[trigger] init[i], x) by {
                assert(init[i] == events[i]);
            }
            assert(!names_entity(events[events.len() - 1], x));
            assert(mid.contains_key(x));
        }
    }
}

/// Law: a death is recorded with its own cause. The biography of a known
/// entity that dies (other than by its own hand) is marked dead at the
/// tick, and its last event, at the tick, tells how it died: of old age,
/// of starvation, or killed by its killer.
pub proof fn law_death_recorded_with_cause(
    bios: Map<u64, BioView>,
    entity_id: u64,
    age: u64,
    cause: DeathCause,
    tick: u64,
)
    requires
        bios.contains_key(entity_id),
        cause != (DeathCause::Combat { killer_id: entity_id }),
    ensures
        ({
            let after = bio_step(bios, SimEvent::EntityDied { entity_id, age, cause }, tick);
            &&& after.contains_key(entity_id)
            &&& after[entity_id].death_tick == Some(tick)
            &&& after[entity_id].events.drop_last() == bios[entity_id].events
            &&& after[entity_id].events.last().tick == tick
            &&& after[entity_id].events.last().description == match cause {
                DeathCause::OldAge => BiographyEventKind::DiedOfOldAge,
                DeathCause::Starvation => BiographyEventKind::DiedOfStarvation,
                DeathCause::Combat { killer_id } => BiographyEventKind::WasKilledBy { killer_id },
            }
        }),
{
    let e = SimEvent::EntityDied { entity_id, age, cause };
    let after = bio_step(bios, e, tick);
    assert(after[entity_id].events.drop_last() =~= bios[entity_id].events);
}

/// Law: spawns and deaths are always recorded: a spawn starts a living
/// biography born at the tick with its birth as only event, and a death
/// marks a known entity dead at the tick.
pub proof fn law_lifecycle_recorded(
    bios: Map<u64, BioView>,
    entity_id: u64,
    generation: u32,
    parent_id: Option<u64>,
    age: u64,
    cause: DeathCause,
    tick: u64,
)
    ensures
        ({
            let b = bio_step(bios, SimEvent::EntitySpawned { entity_id, generation, parent_id }, tick);
            &&& b.contains_key(entity_id)
            &&& b[entity_id].birth_tick == tick
            &&& b[entity_id].death_tick is None
            &&& b[entity_id].events.len() == 1
            &&& b[entity_id].events[0].description == BiographyEventKind::Born { parent_id }
        }),
        bios.contains_key(entity_id) ==> {
            let b = bio_step(bios, SimEvent::EntityDied { entity_id, age, cause }, tick);
            &&& b.contains_key(entity_id)
            &&& b[entity_id].death_tick == Some(tick)
        },
{
}

/// Law: an event that is neither a spawn, a death nor significant leaves
/// the biographies unchanged.
pub proof fn law_insignificant_ignored(bios: Map<u64, BioView>, e: SimEvent, tick: u64)
    requires
        !is_recorded(e),
    ensures
        bio_step(bios, e, tick) == bios,
{
}

/// Law: a combat death counts one kill, and one event, for a known killer.
pub proof fn law_kill_counted(
    bios: Map<u64, BioView>,
    victim: u64,
    age: u64,
    killer_id: u64,
    tick: u64,
)
    requires
        bios.contains_key(killer_id),
        bios[killer_id].kill_count < u32::MAX,
    ensures
        ({
            let b = bio_step(
                bios,
                SimEvent::EntityDied { entity_id: victim, age, cause: DeathCause::Combat { killer_id } },
                tick,
            );
            &&& b[killer_id].kill_count == bios[killer_id].kill_count + 1
            &&& b[killer_id].events.last() == (BiographyEvent {
                tick,
                description: BiographyEventKind::Killed { victim_id: victim },
                significance: 80,
            })
        }),
{
}

} // verus!
