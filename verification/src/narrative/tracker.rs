//! The narrative tracker: interesting entities, story arcs, biographies and
//! a searchable history of significant events.
use crate::events::types::{same_event, SimEvent};
use crate::narrative::arcs::{
    alliance_steps, arc_steps, arc_steps_fit, arc_views, species_noted, ArcDetector, ArcView,
    DetectorView, StoryArc,
};
use crate::narrative::biography::{bio_steps, steps_fit, BioView, Biography, BiographyCompiler};
use crate::narrative::fits::{arcs_fit, biographies_fit};
use crate::narrative::ledgers::pruned;
use crate::narrative::significance::{score_event, significance, SIGNIFICANCE_THRESHOLD};
use std::collections::{HashMap, HashSet};
use vstd::prelude::*;
use vstd::std_specs::iter::IteratorSpec;

verus! {

/// Entity IDs being tracked as narratively interesting.
#[derive(Debug)]
pub struct TrackedEntities {
    /// Manually bookmarked entities.
    pub bookmarked: HashSet<u64>,
    /// Auto-tracked entities (by interest score).
    pub auto_tracked: HashSet<u64>,
}

/// `target` with every ID of `source` added.
fn add_all_ids(target: &mut HashSet<u64>, source: &HashSet<u64>)
    ensures
        final(target)@ == old(target)@.union(source@),
{
    broadcast use vstd::std_specs::hash::group_hash_axioms;

    let ghost all = vstd::std_specs::hash::spec_hash_keys_iter(source).remaining().unref();
    assert(all.to_set() == source@);
    for k in it: source.iter()
        invariant
            it.seq().unref() == all,
            target@ == old(target)@.union(all.take(it.index()).to_set()),
    {
        proof {
            assert(all.take(it.index() + 1) =~= all.take(it.index()).push(*k));
            let pre = all.take(it.index());
            assert forall|x: u64| #[trigger] pre.push(*k).contains(x) <==> (pre.contains(x) || x == *k) by {
                if pre.push(*k).contains(x) {
                    let j = choose|j: int| 0 <= j < pre.push(*k).len() && pre.push(*k)[j] == x;
                    if j < pre.len() {
                        assert(pre[j] == x);
                    }
                }
                if pre.contains(x) {
                    let j = choose|j: int| 0 <= j < pre.len() && pre[j] == x;
                    assert(pre.push(*k)[j] == x);
                }
                if x == *k {
                    assert(pre.push(*k)[pre.len() as int] == x);
                }
            }
            assert(all.take(it.index() + 1).to_set() =~= all.take(it.index()).to_set().insert(*k));
        }
        target.insert(*k);
        proof {
            assert(target@ =~= old(target)@.union(all.take(it.index() + 1).to_set()));
        }
    }
    proof {
        assert(all.take(all.len() as int) =~= all);
    }
}

/// A copy of a set of entity IDs.
fn copy_ids(s: &HashSet<u64>) -> (r: HashSet<u64>)
    ensures
        r@ == s@,
{
    let mut r: HashSet<u64> = HashSet::new();
    add_all_ids(&mut r, s);
    assert(r@ =~= s@);
    r
}

/// The union of two sets of entity IDs.
fn union_ids(a: &HashSet<u64>, b: &HashSet<u64>) -> (r: HashSet<u64>)
    ensures
        r@ == a@.union(b@),
{
    let mut r = copy_ids(a);
    add_all_ids(&mut r, b);
    r
}

impl Clone for TrackedEntities {
    /// A copy with the same bookmarked and auto-tracked entities.
    fn clone(&self) -> (c: Self)
        ensures
            c.bookmarked@ == self.bookmarked@,
            c.auto_tracked@ == self.auto_tracked@,
    {
        TrackedEntities { bookmarked: copy_ids(&self.bookmarked), auto_tracked: copy_ids(&self.auto_tracked) }
    }
}

impl Default for TrackedEntities {
    /// No entity tracked.
    fn default() -> (t: Self)
        ensures
            t.bookmarked@ == Set::<u64>::empty(),
            t.auto_tracked@ == Set::<u64>::empty(),
    {
        TrackedEntities::new()
    }
}

impl TrackedEntities {
    /// No entity tracked.
    pub fn new() -> (t: Self)
        ensures
            t.bookmarked@ == Set::<u64>::empty(),
            t.auto_tracked@ == Set::<u64>::empty(),
    {
        TrackedEntities { bookmarked: HashSet::new(), auto_tracked: HashSet::new() }
    }

    /// Bookmark an entity for tracking.
    pub fn bookmark(&mut self, entity_id: u64)
        ensures
            final(self).bookmarked@ == old(self).bookmarked@.insert(entity_id),
            final(self).auto_tracked@ == old(self).auto_tracked@,
    {
        self.bookmarked.insert(entity_id);
    }

    /// Remove a bookmark.
    pub fn unbookmark(&mut self, entity_id: u64)
        ensures
            final(self).bookmarked@ == old(self).bookmarked@.remove(entity_id),
            final(self).auto_tracked@ == old(self).auto_tracked@,
    {
        self.bookmarked.remove(&entity_id);
    }

    /// Whether an entity is tracked (either bookmarked or auto-tracked).
    pub fn is_tracked(&self, entity_id: u64) -> (r: bool)
        ensures
            r == (self.bookmarked@.contains(entity_id) || self.auto_tracked@.contains(entity_id)),
    {
        self.bookmarked.contains(&entity_id) || self.auto_tracked.contains(&entity_id)
    }

    /// All tracked entity IDs.
    pub fn all_tracked(&self) -> (all: HashSet<u64>)
        ensures
            all@ == self.bookmarked@.union(self.auto_tracked@),
    {
        union_ids(&self.bookmarked, &self.auto_tracked)
    }
}

/// Law: a bookmarked entity is tracked; after its bookmark is removed it is
/// tracked exactly when it is auto-tracked.
pub proof fn law_bookmark_tracks(bookmarked: Set<u64>, auto_tracked: Set<u64>, id: u64)
    ensures
        bookmarked.insert(id).contains(id),
        (bookmarked.remove(id).contains(id) || auto_tracked.contains(id)) == auto_tracked.contains(id),
{
}


// ---------------------------------------------------------------------------
// Event search
// ---------------------------------------------------------------------------

/// Whether an event involves an entity.
pub open spec fn involves_entity(e: SimEvent, id: u64) -> bool {
    match e {
        SimEvent::EntitySpawned { entity_id, parent_id, .. } => entity_id == id || parent_id == Some(
            id,
        ),
        SimEvent::EntityDied { entity_id, .. } => entity_id == id,
        SimEvent::EntityMoved { entity_id } => entity_id == id,
        SimEvent::EntityAte { entity_id, .. } => entity_id == id,
        SimEvent::EntityReproduced { parent_id, offspring_id } => parent_id == id || offspring_id
            == id,
        SimEvent::ResourceDepleted { .. } => false,
        SimEvent::ResourceRegrown { .. } => false,
        SimEvent::EntityAttacked { attacker_id, target_id, .. } => attacker_id == id || target_id
            == id,
        SimEvent::CompositeReproduced { parent_id, offspring_id } => parent_id == id
            || offspring_id == id,
        SimEvent::CompositeFormed { leader_id, member_id } => leader_id == id || member_id == id,
        SimEvent::CompositeDecomposed { leader_id, released_member_ids } => leader_id == id
            || released_member_ids@.contains(id),
    }
}

/// Check if an event involves a specific entity.
pub fn event_involves_entity(event: &SimEvent, entity_id: u64) -> (r: bool)
    ensures
        r == involves_entity(*event, entity_id),
{
    match event {
        SimEvent::EntitySpawned { entity_id: eid, parent_id, .. } => *eid == entity_id || match parent_id {
            Some(p) => *p == entity_id,
            None => false,
        },
        SimEvent::EntityDied { entity_id: eid, .. } => *eid == entity_id,
        SimEvent::EntityMoved { entity_id: eid } => *eid == entity_id,
        SimEvent::EntityAte { entity_id: eid, .. } => *eid == entity_id,
        SimEvent::EntityReproduced { parent_id, offspring_id } => *parent_id == entity_id
            || *offspring_id == entity_id,
        SimEvent::ResourceDepleted { .. } => false,
        SimEvent::ResourceRegrown { .. } => false,
        SimEvent::EntityAttacked { attacker_id, target_id, .. } => *attacker_id == entity_id
            || *target_id == entity_id,
        SimEvent::CompositeReproduced { parent_id, offspring_id } => *parent_id == entity_id
            || *offspring_id == entity_id,
        SimEvent::CompositeFormed { leader_id, member_id } => *leader_id == entity_id || *member_id
            == entity_id,
        SimEvent::CompositeDecomposed { leader_id, released_member_ids } => *leader_id == entity_id
            || vec_contains(released_member_ids, entity_id),
    }
}

fn vec_contains(v: &Vec<u64>, x: u64) -> (r: bool)
    ensures
        r == v@.contains(x),
{
    let mut i: usize = 0;
    while i < v.len()
        invariant
            i <= v@.len(),
            forall|j: int| 0 <= j < i ==> v@[j] != x,
        decreases v@.len() - i,
    {
        if v[i] == x {
            assert(v@[i as int] == x);
            return true;
        }
        i = i + 1;
    }
    false
}

/// A significant event of the history, with its tick and score.
#[derive(Debug)]
pub struct ScoredEvent {
    pub tick: u64,
    pub event: SimEvent,
    /// Significance, in hundredths.
    pub significance: u32,
}

/// Search criteria for querying the event history.
#[derive(Debug, Clone, Copy)]
pub struct EventSearchCriteria {
    /// Only events involving this entity.
    pub entity_id: Option<u64>,
    /// Only events in this tick range (inclusive).
    pub tick_range: Option<(u64, u64)>,
    /// Only events of at least this significance, in hundredths.
    pub min_significance: Option<u32>,
    /// At most this many results.
    pub limit: Option<usize>,
}

impl Default for EventSearchCriteria {
    /// No criterion: every event, without limit.
    fn default() -> (c: Self)
        ensures
            c.entity_id is None,
            c.tick_range is None,
            c.min_significance is None,
            c.limit is None,
    {
        EventSearchCriteria { entity_id: None, tick_range: None, min_significance: None, limit: None }
    }
}

/// Whether a history entry meets the criteria.
pub open spec fn meets(c: EventSearchCriteria, se: ScoredEvent) -> bool {
    &&& (c.tick_range matches Some(r) ==> r.0 <= se.tick <= r.1)
    &&& (c.min_significance matches Some(m) ==> se.significance >= m)
    &&& (c.entity_id matches Some(id) ==> involves_entity(se.event, id))
}

/// The entries of significance `level`, in order.
pub open spec fn at_level(s: Seq<ScoredEvent>, level: u32) -> Seq<ScoredEvent> {
    s.filter(of_level(level))
}

/// Whether an entry has significance `level`.
pub open spec fn of_level(level: u32) -> spec_fn(ScoredEvent) -> bool {
    |se: ScoredEvent| se.significance == level
}

/// The entries of significance `level` and below, by decreasing
/// significance, entries of equal significance in their order.
pub open spec fn by_significance(s: Seq<ScoredEvent>, level: int) -> Seq<ScoredEvent>
    decreases level + 1,
{
    if level < 0 {
        Seq::empty()
    } else {
        at_level(s, level as u32) + by_significance(s, level - 1)
    }
}

/// The first `limit` entries, or all.
pub open spec fn limited(s: Seq<ScoredEvent>, limit: Option<usize>) -> Seq<ScoredEvent> {
    match limit {
        Some(l) => if l < s.len() {
            s.take(l as int)
        } else {
            s
        },
        None => s,
    }
}

/// The answer to a search of `history`: the entries that meet the criteria,
/// most significant first (a stable order), cut to the limit.
pub open spec fn search_result(history: Seq<ScoredEvent>, c: EventSearchCriteria) -> Seq<ScoredEvent> {
    limited(by_significance(history.filter(|se: ScoredEvent| meets(c, se)), 100), c.limit)
}

proof fn lemma_by_significance(s: Seq<ScoredEvent>, level: int)
    requires
        level <= 100,
    ensures
        forall|i: int| 0 <= i < by_significance(s, level).len() ==> s.contains(#[trigger] by_significance(s, level)[i])
            && by_significance(s, level)[i].significance <= level,
        forall|i: int, j: int|
            0 <= i < j < by_significance(s, level).len() ==> #[trigger] by_significance(s, level)[i].significance
                >= #[trigger] by_significance(s, level)[j].significance,
    decreases level + 1,
{
    if level >= 0 {
        lemma_by_significance(s, level - 1);
        let f = of_level(level as u32);
        let a = at_level(s, level as u32);
        let rest = by_significance(s, level - 1);
        let bs = by_significance(s, level);
        assert(bs == a + rest);
        assert forall|i: int| 0 <= i < a.len() implies s.contains(#[trigger] a[i]) && a[i].significance == level by {
            s.lemma_filter_pred(f, i);
            assert(a.contains(a[i]));
            s.lemma_filter_contains_rev(f, a[i]);
        }
        assert forall|i: int| 0 <= i < bs.len() implies s.contains(#[trigger] bs[i]) && bs[i].significance
            <= level by {
            if i < a.len() {
                assert(bs[i] == a[i]);
            } else {
                assert(bs[i] == rest[i - a.len()]);
            }
        }
        assert forall|i: int, j: int| 0 <= i < j < bs.len() implies #[trigger] bs[i].significance
            >= #[trigger] bs[j].significance by {
            if j < a.len() {
                assert(bs[i] == a[i] && bs[j] == a[j]);
            } else if i < a.len() {
                assert(bs[i] == a[i] && bs[j] == rest[j - a.len()]);
            } else {
                assert(bs[i] == rest[i - a.len()] && bs[j] == rest[j - a.len()]);
            }
        }
    }
}

/// Law: a search answers only history entries that meet the criteria, most
/// significant first, and no more than the limit.
pub proof fn law_search_result(history: Seq<ScoredEvent>, c: EventSearchCriteria)
    ensures
        forall|i: int| 0 <= i < search_result(history, c).len() ==> history.contains(
            #[trigger] search_result(history, c)[i],
        ) && meets(c, search_result(history, c)[i]),
        forall|i: int, j: int|
            0 <= i < j < search_result(history, c).len() ==> #[trigger] search_result(history, c)[i].significance
                >= #[trigger] search_result(history, c)[j].significance,
        c.limit matches Some(l) ==> search_result(history, c).len() <= l,
{
    let f = |se: ScoredEvent| meets(c, se);
    let s = history.filter(f);
    lemma_by_significance(s, 100);
    let bs = by_significance(s, 100);
    let r = search_result(history, c);
    assert forall|i: int| 0 <= i < r.len() implies history.contains(#[trigger] r[i]) && meets(c, r[i]) by {
        assert(r[i] == bs[i]);
        assert(s.contains(bs[i]));
        let k = choose|k: int| 0 <= k < s.len() && s[k] == bs[i];
        history.lemma_filter_pred(f, k);
        history.lemma_filter_contains_rev(f, bs[i]);
    }
    assert forall|i: int, j: int| 0 <= i < j < r.len() implies #[trigger] r[i].significance
        >= #[trigger] r[j].significance by {
        assert(r[i] == bs[i] && r[j] == bs[j]);
    }
}

fn matches_criteria(c: &EventSearchCriteria, se: &ScoredEvent) -> (r: bool)
    ensures
        r == meets(*c, *se),
{
    if let Some((start, end)) = c.tick_range {
        if se.tick < start || se.tick > end {
            return false;
        }
    }
    if let Some(m) = c.min_significance {
        if se.significance < m {
            return false;
        }
    }
    if let Some(id) = c.entity_id {
        if !event_involves_entity(&se.event, id) {
            return false;
        }
    }
    true
}

/// The entries a list of references points to.
pub open spec fn deref_all(s: Seq<&ScoredEvent>) -> Seq<ScoredEvent> {
    s.map_values(|x: &ScoredEvent| *x)
}

/// Append the entries of a list at one significance level, in order.
fn push_level<'a>(s: &Vec<&'a ScoredEvent>, level: u32, out: &mut Vec<&'a ScoredEvent>)
    ensures
        deref_all(final(out)@) == deref_all(old(out)@) + at_level(deref_all(s@), level),
{
    let ghost o = deref_all(old(out)@);
    let n = s.len();
    for i in 0..n
        invariant
            n == s@.len(),
            deref_all(out@) == o + at_level(deref_all(s@).take(i as int), level),
    {
        proof {
            let d = deref_all(s@);
            assert(d.take(i + 1) =~= d.take(i as int).push(d[i as int]));
            d.take(i as int).lemma_filter_push(d[i as int], of_level(level));
        }
        let ghost before = out@;
        if s[i].significance == level {
            out.push(s[i]);
            assert(deref_all(out@) =~= deref_all(before).push(*s@[i as int]));
        }
    }
    assert(deref_all(s@).take(n as int) =~= deref_all(s@));
}

// ---------------------------------------------------------------------------
// The tracker
// ---------------------------------------------------------------------------

/// Maximum number of ticks of attack data kept for arc detection.
pub const ARC_DETECTION_WINDOW: u64 = 1000;

/// How often, in ticks, old arc and history data are pruned.
pub const PRUNE_INTERVAL: u64 = 500;

/// How often, in ticks, alliances are checked from relationship data.
pub const ALLIANCE_CHECK_INTERVAL: u64 = 50;

/// Maximum number of events kept in the history.
pub const MAX_HISTORY_SIZE: usize = 10000;

/// A history entry scores event `e` of `tick`.
pub open spec fn scored(se: ScoredEvent, tick: u64, e: SimEvent) -> bool {
    &&& se.tick == tick
    &&& same_event(se.event, e)
    &&& se.significance == significance(e)
}

/// The significant events of a list, in order.
pub open spec fn significant_events(events: Seq<SimEvent>) -> Seq<SimEvent> {
    events.filter(|e: SimEvent| significance(e) >= SIGNIFICANCE_THRESHOLD)
}

/// `h` is `old` followed by an entry for each significant event of `events`
/// at `tick`, in order.
pub open spec fn history_extended(old: Seq<ScoredEvent>, h: Seq<ScoredEvent>, events: Seq<SimEvent>, tick: u64) -> bool {
    let sig = significant_events(events);
    &&& h.len() == old.len() + sig.len()
    &&& h.take(old.len() as int) == old
    &&& forall|i: int| 0 <= i < sig.len() ==> #[trigger] scored(h[old.len() + i], tick, sig[i])
}

/// The newest `MAX_HISTORY_SIZE` entries of a history.
pub open spec fn trimmed(h: Seq<ScoredEvent>) -> Seq<ScoredEvent> {
    if h.len() > MAX_HISTORY_SIZE {
        h.skip(h.len() - MAX_HISTORY_SIZE)
    } else {
        h
    }
}

/// Law: trimming a history keeps its newest entries: at most
/// `MAX_HISTORY_SIZE` of them, all of a shorter history, as a suffix of
/// it, so the last entry recorded is still the last.
pub proof fn law_trim_keeps_newest(h: Seq<ScoredEvent>)
    ensures
        trimmed(h).len() == if h.len() > MAX_HISTORY_SIZE {
            MAX_HISTORY_SIZE as nat
        } else {
            h.len()
        },
        trimmed(h) == h.subrange(h.len() - trimmed(h).len(), h.len() as int),
        h.len() > 0 ==> trimmed(h).last() == h.last(),
{
    assert(trimmed(h) =~= h.subrange(h.len() - trimmed(h).len(), h.len() as int));
}

/// Detector state after a prune at `tick`.
pub open spec fn pruned_at(d: DetectorView, tick: u64) -> DetectorView {
    DetectorView {
        attacks: pruned(
            d.attacks,
            (if tick >= ARC_DETECTION_WINDOW {
                tick - ARC_DETECTION_WINDOW
            } else {
                0
            }) as u64,
        ),
        ..d
    }
}

/// `d_final` is the detector after a tick that started at `d0`: the
/// tick's events processed and the new arcs stored, then the species
/// populations noted (giving `d` and the Extinction arcs `found`), then the
/// periodic prune, then the periodic alliance checks.
pub open spec fn detector_after_tick(
    d0: DetectorView,
    events: Seq<SimEvent>,
    migrated: Seq<bool>,
    tick: u64,
    pops: Map<u64, u32>,
    checks: Seq<(u64, u64, bool)>,
    d: DetectorView,
    found: Seq<ArcView>,
    d_final: DetectorView,
) -> bool {
    let after_events = arc_steps(d0, events, migrated, tick);
    let stored = DetectorView { arcs: after_events.0.arcs + after_events.1, ..after_events.0 };
    let d2 = if tick % PRUNE_INTERVAL == 0 {
        pruned_at(d, tick)
    } else {
        d
    };
    &&& species_noted(stored, pops, tick, d, found)
    &&& d_final == if tick % ALLIANCE_CHECK_INTERVAL == 0 {
        alliance_steps(d2, checks, tick)
    } else {
        d2
    }
}

/// Central narrative tracking system: an observer of simulation events that
/// tracks interesting entities, detects story arcs, compiles biographies,
/// and keeps a searchable history of significant events.
#[derive(Debug)]
pub struct NarrativeTracker {
    pub tracked_entities: TrackedEntities,
    arc_detector: ArcDetector,
    biography_compiler: BiographyCompiler,
    event_history: Vec<ScoredEvent>,
}

impl NarrativeTracker {
    /// The bookmarked entities.
    pub closed spec fn bookmarked_ids(&self) -> Set<u64> {
        self.tracked_entities.bookmarked@
    }

    /// The auto-tracked entities.
    pub closed spec fn auto_tracked_ids(&self) -> Set<u64> {
        self.tracked_entities.auto_tracked@
    }

    /// The history of significant events, oldest first.
    pub closed spec fn history(&self) -> Seq<ScoredEvent> {
        self.event_history@
    }

    /// The arc detector's state.
    pub closed spec fn detector(&self) -> DetectorView {
        self.arc_detector@
    }

    /// The biographies.
    pub closed spec fn biographies(&self) -> Map<u64, BioView> {
        self.biography_compiler@
    }

    /// The tracker's parts are consistent, and every history score is at
    /// most 100.
    pub closed spec fn wf(&self) -> bool {
        &&& self.arc_detector.wf()
        &&& forall|i: int| 0 <= i < self.event_history@.len() ==> #[trigger] self.event_history@[i].significance <= 100
    }

    /// Nothing tracked, recorded or detected yet.
    pub fn new() -> (t: Self)
        ensures
            t.wf(),
            t.bookmarked_ids() == Set::<u64>::empty(),
            t.auto_tracked_ids() == Set::<u64>::empty(),
            t.history() == Seq::<ScoredEvent>::empty(),
            t.detector() == (DetectorView {
                attacks: Map::empty(),
                offspring: Map::empty(),
                kills: Map::empty(),
                species: Map::empty(),
                alliance_starts: Seq::empty(),
                arcs: Seq::empty(),
                rivalries: Seq::empty(),
                alliances: Seq::empty(),
                rises: Map::empty(),
            }),
            t.biographies() == Map::<u64, BioView>::empty(),
    {
        NarrativeTracker {
            tracked_entities: TrackedEntities::new(),
            arc_detector: ArcDetector::new(),
            biography_compiler: BiographyCompiler::new(),
            event_history: Vec::new(),
        }
    }

    /// Whether a tick's events can be processed (see `process_tick`): one
    /// migration flag per event, and no count of the arc detector or of the
    /// biographies passing its integer type. Nothing is changed.
    pub fn tick_fits(&self, events: &[SimEvent], migrated: &[bool], tick: u64) -> (r: bool)
        requires
            self.wf(),
        ensures
            r == (migrated@.len() == events@.len() && arc_steps_fit(self.detector(), events@, migrated@, tick)
                && steps_fit(self.biographies(), events@, tick)),
    {
        if migrated.len() != events.len() {
            return false;
        }
        arcs_fit(&self.arc_detector, events, migrated, tick) && biographies_fit(
            &self.biography_compiler,
            events,
            tick,
        )
    }

    /// Process a tick's events through all narrative subsystems:
    /// 1. store the significant events in the history;
    /// 2. detect arcs (`migrated[i]` tells of a move that brought its
    ///    entity's traveled distance to the migration threshold) and note the
    ///    species populations;
    /// 3. update biographies;
    /// 4. auto-track exactly the entities of `interesting`;
    /// 5. every `PRUNE_INTERVAL` ticks, drop attack records older than the
    ///    detection window and keep the newest `MAX_HISTORY_SIZE` history
    ///    entries;
    /// 6. every `ALLIANCE_CHECK_INTERVAL` ticks, note each relationship of
    ///    `alliance_checks` (`(a, b, positive)`) for alliance detection.
    pub fn process_tick(
        &mut self,
        events: &[SimEvent],
        migrated: &[bool],
        tick: u64,
        species_populations: &HashMap<u64, u32>,
        interesting: &[u64],
        alliance_checks: &[(u64, u64, bool)],
    )
        requires
            old(self).wf(),
            migrated@.len() == events@.len(),
            arc_steps_fit(old(self).detector(), events@, migrated@, tick),
            steps_fit(old(self).biographies(), events@, tick),
        ensures
            final(self).wf(),
            exists|h: Seq<ScoredEvent>|
                {
                    &&& history_extended(old(self).history(), h, events@, tick)
                    &&& final(self).history() == if tick % PRUNE_INTERVAL == 0 {
                        trimmed(h)
                    } else {
                        h
                    }
                },
            exists|d: DetectorView, found: Seq<ArcView>| #[trigger]
                detector_after_tick(
                    old(self).detector(),
                    events@,
                    migrated@,
                    tick,
                    species_populations@,
                    alliance_checks@,
                    d,
                    found,
                    final(self).detector(),
                ),
            final(self).biographies() == bio_steps(old(self).biographies(), events@, tick),
            final(self).bookmarked_ids() == old(self).bookmarked_ids(),
            final(self).auto_tracked_ids() == interesting@.to_set(),
    {
        // 1. Score and store significant events.
        let ghost h0 = self.event_history@;
        proof {
            let f = |e: SimEvent| significance(e) >= SIGNIFICANCE_THRESHOLD;
            events@.take(0).lemma_filter_len(f);
            assert(h0.take(h0.len() as int) =~= h0);
        }
        let n = events.len();
        for i in 0..n
            invariant
                n == events@.len(),
                self.arc_detector.wf(),
                self.arc_detector@ == old(self).arc_detector@,
                self.biography_compiler@ == old(self).biography_compiler@,
                self.tracked_entities.bookmarked@ == old(self).tracked_entities.bookmarked@,
                forall|j: int| 0 <= j < self.event_history@.len() ==> #[trigger] self.event_history@[j].significance <= 100,
                history_extended(h0, self.event_history@, events@.take(i as int), tick),
        {
            let sig = score_event(&events[i]);
            let ghost before = self.event_history@;
            proof {
                let e = events@[i as int];
                let f = |e: SimEvent| significance(e) >= SIGNIFICANCE_THRESHOLD;
                assert(events@.take(i + 1) =~= events@.take(i as int).push(e));
                events@.take(i as int).lemma_filter_push(e, f);
            }
            if sig >= SIGNIFICANCE_THRESHOLD {
                self.event_history.push(ScoredEvent { tick, event: events[i].clone(), significance: sig });
                proof {
                    let h = self.event_history@;
                    assert(h.take(h0.len() as int) =~= before.take(h0.len() as int));
                    let sig_s = significant_events(events@.take(i + 1));
                    assert forall|k: int| 0 <= k < sig_s.len() implies #[trigger] scored(h[h0.len() + k], tick, sig_s[k]) by {
                        if k < sig_s.len() - 1 {
                            assert(h[h0.len() + k] == before[h0.len() + k]);
                            assert(sig_s[k] == significant_events(events@.take(i as int))[k]);
                        }
                    }
                }
            } else {
                proof {
                    assert(significant_events(events@.take(i + 1)) == significant_events(events@.take(i as int)));
                }
            }
        }
        proof {
            assert(events@.take(n as int) =~= events@);
        }
        let ghost h1 = self.event_history@;
        // 2. Arc detection.
        self.arc_detector.process_events(events, migrated, tick);
        let ghost stored = self.arc_detector@;
        let found = self.arc_detector.update_species_populations(species_populations, tick);
        let ghost d = self.arc_detector@;
        // 3. Biographies.
        self.biography_compiler.process_events(events, tick);
        // 4. Auto-tracking.
        let ghost d3 = self.arc_detector@;
        let ghost b3 = self.biography_compiler@;
        self.tracked_entities.auto_tracked.clear();
        let m = interesting.len();
        for j in 0..m
            invariant
                m == interesting@.len(),
                self.arc_detector.wf(),
                self.arc_detector@ == d3,
                self.biography_compiler@ == b3,
                self.event_history@ == h1,
                forall|x: int| 0 <= x < self.event_history@.len() ==> #[trigger] self.event_history@[x].significance <= 100,
                self.tracked_entities.bookmarked@ == old(self).tracked_entities.bookmarked@,
                self.tracked_entities.auto_tracked@ == interesting@.take(j as int).to_set(),
        {
            proof {
                assert(interesting@.take(j + 1) =~= interesting@.take(j as int).push(interesting@[j as int]));
                interesting@.take(j as int).lemma_push_to_set_commute(interesting@[j as int]);
            }
            self.tracked_entities.auto_tracked.insert(interesting[j]);
        }
        proof {
            assert(interesting@.take(m as int) =~= interesting@);
            assert(interesting@.take(0).to_set() =~= Set::<u64>::empty());
        }
        // 5. Periodic maintenance.
        if tick % PRUNE_INTERVAL == 0 {
            self.arc_detector.prune_old_records(tick, ARC_DETECTION_WINDOW);
            let len = self.event_history.len();
            if len > MAX_HISTORY_SIZE {
                let excess = len - MAX_HISTORY_SIZE;
                let kept = self.event_history.split_off(excess);
                self.event_history = kept;
            }
            assert(self.event_history@ =~= trimmed(h1));
            assert forall|x: int| 0 <= x < self.event_history@.len() implies #[trigger] self.event_history@[x].significance <= 100 by {
                if h1.len() > MAX_HISTORY_SIZE {
                    assert(self.event_history@[x] == h1[x + (h1.len() - MAX_HISTORY_SIZE)]);
                }
            }
        }
        let ghost h2 = self.event_history@;
        let ghost b2 = self.biography_compiler@;
        let ghost bm2 = self.tracked_entities.bookmarked@;
        let ghost at2 = self.tracked_entities.auto_tracked@;
        // 6. Alliances from relationship data.
        if tick % ALLIANCE_CHECK_INTERVAL == 0 {
            let ghost d2 = self.arc_detector@;
            let k = alliance_checks.len();
            for j in 0..k
                invariant
                    k == alliance_checks@.len(),
                    self.arc_detector.wf(),
                    self.arc_detector@ == alliance_steps(d2, alliance_checks@.take(j as int), tick),
                    self.event_history@ == h2,
                    self.biography_compiler@ == b2,
                    self.tracked_entities.bookmarked@ == bm2,
                    self.tracked_entities.auto_tracked@ == at2,
                    forall|x: int| 0 <= x < self.event_history@.len() ==> #[trigger] self.event_history@[x].significance <= 100,
            {
                assert(alliance_checks@.take(j + 1).drop_last() =~= alliance_checks@.take(j as int));
                let (a, b, positive) = alliance_checks[j];
                let _ = self.arc_detector.check_alliance(a, b, positive, tick);
            }
            assert(alliance_checks@.take(k as int) =~= alliance_checks@);
        }
        proof {
            assert(history_extended(old(self).history(), h1, events@, tick));
            assert(self.history() == if tick % PRUNE_INTERVAL == 0 {
                trimmed(h1)
            } else {
                h1
            });
            assert(detector_after_tick(
                old(self).detector(),
                events@,
                migrated@,
                tick,
                species_populations@,
                alliance_checks@,
                d,
                arc_views(found@),
                self.detector(),
            ));
        }
    }

    /// Search the event history: the entries that meet the criteria, most
    /// significant first (entries of equal significance in history order),
    /// at most `limit` of them.
    pub fn search_events(&self, criteria: &EventSearchCriteria) -> (r: Vec<&ScoredEvent>)
        ensures
            deref_all(r@) == search_result(self.history(), *criteria),
    {
        let mut cands: Vec<&ScoredEvent> = Vec::new();
        let n = self.event_history.len();
        let ghost f = |se: ScoredEvent| meets(*criteria, se);
        for i in 0..n
            invariant
                n == self.event_history@.len(),
                f == (|se: ScoredEvent| meets(*criteria, se)),
                deref_all(cands@) == self.event_history@.take(i as int).filter(f),
        {
            let se = &self.event_history[i];
            let ghost before = cands@;
            proof {
                assert(self.event_history@.take(i + 1) =~= self.event_history@.take(i as int).push(*se));
                self.event_history@.take(i as int).lemma_filter_push(*se, f);
            }
            if matches_criteria(criteria, se) {
                cands.push(se);
                assert(deref_all(cands@) =~= deref_all(before).push(*se));
            }
        }
        assert(self.event_history@.take(n as int) =~= self.event_history@);
        let ghost all = deref_all(cands@);
        let mut res: Vec<&ScoredEvent> = Vec::new();
        let mut lvl: u32 = 101;
        while lvl > 0
            invariant
                lvl <= 101,
                all == deref_all(cands@),
                deref_all(res@) + by_significance(all, lvl - 1) == by_significance(all, 100),
            decreases lvl,
        {
            lvl = lvl - 1;
            let ghost before = deref_all(res@);
            push_level(&cands, lvl, &mut res);
            proof {
                assert(by_significance(all, lvl as int) == at_level(all, lvl) + by_significance(all, lvl - 1));
                assert(before + by_significance(all, lvl as int) =~= deref_all(res@) + by_significance(all, lvl - 1));
            }
        }
        assert(by_significance(all, -1) =~= Seq::<ScoredEvent>::empty());
        assert(deref_all(res@) =~= by_significance(all, 100));
        if let Some(l) = criteria.limit {
            res.truncate(l);
            assert(deref_all(res@) =~= limited(by_significance(all, 100), criteria.limit));
        }
        res
    }

    /// All detected story arcs.
    pub fn arcs(&self) -> (r: &[StoryArc])
        ensures
            arc_views(r@) == self.detector().arcs,
    {
        self.arc_detector.arcs()
    }

    /// Only the active story arcs.
    pub fn active_arcs(&self) -> (r: Vec<&StoryArc>)
        ensures
            r@.map_values(|a: &StoryArc| a@) == self.detector().arcs.filter(|a: ArcView| a.active),
    {
        self.arc_detector.active_arcs()
    }

    /// An entity's biography.
    pub fn biography(&self, entity_id: u64) -> (r: Option<&Biography>)
        ensures
            match r {
                Some(b) => self.biographies().contains_key(entity_id) && b@ == self.biographies()[entity_id],
                None => !self.biographies().contains_key(entity_id),
            },
    {
        self.biography_compiler.get(entity_id)
    }

    /// The biography compiler.
    pub fn biography_compiler(&self) -> (r: &BiographyCompiler)
        ensures
            r@ == self.biographies(),
    {
        &self.biography_compiler
    }

    /// The number of significant events in the history.
    pub fn event_history_len(&self) -> (n: usize)
        ensures
            n == self.history().len(),
    {
        self.event_history.len()
    }

    /// Keep the biographies of living entities and of those in `keep`.
    pub fn retain_biographies(&mut self, keep: &[u64])
        ensures
            final(self).wf() == old(self).wf(),
            final(self).biographies() == old(self).biographies().restrict(
                old(self).biographies().dom().filter(
                    |id: u64| old(self).biographies()[id].death_tick is None || keep@.contains(id),
                ),
            ),
            final(self).history() == old(self).history(),
            final(self).detector() == old(self).detector(),
            final(self).bookmarked_ids() == old(self).bookmarked_ids(),
            final(self).auto_tracked_ids() == old(self).auto_tracked_ids(),
    {
        self.biography_compiler.retain_alive_or(keep);
    }
}

impl Default for NarrativeTracker {
    /// A tracker with nothing tracked, recorded or detected yet.
    fn default() -> (t: Self)
        ensures
            t.wf(),
            t.history() == Seq::<ScoredEvent>::empty(),
            t.detector().arcs == Seq::<ArcView>::empty(),
            t.biographies() == Map::<u64, BioView>::empty(),
    {
        NarrativeTracker::new()
    }
}

} // verus!
