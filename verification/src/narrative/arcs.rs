//! Story arcs detected from event patterns.
use crate::events::types::{copy_vec, DeathCause, SimEvent};
use crate::narrative::ledgers::{
    bump, count_of, drop_involving, earliest_of, extinct_species, involves, involving_values, pm_get,
    pm_has, pm_index, pm_insert, pm_remove, pm_wf, pruned, ticks_of, went_extinct, with_attack, AttackLedger,
    DominanceLedger, PairMap,
};
use std::collections::HashMap;
use vstd::prelude::*;

verus! {

/// Types of narrative arcs that can be detected from event patterns.
#[derive(Debug, Clone, Copy, PartialEq, Eq, Hash, Structural)]
pub enum ArcType {
    /// Two entities repeatedly attacking each other.
    Rivalry,
    /// Two entities maintaining positive relationships over time.
    Alliance,
    /// A species population dropping to zero.
    Extinction,
    /// An entity accumulating many offspring and kills.
    Rise,
    /// A previously dominant entity dying.
    Fall,
    /// An entity traveling a large cumulative distance.
    Migration,
}

/// The key of an unordered pair of entities: the smaller ID first.
pub open spec fn pair_key(a: u64, b: u64) -> (u64, u64) {
    if a <= b {
        (a, b)
    } else {
        (b, a)
    }
}

/// Canonical ordering of an unordered pair of entity IDs.
pub fn normalize_pair(a: u64, b: u64) -> (r: (u64, u64))
    ensures
        r == pair_key(a, b),
{
    if a <= b {
        (a, b)
    } else {
        (b, a)
    }
}

/// Law: the key of a pair does not depend on the order of the two IDs,
/// lists the smaller first, and holds both IDs.
pub proof fn law_pair_key_symmetric(a: u64, b: u64)
    ensures
        pair_key(a, b) == pair_key(b, a),
        pair_key(a, b).0 <= pair_key(a, b).1,
        (pair_key(a, b).0 == a && pair_key(a, b).1 == b) || (pair_key(a, b).0 == b && pair_key(a, b).1
            == a),
{
}


/// Minimum mutual attacks to declare a rivalry.
pub const RIVALRY_THRESHOLD: usize = 3;

/// Minimum ticks of positive relationship to declare an alliance.
pub const ALLIANCE_DURATION_THRESHOLD: u64 = 500;

/// Minimum offspring plus kills for a Rise (and, at death, a Fall) arc.
pub const RISE_THRESHOLD: u32 = 5;


// ---------------------------------------------------------------------------
// Story arcs
// ---------------------------------------------------------------------------

/// A tension level: the fraction `num / den`, between 0 and 1 once stored.
#[derive(Debug, Clone, Copy, PartialEq, Eq, Structural)]
pub struct Tension {
    pub num: u64,
    pub den: u64,
}

/// A tension clamped to at most 1 (tensions are never below 0).
pub open spec fn clamp_tension(t: Tension) -> Tension {
    if t.num > t.den {
        Tension { num: 1, den: 1 }
    } else {
        t
    }
}

/// The tension of a freshly detected arc: 3/10.
pub open spec fn initial_tension() -> Tension {
    Tension { num: 3, den: 10 }
}

/// A detected story arc with its participants and progression data.
#[derive(Debug)]
pub struct StoryArc {
    pub arc_type: ArcType,
    /// Primary entities involved in this arc.
    pub protagonists: Vec<u64>,
    /// Tick when this arc was first detected.
    pub start_tick: u64,
    /// Tick when this arc ended (`None` if ongoing).
    pub end_tick: Option<u64>,
    /// Tension curve: (tick, tension) pairs, each tension between 0 and 1.
    pub tension_curve: Vec<(u64, Tension)>,
    /// Key event ticks that define this arc.
    pub key_event_ticks: Vec<u64>,
    /// Whether this arc is still active.
    pub active: bool,
}

/// A story arc as a mathematical value.
pub struct ArcView {
    pub arc_type: ArcType,
    pub protagonists: Seq<u64>,
    pub start_tick: u64,
    pub end_tick: Option<u64>,
    pub tension_curve: Seq<(u64, Tension)>,
    pub key_event_ticks: Seq<u64>,
    pub active: bool,
}

impl View for StoryArc {
    type V = ArcView;

    open spec fn view(&self) -> ArcView {
        ArcView {
            arc_type: self.arc_type,
            protagonists: self.protagonists@,
            start_tick: self.start_tick,
            end_tick: self.end_tick,
            tension_curve: self.tension_curve@,
            key_event_ticks: self.key_event_ticks@,
            active: self.active,
        }
    }
}

/// A freshly detected, active arc: tension 3/10 and one key event, both at
/// its start.
pub open spec fn new_arc(arc_type: ArcType, protagonists: Seq<u64>, start_tick: u64) -> ArcView {
    ArcView {
        arc_type,
        protagonists,
        start_tick,
        end_tick: None,
        tension_curve: seq![(start_tick, initial_tension())],
        key_event_ticks: seq![start_tick],
        active: true,
    }
}

/// An arc with one more tension point, clamped to at most 1.
pub open spec fn tensed(a: ArcView, tick: u64, t: Tension) -> ArcView {
    ArcView { tension_curve: a.tension_curve.push((tick, clamp_tension(t))), ..a }
}

/// An arc completed at `tick`: ended, inactive, tension falling to 0.
pub open spec fn completed(a: ArcView, tick: u64) -> ArcView {
    ArcView {
        end_tick: Some(tick),
        active: false,
        tension_curve: a.tension_curve.push((tick, Tension { num: 0, den: 1 })),
        ..a
    }
}

/// The views of a list of arcs.
pub open spec fn arc_views(arcs: Seq<StoryArc>) -> Seq<ArcView> {
    arcs.map_values(|a: StoryArc| a@)
}

impl StoryArc {
    /// A freshly detected, active arc: tension 3/10 and one key event, both
    /// at its start.
    pub fn new(arc_type: ArcType, protagonists: Vec<u64>, start_tick: u64) -> (a: Self)
        ensures
            a@ == new_arc(arc_type, protagonists@, start_tick),
    {
        let mut tension_curve: Vec<(u64, Tension)> = Vec::new();
        tension_curve.push((start_tick, Tension { num: 3, den: 10 }));
        let mut key_event_ticks: Vec<u64> = Vec::new();
        key_event_ticks.push(start_tick);
        let a = StoryArc {
            arc_type,
            protagonists,
            start_tick,
            end_tick: None,
            tension_curve,
            key_event_ticks,
            active: true,
        };
        assert(a@.tension_curve =~= seq![(start_tick, initial_tension())]);
        assert(a@.key_event_ticks =~= seq![start_tick]);
        a
    }

    /// Add a tension point, clamped to at most 1.
    pub fn add_tension(&mut self, tick: u64, tension: Tension)
        ensures
            final(self)@ == tensed(old(self)@, tick, tension),
    {
        let t = if tension.num > tension.den {
            Tension { num: 1, den: 1 }
        } else {
            tension
        };
        self.tension_curve.push((tick, t));
    }

    /// Mark this arc as completed at `tick`.
    pub fn complete(&mut self, tick: u64)
        ensures
            final(self)@ == completed(old(self)@, tick),
    {
        self.end_tick = Some(tick);
        self.active = false;
        self.tension_curve.push((tick, Tension { num: 0, den: 1 }));
    }

    /// Current tension level: the last recorded one, 0 if none.
    pub fn current_tension(&self) -> (t: Tension)
        ensures
            t == (if self@.tension_curve.len() > 0 {
                self@.tension_curve.last().1
            } else {
                Tension { num: 0, den: 1 }
            }),
    {
        let n = self.tension_curve.len();
        if n > 0 {
            self.tension_curve[n - 1].1
        } else {
            Tension { num: 0, den: 1 }
        }
    }
}

impl Clone for StoryArc {
    /// An arc with the same data.
    fn clone(&self) -> (c: Self)
        ensures
            c@ == self@,
    {
        StoryArc {
            arc_type: self.arc_type,
            protagonists: copy_vec(&self.protagonists),
            start_tick: self.start_tick,
            end_tick: self.end_tick,
            tension_curve: copy_vec(&self.tension_curve),
            key_event_ticks: copy_vec(&self.key_event_ticks),
            active: self.active,
        }
    }
}

/// The two entities of a pair, as a list.
fn pair_vec(key: (u64, u64)) -> (v: Vec<u64>)
    ensures
        v@ == seq![key.0, key.1],
{
    let mut v: Vec<u64> = Vec::new();
    v.push(key.0);
    v.push(key.1);
    assert(v@ =~= seq![key.0, key.1]);
    v
}

/// One entity, as a list.
fn single_vec(id: u64) -> (v: Vec<u64>)
    ensures
        v@ == seq![id],
{
    let mut v: Vec<u64> = Vec::new();
    v.push(id);
    assert(v@ =~= seq![id]);
    v
}


// ---------------------------------------------------------------------------
// Updating stored arcs by position
// ---------------------------------------------------------------------------

/// Arcs with the one at `idx` given a tension point (and, when `mark`, a key
/// event at `tick`); unchanged when `idx` is past the end.
pub open spec fn tense_at(arcs: Seq<ArcView>, idx: usize, tick: u64, t: Tension, mark: bool) -> Seq<
    ArcView,
> {
    if idx < arcs.len() {
        let a = tensed(arcs[idx as int], tick, t);
        arcs.update(
            idx as int,
            if mark {
                ArcView { key_event_ticks: a.key_event_ticks.push(tick), ..a }
            } else {
                a
            },
        )
    } else {
        arcs
    }
}

/// Arcs with the one at `idx` completed; unchanged when `idx` is past the end.
pub open spec fn complete_at(arcs: Seq<ArcView>, idx: usize, tick: u64) -> Seq<ArcView> {
    if idx < arcs.len() {
        arcs.update(idx as int, completed(arcs[idx as int], tick))
    } else {
        arcs
    }
}

/// Arcs with those at each of `idxs` completed, in order.
pub open spec fn complete_each(arcs: Seq<ArcView>, idxs: Seq<usize>, tick: u64) -> Seq<ArcView>
    decreases idxs.len(),
{
    if idxs.len() == 0 {
        arcs
    } else {
        complete_at(complete_each(arcs, idxs.drop_last(), tick), idxs.last(), tick)
    }
}

fn tense_arc(arcs: &mut Vec<StoryArc>, idx: usize, tick: u64, t: Tension, mark: bool)
    ensures
        arc_views(final(arcs)@) == tense_at(arc_views(old(arcs)@), idx, tick, t, mark),
{
    if idx < arcs.len() {
        let mut a = arcs.remove(idx);
        a.add_tension(tick, t);
        if mark {
            a.key_event_ticks.push(tick);
        }
        arcs.insert(idx, a);
        assert(arc_views(arcs@) =~= tense_at(arc_views(old(arcs)@), idx, tick, t, mark));
    }
}

fn complete_arc(arcs: &mut Vec<StoryArc>, idx: usize, tick: u64)
    ensures
        arc_views(final(arcs)@) == complete_at(arc_views(old(arcs)@), idx, tick),
{
    if idx < arcs.len() {
        let mut a = arcs.remove(idx);
        a.complete(tick);
        arcs.insert(idx, a);
        assert(arc_views(arcs@) =~= complete_at(arc_views(old(arcs)@), idx, tick));
    }
}

fn complete_arcs(arcs: &mut Vec<StoryArc>, idxs: &Vec<usize>, tick: u64)
    ensures
        arc_views(final(arcs)@) == complete_each(arc_views(old(arcs)@), idxs@, tick),
{
    let n = idxs.len();
    for i in 0..n
        invariant
            n == idxs@.len(),
            arc_views(arcs@) == complete_each(arc_views(old(arcs)@), idxs@.take(i as int), tick),
    {
        assert(idxs@.take(i + 1).drop_last() =~= idxs@.take(i as int));
        complete_arc(arcs, idxs[i], tick);
    }
    assert(idxs@.take(n as int) =~= idxs@);
}

// ---------------------------------------------------------------------------
// The detector
// ---------------------------------------------------------------------------

/// The detector's state as a mathematical value.
pub struct DetectorView {
    /// (attacker, target) -> ticks when attacks occurred.
    pub attacks: Map<(u64, u64), Seq<u64>>,
    /// Entity -> cumulative offspring count.
    pub offspring: Map<u64, u32>,
    /// Entity -> cumulative kill count.
    pub kills: Map<u64, u32>,
    /// Species -> last known population count.
    pub species: Map<u64, u32>,
    /// Pair -> tick when a positive relationship was first noted.
    pub alliance_starts: Seq<((u64, u64), u64)>,
    /// Detected arcs.
    pub arcs: Seq<ArcView>,
    /// Pairs in a rivalry arc, with the arc's position.
    pub rivalries: Seq<((u64, u64), usize)>,
    /// Pairs in an alliance arc, with the arc's position.
    pub alliances: Seq<((u64, u64), usize)>,
    /// Entities with a Rise arc, with the arc's position.
    pub rises: Map<u64, usize>,
}

/// Offspring plus kills of an entity.
pub open spec fn dominance(d: DetectorView, id: u64) -> nat {
    count_of(d.offspring, id) + count_of(d.kills, id)
}

/// Tension `n / d` of at most 1.
pub open spec fn capped(n: nat, d: u64) -> Tension {
    Tension { num: (if n > d { d as nat } else { n }) as u64, den: d }
}

/// Attacks between the two entities of a pair, both ways.
pub open spec fn mutual_attacks(d: DetectorView, key: (u64, u64)) -> nat {
    ticks_of(d.attacks, (key.0, key.1)).len() + ticks_of(d.attacks, (key.1, key.0)).len()
}

/// An attack of `attacker` on `target` at `tick`: recorded; an existing
/// rivalry of the pair gains tension (mutual attacks over 10) and a key
/// event, else at 3 mutual attacks a rivalry starts at their first attack.
pub open spec fn rivalry_step(
    d: DetectorView,
    p: Seq<ArcView>,
    attacker: u64,
    target: u64,
    tick: u64,
) -> (DetectorView, Seq<ArcView>) {
    let d1 = DetectorView { attacks: with_attack(d.attacks, (attacker, target), tick), ..d };
    let key = pair_key(attacker, target);
    let total = mutual_attacks(d1, key);
    if pm_has(d1.rivalries, key) {
        (
            DetectorView {
                arcs: tense_at(d1.arcs, pm_get(d1.rivalries, key), tick, capped(total, 10), true),
                ..d1
            },
            p,
        )
    } else if total >= RIVALRY_THRESHOLD {
        let first = match earliest_of(
            ticks_of(d1.attacks, (key.0, key.1)),
            ticks_of(d1.attacks, (key.1, key.0)),
        ) {
            Some(f) => f,
            None => tick,
        };
        (
            DetectorView { rivalries: pm_insert(d1.rivalries, key, pending_index(d1.arcs.len(), p.len())), ..d1 },
            p.push(new_arc(ArcType::Rivalry, seq![key.0, key.1], first)),
        )
    } else {
        (d1, p)
    }
}

/// The position a pending arc will take once the batch's pending arcs are
/// appended after the stored ones (the largest position should that not
/// fit a `usize`).
pub open spec fn pending_index(stored: nat, pending: nat) -> usize {
    if stored + pending <= usize::MAX {
        (stored + pending) as usize
    } else {
        usize::MAX
    }
}

/// A rise check for `id`: an existing Rise arc gains tension (dominance over
/// 15), else at dominance 5 a Rise arc starts.
pub open spec fn rise_step(d: DetectorView, p: Seq<ArcView>, id: u64, tick: u64) -> (
    DetectorView,
    Seq<ArcView>,
) {
    if d.rises.contains_key(id) {
        (
            DetectorView {
                arcs: tense_at(d.arcs, d.rises[id], tick, capped(dominance(d, id), 15), false),
                ..d
            },
            p,
        )
    } else if dominance(d, id) >= RISE_THRESHOLD {
        (
            DetectorView { rises: d.rises.insert(id, pending_index(d.arcs.len(), p.len())), ..d },
            p.push(new_arc(ArcType::Rise, seq![id], tick)),
        )
    } else {
        (d, p)
    }
}

/// The death of a dominant entity: a completed Fall arc at full tension, and
/// its Rise arc, if any, completed.
pub open spec fn fall_step(d: DetectorView, p: Seq<ArcView>, id: u64, tick: u64) -> (
    DetectorView,
    Seq<ArcView>,
) {
    if dominance(d, id) >= RISE_THRESHOLD {
        let arc = completed(
            tensed(new_arc(ArcType::Fall, seq![id], tick), tick, Tension { num: 1, den: 1 }),
            tick,
        );
        let d2 = if d.rises.contains_key(id) {
            DetectorView {
                arcs: complete_at(d.arcs, d.rises[id], tick),
                rises: d.rises.remove(id),
                ..d
            }
        } else {
            d
        };
        (d2, p.push(arc))
    } else {
        (d, p)
    }
}

/// The completed Migration arc of an entity that traveled far enough.
pub open spec fn migration_arc(id: u64, tick: u64) -> ArcView {
    completed(tensed(new_arc(ArcType::Migration, seq![id], tick), tick, Tension { num: 1, den: 2 }), tick)
}

/// The rivalries and alliances of a dead entity are completed and dropped.
pub open spec fn death_cleanup(d: DetectorView, id: u64, tick: u64) -> DetectorView {
    let arcs1 = complete_each(d.arcs, involving_values(d.rivalries, id), tick);
    DetectorView {
        arcs: complete_each(arcs1, involving_values(d.alliances, id), tick),
        rivalries: drop_involving(d.rivalries, id),
        alliances: drop_involving(d.alliances, id),
        ..d
    }
}

/// What one event does to the detector and to the arcs detected so far in
/// the batch. `migrated` tells of a move that brought the mover's traveled
/// distance to the migration threshold.
pub open spec fn arc_step(
    d: DetectorView,
    p: Seq<ArcView>,
    e: SimEvent,
    migrated: bool,
    tick: u64,
) -> (DetectorView, Seq<ArcView>) {
    match e {
        SimEvent::EntityAttacked { attacker_id, target_id, .. } => rivalry_step(
            d,
            p,
            attacker_id,
            target_id,
            tick,
        ),
        SimEvent::EntityReproduced { parent_id, .. } => rise_step(
            DetectorView { offspring: bump(d.offspring, parent_id), ..d },
            p,
            parent_id,
            tick,
        ),
        SimEvent::EntityDied { entity_id, cause, .. } => {
            let f = fall_step(d, p, entity_id, tick);
            let r = match cause {
                DeathCause::Combat { killer_id } => rise_step(
                    DetectorView { kills: bump(f.0.kills, killer_id), ..f.0 },
                    f.1,
                    killer_id,
                    tick,
                ),
                _ => f,
            };
            (death_cleanup(r.0, entity_id, tick), r.1)
        },
        SimEvent::EntityMoved { entity_id } => if migrated {
            (d, p.push(migration_arc(entity_id, tick)))
        } else {
            (d, p)
        },
        _ => (d, p),
    }
}

/// An event can be processed without a count passing its integer type.
pub open spec fn arc_step_fits(d: DetectorView, e: SimEvent) -> bool {
    match e {
        SimEvent::EntityAttacked { attacker_id, target_id, .. } => mutual_attacks(
            DetectorView { attacks: with_attack(d.attacks, (attacker_id, target_id), 0), ..d },
            pair_key(attacker_id, target_id),
        ) <= usize::MAX,
        SimEvent::EntityReproduced { parent_id, .. } => count_of(d.offspring, parent_id) < u32::MAX
            && dominance(d, parent_id) < u32::MAX,
        SimEvent::EntityDied { entity_id, cause, .. } => dominance(d, entity_id) <= u32::MAX && match cause {
            DeathCause::Combat { killer_id } => count_of(d.kills, killer_id) < u32::MAX && dominance(
                d,
                killer_id,
            ) < u32::MAX,
            _ => true,
        },
        _ => true,
    }
}

/// The detector and the arcs detected after a batch of events, in order.
pub open spec fn arc_steps(d: DetectorView, events: Seq<SimEvent>, migrated: Seq<bool>, tick: u64) -> (
    DetectorView,
    Seq<ArcView>,
)
    decreases events.len(),
{
    if events.len() == 0 {
        (d, Seq::empty())
    } else {
        let r = arc_steps(d, events.drop_last(), migrated.drop_last(), tick);
        arc_step(r.0, r.1, events.last(), migrated.last(), tick)
    }
}

/// No count passes its integer type while a batch of events is processed.
pub open spec fn arc_steps_fit(d: DetectorView, events: Seq<SimEvent>, migrated: Seq<bool>, tick: u64) -> bool
    decreases events.len(),
{
    if events.len() == 0 {
        true
    } else {
        arc_steps_fit(d, events.drop_last(), migrated.drop_last(), tick) && arc_step_fits(
            arc_steps(d, events.drop_last(), migrated.drop_last(), tick).0,
            events.last(),
        )
    }
}

/// The Extinction arc of a species that died out at `tick`.
pub open spec fn extinction_arc(species: u64, tick: u64) -> ArcView {
    ArcView {
        arc_type: ArcType::Extinction,
        protagonists: seq![species],
        start_tick: tick,
        end_tick: Some(tick),
        tension_curve: seq![(tick, Tension { num: 1, den: 1 }), (tick, Tension { num: 0, den: 1 })],
        key_event_ticks: seq![tick],
        active: false,
    }
}

/// `d2` and `new_arcs` are the detector and the arcs detected after noting
/// the populations `pops` at `tick` in `d`: one Extinction arc per species
/// counted at zero in `pops` that had a population in `d`, in some order,
/// stored after the arcs of `d`; the counts are kept.
pub open spec fn species_noted(
    d: DetectorView,
    pops: Map<u64, u32>,
    tick: u64,
    d2: DetectorView,
    new_arcs: Seq<ArcView>,
) -> bool {
    &&& exists|gone: Seq<u64>|
        {
            &&& gone.no_duplicates()
            &&& forall|s: u64| gone.contains(s) <==> went_extinct(d.species, pops, s)
            &&& new_arcs == gone.map_values(|s: u64| extinction_arc(s, tick))
        }
    &&& d2 == (DetectorView { arcs: d.arcs + new_arcs, species: pops, ..d })
}

/// A positive or negative relationship between `a` and `b` noted at `tick`.
/// While positive, the tick it was first noted is kept; 500 ticks later an
/// alliance arc starting then is returned (once). A negative one forgets
/// that tick and completes the pair's alliance arc, if any.
pub open spec fn alliance_step(d: DetectorView, a: u64, b: u64, positive: bool, tick: u64) -> (
    DetectorView,
    Option<ArcView>,
) {
    let key = pair_key(a, b);
    if positive {
        let starts = if pm_has(d.alliance_starts, key) {
            d.alliance_starts
        } else {
            pm_insert(d.alliance_starts, key, tick)
        };
        let start = pm_get(starts, key);
        let d1 = DetectorView { alliance_starts: starts, ..d };
        if (if tick >= start {
            tick - start
        } else {
            0
        }) >= ALLIANCE_DURATION_THRESHOLD && !pm_has(d.alliances, key) {
            (
                DetectorView { alliances: pm_insert(d.alliances, key, d.arcs.len() as usize), ..d1 },
                Some(new_arc(ArcType::Alliance, seq![key.0, key.1], start)),
            )
        } else {
            (d1, None)
        }
    } else {
        let d1 = DetectorView { alliance_starts: pm_remove(d.alliance_starts, key), ..d };
        if pm_has(d.alliances, key) {
            (
                DetectorView {
                    arcs: complete_at(d1.arcs, pm_get(d.alliances, key), tick),
                    alliances: pm_remove(d.alliances, key),
                    ..d1
                },
                None,
            )
        } else {
            (d1, None)
        }
    }
}

/// The detector after noting each relationship `(a, b, positive)` of
/// `checks` at `tick`, in order.
pub open spec fn alliance_steps(d: DetectorView, checks: Seq<(u64, u64, bool)>, tick: u64) -> DetectorView
    decreases checks.len(),
{
    if checks.len() == 0 {
        d
    } else {
        let c = checks.last();
        alliance_step(alliance_steps(d, checks.drop_last(), tick), c.0, c.1, c.2, tick).0
    }
}

/// Tracks the state needed to detect story arcs.
#[derive(Debug)]
pub struct ArcDetector {
    attacks: AttackLedger,
    dominance: DominanceLedger,
    species_populations: HashMap<u64, u32>,
    alliance_starts: PairMap<u64>,
    arcs: Vec<StoryArc>,
    active_rivalries: PairMap<usize>,
    active_alliances: PairMap<usize>,
    active_rises: HashMap<u64, usize>,
}

/// The position of a pending arc: after the stored arcs and the pending
/// ones before it.
fn position_after(stored: usize, pending: usize) -> (i: usize)
    ensures
        i == pending_index(stored as nat, pending as nat),
{
    if stored <= usize::MAX - pending {
        stored + pending
    } else {
        usize::MAX
    }
}

impl View for ArcDetector {
    type V = DetectorView;

    closed spec fn view(&self) -> DetectorView {
        DetectorView {
            attacks: self.attacks@,
            offspring: self.dominance.offspring_counts@,
            kills: self.dominance.kill_counts@,
            species: self.species_populations@,
            alliance_starts: self.alliance_starts@,
            arcs: arc_views(self.arcs@),
            rivalries: self.active_rivalries@,
            alliances: self.active_alliances@,
            rises: self.active_rises@,
        }
    }
}

impl ArcDetector {
    /// The detector's internal lists are consistent.
    pub closed spec fn wf(&self) -> bool {
        &&& self.attacks.wf()
        &&& pm_wf(self.alliance_starts@)
        &&& pm_wf(self.active_rivalries@)
        &&& pm_wf(self.active_alliances@)
    }

    /// The offspring count of an entity (0 if none recorded).
    pub fn offspring_of(&self, id: u64) -> (n: u32)
        ensures
            n == count_of(self@.offspring, id),
    {
        self.dominance.offspring_of(id)
    }

    /// The kill count of an entity (0 if none recorded).
    pub fn kills_of(&self, id: u64) -> (n: u32)
        ensures
            n == count_of(self@.kills, id),
    {
        self.dominance.kills_of(id)
    }

    /// The number of attacks recorded for a pair.
    pub fn attack_count(&self, key: (u64, u64)) -> (n: usize)
        requires
            self.wf(),
        ensures
            n == ticks_of(self@.attacks, key).len(),
    {
        self.attacks.attack_count(key)
    }

    /// Nothing recorded, no arcs.
    pub fn new() -> (d: Self)
        ensures
            d.wf(),
            d@ == (DetectorView {
                attacks: Map::empty(),
                offspring: Map::empty(),
                kills: Map::empty(),
                species: Map::empty(),
                alliance_starts: Seq::empty(),
                arcs: Seq::empty(),
                rivalries: Seq::empty(),
                alliances: Seq::empty(),
                rises: Map::empty(),
            }),
    {
        let d = ArcDetector {
            attacks: AttackLedger::new(),
            dominance: DominanceLedger::new(),
            species_populations: HashMap::new(),
            alliance_starts: PairMap::new(),
            arcs: Vec::new(),
            active_rivalries: PairMap::new(),
            active_alliances: PairMap::new(),
            active_rises: HashMap::new(),
        };
        assert(d@.arcs =~= Seq::<ArcView>::empty());
        d
    }

    /// Attacks between `a` and `b` in both directions.
    pub fn mutual_attack_count(&self, a: u64, b: u64) -> (n: usize)
        requires
            self.wf(),
            mutual_attacks(self@, (a, b)) <= usize::MAX,
        ensures
            n == mutual_attacks(self@, (a, b)),
    {
        self.attacks.mutual_attack_count(a, b)
    }

    fn entity_dominance(&self, id: u64) -> (n: u32)
        requires
            dominance(self@, id) <= u32::MAX,
        ensures
            n == dominance(self@, id),
    {
        self.dominance.entity_dominance(id)
    }

    fn check_rivalry(&mut self, pending: &mut Vec<StoryArc>, attacker: u64, target: u64, tick: u64)
        requires
            old(self).wf(),
            arc_step_fits(old(self)@, SimEvent::EntityAttacked { attacker_id: attacker, target_id: target, target_killed: false, heavy_hit: false }),
        ensures
            final(self).wf(),
            (final(self)@, arc_views(final(pending)@)) == rivalry_step(
                old(self)@,
                arc_views(old(pending)@),
                attacker,
                target,
                tick,
            ),
    {
        self.attacks.record_attack(attacker, target, tick);
        let key = normalize_pair(attacker, target);
        proof {
            assert(ticks_of(with_attack(old(self)@.attacks, (attacker, target), tick), (key.0, key.1)).len()
                == ticks_of(with_attack(old(self)@.attacks, (attacker, target), 0), (key.0, key.1)).len());
            assert(ticks_of(with_attack(old(self)@.attacks, (attacker, target), tick), (key.1, key.0)).len()
                == ticks_of(with_attack(old(self)@.attacks, (attacker, target), 0), (key.1, key.0)).len());
        }
        let total = self.attacks.mutual_attack_count(key.0, key.1);
        match self.active_rivalries.get(key) {
            Some(idx) => {
                let t = Tension { num: if total > 10 { 10 } else { total as u64 }, den: 10 };
                tense_arc(&mut self.arcs, idx, tick, t, true);
            },
            None => {
                if total >= RIVALRY_THRESHOLD {
                    let first = match self.attacks.earliest_attack_tick(key.0, key.1) {
                        Some(f) => f,
                        None => tick,
                    };
                    let arc = StoryArc::new(ArcType::Rivalry, pair_vec(key), first);
                    let idx = position_after(self.arcs.len(), pending.len());
                    self.active_rivalries.insert(key, idx);
                    pending.push(arc);
                    assert(arc_views(pending@) =~= arc_views(old(pending)@).push(arc@));
                }
            },
        }
    }

    fn check_rise(&mut self, pending: &mut Vec<StoryArc>, id: u64, tick: u64)
        requires
            old(self).wf(),
            dominance(old(self)@, id) <= u32::MAX,
        ensures
            final(self).wf(),
            (final(self)@, arc_views(final(pending)@)) == rise_step(
                old(self)@,
                arc_views(old(pending)@),
                id,
                tick,
            ),
    {
        match self.active_rises.get(&id) {
            Some(i) => {
                let idx = *i;
                let dom = self.entity_dominance(id);
                let t = Tension { num: if dom > 15 { 15 } else { dom as u64 }, den: 15 };
                tense_arc(&mut self.arcs, idx, tick, t, false);
            },
            None => {
                let dom = self.entity_dominance(id);
                if dom >= RISE_THRESHOLD {
                    let arc = StoryArc::new(ArcType::Rise, single_vec(id), tick);
                    let idx = position_after(self.arcs.len(), pending.len());
                    self.active_rises.insert(id, idx);
                    pending.push(arc);
                    assert(arc_views(pending@) =~= arc_views(old(pending)@).push(arc@));
                }
            },
        }
    }

    fn check_fall(&mut self, pending: &mut Vec<StoryArc>, id: u64, tick: u64)
        requires
            old(self).wf(),
            dominance(old(self)@, id) <= u32::MAX,
        ensures
            final(self).wf(),
            (final(self)@, arc_views(final(pending)@)) == fall_step(
                old(self)@,
                arc_views(old(pending)@),
                id,
                tick,
            ),
    {
        let dom = self.entity_dominance(id);
        if dom >= RISE_THRESHOLD {
            let mut arc = StoryArc::new(ArcType::Fall, single_vec(id), tick);
            arc.add_tension(tick, Tension { num: 1, den: 1 });
            arc.complete(tick);
            match self.active_rises.get(&id) {
                Some(i) => {
                    let idx = *i;
                    complete_arc(&mut self.arcs, idx, tick);
                    self.active_rises.remove(&id);
                },
                None => {},
            }
            pending.push(arc);
            assert(arc_views(pending@) =~= arc_views(old(pending)@).push(arc@));
        }
    }

    fn on_entity_death(&mut self, id: u64, tick: u64)
        requires
            old(self).wf(),
        ensures
            final(self).wf(),
            final(self)@ == death_cleanup(old(self)@, id, tick),
    {
        let rivals = self.active_rivalries.take_involving(id);
        complete_arcs(&mut self.arcs, &rivals, tick);
        let allies = self.active_alliances.take_involving(id);
        complete_arcs(&mut self.arcs, &allies, tick);
    }

    fn process_event(
        &mut self,
        pending: &mut Vec<StoryArc>,
        event: &SimEvent,
        migrated: bool,
        tick: u64,
    )
        requires
            old(self).wf(),
            arc_step_fits(old(self)@, *event),
        ensures
            final(self).wf(),
            (final(self)@, arc_views(final(pending)@)) == arc_step(
                old(self)@,
                arc_views(old(pending)@),
                *event,
                migrated,
                tick,
            ),
    {
        match event {
            SimEvent::EntityAttacked { attacker_id, target_id, .. } => {
                self.check_rivalry(pending, *attacker_id, *target_id, tick);
            },
            SimEvent::EntityReproduced { parent_id, .. } => {
                self.dominance.record_offspring(*parent_id);
                self.check_rise(pending, *parent_id, tick);
            },
            SimEvent::EntityDied { entity_id, cause, .. } => {
                self.check_fall(pending, *entity_id, tick);
                if let DeathCause::Combat { killer_id } = cause {
                    self.dominance.record_kill(*killer_id);
                    self.check_rise(pending, *killer_id, tick);
                }
                self.on_entity_death(*entity_id, tick);
            },
            SimEvent::EntityMoved { entity_id } => {
                if migrated {
                    let mut arc = StoryArc::new(ArcType::Migration, single_vec(*entity_id), tick);
                    arc.add_tension(tick, Tension { num: 1, den: 2 });
                    arc.complete(tick);
                    pending.push(arc);
                    assert(arc_views(pending@) =~= arc_views(old(pending)@).push(arc@));
                }
            },
            _ => {},
        }
    }

    /// Process a batch of events from one tick and return the arcs newly
    /// detected, which are also stored. `migrated[i]` tells whether event
    /// `i` is a move that brought its entity's traveled distance to the
    /// migration threshold.
    pub fn process_events(&mut self, events: &[SimEvent], migrated: &[bool], tick: u64) -> (new_arcs: Vec<
        StoryArc,
    >)
        requires
            old(self).wf(),
            migrated@.len() == events@.len(),
            arc_steps_fit(old(self)@, events@, migrated@, tick),
        ensures
            final(self).wf(),
            arc_views(new_arcs@) == arc_steps(old(self)@, events@, migrated@, tick).1,
            final(self)@ == (DetectorView {
                arcs: arc_steps(old(self)@, events@, migrated@, tick).0.arcs + arc_steps(
                    old(self)@,
                    events@,
                    migrated@,
                    tick,
                ).1,
                ..arc_steps(old(self)@, events@, migrated@, tick).0
            }),
    {
        let mut pending: Vec<StoryArc> = Vec::new();
        let n = events.len();
        for i in 0..n
            invariant
                n == events@.len(),
                migrated@.len() == n,
                self.wf(),
                (self@, arc_views(pending@)) == arc_steps(
                    old(self)@,
                    events@.take(i as int),
                    migrated@.take(i as int),
                    tick,
                ),
                arc_steps_fit(old(self)@, events@, migrated@, tick),
        {
            proof {
                assert(events@.take(i + 1).drop_last() =~= events@.take(i as int));
                assert(migrated@.take(i + 1).drop_last() =~= migrated@.take(i as int));
                lemma_arc_steps_fit_prefix(old(self)@, events@, migrated@, tick, i + 1);
            }
            self.process_event(&mut pending, &events[i], migrated[i], tick);
        }
        proof {
            assert(events@.take(n as int) =~= events@);
            assert(migrated@.take(n as int) =~= migrated@);
        }
        let ghost mid = self@;
        let m = pending.len();
        for j in 0..m
            invariant
                m == pending@.len(),
                self.wf(),
                self@ == (DetectorView { arcs: mid.arcs + arc_views(pending@).take(j as int), ..mid }),
        {
            let a = pending[j].clone();
            let ghost before_arcs = self.arcs@;
            self.arcs.push(a);
            assert(arc_views(self.arcs@) =~= arc_views(before_arcs).push(a@));
            assert(arc_views(pending@).take(j + 1) =~= arc_views(pending@).take(j as int).push(a@));
            assert(self@.arcs =~= mid.arcs + arc_views(pending@).take(j + 1));
        }
        assert(arc_views(pending@).take(m as int) =~= arc_views(pending@));
        pending
    }

    /// Note population counts of all species and return an Extinction arc,
    /// also stored, for each species counted at zero now that had a
    /// population before (in no particular order); the counts are kept for
    /// the next call.
    pub fn update_species_populations(&mut self, populations: &HashMap<u64, u32>, tick: u64) -> (new_arcs: Vec<StoryArc>)
        requires
            old(self).wf(),
        ensures
            final(self).wf(),
            species_noted(old(self)@, populations@, tick, final(self)@, arc_views(new_arcs@)),
    {
        let gone = extinct_species(&self.species_populations, populations);
        let mut new_arcs: Vec<StoryArc> = Vec::new();
        let n = gone.len();
        for i in 0..n
            invariant
                n == gone@.len(),
                self.wf(),
                self@ == (DetectorView { arcs: old(self)@.arcs + arc_views(new_arcs@), ..old(self)@ }),
                arc_views(new_arcs@) == gone@.take(i as int).map_values(|s: u64| extinction_arc(s, tick)),
        {
            let s = gone[i];
            let mut tension_curve: Vec<(u64, Tension)> = Vec::new();
            tension_curve.push((tick, Tension { num: 1, den: 1 }));
            tension_curve.push((tick, Tension { num: 0, den: 1 }));
            let mut key_event_ticks: Vec<u64> = Vec::new();
            key_event_ticks.push(tick);
            let arc = StoryArc {
                arc_type: ArcType::Extinction,
                protagonists: single_vec(s),
                start_tick: tick,
                end_tick: Some(tick),
                tension_curve,
                key_event_ticks,
                active: false,
            };
            assert(arc.tension_curve@ =~= seq![(tick, Tension { num: 1, den: 1 }), (tick, Tension { num: 0, den: 1 })]);
            assert(arc.key_event_ticks@ =~= seq![tick]);
            assert(arc@ =~= extinction_arc(s, tick));
            let ghost before = new_arcs@;
            let ghost before_arcs = self.arcs@;
            new_arcs.push(arc.clone());
            self.arcs.push(arc);
            assert(arc_views(self.arcs@) =~= arc_views(before_arcs).push(arc@));
            proof {
                assert(gone@.take(i + 1) =~= gone@.take(i as int).push(s));
                assert(arc_views(new_arcs@) =~= arc_views(before).push(arc@));
                assert(gone@.take(i + 1).map_values(|s: u64| extinction_arc(s, tick)) =~= gone@.take(
                    i as int,
                ).map_values(|s: u64| extinction_arc(s, tick)).push(extinction_arc(s, tick)));
                assert(self@.arcs =~= old(self)@.arcs + arc_views(new_arcs@));
            }
        }
        proof {
            assert(gone@.take(n as int) =~= gone@);
        }
        self.species_populations = populations.clone();
        assert(self@ =~= (DetectorView {
            arcs: old(self)@.arcs + arc_views(new_arcs@),
            species: populations@,
            ..old(self)@
        }));
        new_arcs
    }

    /// Note whether the relationship between `a` and `b` is positive at
    /// `tick` (see `alliance_step`); a returned alliance arc is not stored.
    pub fn check_alliance(&mut self, entity_a: u64, entity_b: u64, relationship_positive: bool, tick: u64) -> (r: Option<StoryArc>)
        requires
            old(self).wf(),
        ensures
            final(self).wf(),
            final(self)@ == alliance_step(old(self)@, entity_a, entity_b, relationship_positive, tick).0,
            match r {
                Some(a) => alliance_step(old(self)@, entity_a, entity_b, relationship_positive, tick).1 == Some(a@),
                None => alliance_step(old(self)@, entity_a, entity_b, relationship_positive, tick).1 is None,
            },
    {
        let key = normalize_pair(entity_a, entity_b);
        if relationship_positive {
            let start = match self.alliance_starts.get(key) {
                Some(s) => s,
                None => {
                    self.alliance_starts.insert(key, tick);
                    proof {
                        lemma_pm_insert_get(old(self)@.alliance_starts, key, tick);
                    }
                    tick
                },
            };
            let duration = tick.saturating_sub(start);
            if duration >= ALLIANCE_DURATION_THRESHOLD && self.active_alliances.get(key).is_none() {
                let arc = StoryArc::new(ArcType::Alliance, pair_vec(key), start);
                let idx = self.arcs.len();
                self.active_alliances.insert(key, idx);
                return Some(arc);
            }
        } else {
            self.alliance_starts.remove(key);
            match self.active_alliances.get(key) {
                Some(idx) => {
                    complete_arc(&mut self.arcs, idx, tick);
                    self.active_alliances.remove(key);
                },
                None => {},
            }
        }
        None
    }

    /// All detected arcs, active and completed.
    pub fn arcs(&self) -> (r: &[StoryArc])
        ensures
            arc_views(r@) == self@.arcs,
    {
        self.arcs.as_slice()
    }

    /// The arcs still active, in order.
    pub fn active_arcs(&self) -> (r: Vec<&StoryArc>)
        ensures
            r@.map_values(|a: &StoryArc| a@) == self@.arcs.filter(|a: ArcView| a.active),
    {
        let mut r: Vec<&StoryArc> = Vec::new();
        let n = self.arcs.len();
        for i in 0..n
            invariant
                n == self.arcs@.len(),
                r@.map_values(|a: &StoryArc| a@) == arc_views(self.arcs@).take(i as int).filter(
                    |a: ArcView| a.active,
                ),
        {
            let a = &self.arcs[i];
            let ghost before = r@;
            proof {
                let s = arc_views(self.arcs@);
                assert(s.take(i + 1) =~= s.take(i as int).push(a@));
                s.take(i as int).lemma_filter_push(a@, |a: ArcView| a.active);
            }
            if a.active {
                r.push(a);
                assert(r@.map_values(|a: &StoryArc| a@) =~= before.map_values(|a: &StoryArc| a@).push(a@));
            }
        }
        assert(arc_views(self.arcs@).take(n as int) =~= arc_views(self.arcs@));
        r
    }

    /// Drop attack records older than `max_age` ticks before `current_tick`.
    pub fn prune_old_records(&mut self, current_tick: u64, max_age: u64)
        requires
            old(self).wf(),
        ensures
            final(self).wf(),
            final(self)@ == (DetectorView {
                attacks: pruned(
                    old(self)@.attacks,
                    (if current_tick >= max_age {
                        current_tick - max_age
                    } else {
                        0
                    }) as u64,
                ),
                ..old(self)@
            }),
    {
        self.attacks.prune_old_records(current_tick, max_age);
    }
}

proof fn lemma_pm_insert_get<V>(s: Seq<((u64, u64), V)>, k: (u64, u64), v: V)
    requires
        pm_wf(s),
        !pm_has(s, k),
    ensures
        pm_has(pm_insert(s, k, v), k),
        pm_get(pm_insert(s, k, v), k) == v,
{
    let t = pm_insert(s, k, v);
    assert(t[s.len() as int].0 == k);
    let c = choose|i: int| 0 <= i < t.len() && t[i].0 == k;
    if c < s.len() {
        assert(s[c].0 == k);
    }
}

proof fn lemma_arc_steps_fit_prefix(d: DetectorView, events: Seq<SimEvent>, migrated: Seq<bool>, tick: u64, k: int)
    requires
        arc_steps_fit(d, events, migrated, tick),
        migrated.len() == events.len(),
        0 <= k <= events.len(),
    ensures
        arc_steps_fit(d, events.take(k), migrated.take(k), tick),
    decreases events.len() - k,
{
    if k < events.len() {
        lemma_arc_steps_fit_prefix(d, events, migrated, tick, k + 1);
        assert(events.take(k + 1).drop_last() =~= events.take(k));
        assert(migrated.take(k + 1).drop_last() =~= migrated.take(k));
    } else {
        assert(events.take(k) =~= events);
        assert(migrated.take(k) =~= migrated);
    }
}


// ---------------------------------------------------------------------------
// Laws
// ---------------------------------------------------------------------------

/// Law: stored tensions lie between 0 and 1: a tension point added to an
/// arc is at most 1.
pub proof fn law_tension_clamped(a: ArcView, tick: u64, t: Tension)
    requires
        t.den > 0,
    ensures
        tensed(a, tick, t).tension_curve.last().1.num <= tensed(a, tick, t).tension_curve.last().1.den,
        tensed(a, tick, t).tension_curve.last().1.den > 0,
        tensed(a, tick, t).tension_curve.drop_last() == a.tension_curve,
{
    assert(tensed(a, tick, t).tension_curve.drop_last() =~= a.tension_curve);
}

/// Law: a pair already in a rivalry gets no second rivalry arc from an
/// attack; a pair not yet in one gets exactly one, a Rivalry of the two,
/// when the attack brings its mutual attacks to the threshold.
pub proof fn law_rivalry_once(d: DetectorView, p: Seq<ArcView>, attacker: u64, target: u64, tick: u64)
    ensures
        pm_has(d.rivalries, pair_key(attacker, target)) ==> rivalry_step(d, p, attacker, target, tick).1
            == p,
        !pm_has(d.rivalries, pair_key(attacker, target)) && mutual_attacks(
            DetectorView { attacks: with_attack(d.attacks, (attacker, target), tick), ..d },
            pair_key(attacker, target),
        ) >= RIVALRY_THRESHOLD ==> {
            let r = rivalry_step(d, p, attacker, target, tick);
            &&& r.1.len() == p.len() + 1
            &&& r.1.last().arc_type == ArcType::Rivalry
            &&& r.1.last().protagonists == seq![pair_key(attacker, target).0, pair_key(attacker, target).1]
            &&& r.1.last().active
            &&& pm_has(r.0.rivalries, pair_key(attacker, target))
        },
{
    let key = pair_key(attacker, target);
    let s = d.rivalries;
    let t = pm_insert(s, key, pending_index(d.arcs.len(), p.len()));
    if !pm_has(s, key) {
        assert(t[s.len() as int].0 == key);
    }
}

/// Law: after its death, an entity is in no active rivalry or alliance.
pub proof fn law_death_ends_pairs(d: DetectorView, id: u64, tick: u64)
    ensures
        forall|i: int|
            0 <= i < death_cleanup(d, id, tick).rivalries.len() ==> !involves(
                #[trigger] death_cleanup(d, id, tick).rivalries[i].0,
                id,
            ),
        forall|i: int|
            0 <= i < death_cleanup(d, id, tick).alliances.len() ==> !involves(
                #[trigger] death_cleanup(d, id, tick).alliances[i].0,
                id,
            ),
{
    lemma_drop_involving_clears(d.rivalries, id);
    lemma_drop_involving_clears(d.alliances, id);
}

proof fn lemma_drop_involving_clears<V>(s: Seq<((u64, u64), V)>, e: u64)
    ensures
        forall|i: int| 0 <= i < drop_involving(s, e).len() ==> !involves(#[trigger] drop_involving(s, e)[i].0, e),
    decreases s.len(),
{
    if s.len() > 0 {
        lemma_drop_involving_clears(s.drop_last(), e);
        let r = drop_involving(s.drop_last(), e);
        if !involves(s.last().0, e) {
            assert forall|i: int| 0 <= i < r.push(s.last()).len() implies !involves(
                #[trigger] r.push(s.last())[i].0,
                e,
            ) by {
                if i < r.len() {
                    assert(r.push(s.last())[i] == r[i]);
                }
            }
        }
    }
}

/// Law: the death of a dominant entity yields a completed Fall arc and
/// leaves it without a Rise arc; a Migration arc is completed at once.
pub proof fn law_fall_ends_rise(d: DetectorView, p: Seq<ArcView>, id: u64, tick: u64)
    requires
        dominance(d, id) >= RISE_THRESHOLD,
    ensures
        !fall_step(d, p, id, tick).0.rises.contains_key(id),
        fall_step(d, p, id, tick).1.len() == p.len() + 1,
        fall_step(d, p, id, tick).1.last().arc_type == ArcType::Fall,
        !fall_step(d, p, id, tick).1.last().active,
        fall_step(d, p, id, tick).1.last().end_tick == Some(tick),
        !migration_arc(id, tick).active,
        migration_arc(id, tick).end_tick == Some(tick),
{
}

/// Law: a negative relationship leaves the pair with neither an alliance
/// start nor an active alliance, and detects nothing.
pub proof fn law_alliance_broken(d: DetectorView, a: u64, b: u64, tick: u64)
    requires
        pm_wf(d.alliance_starts),
        pm_wf(d.alliances),
    ensures
        !pm_has(alliance_step(d, a, b, false, tick).0.alliance_starts, pair_key(a, b)),
        !pm_has(alliance_step(d, a, b, false, tick).0.alliances, pair_key(a, b)),
        alliance_step(d, a, b, false, tick).1 is None,
{
    lemma_pm_remove_clears(d.alliance_starts, pair_key(a, b));
    lemma_pm_remove_clears(d.alliances, pair_key(a, b));
}

proof fn lemma_pm_remove_clears<V>(s: Seq<((u64, u64), V)>, k: (u64, u64))
    requires
        pm_wf(s),
    ensures
        !pm_has(pm_remove(s, k), k),
{
    if pm_has(s, k) {
        let i = pm_index(s, k);
        let r = pm_remove(s, k);
        if pm_has(r, k) {
            let j = choose|j: int| 0 <= j < r.len() && r[j].0 == k;
            if j < i {
                assert(s[j].0 == k);
                assert(s[j].0 != s[i].0);
            } else {
                assert(s[j + 1].0 == k);
                assert(s[i].0 != s[j + 1].0);
            }
        }
    }
}

/// Law: a positive relationship sustained from `start` forms an alliance
/// arc of the pair, starting at `start`, once `tick` is 500 ticks later.
pub proof fn law_alliance_formed(d: DetectorView, a: u64, b: u64, start: u64, tick: u64)
    requires
        pm_wf(d.alliance_starts),
        pm_has(d.alliance_starts, pair_key(a, b)),
        pm_get(d.alliance_starts, pair_key(a, b)) == start,
        !pm_has(d.alliances, pair_key(a, b)),
        tick >= start + ALLIANCE_DURATION_THRESHOLD,
    ensures
        alliance_step(d, a, b, true, tick).1 == Some(
            new_arc(ArcType::Alliance, seq![pair_key(a, b).0, pair_key(a, b).1], start),
        ),
{
}

} // verus!
