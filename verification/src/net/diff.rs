//! Tick deltas for viewers: which entities appeared, changed or vanished
//! since the previous tick, and how much of each entity is sent.
use std::collections::HashSet;
use vstd::prelude::*;

verus! {

/// How many fields are sent per entity.
#[derive(Debug, Clone, Copy, PartialEq, Eq, Structural)]
pub enum DetailLevel {
    /// Position and species only.
    Minimal,
    /// Adds energy, health, size.
    Standard,
    /// Everything.
    Detailed,
}

/// The groups of entity fields that a detail level keeps (position, id and
/// species are always kept).
#[derive(Debug, Clone, Copy, PartialEq, Eq, Structural)]
pub struct DetailFields {
    /// Energy, health and size (with their maxima).
    pub vitals: bool,
    /// Age, lifespan and generation.
    pub lifecycle: bool,
}

/// The fields kept at a detail level: the standard level drops the life
/// cycle, the minimal level drops the vitals as well.
pub fn detail_fields(level: DetailLevel) -> (f: DetailFields)
    ensures
        f.vitals == (level != DetailLevel::Minimal),
        f.lifecycle == (level == DetailLevel::Detailed),
{
    match level {
        DetailLevel::Detailed => DetailFields { vitals: true, lifecycle: true },
        DetailLevel::Standard => DetailFields { vitals: true, lifecycle: false },
        DetailLevel::Minimal => DetailFields { vitals: false, lifecycle: false },
    }
}

/// An entity or resource as observed this tick: whether it lies in the
/// viewport (with its buffer zone) and whether its state differs from the
/// state recorded for it at the previous tick (meaningless when it was not
/// there).
#[derive(Debug, Clone, Copy, PartialEq, Eq, Structural)]
pub struct Observation {
    pub id: u64,
    pub visible: bool,
    pub changed: bool,
}

/// The ids that a tick delta reports for entities.
#[derive(Debug)]
pub struct EntityDelta {
    /// Visible entities that were not there at the previous tick.
    pub spawned: Vec<u64>,
    /// Visible entities that were there and have changed.
    pub updated: Vec<u64>,
    /// Entities that were there and are gone, visible or not.
    pub died: Vec<u64>,
}

/// The ids observed in a list.
pub open spec fn id_set(obs: Seq<Observation>) -> Set<u64> {
    Set::new(|x: u64| exists|j: int| 0 <= j < obs.len() && obs[j].id == x)
}

/// The visible observations whose id was not there before, in order.
pub open spec fn spawned_of(prev: Set<u64>, obs: Seq<Observation>) -> Seq<u64>
    decreases obs.len(),
{
    if obs.len() == 0 {
        Seq::empty()
    } else {
        let o = obs.last();
        let rest = spawned_of(prev, obs.drop_last());
        if !prev.contains(o.id) && o.visible {
            rest.push(o.id)
        } else {
            rest
        }
    }
}

/// The visible, changed observations whose id was there before, in order.
pub open spec fn updated_of(prev: Set<u64>, obs: Seq<Observation>) -> Seq<u64>
    decreases obs.len(),
{
    if obs.len() == 0 {
        Seq::empty()
    } else {
        let o = obs.last();
        let rest = updated_of(prev, obs.drop_last());
        if prev.contains(o.id) && o.changed && o.visible {
            rest.push(o.id)
        } else {
            rest
        }
    }
}

/// The visible observations that are new or changed, in order.
pub open spec fn resource_changes_of(prev: Set<u64>, obs: Seq<Observation>) -> Seq<u64>
    decreases obs.len(),
{
    if obs.len() == 0 {
        Seq::empty()
    } else {
        let o = obs.last();
        let rest = resource_changes_of(prev, obs.drop_last());
        if o.visible && (!prev.contains(o.id) || o.changed) {
            rest.push(o.id)
        } else {
            rest
        }
    }
}

/// Pushing a value that is not in a list without repeats keeps it without
/// repeats, and adds exactly that value.
proof fn lemma_push_fresh(s: Seq<u64>, a: u64)
    requires
        s.no_duplicates(),
        !s.contains(a),
    ensures
        s.push(a).no_duplicates(),
        forall|x: u64| #[trigger] s.push(a).contains(x) <==> (s.contains(x) || x == a),
{
    let t = s.push(a);
    assert forall|i: int, j: int| 0 <= i < t.len() && 0 <= j < t.len() && i != j implies t[i] != t[j] by {
        if i < s.len() && j < s.len() {
            assert(s[i] != s[j]);
        } else if i < s.len() {
            assert(s.contains(s[i]));
        } else {
            assert(s.contains(s[j]));
        }
    }
    assert forall|x: u64| #[trigger] t.contains(x) <==> (s.contains(x) || x == a) by {
        if t.contains(x) {
            let k = choose|k: int| 0 <= k < t.len() && t[k] == x;
            if k < s.len() {
                assert(s[k] == x);
            }
        }
        if s.contains(x) {
            let k = choose|k: int| 0 <= k < s.len() && s[k] == x;
            assert(t[k] == x);
        }
        if x == a {
            assert(t[s.len() as int] == x);
        }
    }
}

/// The ids of the visible observations, in order.
pub open spec fn visible_ids(obs: Seq<Observation>) -> Seq<u64>
    decreases obs.len(),
{
    if obs.len() == 0 {
        Seq::empty()
    } else {
        let rest = visible_ids(obs.drop_last());
        if obs.last().visible {
            rest.push(obs.last().id)
        } else {
            rest
        }
    }
}

/// Law of the delta classes: a spawned entity was not recorded before and an
/// updated one was, so no entity is both; on the first tick (nothing
/// recorded) every visible entity is spawned and none is updated; when every
/// observed entity was recorded and is unchanged, nothing is spawned or
/// updated.
pub proof fn law_delta_classes(prev: Set<u64>, obs: Seq<Observation>)
    ensures
        forall|x: u64| #[trigger] spawned_of(prev, obs).contains(x) ==> !prev.contains(x),
        forall|x: u64| #[trigger] updated_of(prev, obs).contains(x) ==> prev.contains(x),
        prev == Set::<u64>::empty() ==> spawned_of(prev, obs) == visible_ids(obs) && updated_of(prev, obs)
            == Seq::<u64>::empty(),
        (forall|j: int| 0 <= j < obs.len() ==> prev.contains(#[trigger] obs[j].id) && !obs[j].changed)
            ==> spawned_of(prev, obs) == Seq::<u64>::empty() && updated_of(prev, obs) == Seq::<u64>::empty(),
    decreases obs.len(),
{
    if obs.len() > 0 {
        let init = obs.drop_last();
        law_delta_classes(prev, init);
        let o = obs.last();
        assert forall|x: u64| #[trigger] spawned_of(prev, obs).contains(x) implies !prev.contains(x) by {
            if x != o.id || prev.contains(o.id) || !o.visible {
                let s = spawned_of(prev, obs);
                let k = choose|k: int| 0 <= k < s.len() && s[k] == x;
                if !prev.contains(o.id) && o.visible {
                    if k < s.len() - 1 {
                        assert(spawned_of(prev, init)[k] == x);
                        assert(spawned_of(prev, init).contains(x));
                    }
                } else {
                    assert(spawned_of(prev, init)[k] == x);
                    assert(spawned_of(prev, init).contains(x));
                }
            }
        }
        assert forall|x: u64| #[trigger] updated_of(prev, obs).contains(x) implies prev.contains(x) by {
            let u = updated_of(prev, obs);
            let k = choose|k: int| 0 <= k < u.len() && u[k] == x;
            if prev.contains(o.id) && o.changed && o.visible {
                if k < u.len() - 1 {
                    assert(updated_of(prev, init)[k] == x);
                    assert(updated_of(prev, init).contains(x));
                }
            } else {
                assert(updated_of(prev, init)[k] == x);
                    assert(updated_of(prev, init).contains(x));
            }
        }
        if forall|j: int| 0 <= j < obs.len() ==> prev.contains(#[trigger] obs[j].id) && !obs[j].changed {
            assert forall|j: int| 0 <= j < init.len() implies prev.contains(#[trigger] init[j].id) && !init[j].changed by {
                assert(init[j] == obs[j]);
            }
            assert(prev.contains(obs[obs.len() - 1].id));
        }
    }
}

/// Law: the delta misses nothing: every visible observation whose id was
/// not recorded before is spawned, and every visible, changed observation
/// whose id was recorded is updated.
pub proof fn law_delta_complete(prev: Set<u64>, obs: Seq<Observation>)
    ensures
        forall|j: int|
            0 <= j < obs.len() && (#[trigger] obs[j]).visible && !prev.contains(obs[j].id) ==> spawned_of(
                prev,
                obs,
            ).contains(obs[j].id),
        forall|j: int|
            0 <= j < obs.len() && (#[trigger] obs[j]).visible && obs[j].changed && prev.contains(obs[j].id)
                ==> updated_of(prev, obs).contains(obs[j].id),
    decreases obs.len(),
{
    if obs.len() > 0 {
        let init = obs.drop_last();
        law_delta_complete(prev, init);
        let o = obs.last();
        let s0 = spawned_of(prev, init);
        let u0 = updated_of(prev, init);
        assert forall|j: int|
            0 <= j < obs.len() && (#[trigger] obs[j]).visible && !prev.contains(obs[j].id) implies spawned_of(
                prev,
                obs,
            ).contains(obs[j].id) by {
            if j < obs.len() - 1 {
                assert(init[j] == obs[j]);
                let k = choose|k: int| 0 <= k < s0.len() && s0[k] == obs[j].id;
                assert(spawned_of(prev, obs)[k] == obs[j].id);
            } else {
                let s = spawned_of(prev, obs);
                assert(s[s.len() - 1] == o.id);
            }
        }
        assert forall|j: int|
            0 <= j < obs.len() && (#[trigger] obs[j]).visible && obs[j].changed && prev.contains(obs[j].id)
                implies updated_of(prev, obs).contains(obs[j].id) by {
            if j < obs.len() - 1 {
                assert(init[j] == obs[j]);
                let k = choose|k: int| 0 <= k < u0.len() && u0[k] == obs[j].id;
                assert(updated_of(prev, obs)[k] == obs[j].id);
            } else {
                let u = updated_of(prev, obs);
                assert(u[u.len() - 1] == o.id);
            }
        }
    }
}

/// Observations that were all recorded and none of which changed give no
/// resource changes.
proof fn lemma_no_resource_changes(prev: Set<u64>, obs: Seq<Observation>)
    requires
        forall|j: int| 0 <= j < obs.len() ==> prev.contains(#[trigger] obs[j].id) && !obs[j].changed,
    ensures
        resource_changes_of(prev, obs) == Seq::<u64>::empty(),
    decreases obs.len(),
{
    if obs.len() > 0 {
        let init = obs.drop_last();
        assert forall|j: int| 0 <= j < init.len() implies prev.contains(#[trigger] init[j].id) && !init[j].changed by {
            assert(init[j] == obs[j]);
        }
        lemma_no_resource_changes(prev, init);
        assert(prev.contains(obs[obs.len() - 1].id));
    }
}

/// Law: a tick that repeats the previous one sends nothing. When the
/// entities and resources observed are those recorded at the previous tick
/// (which is what the previous classification records) and none of them
/// changed, no entity is spawned, updated or reported dead, and no resource
/// change is reported.
pub proof fn law_repeated_tick_sends_nothing(entities: Seq<Observation>, resources: Seq<Observation>)
    requires
        forall|j: int| 0 <= j < entities.len() ==> !(#[trigger] entities[j]).changed,
        forall|j: int| 0 <= j < resources.len() ==> !(#[trigger] resources[j]).changed,
    ensures
        spawned_of(id_set(entities), entities) == Seq::<u64>::empty(),
        updated_of(id_set(entities), entities) == Seq::<u64>::empty(),
        forall|x: u64| !(id_set(entities).contains(x) && !id_set(entities).contains(x)),
        resource_changes_of(id_set(resources), resources) == Seq::<u64>::empty(),
{
    let prev = id_set(entities);
    assert forall|j: int| 0 <= j < entities.len() implies prev.contains(#[trigger] entities[j].id)
        && !entities[j].changed by {
        assert(entities[j].id == entities[j].id);
    }
    law_delta_classes(prev, entities);
    let rprev = id_set(resources);
    assert forall|j: int| 0 <= j < resources.len() implies rprev.contains(#[trigger] resources[j].id)
        && !resources[j].changed by {
        assert(resources[j].id == resources[j].id);
    }
    lemma_no_resource_changes(rprev, resources);
}

/// The ids recorded at the previous tick, for computing the next delta.
pub struct DiffEngine {
    prev_entity_list: Vec<u64>,
    prev_entity_set: HashSet<u64>,
    prev_resource_set: HashSet<u64>,
}

impl DiffEngine {
    /// The entity ids recorded at the previous tick.
    pub closed spec fn previous_entities(&self) -> Set<u64> {
        self.prev_entity_set@
    }

    /// The resource ids recorded at the previous tick.
    pub closed spec fn previous_resources(&self) -> Set<u64> {
        self.prev_resource_set@
    }

    /// The entity list and set agree, and the list has no repeats.
    pub closed spec fn wf(&self) -> bool {
        &&& self.prev_entity_list@.no_duplicates()
        &&& forall|x: u64| #[trigger]
            self.prev_entity_set@.contains(x) <==> self.prev_entity_list@.contains(x)
    }

    /// Nothing recorded yet.
    pub fn new() -> (d: Self)
        ensures
            d.wf(),
            d.previous_entities() == Set::<u64>::empty(),
            d.previous_resources() == Set::<u64>::empty(),
    {
        DiffEngine {
            prev_entity_list: Vec::new(),
            prev_entity_set: HashSet::new(),
            prev_resource_set: HashSet::new(),
        }
    }

    /// The entity part of a tick delta: each observation is classified
    /// against the entities recorded at the previous tick, every vanished
    /// entity is reported once, and this tick's entities are recorded.
    pub fn classify_entities(&mut self, current: &[Observation]) -> (d: EntityDelta)
        requires
            old(self).wf(),
        ensures
            final(self).wf(),
            d.spawned@ == spawned_of(old(self).previous_entities(), current@),
            d.updated@ == updated_of(old(self).previous_entities(), current@),
            d.died@.no_duplicates(),
            forall|x: u64| #[trigger]
                d.died@.contains(x) <==> (old(self).previous_entities().contains(x) && !id_set(
                    current@,
                ).contains(x)),
            final(self).previous_entities() == id_set(current@),
            final(self).previous_resources() == old(self).previous_resources(),
    {
        let ghost prev = self.prev_entity_set@;
        let mut spawned: Vec<u64> = Vec::new();
        let mut updated: Vec<u64> = Vec::new();
        let mut list: Vec<u64> = Vec::new();
        let mut seen: HashSet<u64> = HashSet::new();
        let n = current.len();
        for i in 0..n
            invariant
                n == current@.len(),
                prev == self.prev_entity_set@,
                spawned@ == spawned_of(prev, current@.take(i as int)),
                updated@ == updated_of(prev, current@.take(i as int)),
                seen@ == id_set(current@.take(i as int)),
                list@.no_duplicates(),
                forall|x: u64| #[trigger] seen@.contains(x) <==> list@.contains(x),
        {
            let o = current[i];
            proof {
                assert(current@.take(i + 1).drop_last() =~= current@.take(i as int));
                assert(current@.take(i + 1).last() == o);
            }
            let was_there = self.prev_entity_set.contains(&o.id);
            if !was_there && o.visible {
                spawned.push(o.id);
            }
            if was_there && o.changed && o.visible {
                updated.push(o.id);
            }
            let ghost old_list = list@;
            let ghost old_seen = seen@;
            let fresh = seen.insert(o.id);
            if fresh {
                list.push(o.id);
                proof {
                    lemma_push_fresh(old_list, o.id);
                }
            }
            proof {
                assert forall|x: u64| #[trigger] seen@.contains(x) <==> list@.contains(x) by {
                    if !fresh {
                        assert(list@ == old_list);
                    }
                    assert(old_seen.contains(x) <==> old_list.contains(x));
                }
            }
            proof {
                assert(seen@ =~= id_set(current@.take(i + 1))) by {
                    assert forall|x: u64| seen@.contains(x) implies id_set(current@.take(i + 1)).contains(x) by {
                        if x != o.id {
                            let j = choose|j: int| #![trigger current@.take(i as int)[j]] 0 <= j < i && current@.take(i as int)[j].id == x;
                            assert(current@.take(i + 1)[j].id == x);
                        } else {
                            assert(current@.take(i + 1)[i as int].id == x);
                        }
                    }
                    assert forall|x: u64| id_set(current@.take(i + 1)).contains(x) implies seen@.contains(x) by {
                        let j = choose|j: int| #![trigger current@.take(i + 1)[j]] 0 <= j < i + 1 && current@.take(i + 1)[j].id == x;
                        if j < i {
                            assert(current@.take(i as int)[j].id == x);
                        }
                    }
                }
            }
        }
        proof {
            assert(current@.take(n as int) =~= current@);
        }
        let died = self.vanished_entities(&seen);
        self.prev_entity_list = list;
        self.prev_entity_set = seen;
        EntityDelta { spawned, updated, died }
    }

    /// The recorded entities that are not in `current`, each once.
    fn vanished_entities(&self, current: &HashSet<u64>) -> (died: Vec<u64>)
        requires
            self.wf(),
        ensures
            died@.no_duplicates(),
            forall|x: u64| #[trigger]
                died@.contains(x) <==> (self.prev_entity_set@.contains(x) && !current@.contains(x)),
    {
        let ghost prev = self.prev_entity_list@;
        let mut died: Vec<u64> = Vec::new();
        let n = self.prev_entity_list.len();
        for i in 0..n
            invariant
                n == prev.len(),
                prev == self.prev_entity_list@,
                prev.no_duplicates(),
                died@.no_duplicates(),
                forall|x: u64| #[trigger]
                    died@.contains(x) <==> (prev.take(i as int).contains(x) && !current@.contains(x)),
        {
            let id = self.prev_entity_list[i];
            proof {
                assert forall|x: u64| #[trigger] prev.take(i + 1).contains(x) <==> (prev.take(
                    i as int,
                ).contains(x) || x == id) by {
                    if prev.take(i + 1).contains(x) {
                        let j = choose|j: int| #![trigger prev.take(i + 1)[j]] 0 <= j < i + 1 && prev.take(i + 1)[j] == x;
                        if j < i {
                            assert(prev.take(i as int)[j] == x);
                        }
                    }
                    if x == id {
                        assert(prev.take(i + 1)[i as int] == x);
                    }
                    if prev.take(i as int).contains(x) {
                        let j = choose|j: int| #![trigger prev.take(i as int)[j]] 0 <= j < i && prev.take(i as int)[j] == x;
                        assert(prev.take(i + 1)[j] == x);
                    }
                }
                if prev.take(i as int).contains(id) {
                    let j = choose|j: int| #![trigger prev.take(i as int)[j]] 0 <= j < i && prev.take(i as int)[j] == id;
                    assert(prev[j] == prev[i as int]);
                }
            }
            let ghost old_died = died@;
            if !current.contains(&id) {
                died.push(id);
                proof {
                    lemma_push_fresh(old_died, id);
                }
            }
        }
        proof {
            assert(prev.take(n as int) =~= prev);
        }
        died
    }

    /// The resource part of a tick delta: the visible resources that are new
    /// or changed since the previous tick, in order; this tick's resources
    /// are recorded.
    pub fn classify_resources(&mut self, current: &[Observation]) -> (changes: Vec<u64>)
        requires
            old(self).wf(),
        ensures
            final(self).wf(),
            changes@ == resource_changes_of(old(self).previous_resources(), current@),
            final(self).previous_resources() == id_set(current@),
            final(self).previous_entities() == old(self).previous_entities(),
    {
        let ghost prev = self.prev_resource_set@;
        let mut changes: Vec<u64> = Vec::new();
        let mut seen: HashSet<u64> = HashSet::new();
        let n = current.len();
        for i in 0..n
            invariant
                n == current@.len(),
                prev == self.prev_resource_set@,
                changes@ == resource_changes_of(prev, current@.take(i as int)),
                seen@ == id_set(current@.take(i as int)),
        {
            let o = current[i];
            proof {
                assert(current@.take(i + 1).drop_last() =~= current@.take(i as int));
                assert(current@.take(i + 1).last() == o);
            }
            if o.visible && (!self.prev_resource_set.contains(&o.id) || o.changed) {
                changes.push(o.id);
            }
            seen.insert(o.id);
            proof {
                assert(seen@ =~= id_set(current@.take(i + 1))) by {
                    assert forall|x: u64| seen@.contains(x) implies id_set(current@.take(i + 1)).contains(x) by {
                        if x != o.id {
                            let j = choose|j: int| #![trigger current@.take(i as int)[j]] 0 <= j < i && current@.take(i as int)[j].id == x;
                            assert(current@.take(i + 1)[j].id == x);
                        } else {
                            assert(current@.take(i + 1)[i as int].id == x);
                        }
                    }
                    assert forall|x: u64| id_set(current@.take(i + 1)).contains(x) implies seen@.contains(x) by {
                        let j = choose|j: int| #![trigger current@.take(i + 1)[j]] 0 <= j < i + 1 && current@.take(i + 1)[j].id == x;
                        if j < i {
                            assert(current@.take(i as int)[j].id == x);
                        }
                    }
                }
            }
        }
        proof {
            assert(current@.take(n as int) =~= current@);
        }
        self.prev_resource_set = seen;
        changes
    }
}

} // verus!
