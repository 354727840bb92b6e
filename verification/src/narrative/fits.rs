//! Whether a tick's events can be narrated without a count passing its
//! integer type: the counts that the arc detector and the biographies keep
//! are replayed over the batch, without changing either.
use crate::events::types::{DeathCause, SimEvent};
use crate::narrative::arcs::{arc_step, arc_step_fits, arc_steps, arc_steps_fit, ArcDetector, DetectorView};
use crate::narrative::biography::{
    bio_step, bio_steps, is_recorded, note, note_all, step_fits, steps_fit, BioView, BiographyCompiler,
    BiographyEventKind,
};
use crate::narrative::ledgers::{bump, count_of, ticks_of, with_attack};
use crate::narrative::significance::law_significance_classes;
use vstd::prelude::*;

verus! {

// ---------------------------------------------------------------------------
// Counts replayed over a batch
// ---------------------------------------------------------------------------

/// A count of `base`, overridden by the latest entry for `id` in `ov`.
pub open spec fn count_now(base: Map<u64, u32>, ov: Seq<(u64, u32)>, id: u64) -> nat
    decreases ov.len(),
{
    if ov.len() == 0 {
        count_of(base, id)
    } else if ov.last().0 == id {
        ov.last().1 as nat
    } else {
        count_now(base, ov.drop_last(), id)
    }
}

/// The number of attacks of a pair in `base`, overridden by the latest
/// entry for the pair in `ov`.
pub open spec fn len_now(base: Map<(u64, u64), Seq<u64>>, ov: Seq<((u64, u64), usize)>, key: (u64, u64)) -> nat
    decreases ov.len(),
{
    if ov.len() == 0 {
        ticks_of(base, key).len()
    } else if ov.last().0 == key {
        ov.last().1 as nat
    } else {
        len_now(base, ov.drop_last(), key)
    }
}

/// What one event does to the counts the detector keeps: reproduction adds
/// an offspring to the parent, a combat death a kill to the killer, an
/// attack a record to the pair.
proof fn lemma_step_counts(d: DetectorView, p: Seq<crate::narrative::arcs::ArcView>, e: SimEvent, m: bool, tick: u64)
    ensures
        arc_step(d, p, e, m, tick).0.offspring == match e {
            SimEvent::EntityReproduced { parent_id, .. } => bump(d.offspring, parent_id),
            _ => d.offspring,
        },
        arc_step(d, p, e, m, tick).0.kills == match e {
            SimEvent::EntityDied { cause: DeathCause::Combat { killer_id }, .. } => bump(d.kills, killer_id),
            _ => d.kills,
        },
        arc_step(d, p, e, m, tick).0.attacks == match e {
            SimEvent::EntityAttacked { attacker_id, target_id, .. } => with_attack(
                d.attacks,
                (attacker_id, target_id),
                tick,
            ),
            _ => d.attacks,
        },
{
}

/// A batch fits only if each of its prefixes does.
proof fn lemma_fit_prefix(d: DetectorView, events: Seq<SimEvent>, migrated: Seq<bool>, tick: u64, k: int)
    requires
        0 <= k <= events.len(),
        migrated.len() == events.len(),
        arc_steps_fit(d, events, migrated, tick),
    ensures
        arc_steps_fit(d, events.take(k), migrated.take(k), tick),
    decreases events.len(),
{
    if k < events.len() {
        assert(events.drop_last().take(k) =~= events.take(k));
        assert(migrated.drop_last().take(k) =~= migrated.take(k));
        lemma_fit_prefix(d, events.drop_last(), migrated.drop_last(), tick, k);
    } else {
        assert(events.take(k) =~= events);
        assert(migrated.take(k) =~= migrated);
    }
}

/// The latest count of `id`: from `ov`, else from the detector.
fn count_lookup(det: &ArcDetector, ov: &Vec<(u64, u32)>, id: u64, kills: bool) -> (n: u32)
    ensures
        n == count_now(if kills { det@.kills } else { det@.offspring }, ov@, id),
{
    let ghost base = if kills { det@.kills } else { det@.offspring };
    let mut j = ov.len();
    proof {
        assert(ov@.take(j as int) =~= ov@);
    }
    while j > 0
        invariant
            j <= ov@.len(),
            base == (if kills { det@.kills } else { det@.offspring }),
            count_now(base, ov@, id) == count_now(base, ov@.take(j as int), id),
        decreases j,
    {
        proof {
            assert(ov@.take(j as int).drop_last() =~= ov@.take(j - 1));
        }
        if ov[j - 1].0 == id {
            proof {
                assert(ov@.take(j as int).last() == ov@[j - 1]);
                assert(count_now(base, ov@.take(j as int), id) == ov@[j - 1].1 as nat);
                assert(base == (if kills { det@.kills } else { det@.offspring }));
            }
            return ov[j - 1].1;
        }
        j = j - 1;
    }
    proof {
        assert(ov@.take(0) =~= Seq::<(u64, u32)>::empty());
    }
    if kills {
        det.kills_of(id)
    } else {
        det.offspring_of(id)
    }
}

/// The latest attack count of `key`: from `ov`, else from the detector.
fn len_lookup(det: &ArcDetector, ov: &Vec<((u64, u64), usize)>, key: (u64, u64)) -> (n: usize)
    requires
        det.wf(),
    ensures
        n == len_now(det@.attacks, ov@, key),
{
    let mut j = ov.len();
    proof {
        assert(ov@.take(j as int) =~= ov@);
    }
    while j > 0
        invariant
            j <= ov@.len(),
            len_now(det@.attacks, ov@, key) == len_now(det@.attacks, ov@.take(j as int), key),
        decreases j,
    {
        proof {
            assert(ov@.take(j as int).drop_last() =~= ov@.take(j - 1));
        }
        if ov[j - 1].0.0 == key.0 && ov[j - 1].0.1 == key.1 {
            proof {
                assert(ov@.take(j as int).last() == ov@[j - 1]);
                assert(len_now(det@.attacks, ov@.take(j as int), key) == ov@[j - 1].1 as nat);
            }
            return ov[j - 1].1;
        }
        j = j - 1;
    }
    proof {
        assert(ov@.take(0) =~= Seq::<((u64, u64), usize)>::empty());
    }
    det.attack_count(key)
}

/// Whether the arc detector can take a batch of events without a count
/// passing its integer type (`arc_steps_fit`). The detector is not changed.
pub fn arcs_fit(det: &ArcDetector, events: &[SimEvent], migrated: &[bool], tick: u64) -> (r: bool)
    requires
        det.wf(),
        migrated@.len() == events@.len(),
    ensures
        r == arc_steps_fit(det@, events@, migrated@, tick),
{
    let ghost d = det@;
    let mut off: Vec<(u64, u32)> = Vec::new();
    let mut kil: Vec<(u64, u32)> = Vec::new();
    let mut att: Vec<((u64, u64), usize)> = Vec::new();
    let n = events.len();
    let mut i: usize = 0;
    proof {
        assert(events@.take(0) =~= Seq::<SimEvent>::empty());
        assert(migrated@.take(0) =~= Seq::<bool>::empty());
    }
    while i < n
        invariant
            det.wf(),
            d == det@,
            n == events@.len(),
            migrated@.len() == n,
            i <= n,
            arc_steps_fit(d, events@.take(i as int), migrated@.take(i as int), tick),
            forall|id: u64|
                #[trigger] count_of(arc_steps(d, events@.take(i as int), migrated@.take(i as int), tick).0.offspring, id)
                    == count_now(d.offspring, off@, id),
            forall|id: u64|
                #[trigger] count_of(arc_steps(d, events@.take(i as int), migrated@.take(i as int), tick).0.kills, id)
                    == count_now(d.kills, kil@, id),
            forall|key: (u64, u64)|
                #[trigger] ticks_of(arc_steps(d, events@.take(i as int), migrated@.take(i as int), tick).0.attacks, key).len()
                    == len_now(d.attacks, att@, key),
        decreases n - i,
    {
        let ghost pre_e = events@.take(i as int);
        let ghost pre_m = migrated@.take(i as int);
        let ghost cur = arc_steps(d, pre_e, pre_m, tick);
        proof {
            assert(events@.take(i + 1).drop_last() =~= pre_e);
            assert(migrated@.take(i + 1).drop_last() =~= pre_m);
            assert(events@.take(i + 1).last() == events@[i as int]);
            assert(migrated@.take(i + 1).last() == migrated@[i as int]);
            lemma_step_counts(cur.0, cur.1, events@[i as int], migrated@[i as int], tick);
        }
        let ghost off0 = off@;
        let ghost kil0 = kil@;
        let ghost att0 = att@;
        let e = &events[i];
        match e {
            SimEvent::EntityAttacked { attacker_id, target_id, .. } => {
                let a = *attacker_id;
                let t = *target_id;
                let (k0, k1) = if a <= t { (a, t) } else { (t, a) };
                let here = len_lookup(det, &att, (a, t));
                let l01 = len_lookup(det, &att, (k0, k1)) as u128 + if k0 == a && k1 == t { 1u128 } else { 0u128 };
                let l10 = len_lookup(det, &att, (k1, k0)) as u128 + if k1 == a && k0 == t { 1u128 } else { 0u128 };
                proof {
                    let da = DetectorView { attacks: with_attack(cur.0.attacks, (a, t), 0), ..cur.0 };
                    assert(ticks_of(cur.0.attacks, (k0, k1)).len() == len_now(d.attacks, att0, (k0, k1)));
                    assert(ticks_of(cur.0.attacks, (k1, k0)).len() == len_now(d.attacks, att0, (k1, k0)));
                    assert(ticks_of(da.attacks, (k0, k1)).len() == l01);
                    assert(ticks_of(da.attacks, (k1, k0)).len() == l10);
                }
                if l01 + l10 > usize::MAX as u128 {
                    proof {
                        assert(!arc_step_fits(cur.0, events@[i as int]));
                        assert(!arc_steps_fit(d, events@.take(i + 1), migrated@.take(i + 1), tick));
                        if arc_steps_fit(d, events@, migrated@, tick) {
                            lemma_fit_prefix(d, events@, migrated@, tick, i + 1);
                        }
                    }
                    return false;
                }
                proof {
                    assert(ticks_of(cur.0.attacks, (a, t)).len() == here);
                    assert(here + 1 <= l01 + l10);
                }
                att.push(((a, t), here + 1));
            },
            SimEvent::EntityReproduced { parent_id, .. } => {
                let p = *parent_id;
                let o = count_lookup(det, &off, p, false);
                let k = count_lookup(det, &kil, p, true);
                if o == u32::MAX || (o as u64) + (k as u64) >= u32::MAX as u64 {
                    proof {
                        assert(!arc_step_fits(cur.0, events@[i as int]));
                        if arc_steps_fit(d, events@, migrated@, tick) {
                            lemma_fit_prefix(d, events@, migrated@, tick, i + 1);
                        }
                    }
                    return false;
                }
                off.push((p, o + 1));
            },
            SimEvent::EntityDied { entity_id, cause, .. } => {
                let x = *entity_id;
                let ox = count_lookup(det, &off, x, false);
                let kx = count_lookup(det, &kil, x, true);
                let mut ok = (ox as u64) + (kx as u64) <= u32::MAX as u64;
                let mut killer: Option<(u64, u32)> = None;
                match cause {
                    DeathCause::Combat { killer_id } => {
                        let kid = *killer_id;
                        let ok_ = count_lookup(det, &off, kid, false);
                        let kk = count_lookup(det, &kil, kid, true);
                        if kk == u32::MAX || (ok_ as u64) + (kk as u64) >= u32::MAX as u64 {
                            ok = false;
                        }
                        killer = Some((kid, kk));
                    },
                    _ => {},
                }
                if !ok {
                    proof {
                        assert(!arc_step_fits(cur.0, events@[i as int]));
                        if arc_steps_fit(d, events@, migrated@, tick) {
                            lemma_fit_prefix(d, events@, migrated@, tick, i + 1);
                        }
                    }
                    return false;
                }
                match killer {
                    Some((kid, kk)) => {
                        kil.push((kid, kk + 1));
                    },
                    None => {},
                }
            },
            _ => {},
        }
        proof {
            let next = arc_steps(d, events@.take(i + 1), migrated@.take(i + 1), tick);
            assert(next == arc_step(cur.0, cur.1, events@[i as int], migrated@[i as int], tick));
            assert(arc_step_fits(cur.0, events@[i as int]));
            if off@.len() > off0.len() {
                assert(off@.drop_last() =~= off0);
            } else {
                assert(off@ =~= off0);
            }
            if kil@.len() > kil0.len() {
                assert(kil@.drop_last() =~= kil0);
            } else {
                assert(kil@ =~= kil0);
            }
            if att@.len() > att0.len() {
                assert(att@.drop_last() =~= att0);
            } else {
                assert(att@ =~= att0);
            }
            assert forall|id: u64| #[trigger] count_of(next.0.offspring, id) == count_now(d.offspring, off@, id) by {
                assert(count_of(cur.0.offspring, id) == count_now(d.offspring, off0, id));
            }
            assert forall|id: u64| #[trigger] count_of(next.0.kills, id) == count_now(d.kills, kil@, id) by {
                assert(count_of(cur.0.kills, id) == count_now(d.kills, kil0, id));
            }
            assert forall|key: (u64, u64)| #[trigger] ticks_of(next.0.attacks, key).len() == len_now(
                d.attacks,
                att@,
                key,
            ) by {
                assert(ticks_of(cur.0.attacks, key).len() == len_now(d.attacks, att0, key));
            }
        }
        i = i + 1;
    }
    proof {
        assert(events@.take(n as int) =~= events@);
        assert(migrated@.take(n as int) =~= migrated@);
    }
    true
}

// ---------------------------------------------------------------------------
// Biography counts replayed over a batch
// ---------------------------------------------------------------------------

/// Whether an entity has a biography, and its offspring and kill counts.
pub open spec fn bio_counts(b: Map<u64, BioView>, x: u64) -> (bool, nat, nat) {
    if b.contains_key(x) {
        (true, b[x].offspring_count as nat, b[x].kill_count as nat)
    } else {
        (false, 0, 0)
    }
}

/// The biography counts of `base`, overridden by the latest entry in `ov`.
pub open spec fn bio_now(base: Map<u64, BioView>, ov: Seq<(u64, (bool, u32, u32))>, x: u64) -> (bool, nat, nat)
    decreases ov.len(),
{
    if ov.len() == 0 {
        bio_counts(base, x)
    } else if ov.last().0 == x {
        (ov.last().1.0, ov.last().1.1 as nat, ov.last().1.2 as nat)
    } else {
        bio_now(base, ov.drop_last(), x)
    }
}

/// Noting events keeps which entities have biographies and their counts.
proof fn lemma_note_all_counts(b: Map<u64, BioView>, ids: Seq<u64>, tick: u64, kind: BiographyEventKind, sig: u32)
    ensures
        forall|x: u64| #[trigger] bio_counts(note_all(b, ids, tick, kind, sig), x) == bio_counts(b, x),
    decreases ids.len(),
{
    if ids.len() > 0 {
        lemma_note_all_counts(b, ids.drop_last(), tick, kind, sig);
        let mid = note_all(b, ids.drop_last(), tick, kind, sig);
        assert forall|x: u64| #[trigger] bio_counts(note(mid, ids.last(), tick, kind, sig), x) == bio_counts(mid, x) by {}
    }
}

/// What one event does to the biography counts: a spawn starts a
/// biography with none; reproduction adds an offspring to a known parent;
/// a combat death a kill to a known killer; nothing else changes them.
proof fn lemma_bio_step_counts(b: Map<u64, BioView>, e: SimEvent, tick: u64, x: u64)
    requires
        step_fits(b, e),
    ensures
        bio_counts(bio_step(b, e, tick), x) == match e {
            SimEvent::EntitySpawned { entity_id, .. } => if entity_id == x {
                (true, 0nat, 0nat)
            } else {
                bio_counts(b, x)
            },
            SimEvent::EntityReproduced { parent_id, .. } => if parent_id == x && b.contains_key(x) {
                (true, bio_counts(b, x).1 + 1, bio_counts(b, x).2)
            } else {
                bio_counts(b, x)
            },
            SimEvent::EntityDied { cause: DeathCause::Combat { killer_id }, .. } => if killer_id == x
                && b.contains_key(x) {
                (true, bio_counts(b, x).1, bio_counts(b, x).2 + 1)
            } else {
                bio_counts(b, x)
            },
            _ => bio_counts(b, x),
        },
{
    law_significance_classes(e);
    let sig = crate::narrative::significance::significance(e);
    match e {
        SimEvent::CompositeFormed { leader_id, member_id } => {
            let k1 = BiographyEventKind::FormedComposite { partner_id: member_id };
            let m1 = note(b, leader_id, tick, k1, sig);
            assert(bio_counts(m1, x) == bio_counts(b, x));
            let k2 = BiographyEventKind::JoinedComposite { leader_id };
            let m2 = note(m1, member_id, tick, k2, sig);
            assert(bio_counts(m2, x) == bio_counts(m1, x));
            if is_recorded(e) {
                assert(bio_step(b, e, tick) == m2);
            } else {
                assert(bio_step(b, e, tick) == b);
            }
        },
        SimEvent::CompositeDecomposed { leader_id, released_member_ids } => {
            let k = BiographyEventKind::CompositeDecomposed;
            let m1 = note(b, leader_id, tick, k, sig);
            assert(bio_counts(m1, x) == bio_counts(b, x));
            lemma_note_all_counts(m1, released_member_ids@, tick, k, sig);
        },
        _ => {},
    }
}

/// A batch of biography steps fits only if each of its prefixes does.
proof fn lemma_bio_fit_prefix(b: Map<u64, BioView>, events: Seq<SimEvent>, tick: u64, k: int)
    requires
        0 <= k <= events.len(),
        steps_fit(b, events, tick),
    ensures
        steps_fit(b, events.take(k), tick),
    decreases events.len(),
{
    if k < events.len() {
        assert(events.drop_last().take(k) =~= events.take(k));
        lemma_bio_fit_prefix(b, events.drop_last(), tick, k);
    } else {
        assert(events.take(k) =~= events);
    }
}

/// The latest biography counts of `x`: from `ov`, else from the compiler.
fn bio_lookup(comp: &BiographyCompiler, ov: &Vec<(u64, (bool, u32, u32))>, x: u64) -> (r: (bool, u32, u32))
    ensures
        (r.0, r.1 as nat, r.2 as nat) == bio_now(comp@, ov@, x),
{
    let mut j = ov.len();
    proof {
        assert(ov@.take(j as int) =~= ov@);
    }
    while j > 0
        invariant
            j <= ov@.len(),
            bio_now(comp@, ov@, x) == bio_now(comp@, ov@.take(j as int), x),
        decreases j,
    {
        proof {
            assert(ov@.take(j as int).drop_last() =~= ov@.take(j - 1));
        }
        if ov[j - 1].0 == x {
            proof {
                assert(ov@.take(j as int).last() == ov@[j - 1]);
            }
            return ov[j - 1].1;
        }
        j = j - 1;
    }
    proof {
        assert(ov@.take(0) =~= Seq::<(u64, (bool, u32, u32))>::empty());
    }
    match comp.get(x) {
        Some(b) => (true, b.offspring_count, b.kill_count),
        None => (false, 0, 0),
    }
}

/// Whether the biographies can take a batch of events without a count
/// passing its integer type (`steps_fit`). The compiler is not changed.
pub fn biographies_fit(comp: &BiographyCompiler, events: &[SimEvent], tick: u64) -> (r: bool)
    ensures
        r == steps_fit(comp@, events@, tick),
{
    let ghost b0 = comp@;
    let mut ov: Vec<(u64, (bool, u32, u32))> = Vec::new();
    let n = events.len();
    let mut i: usize = 0;
    proof {
        assert(events@.take(0) =~= Seq::<SimEvent>::empty());
    }
    while i < n
        invariant
            b0 == comp@,
            n == events@.len(),
            i <= n,
            steps_fit(b0, events@.take(i as int), tick),
            forall|x: u64| #[trigger] bio_counts(bio_steps(b0, events@.take(i as int), tick), x) == bio_now(b0, ov@, x),
        decreases n - i,
    {
        let ghost pre = events@.take(i as int);
        let ghost cur = bio_steps(b0, pre, tick);
        let ghost ov0 = ov@;
        proof {
            assert(events@.take(i + 1).drop_last() =~= pre);
            assert(events@.take(i + 1).last() == events@[i as int]);
        }
        let e = &events[i];
        match e {
            SimEvent::EntitySpawned { entity_id, .. } => {
                ov.push((*entity_id, (true, 0, 0)));
            },
            SimEvent::EntityReproduced { parent_id, .. } => {
                let p = *parent_id;
                let c = bio_lookup(comp, &ov, p);
                proof {
                    assert(bio_counts(cur, p) == bio_now(b0, ov0, p));
                }
                if c.0 {
                    if c.1 == u32::MAX {
                        proof {
                            assert(!step_fits(cur, events@[i as int]));
                            if steps_fit(b0, events@, tick) {
                                lemma_bio_fit_prefix(b0, events@, tick, i + 1);
                            }
                        }
                        return false;
                    }
                    ov.push((p, (true, c.1 + 1, c.2)));
                }
            },
            SimEvent::EntityDied { cause, .. } => {
                match cause {
                    DeathCause::Combat { killer_id } => {
                        let k = *killer_id;
                        let c = bio_lookup(comp, &ov, k);
                        proof {
                            assert(bio_counts(cur, k) == bio_now(b0, ov0, k));
                        }
                        if c.0 {
                            if c.2 == u32::MAX {
                                proof {
                                    assert(!step_fits(cur, events@[i as int]));
                                    if steps_fit(b0, events@, tick) {
                                        lemma_bio_fit_prefix(b0, events@, tick, i + 1);
                                    }
                                }
                                return false;
                            }
                            ov.push((k, (true, c.1, c.2 + 1)));
                        }
                    },
                    _ => {},
                }
            },
            _ => {},
        }
        proof {
            let next = bio_steps(b0, events@.take(i + 1), tick);
            assert(next == bio_step(cur, events@[i as int], tick));
            assert(step_fits(cur, events@[i as int]));
            if ov@.len() > ov0.len() {
                assert(ov@.drop_last() =~= ov0);
            } else {
                assert(ov@ =~= ov0);
            }
            assert forall|x: u64| #[trigger] bio_counts(next, x) == bio_now(b0, ov@, x) by {
                lemma_bio_step_counts(cur, events@[i as int], tick, x);
                assert(bio_counts(cur, x) == bio_now(b0, ov0, x));
            }
        }
        i = i + 1;
    }
    proof {
        assert(events@.take(n as int) =~= events@);
    }
    true
}

} // verus!
