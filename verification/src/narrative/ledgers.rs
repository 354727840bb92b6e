//! Ledgers behind story-arc detection: attacks per pair, offspring and kills
//! per entity, and extinctions between population counts.
use crate::narrative::ids::map_keys;
use std::collections::HashMap;
use vstd::prelude::*;

verus! {

// ---------------------------------------------------------------------------
// Attack records
// ---------------------------------------------------------------------------

/// The ticks of attacks, per (attacker, target) pair.
#[derive(Debug)]
pub struct AttackLedger {
    entries: Vec<((u64, u64), Vec<u64>)>,
}

/// The attack ticks recorded for `key` in a list of entries (empty if none).
pub open spec fn entry_ticks(entries: Seq<((u64, u64), Vec<u64>)>, key: (u64, u64)) -> Seq<u64> {
    if exists|i: int| 0 <= i < entries.len() && entries[i].0 == key {
        entries[choose|i: int| 0 <= i < entries.len() && entries[i].0 == key].1@
    } else {
        Seq::empty()
    }
}

/// Whether a pair has an entry.
pub open spec fn has_entry(entries: Seq<((u64, u64), Vec<u64>)>, key: (u64, u64)) -> bool {
    exists|i: int| 0 <= i < entries.len() && entries[i].0 == key
}

/// No pair has two entries, and no entry is empty.
pub open spec fn entries_wf(entries: Seq<((u64, u64), Vec<u64>)>) -> bool {
    &&& forall|i: int, j: int|
        0 <= i < j < entries.len() ==> (#[trigger] entries[i]).0 != (#[trigger] entries[j]).0
    &&& forall|i: int| 0 <= i < entries.len() ==> (#[trigger] entries[i]).1@.len() > 0
}

proof fn lemma_entry_ticks_at(entries: Seq<((u64, u64), Vec<u64>)>, i: int)
    requires
        entries_wf(entries),
        0 <= i < entries.len(),
    ensures
        entry_ticks(entries, entries[i].0) == entries[i].1@,
{
    let c = choose|c: int| 0 <= c < entries.len() && entries[c].0 == entries[i].0;
    if c != i {
        if c < i {
            assert(entries[c].0 != entries[i].0);
        } else {
            assert(entries[i].0 != entries[c].0);
        }
    }
}

/// The attack ticks of the pairs kept by a prune at `cutoff`.
pub open spec fn kept_ticks(ticks: Seq<u64>, cutoff: u64) -> Seq<u64> {
    ticks.filter(|t: u64| t >= cutoff)
}

/// The ledger of a list of entries: the pairs with an entry, and their ticks.
pub open spec fn ledger_view(entries: Seq<((u64, u64), Vec<u64>)>) -> Map<(u64, u64), Seq<u64>> {
    Map::new(|k: (u64, u64)| has_entry(entries, k), |k: (u64, u64)| entry_ticks(entries, k))
}

impl View for AttackLedger {
    type V = Map<(u64, u64), Seq<u64>>;

    closed spec fn view(&self) -> Map<(u64, u64), Seq<u64>> {
        ledger_view(self.entries@)
    }
}

/// The attack ticks of a pair in a ledger (empty if none).
pub open spec fn ticks_of(m: Map<(u64, u64), Seq<u64>>, key: (u64, u64)) -> Seq<u64> {
    if m.contains_key(key) {
        m[key]
    } else {
        Seq::empty()
    }
}

/// A ledger with one more attack of `key` recorded at `tick`.
pub open spec fn with_attack(m: Map<(u64, u64), Seq<u64>>, key: (u64, u64), tick: u64) -> Map<
    (u64, u64),
    Seq<u64>,
> {
    m.insert(key, ticks_of(m, key).push(tick))
}

/// A ledger keeping, of each pair, the attacks at or after `cutoff`, and
/// only the pairs left with some.
pub open spec fn pruned(m: Map<(u64, u64), Seq<u64>>, cutoff: u64) -> Map<(u64, u64), Seq<u64>> {
    Map::new(
        |k: (u64, u64)| m.contains_key(k) && kept_ticks(m[k], cutoff).len() > 0,
        |k: (u64, u64)| kept_ticks(m[k], cutoff),
    )
}

proof fn lemma_view_ticks(entries: Seq<((u64, u64), Vec<u64>)>)
    requires
        entries_wf(entries),
    ensures
        forall|k: (u64, u64)| #[trigger]
            ticks_of(ledger_view(entries), k) == entry_ticks(entries, k),
        forall|k: (u64, u64)| #[trigger]
            ledger_view(entries).contains_key(k) <==> entry_ticks(entries, k).len() > 0,
{
    assert forall|k: (u64, u64)| #[trigger]
        ledger_view(entries).contains_key(k) <==> entry_ticks(entries, k).len() > 0 by {
        if has_entry(entries, k) {
            let i = choose|i: int| 0 <= i < entries.len() && entries[i].0 == k;
            lemma_entry_ticks_at(entries, i);
        }
    }
}

impl AttackLedger {
    /// The attack ticks recorded for a pair, as held in the entries.
    closed spec fn raw(&self, key: (u64, u64)) -> Seq<u64> {
        entry_ticks(self.entries@, key)
    }

    /// The attack ticks recorded for a pair, in the order recorded.
    pub open spec fn ticks(&self, key: (u64, u64)) -> Seq<u64> {
        ticks_of(self@, key)
    }

    /// Whether the ledger's entries are consistent.
    pub closed spec fn wf(&self) -> bool {
        entries_wf(self.entries@)
    }

    /// An empty ledger.
    pub fn new() -> (l: Self)
        ensures
            l.wf(),
            l@ == Map::<(u64, u64), Seq<u64>>::empty(),
    {
        let l = AttackLedger { entries: Vec::new() };
        assert(l@ =~= Map::<(u64, u64), Seq<u64>>::empty());
        l
    }

    fn find(&self, key: (u64, u64)) -> (r: Option<usize>)
        requires
            self.wf(),
        ensures
            r is Some <==> has_entry(self.entries@, key),
            r matches Some(i) ==> i < self.entries@.len() && self.entries@[i as int].0 == key,
    {
        let mut i: usize = 0;
        while i < self.entries.len()
            invariant
                i <= self.entries@.len(),
                forall|j: int| 0 <= j < i ==> self.entries@[j].0 != key,
            decreases self.entries@.len() - i,
        {
            if self.entries[i].0.0 == key.0 && self.entries[i].0.1 == key.1 {
                return Some(i);
            }
            i = i + 1;
        }
        None
    }

    /// Record an attack of `attacker` on `target` at `tick`.
    pub fn record_attack(&mut self, attacker: u64, target: u64, tick: u64)
        requires
            old(self).wf(),
        ensures
            final(self).wf(),
            final(self)@ == with_attack(old(self)@, (attacker, target), tick),
    {
        self.record_raw(attacker, target, tick);
        proof {
            lemma_view_ticks(old(self).entries@);
            lemma_view_ticks(self.entries@);
            let key = (attacker, target);
            assert forall|k: (u64, u64)| #[trigger] self@.contains_key(k) == with_attack(old(self)@, key, tick).contains_key(k) by {
                if k != key {
                    assert(self.raw(k) == old(self).raw(k));
                }
            }
            assert forall|k: (u64, u64)| self@.contains_key(k) implies #[trigger] self@[k] == with_attack(old(self)@, key, tick)[k] by {
                if k != key {
                    assert(self.raw(k) == old(self).raw(k));
                    assert(ticks_of(self@, k) == self@[k]);
                    assert(ticks_of(old(self)@, k) == old(self)@[k]);
                } else {
                    assert(ticks_of(self@, k) == self@[k]);
                }
            }
            assert(self@ =~= with_attack(old(self)@, key, tick));
        }
    }

    fn record_raw(&mut self, attacker: u64, target: u64, tick: u64)
        requires
            old(self).wf(),
        ensures
            final(self).wf(),
            final(self).raw((attacker, target)) == old(self).raw((attacker, target)).push(tick),
            forall|k: (u64, u64)| k != (attacker, target) ==> #[trigger] final(self).raw(k) == old(self).raw(k),
    {
        let key = (attacker, target);
        let ghost old_e = self.entries@;
        match self.find(key) {
            Some(i) => {
                let mut entry = self.entries.remove(i);
                entry.1.push(tick);
                self.entries.insert(i, entry);
                let ghost new_e = self.entries@;
                proof {
                    assert(new_e =~= old_e.update(i as int, new_e[i as int]));
                    assert(entries_wf(new_e)) by {
                        assert forall|a: int, b: int| 0 <= a < b < new_e.len() implies (#[trigger] new_e[a]).0
                            != (#[trigger] new_e[b]).0 by {
                            assert(new_e[a].0 == old_e[a].0 && new_e[b].0 == old_e[b].0);
                        }
                    }
                    lemma_entry_ticks_at(old_e, i as int);
                    lemma_entry_ticks_at(new_e, i as int);
                    assert forall|k: (u64, u64)| k != key implies #[trigger] entry_ticks(new_e, k) == entry_ticks(old_e, k) by {
                        if has_entry(old_e, k) {
                            let j = choose|j: int| 0 <= j < old_e.len() && old_e[j].0 == k;
                            lemma_entry_ticks_at(old_e, j);
                            lemma_entry_ticks_at(new_e, j);
                        } else {
                            assert(!has_entry(new_e, k)) by {
                                if has_entry(new_e, k) {
                                    let j = choose|j: int| 0 <= j < new_e.len() && new_e[j].0 == k;
                                    assert(old_e[j].0 == k);
                                }
                            }
                        }
                    }
                }
            },
            None => {
                let mut v: Vec<u64> = Vec::new();
                v.push(tick);
                self.entries.push((key, v));
                let ghost new_e = self.entries@;
                proof {
                    assert(new_e =~= old_e.push(new_e[old_e.len() as int]));
                    assert(entries_wf(new_e)) by {
                        assert forall|a: int, b: int| 0 <= a < b < new_e.len() implies (#[trigger] new_e[a]).0
                            != (#[trigger] new_e[b]).0 by {
                            if b == old_e.len() {
                                assert(old_e[a].0 != key);
                            } else {
                                assert(new_e[a].0 == old_e[a].0 && new_e[b].0 == old_e[b].0);
                            }
                        }
                    }
                    lemma_entry_ticks_at(new_e, old_e.len() as int);
                    assert(entry_ticks(old_e, key) =~= Seq::<u64>::empty());
                    assert(new_e[old_e.len() as int].1@ =~= seq![tick]);
                    assert forall|k: (u64, u64)| k != key implies #[trigger] entry_ticks(new_e, k) == entry_ticks(old_e, k) by {
                        if has_entry(old_e, k) {
                            let j = choose|j: int| 0 <= j < old_e.len() && old_e[j].0 == k;
                            lemma_entry_ticks_at(old_e, j);
                            lemma_entry_ticks_at(new_e, j);
                        } else {
                            assert(!has_entry(new_e, k)) by {
                                if has_entry(new_e, k) {
                                    let j = choose|j: int| 0 <= j < new_e.len() && new_e[j].0 == k;
                                    if j < old_e.len() {
                                        assert(old_e[j].0 == k);
                                    }
                                }
                            }
                        }
                    }
                }
            },
        }
    }

    /// Number of attacks recorded for a pair.
    fn count(&self, key: (u64, u64)) -> (n: usize)
        requires
            self.wf(),
        ensures
            n == self.raw(key).len(),
    {
        match self.find(key) {
            Some(i) => {
                proof {
                    lemma_entry_ticks_at(self.entries@, i as int);
                }
                self.entries[i].1.len()
            },
            None => 0,
        }
    }

    /// The number of attacks recorded for a pair.
    pub fn attack_count(&self, key: (u64, u64)) -> (n: usize)
        requires
            self.wf(),
        ensures
            n == self.ticks(key).len(),
    {
        proof {
            lemma_view_ticks(self.entries@);
        }
        self.count(key)
    }

    /// Attacks between `a` and `b` in both directions (a pair of one entity
    /// with itself counts its attacks twice).
    pub fn mutual_attack_count(&self, a: u64, b: u64) -> (n: usize)
        requires
            self.wf(),
            self.ticks((a, b)).len() + self.ticks((b, a)).len() <= usize::MAX,
        ensures
            n == self.ticks((a, b)).len() + self.ticks((b, a)).len(),
    {
        proof {
            lemma_view_ticks(self.entries@);
        }
        self.count((a, b)) + self.count((b, a))
    }

    /// The first recorded attack tick of a pair.
    fn first(&self, key: (u64, u64)) -> (r: Option<u64>)
        requires
            self.wf(),
        ensures
            self.raw(key).len() > 0 ==> r == Some(self.raw(key)[0]),
            self.raw(key).len() == 0 ==> r is None,
    {
        match self.find(key) {
            Some(i) => {
                proof {
                    lemma_entry_ticks_at(self.entries@, i as int);
                }
                Some(self.entries[i].1[0])
            },
            None => None,
        }
    }

    /// The earlier of the first attacks of `a` on `b` and of `b` on `a`.
    pub fn earliest_attack_tick(&self, a: u64, b: u64) -> (r: Option<u64>)
        requires
            self.wf(),
        ensures
            r == earliest_of(self.ticks((a, b)), self.ticks((b, a))),
    {
        proof {
            lemma_view_ticks(self.entries@);
        }
        let ab = self.first((a, b));
        let ba = self.first((b, a));
        match (ab, ba) {
            (Some(x), Some(y)) => Some(if x <= y {
                x
            } else {
                y
            }),
            (Some(x), None) => Some(x),
            (None, Some(y)) => Some(y),
            (None, None) => None,
        }
    }

    /// Drop attack records older than `max_age` ticks before `current_tick`,
    /// and pairs left without records.
    pub fn prune_old_records(&mut self, current_tick: u64, max_age: u64)
        requires
            old(self).wf(),
        ensures
            final(self).wf(),
            final(self)@ == pruned(
                old(self)@,
                (if current_tick >= max_age {
                    current_tick - max_age
                } else {
                    0
                }) as u64,
            ),
    {
        let cutoff = current_tick.saturating_sub(max_age);
        self.prune_raw(cutoff);
        proof {
            lemma_view_ticks(old(self).entries@);
            lemma_view_ticks(self.entries@);
            let p = pruned(old(self)@, cutoff);
            assert forall|k: (u64, u64)| #[trigger] self@.contains_key(k) == p.contains_key(k) by {
                assert(self.raw(k) == kept_ticks(old(self).raw(k), cutoff));
                if !old(self)@.contains_key(k) {
                    assert(old(self).raw(k) =~= Seq::<u64>::empty());
                    assert(kept_ticks(Seq::<u64>::empty(), cutoff) =~= Seq::<u64>::empty());
                } else {
                    assert(ticks_of(old(self)@, k) == old(self)@[k]);
                }
            }
            assert forall|k: (u64, u64)| self@.contains_key(k) implies #[trigger] self@[k] == p[k] by {
                assert(self.raw(k) == kept_ticks(old(self).raw(k), cutoff));
                assert(ticks_of(self@, k) == self@[k]);
                assert(ticks_of(old(self)@, k) == old(self)@[k]);
            }
            assert(self@ =~= p);
        }
    }

    fn prune_raw(&mut self, cutoff: u64)
        requires
            old(self).wf(),
        ensures
            final(self).wf(),
            forall|k: (u64, u64)| #[trigger] final(self).raw(k) == kept_ticks(old(self).raw(k), cutoff),
    {
        let ghost old_e = self.entries@;
        let mut kept: Vec<((u64, u64), Vec<u64>)> = Vec::new();
        let n = self.entries.len();
        let mut i: usize = 0;
        while i < n
            invariant
                n == old_e.len(),
                self.entries@ == old_e,
                entries_wf(old_e),
                i <= n,
                entries_wf(kept@),
                forall|x: int| 0 <= x < kept@.len() ==> exists|y: int|
                    0 <= y < i && #[trigger] kept@[x].0 == old_e[y].0,
                forall|y: int| 0 <= y < i ==> #[trigger] entry_ticks(kept@, old_e[y].0) == kept_ticks(
                    old_e[y].1@,
                    cutoff,
                ),
                forall|k: (u64, u64)| !has_entry(old_e.take(i as int), k) ==> !#[trigger] has_entry(kept@, k),
            decreases n - i,
        {
            let key = self.entries[i].0;
            let mut ticks: Vec<u64> = Vec::new();
            let m = self.entries[i].1.len();
            let mut j: usize = 0;
            while j < m
                invariant
                    m == old_e[i as int].1@.len(),
                    self.entries@ == old_e,
                    i < n,
                    n == old_e.len(),
                    j <= m,
                    ticks@ == kept_ticks(old_e[i as int].1@.take(j as int), cutoff),
                decreases m - j,
            {
                let t = self.entries[i].1[j];
                proof {
                    let s = old_e[i as int].1@;
                    assert(s.take(j + 1).drop_last() =~= s.take(j as int));
                    assert(s.take(j + 1).last() == t);
                    assert(kept_ticks(s.take(j + 1), cutoff) == kept_ticks(s.take(j as int), cutoff) + (if t >= cutoff {
                        seq![t]
                    } else {
                        Seq::<u64>::empty()
                    })) by {
                        reveal_with_fuel(Seq::filter, 1);
                        assert(s.take(j + 1).filter(|x: u64| x >= cutoff) =~= s.take(j + 1).drop_last().filter(
                            |x: u64| x >= cutoff,
                        ) + (if t >= cutoff {
                            seq![t]
                        } else {
                            Seq::<u64>::empty()
                        }));
                    }
                }
                if t >= cutoff {
                    ticks.push(t);
                }
                j = j + 1;
            }
            proof {
                assert(old_e[i as int].1@.take(m as int) =~= old_e[i as int].1@);
            }
            let ghost before = kept@;
            if ticks.len() > 0 {
                kept.push((key, ticks));
                proof {
                    let after = kept@;
                    assert(after =~= before.push(after[before.len() as int]));
                    assert(!has_entry(before, key)) by {
                        if has_entry(before, key) {
                            let x = choose|x: int| 0 <= x < before.len() && before[x].0 == key;
                            let y = choose|y: int| 0 <= y < i && before[x].0 == old_e[y].0;
                            assert(old_e[y].0 != old_e[i as int].0);
                        }
                    }
                    assert(entries_wf(after)) by {
                        assert forall|a: int, b: int| 0 <= a < b < after.len() implies (#[trigger] after[a]).0
                            != (#[trigger] after[b]).0 by {
                            if b == before.len() {
                                assert(before[a].0 != key);
                            } else {
                                assert(after[a] == before[a] && after[b] == before[b]);
                            }
                        }
                    }
                    lemma_entry_ticks_at(after, before.len() as int);
                    assert forall|y: int| 0 <= y < i + 1 implies #[trigger] entry_ticks(after, old_e[y].0)
                        == kept_ticks(old_e[y].1@, cutoff) by {
                        if y == i {
                            assert(after[before.len() as int].0 == old_e[y].0);
                            assert(after[before.len() as int].1@ == kept_ticks(old_e[y].1@, cutoff));
                        } else {
                            let k = old_e[y].0;
                            assert(k != key);
                            assert(entry_ticks(before, old_e[y].0) == kept_ticks(old_e[y].1@, cutoff));
                            if has_entry(before, k) {
                                let x = choose|x: int| 0 <= x < before.len() && before[x].0 == k;
                                lemma_entry_ticks_at(before, x);
                                lemma_entry_ticks_at(after, x);
                            } else {
                                assert(!has_entry(after, k)) by {
                                    if has_entry(after, k) {
                                        let x = choose|x: int| 0 <= x < after.len() && after[x].0 == k;
                                        if x < before.len() {
                                            assert(before[x].0 == k);
                                        }
                                    }
                                }
                            }
                        }
                    }
                    assert forall|k: (u64, u64)| !has_entry(old_e.take(i + 1), k) implies !#[trigger] has_entry(after, k) by {
                        if has_entry(after, k) {
                            let x = choose|x: int| 0 <= x < after.len() && after[x].0 == k;
                            if x < before.len() {
                                assert(has_entry(before, k));
                                assert(!has_entry(old_e.take(i as int), k) ==> !has_entry(before, k));
                                let z = choose|z: int| 0 <= z < old_e.take(i as int).len() && old_e.take(i as int)[z].0 == k;
                                assert(old_e.take(i + 1)[z].0 == k);
                            } else {
                                assert(old_e.take(i + 1)[i as int].0 == k);
                            }
                        }
                    }
                    assert forall|x: int| 0 <= x < after.len() implies exists|y: int|
                        0 <= y < i + 1 && #[trigger] after[x].0 == old_e[y].0 by {
                        if x < before.len() {
                            let y = choose|y: int| 0 <= y < i && before[x].0 == old_e[y].0;
                            assert(after[x].0 == old_e[y].0);
                        } else {
                            assert(after[x].0 == old_e[i as int].0);
                        }
                    }
                }
            } else {
                proof {
                    assert(kept_ticks(old_e[i as int].1@, cutoff) =~= Seq::<u64>::empty());
                    assert(!has_entry(kept@, key)) by {
                        if has_entry(kept@, key) {
                            let x = choose|x: int| 0 <= x < kept@.len() && kept@[x].0 == key;
                            let y = choose|y: int| 0 <= y < i && kept@[x].0 == old_e[y].0;
                            assert(old_e[y].0 != old_e[i as int].0);
                        }
                    }
                    assert forall|k: (u64, u64)| !has_entry(old_e.take(i + 1), k) implies !#[trigger] has_entry(kept@, k) by {
                        if has_entry(kept@, k) {
                            assert(has_entry(old_e.take(i as int), k));
                            let z = choose|z: int| 0 <= z < old_e.take(i as int).len() && old_e.take(i as int)[z].0 == k;
                            assert(old_e.take(i + 1)[z].0 == k);
                        }
                    }
                }
            }
            i = i + 1;
        }
        self.entries = kept;
        proof {
            assert(old_e.take(n as int) =~= old_e);
            assert forall|k: (u64, u64)| #[trigger] entry_ticks(self.entries@, k) == kept_ticks(
                entry_ticks(old_e, k),
                cutoff,
            ) by {
                if has_entry(old_e, k) {
                    let y = choose|y: int| 0 <= y < old_e.len() && old_e[y].0 == k;
                    lemma_entry_ticks_at(old_e, y);
                } else {
                    assert(!has_entry(self.entries@, k));
                    assert(kept_ticks(Seq::<u64>::empty(), cutoff) =~= Seq::<u64>::empty());
                }
            }
        }
    }
}

/// The earlier of the first ticks of two attack lists, if either is nonempty.
pub open spec fn earliest_of(ab: Seq<u64>, ba: Seq<u64>) -> Option<u64> {
    if ab.len() > 0 && ba.len() > 0 {
        Some(if ab[0] <= ba[0] {
            ab[0]
        } else {
            ba[0]
        })
    } else if ab.len() > 0 {
        Some(ab[0])
    } else if ba.len() > 0 {
        Some(ba[0])
    } else {
        None
    }
}

/// Law: the first attack between two entities is the earlier of the first
/// attacks each way: there is one exactly when either direction has an
/// attack; it is the first attack of one of the two directions, and no
/// later than the first attack of either.
pub proof fn law_earliest_is_first_attack(ab: Seq<u64>, ba: Seq<u64>)
    ensures
        earliest_of(ab, ba) is Some <==> (ab.len() > 0 || ba.len() > 0),
        earliest_of(ab, ba) matches Some(t) ==> ((ab.len() > 0 && t == ab[0]) || (ba.len() > 0 && t
            == ba[0])),
        earliest_of(ab, ba) matches Some(t) ==> (ab.len() > 0 ==> t <= ab[0]),
        earliest_of(ab, ba) matches Some(t) ==> (ba.len() > 0 ==> t <= ba[0]),
{
}

/// Law: after a prune every record left is at or after the cutoff, and a
/// second prune with the same cutoff changes nothing.
pub proof fn law_prune_keeps_recent(ticks: Seq<u64>, cutoff: u64)
    ensures
        forall|i: int| 0 <= i < kept_ticks(ticks, cutoff).len() ==> #[trigger] kept_ticks(ticks, cutoff)[i] >= cutoff,
        kept_ticks(kept_ticks(ticks, cutoff), cutoff) == kept_ticks(ticks, cutoff),
{
    let f = |t: u64| t >= cutoff;
    let k = ticks.filter(f);
    assert forall|i: int| 0 <= i < k.len() implies #[trigger] k[i] >= cutoff by {
        ticks.lemma_filter_pred(f, i);
    }
    assert(k.filter(f) =~= k) by {
        lemma_filter_all(k, f);
    }
}

proof fn lemma_filter_all(s: Seq<u64>, f: spec_fn(u64) -> bool)
    requires
        forall|i: int| 0 <= i < s.len() ==> f(#[trigger] s[i]),
    ensures
        s.filter(f) == s,
    decreases s.len(),
{
    reveal_with_fuel(Seq::filter, 1);
    if s.len() > 0 {
        lemma_filter_all(s.drop_last(), f);
        assert(s.drop_last().push(s.last()) =~= s);
    } else {
        assert(s.filter(f) =~= s);
    }
}

// ---------------------------------------------------------------------------
// Dominance
// ---------------------------------------------------------------------------

/// Offspring and kill counts per entity.
#[derive(Debug)]
pub struct DominanceLedger {
    /// Entity ID -> cumulative offspring count.
    pub offspring_counts: HashMap<u64, u32>,
    /// Entity ID -> cumulative kill count.
    pub kill_counts: HashMap<u64, u32>,
}

/// A count of a map, 0 when absent.
pub open spec fn count_of(m: Map<u64, u32>, id: u64) -> nat {
    if m.contains_key(id) {
        m[id] as nat
    } else {
        0
    }
}

/// A count map with one more for `id`.
pub open spec fn bump(m: Map<u64, u32>, id: u64) -> Map<u64, u32> {
    m.insert(id, (count_of(m, id) + 1) as u32)
}

impl DominanceLedger {
    /// No counts yet.
    pub fn new() -> (l: Self)
        ensures
            l.offspring_counts@ == Map::<u64, u32>::empty(),
            l.kill_counts@ == Map::<u64, u32>::empty(),
    {
        DominanceLedger { offspring_counts: HashMap::new(), kill_counts: HashMap::new() }
    }

    /// One more offspring for `id`.
    pub fn record_offspring(&mut self, id: u64)
        requires
            count_of(old(self).offspring_counts@, id) < u32::MAX,
        ensures
            final(self).offspring_counts@ == bump(old(self).offspring_counts@, id),
            final(self).kill_counts@ == old(self).kill_counts@,
    {
        let c = match self.offspring_counts.get(&id) {
            Some(v) => *v,
            None => 0,
        };
        self.offspring_counts.insert(id, c + 1);
    }

    /// One more kill for `id`.
    pub fn record_kill(&mut self, id: u64)
        requires
            count_of(old(self).kill_counts@, id) < u32::MAX,
        ensures
            final(self).kill_counts@ == bump(old(self).kill_counts@, id),
            final(self).offspring_counts@ == old(self).offspring_counts@,
    {
        let c = match self.kill_counts.get(&id) {
            Some(v) => *v,
            None => 0,
        };
        self.kill_counts.insert(id, c + 1);
    }

    /// The offspring count of an entity (0 if none recorded).
    pub fn offspring_of(&self, id: u64) -> (n: u32)
        ensures
            n == count_of(self.offspring_counts@, id),
    {
        match self.offspring_counts.get(&id) {
            Some(v) => *v,
            None => 0,
        }
    }

    /// The kill count of an entity (0 if none recorded).
    pub fn kills_of(&self, id: u64) -> (n: u32)
        ensures
            n == count_of(self.kill_counts@, id),
    {
        match self.kill_counts.get(&id) {
            Some(v) => *v,
            None => 0,
        }
    }

    /// Offspring plus kills of an entity.
    pub fn entity_dominance(&self, id: u64) -> (d: u32)
        requires
            count_of(self.offspring_counts@, id) + count_of(self.kill_counts@, id) <= u32::MAX,
        ensures
            d == count_of(self.offspring_counts@, id) + count_of(self.kill_counts@, id),
    {
        let o = match self.offspring_counts.get(&id) {
            Some(v) => *v,
            None => 0,
        };
        let k = match self.kill_counts.get(&id) {
            Some(v) => *v,
            None => 0,
        };
        o + k
    }
}

/// Whether a species went extinct between two population counts: present
/// before, counted at zero now.
pub open spec fn went_extinct(previous: Map<u64, u32>, current: Map<u64, u32>, species: u64) -> bool {
    &&& current.contains_key(species)
    &&& current[species] == 0
    &&& count_of(previous, species) > 0
}

/// The species that went extinct: those counted at zero now that had a
/// population before. Each appears once, in no particular order.
pub fn extinct_species(previous: &HashMap<u64, u32>, current: &HashMap<u64, u32>) -> (gone: Vec<u64>)
    ensures
        gone@.no_duplicates(),
        forall|s: u64| gone@.contains(s) <==> went_extinct(previous@, current@, s),
{
    let keys = map_keys(current);
    let mut gone: Vec<u64> = Vec::new();
    let n = keys.len();
    for i in 0..n
        invariant
            n == keys@.len(),
            keys@.no_duplicates(),
            keys@.to_set() == current@.dom(),
            gone@.no_duplicates(),
            forall|x: u64|
                #![trigger gone@.contains(x)]
                gone@.contains(x) <==> (went_extinct(previous@, current@, x) && exists|j: int|
                    0 <= j < i && keys@[j] == x),
    {
        let s = keys[i];
        assert(keys@.to_set().contains(s));
        let now = match current.get(&s) {
            Some(v) => *v,
            None => 0,
        };
        let before = match previous.get(&s) {
            Some(v) => *v,
            None => 0,
        };
        let ghost old_gone = gone@;
        assert((before > 0 && now == 0) <==> went_extinct(previous@, current@, s));
        if before > 0 && now == 0 {
            proof {
                assert(!old_gone.contains(s)) by {
                    if old_gone.contains(s) {
                        let j = choose|j: int| 0 <= j < i && keys@[j] == s;
                        assert(keys@[j] == keys@[i as int]);
                    }
                }
            }
            gone.push(s);
            proof {
                assert forall|a: int, b: int| 0 <= a < b < gone@.len() implies gone@[a] != gone@[b] by {
                    if b == old_gone.len() {
                        assert(old_gone.contains(old_gone[a]));
                    }
                }
            }
        }
        proof {
            assert forall|x: u64| #![trigger gone@.contains(x)]
                gone@.contains(x) <==> (went_extinct(previous@, current@, x) && exists|j: int|
                    0 <= j < i + 1 && keys@[j] == x) by {
                if x == s {
                    assert(keys@[i as int] == s);
                    if went_extinct(previous@, current@, s) {
                        assert(gone@ == old_gone.push(s));
                        assert(gone@[old_gone.len() as int] == s);
                    } else {
                        assert(gone@ == old_gone);
                    }
                } else {
                    if exists|j: int| 0 <= j < i + 1 && keys@[j] == x {
                        let j = choose|j: int| 0 <= j < i + 1 && keys@[j] == x;
                        assert(j < i);
                    }
                    if gone@ != old_gone {
                        assert(gone@ == old_gone.push(s));
                        if gone@.contains(x) {
                            let j = choose|j: int| 0 <= j < gone@.len() && gone@[j] == x;
                            assert(old_gone[j] == x);
                        }
                        if old_gone.contains(x) {
                            let j = choose|j: int| 0 <= j < old_gone.len() && old_gone[j] == x;
                            assert(gone@[j] == x);
                        }
                    }
                }
            }
        }
    }
    proof {
        assert forall|x: u64| gone@.contains(x) <==> went_extinct(previous@, current@, x) by {
            if went_extinct(previous@, current@, x) {
                assert(current@.dom().contains(x));
                assert(keys@.to_set().contains(x));
                assert(keys@.contains(x));
            }
        }
    }
    gone
}


// ---------------------------------------------------------------------------
// Maps keyed by pairs of entities
// ---------------------------------------------------------------------------

/// Whether a pair key has an entry.
pub open spec fn pm_has<V>(s: Seq<((u64, u64), V)>, k: (u64, u64)) -> bool {
    exists|i: int| 0 <= i < s.len() && s[i].0 == k
}

/// The position of a pair key's entry.
pub open spec fn pm_index<V>(s: Seq<((u64, u64), V)>, k: (u64, u64)) -> int {
    choose|i: int| 0 <= i < s.len() && s[i].0 == k
}

/// The value of a pair key's entry.
pub open spec fn pm_get<V>(s: Seq<((u64, u64), V)>, k: (u64, u64)) -> V {
    s[pm_index(s, k)].1
}

/// Entries with `k` set to `v`: in place if `k` has an entry, else at the end.
pub open spec fn pm_insert<V>(s: Seq<((u64, u64), V)>, k: (u64, u64), v: V) -> Seq<((u64, u64), V)> {
    if pm_has(s, k) {
        s.update(pm_index(s, k), (k, v))
    } else {
        s.push((k, v))
    }
}

/// Entries without `k`.
pub open spec fn pm_remove<V>(s: Seq<((u64, u64), V)>, k: (u64, u64)) -> Seq<((u64, u64), V)> {
    if pm_has(s, k) {
        s.remove(pm_index(s, k))
    } else {
        s
    }
}

/// No pair key has two entries.
pub open spec fn pm_wf<V>(s: Seq<((u64, u64), V)>) -> bool {
    forall|i: int, j: int| 0 <= i < j < s.len() ==> (#[trigger] s[i]).0 != (#[trigger] s[j]).0
}

/// Whether a pair holds an entity.
pub open spec fn involves(k: (u64, u64), e: u64) -> bool {
    k.0 == e || k.1 == e
}

/// The entries whose pair does not hold `e`, in order.
pub open spec fn drop_involving<V>(s: Seq<((u64, u64), V)>, e: u64) -> Seq<((u64, u64), V)>
    decreases s.len(),
{
    if s.len() == 0 {
        s
    } else if involves(s.last().0, e) {
        drop_involving(s.drop_last(), e)
    } else {
        drop_involving(s.drop_last(), e).push(s.last())
    }
}

/// The values of the entries whose pair holds `e`, in order.
pub open spec fn involving_values<V>(s: Seq<((u64, u64), V)>, e: u64) -> Seq<V>
    decreases s.len(),
{
    if s.len() == 0 {
        Seq::empty()
    } else if involves(s.last().0, e) {
        involving_values(s.drop_last(), e).push(s.last().1)
    } else {
        involving_values(s.drop_last(), e)
    }
}

proof fn lemma_pm_index<V>(s: Seq<((u64, u64), V)>, i: int)
    requires
        pm_wf(s),
        0 <= i < s.len(),
    ensures
        pm_has(s, s[i].0),
        pm_index(s, s[i].0) == i,
{
    let c = pm_index(s, s[i].0);
    if c != i {
        if c < i {
            assert(s[c].0 != s[i].0);
        } else {
            assert(s[i].0 != s[c].0);
        }
    }
}

/// A map from pairs of entity IDs to values, in the order keys were added.
#[derive(Debug)]
pub struct PairMap<V> {
    entries: Vec<((u64, u64), V)>,
}

impl<V> View for PairMap<V> {
    type V = Seq<((u64, u64), V)>;

    closed spec fn view(&self) -> Seq<((u64, u64), V)> {
        self.entries@
    }
}

impl<V: Copy> PairMap<V> {
    /// No entries.
    pub fn new() -> (m: Self)
        ensures
            m@ == Seq::<((u64, u64), V)>::empty(),
    {
        PairMap { entries: Vec::new() }
    }

    fn find(&self, k: (u64, u64)) -> (r: Option<usize>)
        requires
            pm_wf(self@),
        ensures
            r is Some <==> pm_has(self@, k),
            r matches Some(i) ==> i == pm_index(self@, k) && i < self@.len(),
    {
        let mut i: usize = 0;
        while i < self.entries.len()
            invariant
                i <= self@.len(),
                pm_wf(self@),
                forall|j: int| 0 <= j < i ==> self@[j].0 != k,
            decreases self@.len() - i,
        {
            if self.entries[i].0.0 == k.0 && self.entries[i].0.1 == k.1 {
                proof {
                    lemma_pm_index(self@, i as int);
                }
                return Some(i);
            }
            i = i + 1;
        }
        None
    }

    /// The value of a key, if it has an entry.
    pub fn get(&self, k: (u64, u64)) -> (r: Option<V>)
        requires
            pm_wf(self@),
        ensures
            r == (if pm_has(self@, k) {
                Some(pm_get(self@, k))
            } else {
                None
            }),
    {
        match self.find(k) {
            Some(i) => Some(self.entries[i].1),
            None => None,
        }
    }

    /// Set the value of a key.
    pub fn insert(&mut self, k: (u64, u64), v: V)
        requires
            pm_wf(old(self)@),
        ensures
            final(self)@ == pm_insert(old(self)@, k, v),
            pm_wf(final(self)@),
    {
        match self.find(k) {
            Some(i) => {
                self.entries.set(i, (k, v));
                proof {
                    let s = self@;
                    assert forall|a: int, b: int| 0 <= a < b < s.len() implies (#[trigger] s[a]).0
                        != (#[trigger] s[b]).0 by {
                        assert(old(self)@[a].0 != old(self)@[b].0);
                    }
                }
            },
            None => {
                self.entries.push((k, v));
                proof {
                    let s = self@;
                    assert forall|a: int, b: int| 0 <= a < b < s.len() implies (#[trigger] s[a]).0
                        != (#[trigger] s[b]).0 by {
                        if b < old(self)@.len() {
                            assert(old(self)@[a].0 != old(self)@[b].0);
                        } else {
                            assert(old(self)@[a].0 != k);
                        }
                    }
                }
            },
        }
    }

    /// Remove a key's entry, if it has one.
    pub fn remove(&mut self, k: (u64, u64))
        requires
            pm_wf(old(self)@),
        ensures
            final(self)@ == pm_remove(old(self)@, k),
            pm_wf(final(self)@),
    {
        match self.find(k) {
            Some(i) => {
                self.entries.remove(i);
                proof {
                    let o = old(self)@;
                    let s = self@;
                    assert forall|a: int, b: int| 0 <= a < b < s.len() implies (#[trigger] s[a]).0
                        != (#[trigger] s[b]).0 by {
                        let a2 = if a < i { a } else { a + 1 };
                        let b2 = if b < i { b } else { b + 1 };
                        assert(s[a] == o[a2] && s[b] == o[b2]);
                        assert(o[a2].0 != o[b2].0);
                    }
                }
            },
            None => {},
        }
    }

    /// Remove the entries whose pair holds `e`, and return their values in
    /// order.
    pub fn take_involving(&mut self, e: u64) -> (vals: Vec<V>)
        requires
            pm_wf(old(self)@),
        ensures
            final(self)@ == drop_involving(old(self)@, e),
            vals@ == involving_values(old(self)@, e),
            pm_wf(final(self)@),
    {
        let ghost o = self@;
        let mut kept: Vec<((u64, u64), V)> = Vec::new();
        let mut vals: Vec<V> = Vec::new();
        let n = self.entries.len();
        for i in 0..n
            invariant
                n == o.len(),
                self@ == o,
                pm_wf(o),
                kept@ == drop_involving(o.take(i as int), e),
                vals@ == involving_values(o.take(i as int), e),
                pm_wf(kept@),
                forall|x: int| 0 <= x < kept@.len() ==> exists|y: int| 0 <= y < i && #[trigger] kept@[x] == o[y],
        {
            let en = self.entries[i];
            proof {
                assert(o.take(i + 1).drop_last() =~= o.take(i as int));
                assert(o.take(i + 1).last() == o[i as int]);
            }
            if en.0.0 == e || en.0.1 == e {
                vals.push(en.1);
            } else {
                let ghost before = kept@;
                kept.push(en);
                proof {
                    let s = kept@;
                    assert forall|a: int, b: int| 0 <= a < b < s.len() implies (#[trigger] s[a]).0
                        != (#[trigger] s[b]).0 by {
                        if b < before.len() {
                            assert(before[a].0 != before[b].0);
                        } else {
                            let y = choose|y: int| 0 <= y < i && #[trigger] before[a] == o[y];
                            assert(o[y].0 != o[i as int].0);
                        }
                    }
                    assert forall|x: int| 0 <= x < s.len() implies exists|y: int|
                        0 <= y < i + 1 && #[trigger] s[x] == o[y] by {
                        if x < before.len() {
                            let y = choose|y: int| 0 <= y < i && #[trigger] before[x] == o[y];
                            assert(s[x] == o[y]);
                        } else {
                            assert(s[x] == o[i as int]);
                        }
                    }
                }
            }
        }
        proof {
            assert(o.take(n as int) =~= o);
        }
        self.entries = kept;
        vals
    }
}

} // verus!
