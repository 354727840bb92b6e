//! Remembered experiences: what kinds there are, how a bounded memory
//! takes new ones in, and how they are recalled.
use vstd::prelude::*;

verus! {

/// Kinds of experiences an entity can remember.
#[derive(Debug, Clone, Copy, PartialEq, Eq, Hash, Structural)]
pub enum MemoryKind {
    FoundFood,
    WasAttacked,
    AttackedOther,
    Reproduced,
    Encountered,
    EnvironmentChange,
    NearDeath,
    Migrated,
    /// Culturally transmitted memory: learned by observing a tribemate.
    Observed,
}


/// A remembered experience: when, what kind, who was involved, and details
/// (importance, feelings, place) that recall and capacity do not read.
#[derive(Debug)]
pub struct MemoryEntry<D> {
    pub tick: u64,
    pub kind: MemoryKind,
    pub associated_entity_id: Option<u64>,
    pub details: D,
}

/// A bounded list of memories, in the order they were taken in.
#[derive(Debug)]
pub struct Memory<D> {
    pub entries: Vec<MemoryEntry<D>>,
    pub capacity: usize,
}

/// The earliest tick a recall reaches: `max_age` ticks back, not before 0.
pub open spec fn min_recall_tick(max_age: u64, current_tick: u64) -> u64 {
    if current_tick >= max_age {
        (current_tick - max_age) as u64
    } else {
        0
    }
}

/// Whether a recall keeps an entry: recent enough, and of the kind asked
/// for (any kind for `None`).
pub open spec fn kept<D>(e: MemoryEntry<D>, kind: Option<MemoryKind>, min_tick: u64) -> bool {
    &&& e.tick >= min_tick
    &&& match kind {
        Some(k) => e.kind == k,
        None => true,
    }
}

/// The entries after taking in `entry` with room for `capacity`: when full
/// (and not empty), the entry at `lowest` is evicted, the last entry taking
/// its place, and `entry` is appended; otherwise `entry` is appended.
pub open spec fn entries_after_add<D>(
    entries: Seq<MemoryEntry<D>>,
    capacity: int,
    entry: MemoryEntry<D>,
    lowest: int,
) -> Seq<MemoryEntry<D>> {
    if entries.len() >= capacity && entries.len() > 0 {
        entries.update(lowest, entries.last()).drop_last().push(entry)
    } else {
        entries.push(entry)
    }
}

/// Law: a memory never outgrows its capacity. Taking in an entry into a
/// memory of capacity at least 1 that holds at most its capacity leaves it
/// holding one more entry, or as many as its capacity when it was full; the
/// new entry comes last, every other entry was held before, and when there
/// was room nothing else changes.
pub proof fn law_add_keeps_capacity<D>(
    entries: Seq<MemoryEntry<D>>,
    capacity: int,
    entry: MemoryEntry<D>,
    lowest: int,
)
    requires
        capacity >= 1,
        entries.len() <= capacity,
        entries.len() == capacity ==> 0 <= lowest < entries.len(),
    ensures
        entries_after_add(entries, capacity, entry, lowest).len() == if entries.len() + 1 <= capacity {
            entries.len() + 1 as int
        } else {
            capacity
        },
        entries_after_add(entries, capacity, entry, lowest).last() == entry,
        forall|i: int|
            0 <= i < entries_after_add(entries, capacity, entry, lowest).len() - 1 ==> entries.contains(
                #[trigger] entries_after_add(entries, capacity, entry, lowest)[i],
            ),
        entries.len() < capacity ==> entries_after_add(entries, capacity, entry, lowest) == entries.push(entry),
{
    let after = entries_after_add(entries, capacity, entry, lowest);
    if entries.len() >= capacity && entries.len() > 0 {
        let kept = entries.update(lowest, entries.last()).drop_last();
        assert forall|i: int| 0 <= i < after.len() - 1 implies entries.contains(#[trigger] after[i]) by {
            assert(after[i] == kept[i]);
            if i == lowest {
                assert(entries[entries.len() - 1] == after[i]);
            } else {
                assert(entries[i] == after[i]);
            }
        }
    } else {
        assert forall|i: int| 0 <= i < after.len() - 1 implies entries.contains(#[trigger] after[i]) by {
            assert(entries[i] == after[i]);
        }
    }
}

/// Entry `i` comes before entry `j` in a recall: it is more recent, or as
/// recent and stored earlier.
pub open spec fn recalled_before<D>(entries: Seq<MemoryEntry<D>>, i: int, j: int) -> bool {
    entries[i].tick > entries[j].tick || (entries[i].tick == entries[j].tick && i < j)
}

/// `idx` lists the positions of exactly the kept entries, each once, most
/// recent first, entries of the same tick in the order they were stored.
pub open spec fn recall_order<D>(
    entries: Seq<MemoryEntry<D>>,
    kind: Option<MemoryKind>,
    min_tick: u64,
    idx: Seq<usize>,
) -> bool {
    &&& idx.no_duplicates()
    &&& forall|k: int|
        0 <= k < idx.len() ==> #[trigger] idx[k] < entries.len() && kept(entries[idx[k] as int], kind, min_tick)
    &&& forall|j: int|
        0 <= j < entries.len() && kept(#[trigger] entries[j], kind, min_tick) ==> idx.contains(j as usize)
    &&& forall|a: int, b: int|
        0 <= a < b < idx.len() ==> recalled_before(entries, #[trigger] idx[a] as int, #[trigger] idx[b] as int)
}

/// `idx` lists positions below `bound`, each once, in recall order.
pub open spec fn sorted_below<D>(entries: Seq<MemoryEntry<D>>, idx: Seq<usize>, bound: int) -> bool {
    &&& idx.no_duplicates()
    &&& forall|k: int| 0 <= k < idx.len() ==> #[trigger] idx[k] < bound
    &&& forall|a: int, b: int|
        0 <= a < b < idx.len() ==> recalled_before(entries, #[trigger] idx[a] as int, #[trigger] idx[b] as int)
}

/// Insert position `i` (after every listed position) into a list in recall
/// order: after the entries at least as recent, before the others.
fn insert_by_recency<D>(entries: &Vec<MemoryEntry<D>>, idx: &mut Vec<usize>, i: usize)
    requires
        i < entries@.len(),
        sorted_below(entries@, old(idx)@, i as int),
    ensures
        sorted_below(entries@, final(idx)@, i + 1),
        forall|x: usize| #[trigger] final(idx)@.contains(x) <==> (old(idx)@.contains(x) || x == i),
{
    let ghost e = entries@;
    let t = entries[i].tick;
    let mut p: usize = 0;
    while p < idx.len() && entries[idx[p]].tick >= t
        invariant
            e == entries@,
            i < e.len(),
            t == e[i as int].tick,
            idx@ == old(idx)@,
            sorted_below(e, idx@, i as int),
            p <= idx@.len(),
            forall|k: int| 0 <= k < p ==> e[#[trigger] idx@[k] as int].tick >= t,
        decreases idx@.len() - p,
    {
        p = p + 1;
    }
    let ghost o = idx@;
    proof {
        assert forall|k: int| p <= k < o.len() implies e[#[trigger] o[k] as int].tick < t by {
            assert(e[o[p as int] as int].tick < t);
            if k > p {
                assert(recalled_before(e, o[p as int] as int, o[k] as int));
            }
        }
    }
    idx.insert(p, i);
    proof {
        let ni = idx@;
        assert(ni == o.insert(p as int, i));
        assert forall|k: int| 0 <= k < ni.len() implies #[trigger] ni[k] < i + 1 by {
            if k < p {
                assert(ni[k] == o[k]);
            } else if k > p {
                assert(ni[k] == o[k - 1]);
            }
        }
        assert forall|a: int, b: int| 0 <= a < b < ni.len() implies recalled_before(
            e,
            #[trigger] ni[a] as int,
            #[trigger] ni[b] as int,
        ) by {
            if b < p {
                assert(ni[a] == o[a] && ni[b] == o[b]);
            } else if b == p {
                assert(ni[a] == o[a]);
                assert(e[o[a] as int].tick >= t);
                assert(o[a] < i);
            } else if a == p {
                assert(ni[b] == o[b - 1]);
                assert(e[o[b - 1] as int].tick < t);
            } else if a < p {
                assert(ni[a] == o[a] && ni[b] == o[b - 1]);
            } else {
                assert(ni[a] == o[a - 1] && ni[b] == o[b - 1]);
            }
        }
        assert forall|a: int, b: int| 0 <= a < ni.len() && 0 <= b < ni.len() && a != b implies ni[a] != ni[b] by {
            if a != p && b != p {
                let oa = if a < p { a } else { a - 1 };
                let ob = if b < p { b } else { b - 1 };
                assert(ni[a] == o[oa] && ni[b] == o[ob]);
            } else if a == p {
                let ob = if b < p { b } else { b - 1 };
                assert(ni[b] == o[ob]);
            } else {
                let oa = if a < p { a } else { a - 1 };
                assert(ni[a] == o[oa]);
            }
        }
        assert forall|x: usize| #[trigger] ni.contains(x) <==> (o.contains(x) || x == i) by {
            if ni.contains(x) {
                let k = choose|k: int| 0 <= k < ni.len() && ni[k] == x;
                if k < p {
                    assert(o[k] == x);
                } else if k > p {
                    assert(o[k - 1] == x);
                }
            }
            if o.contains(x) {
                let k = choose|k: int| 0 <= k < o.len() && o[k] == x;
                if k < p {
                    assert(ni[k] == x);
                } else {
                    assert(ni[k + 1] == x);
                }
            }
            if x == i {
                assert(ni[p as int] == x);
            }
        }
    }
}

impl<D> Memory<D> {
    /// An empty memory holding up to `capacity` entries.
    pub fn new(capacity: usize) -> (m: Self)
        ensures
            m.entries@ == Seq::<MemoryEntry<D>>::empty(),
            m.capacity == capacity,
    {
        Memory { entries: Vec::new(), capacity }
    }

    /// Number of entries.
    pub fn len(&self) -> (n: usize)
        ensures
            n == self.entries@.len(),
    {
        self.entries.len()
    }

    /// Whether there is no entry.
    pub fn is_empty(&self) -> (r: bool)
        ensures
            r == (self.entries@.len() == 0),
    {
        self.entries.len() == 0
    }

    /// Take in a new entry. When the memory is full, the entry at `lowest`
    /// (the one least worth keeping, the first of them on a tie) is evicted
    /// first, the last entry taking its place.
    pub fn add(&mut self, entry: MemoryEntry<D>, lowest: usize)
        requires
            old(self).entries@.len() >= old(self).capacity && old(self).entries@.len() > 0 ==> lowest
                < old(self).entries@.len(),
        ensures
            final(self).capacity == old(self).capacity,
            final(self).entries@ == entries_after_add(
                old(self).entries@,
                old(self).capacity as int,
                entry,
                lowest as int,
            ),
    {
        if self.entries.len() >= self.capacity && self.entries.len() > 0 {
            self.entries.swap_remove(lowest);
        }
        self.entries.push(entry);
    }

    /// The positions of the entries of a kind (any kind for `None`) at most
    /// `max_age` ticks old, most recent first; entries of the same tick in
    /// the order they were stored.
    pub fn recall_positions(&self, kind: Option<MemoryKind>, max_age: u64, current_tick: u64) -> (idx: Vec<usize>)
        ensures
            recall_order(self.entries@, kind, min_recall_tick(max_age, current_tick), idx@),
    {
        let min_tick = current_tick.saturating_sub(max_age);
        let ghost e = self.entries@;
        let mut idx: Vec<usize> = Vec::new();
        let n = self.entries.len();
        for i in 0..n
            invariant
                n == e.len(),
                e == self.entries@,
                min_tick == min_recall_tick(max_age, current_tick),
                sorted_below(e, idx@, i as int),
                forall|x: usize| #[trigger] idx@.contains(x) ==> kept(e[x as int], kind, min_tick),
                forall|j: int| 0 <= j < i && kept(#[trigger] e[j], kind, min_tick) ==> idx@.contains(j as usize),
        {
            let entry = &self.entries[i];
            let keep = entry.tick >= min_tick && match kind {
                Some(k) => entry.kind == k,
                None => true,
            };
            if keep {
                insert_by_recency(&self.entries, &mut idx, i);
            }
        }
        proof {
            assert forall|k: int| 0 <= k < idx@.len() implies #[trigger] idx@[k] < e.len() && kept(
                e[idx@[k] as int],
                kind,
                min_tick,
            ) by {
                assert(idx@.contains(idx@[k]));
            }
        }
        idx
    }

    /// The entries of a kind at most `max_age` ticks old, most recent first.
    pub fn recall(&self, kind: MemoryKind, max_age: u64, current_tick: u64) -> (r: Vec<&MemoryEntry<D>>)
        ensures
            exists|idx: Seq<usize>|
                #[trigger] recall_order(self.entries@, Some(kind), min_recall_tick(max_age, current_tick), idx)
                    && r@.len() == idx.len() && forall|k: int| 0 <= k < idx.len() ==> *r@[k] == self.entries@[idx[k] as int],
    {
        let idx = self.recall_positions(Some(kind), max_age, current_tick);
        self.entries_at(&idx)
    }

    /// Every entry at most `max_age` ticks old, most recent first.
    pub fn recall_all(&self, max_age: u64, current_tick: u64) -> (r: Vec<&MemoryEntry<D>>)
        ensures
            exists|idx: Seq<usize>|
                #[trigger] recall_order(self.entries@, None, min_recall_tick(max_age, current_tick), idx)
                    && r@.len() == idx.len() && forall|k: int| 0 <= k < idx.len() ==> *r@[k] == self.entries@[idx[k] as int],
    {
        let idx = self.recall_positions(None, max_age, current_tick);
        self.entries_at(&idx)
    }

    /// The entries at the given positions, in that order.
    fn entries_at(&self, idx: &Vec<usize>) -> (r: Vec<&MemoryEntry<D>>)
        requires
            forall|k: int| 0 <= k < idx@.len() ==> #[trigger] idx@[k] < self.entries@.len(),
        ensures
            r@.len() == idx@.len(),
            forall|k: int| 0 <= k < idx@.len() ==> *r@[k] == self.entries@[idx@[k] as int],
    {
        let mut r: Vec<&MemoryEntry<D>> = Vec::new();
        for k in 0..idx.len()
            invariant
                forall|j: int| 0 <= j < idx@.len() ==> #[trigger] idx@[j] < self.entries@.len(),
                r@.len() == k,
                forall|j: int| 0 <= j < k ==> *r@[j] == self.entries@[idx@[j] as int],
        {
            let i = idx[k];
            r.push(&self.entries[i]);
        }
        r
    }
}

/// Two lists of positions without repeats, with the same members, both in
/// recall order, are the same list.
proof fn lemma_sorted_unique<D>(e: Seq<MemoryEntry<D>>, a: Seq<usize>, b: Seq<usize>)
    requires
        a.no_duplicates(),
        b.no_duplicates(),
        forall|x: usize| #![trigger a.contains(x)] #![trigger b.contains(x)] a.contains(x) <==> b.contains(x),
        forall|i: int, j: int| 0 <= i < j < a.len() ==> recalled_before(e, #[trigger] a[i] as int, #[trigger] a[j] as int),
        forall|i: int, j: int| 0 <= i < j < b.len() ==> recalled_before(e, #[trigger] b[i] as int, #[trigger] b[j] as int),
    ensures
        a == b,
    decreases a.len(),
{
    if a.len() == 0 {
        if b.len() > 0 {
            assert(b.contains(b[0]));
        }
        assert(b =~= a);
    } else {
        assert(a.contains(a[0]));
        let m = choose|m: int| 0 <= m < b.len() && b[m] == a[0];
        if m > 0 {
            assert(b.contains(b[0]));
            let n = choose|n: int| 0 <= n < a.len() && a[n] == b[0];
            assert(recalled_before(e, a[0] as int, a[n] as int));
            assert(recalled_before(e, b[0] as int, b[m] as int));
        }
        let a2 = a.drop_first();
        let b2 = b.drop_first();
        assert forall|x: usize| #![trigger a2.contains(x)] #![trigger b2.contains(x)] a2.contains(x) <==> b2.contains(x) by {
            if a2.contains(x) {
                let k = choose|k: int| 0 <= k < a2.len() && a2[k] == x;
                assert(a[k + 1] == x);
                assert(a.contains(x));
                let j = choose|j: int| 0 <= j < b.len() && b[j] == x;
                assert(j != 0);
                assert(b2[j - 1] == x);
            }
            if b2.contains(x) {
                let k = choose|k: int| 0 <= k < b2.len() && b2[k] == x;
                assert(b[k + 1] == x);
                assert(b.contains(x));
                let j = choose|j: int| 0 <= j < a.len() && a[j] == x;
                assert(j != 0);
                assert(a2[j - 1] == x);
            }
        }
        assert forall|i: int, j: int| 0 <= i < j < a2.len() implies recalled_before(e, #[trigger] a2[i] as int, #[trigger] a2[j] as int) by {
            assert(a2[i] == a[i + 1] && a2[j] == a[j + 1]);
        }
        assert forall|i: int, j: int| 0 <= i < j < b2.len() implies recalled_before(e, #[trigger] b2[i] as int, #[trigger] b2[j] as int) by {
            assert(b2[i] == b[i + 1] && b2[j] == b[j + 1]);
        }
        lemma_sorted_unique(e, a2, b2);
        assert(a =~= b) by {
            assert forall|k: int| 0 <= k < a.len() implies a[k] == b[k] by {
                if k > 0 {
                    assert(a[k] == a2[k - 1] && b[k] == b2[k - 1]);
                }
            }
        }
    }
}

/// Law: a recall is fully determined: only one list of positions is in
/// recall order for given entries, kind and earliest tick.
pub proof fn law_recall_order_unique<D>(
    entries: Seq<MemoryEntry<D>>,
    kind: Option<MemoryKind>,
    min_tick: u64,
    a: Seq<usize>,
    b: Seq<usize>,
)
    requires
        recall_order(entries, kind, min_tick, a),
        recall_order(entries, kind, min_tick, b),
    ensures
        a == b,
{
    assert forall|x: usize| #[trigger] a.contains(x) implies b.contains(x) by {
        let k = choose|k: int| 0 <= k < a.len() && a[k] == x;
        assert(a[k] < entries.len() && kept(entries[a[k] as int], kind, min_tick));
        assert(kept(entries[x as int], kind, min_tick));
    }
    assert forall|x: usize| #[trigger] b.contains(x) implies a.contains(x) by {
        let k = choose|k: int| 0 <= k < b.len() && b[k] == x;
        assert(b[k] < entries.len() && kept(entries[b[k] as int], kind, min_tick));
        assert(kept(entries[x as int], kind, min_tick));
    }
    lemma_sorted_unique(entries, a, b);
}

impl<D> Default for Memory<D> {
    /// An empty memory of twenty entries.
    fn default() -> (m: Self)
        ensures
            m.entries@ == Seq::<MemoryEntry<D>>::empty(),
            m.capacity == 20,
    {
        Memory::new(20)
    }
}

} // verus!
