//! Inventory of carried world objects.
use vstd::prelude::*;

verus! {

/// Inventory component for entities that can carry objects.
#[derive(Debug, Clone, Default)]
pub struct Inventory {
    /// IDs of objects currently held.
    pub items: Vec<u64>,
    /// Maximum number of objects this entity can carry.
    pub max_capacity: usize,
    /// ID of the currently equipped tool (must also be in `items`).
    pub equipped: Option<u64>,
}

/// Index of the first occurrence of `id` in `items`.
pub open spec fn first_index(items: Seq<u64>, id: u64) -> int {
    choose|i: int| 0 <= i < items.len() && items[i] == id && forall|j: int| 0 <= j < i ==> items[j] != id
}

proof fn lemma_first_index(items: Seq<u64>, id: u64, p: int)
    requires
        0 <= p < items.len(),
        items[p] == id,
        forall|j: int| 0 <= j < p ==> items[j] != id,
    ensures
        first_index(items, id) == p,
{
    let c = first_index(items, id);
    if c < p {
        assert(items[c] != id);
    } else if c > p {
        assert(items[p] != id);
    }
}

/// First position of `id` in `items`, if any.
fn position_of(items: &Vec<u64>, id: u64) -> (r: Option<usize>)
    ensures
        r is Some <==> items@.contains(id),
        r matches Some(p) ==> p < items@.len() && items@[p as int] == id && p == first_index(items@, id),
{
    let mut i: usize = 0;
    while i < items.len()
        invariant
            i <= items@.len(),
            forall|j: int| 0 <= j < i ==> items@[j] != id,
        decreases items@.len() - i,
    {
        if items[i] == id {
            proof {
                lemma_first_index(items@, id, i as int);
            }
            return Some(i);
        }
        i = i + 1;
    }
    None
}

impl Inventory {
    /// The inventory's own invariants: the equipped tool is carried, and no
    /// more items are carried than the capacity allows.
    pub open spec fn wf(&self) -> bool {
        &&& (self.equipped matches Some(e) ==> self.items@.contains(e))
        &&& self.items@.len() <= self.max_capacity
    }

    /// An empty inventory with the given capacity.
    pub fn new(max_capacity: usize) -> (inv: Self)
        ensures
            inv.items@ == Seq::<u64>::empty(),
            inv.max_capacity == max_capacity,
            inv.equipped is None,
            inv.wf(),
    {
        Inventory { items: Vec::new(), max_capacity, equipped: None }
    }

    /// Whether the inventory has room for another item.
    pub fn has_room(&self) -> (r: bool)
        ensures
            r == (self.items@.len() < self.max_capacity),
    {
        self.items.len() < self.max_capacity
    }

    /// Whether the inventory is full.
    pub fn is_full(&self) -> (r: bool)
        ensures
            r == !(self.items@.len() < self.max_capacity),
    {
        !self.has_room()
    }

    /// Add an object ID if there is room; returns whether it was added.
    pub fn add(&mut self, object_id: u64) -> (added: bool)
        ensures
            added == (old(self).items@.len() < old(self).max_capacity),
            added ==> final(self).items@ == old(self).items@.push(object_id),
            !added ==> final(self).items@ == old(self).items@,
            final(self).max_capacity == old(self).max_capacity,
            final(self).equipped == old(self).equipped,
            old(self).wf() ==> final(self).wf(),
    {
        if self.has_room() {
            self.items.push(object_id);
            proof {
                if let Some(e) = self.equipped {
                    if old(self).wf() {
                        let k = choose|k: int| 0 <= k < old(self).items@.len() && old(self).items@[k] == e;
                        assert(self.items@[k] == e);
                    }
                }
            }
            true
        } else {
            false
        }
    }

    /// Remove the first occurrence of an object ID; returns whether it was
    /// found. Removing the equipped object unequips it.
    pub fn remove(&mut self, object_id: u64) -> (removed: bool)
        ensures
            removed == old(self).items@.contains(object_id),
            removed ==> final(self).items@ == old(self).items@.remove(
                first_index(old(self).items@, object_id),
            ),
            removed ==> final(self).equipped == (if old(self).equipped == Some(object_id) {
                None
            } else {
                old(self).equipped
            }),
            !removed ==> final(self).items@ == old(self).items@ && final(self).equipped == old(
                self,
            ).equipped,
            final(self).max_capacity == old(self).max_capacity,
            old(self).wf() ==> final(self).wf(),
    {
        match position_of(&self.items, object_id) {
            Some(pos) => {
                let ghost old_items = self.items@;
                self.items.remove(pos);
                if self.equipped == Some(object_id) {
                    self.equipped = None;
                }
                proof {
                    if let Some(e) = self.equipped {
                        if old(self).wf() {
                            let k = choose|k: int| 0 <= k < old_items.len() && old_items[k] == e;
                            assert(k != pos);
                            if k < pos {
                                assert(self.items@[k] == e);
                            } else {
                                assert(self.items@[k - 1] == e);
                            }
                        }
                    }
                }
                true
            },
            None => false,
        }
    }

    /// Whether an object is in the inventory.
    pub fn contains(&self, object_id: u64) -> (r: bool)
        ensures
            r == self.items@.contains(object_id),
    {
        position_of(&self.items, object_id).is_some()
    }

    /// Equip an object that is already carried; returns whether it was
    /// equipped.
    pub fn equip(&mut self, object_id: u64) -> (ok: bool)
        ensures
            ok == old(self).items@.contains(object_id),
            ok ==> final(self).equipped == Some(object_id),
            !ok ==> final(self).equipped == old(self).equipped,
            final(self).items@ == old(self).items@,
            final(self).max_capacity == old(self).max_capacity,
            old(self).wf() ==> final(self).wf(),
    {
        if self.contains(object_id) {
            self.equipped = Some(object_id);
            true
        } else {
            false
        }
    }
}

} // verus!
