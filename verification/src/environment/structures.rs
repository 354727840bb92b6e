//! Built structures: their kinds, and storage buildings' item stores.
use crate::environment::chunks::first_id_index;
use vstd::prelude::*;

verus! {

/// The functional type of a structure.
#[derive(Debug, Clone, Copy, PartialEq, Eq, Structural)]
pub enum StructureType {
    /// Blocks movement through its area.
    Wall,
    /// Reduces damage to entities inside its area.
    Shelter,
    /// Holds objects/resources.
    StorageBuilding,
}


/// The item store of a storage building and who may use it (its food
/// stock, a real quantity, is kept beside it).
#[derive(Debug)]
pub struct Storage {
    /// The structure this store belongs to.
    pub structure_id: u64,
    /// Stored object IDs, in deposit order.
    pub items: Vec<u64>,
    /// Maximum number of stored items.
    pub capacity: usize,
    /// The tribe that owns it; `None` means anyone may use it.
    pub tribe_id: Option<u64>,
}

impl Storage {
    /// An empty store.
    pub fn new(structure_id: u64, capacity: usize, tribe_id: Option<u64>) -> (s: Self)
        ensures
            s.structure_id == structure_id,
            s.items@ == Seq::<u64>::empty(),
            s.capacity == capacity,
            s.tribe_id == tribe_id,
    {
        Storage { structure_id, items: Vec::new(), capacity, tribe_id }
    }

    /// Deposit an object; refused (false) when the store is full.
    pub fn deposit_item(&mut self, object_id: u64) -> (ok: bool)
        ensures
            ok == (old(self).items@.len() < old(self).capacity),
            ok ==> final(self).items@ == old(self).items@.push(object_id),
            !ok ==> final(self).items@ == old(self).items@,
            final(self).structure_id == old(self).structure_id,
            final(self).capacity == old(self).capacity,
            final(self).tribe_id == old(self).tribe_id,
    {
        if self.items.len() >= self.capacity {
            return false;
        }
        self.items.push(object_id);
        true
    }

    /// Withdraw an object (its first occurrence; the others keep their
    /// order); false when it is not stored.
    pub fn withdraw_item(&mut self, object_id: u64) -> (ok: bool)
        ensures
            ok == old(self).items@.contains(object_id),
            ok ==> final(self).items@ == old(self).items@.remove(first_id_index(old(self).items@, object_id)),
            !ok ==> final(self).items@ == old(self).items@,
            final(self).structure_id == old(self).structure_id,
            final(self).capacity == old(self).capacity,
            final(self).tribe_id == old(self).tribe_id,
    {
        let mut i: usize = 0;
        while i < self.items.len()
            invariant
                i <= self.items@.len(),
                self.items@ == old(self).items@,
                self.structure_id == old(self).structure_id,
                self.capacity == old(self).capacity,
                self.tribe_id == old(self).tribe_id,
                forall|j: int| 0 <= j < i ==> self.items@[j] != object_id,
            decreases self.items@.len() - i,
        {
            if self.items[i] == object_id {
                let ghost p = first_id_index(self.items@, object_id);
                assert(p == i as int) by {
                    assert(self.items@[i as int] == object_id);
                    if p < i {
                        assert(self.items@[p] != object_id);
                    } else if p > i {
                        assert(self.items@[i as int] == object_id);
                    }
                }
                self.items.remove(i);
                return true;
            }
            i = i + 1;
        }
        false
    }

    /// Whether an entity of the given tribe may use the store: anyone when
    /// it belongs to no tribe, else members of its tribe only.
    pub fn can_access(&self, entity_tribe_id: Option<u64>) -> (r: bool)
        ensures
            r == match self.tribe_id {
                None => true,
                Some(t) => entity_tribe_id == Some(t),
            },
    {
        match self.tribe_id {
            None => true,
            Some(t) => match entity_tribe_id {
                Some(e) => e == t,
                None => false,
            },
        }
    }
}

} // verus!
