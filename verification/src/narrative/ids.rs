//! Entity and species IDs held as map keys.
use std::collections::HashMap;
use vstd::prelude::*;
use vstd::std_specs::iter::IteratorSpec;

verus! {

/// Every key of a map keyed by ID, each once.
pub(crate) fn map_keys<V>(m: &HashMap<u64, V>) -> (keys: Vec<u64>)
    ensures
        keys@.no_duplicates(),
        keys@.to_set() == m@.dom(),
{
    broadcast use vstd::std_specs::hash::group_hash_axioms;

    let ghost all = vstd::std_specs::hash::spec_keys_iter(m).remaining().unref();
    assert(all.to_set() == m@.dom());
    assert(all.no_duplicates());
    let mut keys: Vec<u64> = Vec::new();
    for k in it: m.keys()
        invariant
            it.seq().unref() == all,
            keys@ == all.take(it.index()),
    {
        proof {
            assert(all.take(it.index() + 1) =~= all.take(it.index()).push(*k));
        }
        keys.push(*k);
    }
    proof {
        assert(keys@ =~= all);
    }
    keys
}

} // verus!
