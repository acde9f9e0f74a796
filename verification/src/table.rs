//! Connections kept by ID.

use std::collections::hash_map::Entry;
use std::collections::HashMap;
use vstd::prelude::*;
use vstd::std_specs::iter::IteratorSpec;

verus! {

broadcast use vstd::std_specs::hash::group_hash_axioms;

/// `keys` names each ID of `ids` once and no other.
pub open spec fn lists(keys: Seq<u32>, ids: Set<u32>) -> bool {
    &&& keys.no_duplicates()
    &&& keys.to_set() == ids
}

/// What is listed is what there is.
pub broadcast proof fn lemma_listed(keys: Seq<u32>, ids: Set<u32>)
    requires
        #[trigger] lists(keys, ids),
    ensures
        forall|i: int| 0 <= i < keys.len() ==> ids.contains(#[trigger] keys[i]),
        forall|id: u32| ids.contains(id) ==> #[trigger] keys.contains(id),
        keys.len() == ids.len(),
        ids.finite(),
{
    assert forall|i: int| 0 <= i < keys.len() implies ids.contains(#[trigger] keys[i]) by {
        assert(keys.to_set().contains(keys[i]));
    }
    keys.unique_seq_to_set();
    assert forall|id: u32| ids.contains(id) implies #[trigger] keys.contains(id) by {
        assert(keys.to_set().contains(id));
    }
}

/// The IDs of the table, each once, in no particular order.
pub(crate) fn keys_of<V>(table: &HashMap<u32, V>) -> (keys: Vec<u32>)
    ensures
        lists(keys@, table@.dom()),
{
    let mut keys: Vec<u32> = Vec::new();
    for key in it: table.keys()
        invariant
            it.seq().no_duplicates(),
            keys@.len() == it.index(),
            forall|i: int| 0 <= i < keys@.len() ==> keys@[i] == *it.seq()[i],
    {
        keys.push(*key);
    }
    assert(keys@ =~= table.keys().remaining().unref());
    keys
}

/// The connection with the given ID, to be changed in place.
pub(crate) fn find_mut<V>(table: &mut HashMap<u32, V>, id: u32) -> (found: Option<&mut V>)
    ensures
        match found {
            Some(value) => {
                &&& old(table)@.contains_key(id)
                &&& *value == old(table)@[id]
                &&& final(table)@ == old(table)@.insert(id, *final(value))
            },
            None => {
                &&& !old(table)@.contains_key(id)
                &&& final(table)@ == old(table)@
            },
        },
{
    match table.entry(id) {
        Entry::Occupied(entry) => Some(entry.into_mut()),
        Entry::Vacant(_) => None,
    }
}

} // verus!
