//! Walking an ordered map of sequence numbers in key order.

use std::collections::BTreeMap;
use vstd::prelude::*;
use vstd::std_specs::cmp::OrdSpec;
use vstd::std_specs::iter::IteratorSpec;

verus! {

/// Whether `keys` ascends strictly.
pub open spec fn strictly_ascending(keys: Seq<u32>) -> bool {
    forall|i: int, j: int| 0 <= i < j < keys.len() ==> keys[i] < keys[j]
}

/// The keys of `map`, smallest first.
pub fn sorted_keys<V>(map: &BTreeMap<u32, V>) -> (keys: Vec<u32>)
    ensures
        strictly_ascending(keys@),
        forall|k: u32| keys@.contains(k) <==> map@.contains_key(k),
        keys@.len() == map@.len(),
        map@.dom().finite(),
{
    broadcast use vstd::std_specs::btree::group_btree_axioms;

    let mut keys: Vec<u32> = Vec::new();
    for key in walk: map.keys()
        invariant
            keys@.len() == walk.index(),
            forall|j: int| 0 <= j < keys@.len() ==> keys@[j] == *walk.seq()[j],
    {
        keys.push(*key);
    }
    proof {
        broadcast use vstd::laws_cmp::group_laws_cmp;

        let listed = map.keys().remaining();
        assert(keys@ =~= listed.unref());
        assert(vstd::laws_cmp::obeys_cmp::<&u32>());
        assert(vstd::std_specs::btree::increasing_seq(listed));
        vstd::std_specs::btree::axiom_increasing_seq_meaning::<&u32>(listed);
        assert forall|i: int, j: int| 0 <= i < j < keys@.len() implies keys@[i] < keys@[j] by {
            assert(OrdSpec::cmp_spec(&listed[i], &listed[j]) is Less);
            assert(keys@[i] == *listed[i]);
            assert(keys@[j] == *listed[j]);
        }
        assert(keys@.to_set() == map@.dom());
        assert forall|k: u32| keys@.contains(k) <==> map@.contains_key(k) by {
            assert(keys@.to_set().contains(k) <==> keys@.contains(k));
        }
    }
    keys
}

} // verus!
