//! Reading an ordered map in the order of its keys.

use crate::collections::btree_map::ascending;
use std::collections::BTreeMap;
use vstd::prelude::*;
use vstd::std_specs::btree::increasing_seq;
use vstd::std_specs::cmp::OrdSpec;

verus! {

/// What the map's iterator promises of its keys, in plain terms.
proof fn lemma_increasing(keys: Seq<u64>)
    requires
        increasing_seq(keys),
    ensures
        ascending(keys),
{
    broadcast use vstd::std_specs::btree::group_btree_axioms;
    broadcast use vstd::laws_cmp::group_laws_cmp;

    assert(vstd::laws_cmp::obeys_cmp::<u64>());
    vstd::std_specs::btree::axiom_increasing_seq_meaning::<u64>(keys);
    assert forall|i: int, j: int| 0 <= i < j < keys.len() implies keys[i] < keys[j] by {
        assert(keys[i].cmp_spec(&keys[j]) is Less);
    }
}

/// The entries of `data`, in ascending order of their keys.
pub fn ordered<'a, V>(data: &'a BTreeMap<u64, V>) -> (pairs: Vec<(u64, &'a V)>)
    ensures
        ascending(pairs@.map_values(|pair: (u64, &V)| pair.0)),
        pairs@.len() == data@.len(),
        forall|i: int|
            0 <= i < pairs@.len() ==>
                data@.contains_key((#[trigger] pairs@[i]).0) && data@[pairs@[i].0]
                == *pairs@[i].1,
{
    let mut pairs: Vec<(u64, &'a V)> = Vec::new();
    for entry in iter: data.iter()
        invariant
            pairs@.len() == iter.index(),
            pairs@.len() <= iter.seq().len(),
            increasing_seq(iter.seq().map_values(|kv: (&u64, &V)| *kv.0)),
            forall|i: int|
                0 <= i < pairs@.len() ==>
                    (#[trigger] pairs@[i]).0 == *iter.seq()[i].0 && pairs@[i].1
                    == iter.seq()[i].1,
            pairs@.len() == iter.seq().len() ==> pairs@.map_values(|pair: (u64, &V)| pair.0)
                == iter.seq().map_values(|kv: (&u64, &V)| *kv.0),
    {
        pairs.push((*entry.0, entry.1));
        assert(pairs@.len() == iter.seq().len() ==> pairs@.map_values(|pair: (u64, &V)| pair.0)
            =~= iter.seq().map_values(|kv: (&u64, &V)| *kv.0));
    }
    proof {
        lemma_increasing(pairs@.map_values(|pair: (u64, &V)| pair.0));
    }
    pairs
}

} // verus!
