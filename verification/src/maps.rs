//! Access to the maps of the standard library where the dispatchers need
//! more than `vstd` specifies.

use vstd::prelude::*;
use std::collections::BTreeMap;
use std::collections::HashMap;
use std::hash::Hash;
use vstd::std_specs::hash::obeys_key_model;
use crate::order::ordered;
use crate::order::precedes;

verus! {

/// Calls `HashMap::get_mut`: a mutable reference to the value that `map`
/// holds for `key`, or `None` where it holds none. What is written through
/// the reference is what the map holds for `key` afterwards, and nothing else
/// in the map changes.
#[verifier::external_body]
pub(crate) fn entry_of<'a, K: Eq + Hash, V>(map: &'a mut HashMap<K, V>, key: &K) -> (found: Option<
    &'a mut V,
>)
    ensures
        obeys_key_model::<K>() ==> match found {
            Some(value) => {
                &&& old(map)@.contains_key(*key)
                &&& *value == old(map)@[*key]
                &&& final(map)@ == old(map)@.insert(*key, *final(value))
            },
            None => {
                &&& !old(map)@.contains_key(*key)
                &&& final(map)@ == old(map)@
            },
        },
{
    map.get_mut(key)
}

/// Calls `BTreeMap::pop_first`: takes the entry with the least key out of
/// `map` and returns it, or returns `None` where `map` is empty. Every other
/// key of the map comes after the returned one.
#[verifier::external_body]
pub(crate) fn pop_first<K: Ord, V>(map: &mut BTreeMap<K, V>) -> (first: Option<(K, V)>)
    ensures
        first is Some ==> final(map).len() + 1 == old(map).len(),
        first is None ==> final(map).len() == 0 && old(map).len() == 0,
        ordered::<K>() ==> match first {
            Some((key, value)) => {
                &&& old(map)@.contains_key(key)
                &&& old(map)@[key] == value
                &&& final(map)@ == old(map)@.remove(key)
                &&& forall|other: K|
                    old(map)@.contains_key(other) && other != key ==> #[trigger] precedes(
                        key,
                        other,
                    )
            },
            None => {
                &&& old(map)@ == Map::<K, V>::empty()
                &&& final(map)@ == old(map)@
            },
        },
{
    map.pop_first()
}

} // verus!
