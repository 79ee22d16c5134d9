//! Hash maps with the Fx hasher of rustc-hash, as far as this library uses
//! them. What such a table holds is its view, a `Map` from keys to values.

use rustc_hash::{FxBuildHasher, FxHashMap};
use std::hash::Hash;
use vstd::prelude::*;
use vstd::std_specs::hash::obeys_key_model;

verus! {

#[verifier::external_type_specification]
#[verifier::external_body]
pub struct ExFxBuildHasher(FxBuildHasher);

/// `FxHashMap::default` of rustc-hash. Trusted: the new table holds nothing.
#[verifier::external_body]
pub(crate) fn fx_new<K, V>() -> (table: FxHashMap<K, V>)
    ensures
        table@ == (Map::<K, V>::empty()),
{
    FxHashMap::default()
}

/// `HashMap::get` of std on a table with the Fx hasher, the value copied out.
/// Trusted: it gives the value held for `key`, or `None` where the table holds
/// none.
#[verifier::external_body]
pub(crate) fn fx_get<K: Eq + Hash, V: Copy>(table: &FxHashMap<K, V>, key: K) -> (value: Option<V>)
    requires
        obeys_key_model::<K>(),
    ensures
        value == if table@.contains_key(key) {
            Some(table@[key])
        } else {
            None
        },
{
    table.get(&key).copied()
}

/// `HashMap::insert` of std on a table with the Fx hasher. Trusted: afterwards
/// the table holds `value` for `key` and is otherwise as before.
#[verifier::external_body]
pub(crate) fn fx_insert<K: Eq + Hash, V>(table: &mut FxHashMap<K, V>, key: K, value: V)
    requires
        obeys_key_model::<K>(),
    ensures
        final(table)@ == old(table)@.insert(key, value),
{
    table.insert(key, value);
}

/// `HashMap::into_iter` of std on a table with the Fx hasher, collected.
/// Trusted: each key of the table comes once, with its value, and nothing
/// else comes; the order is the table's own and is not stated.
#[verifier::external_body]
pub(crate) fn fx_into_vec<K: Eq + Hash, V>(table: FxHashMap<K, V>) -> (pairs: Vec<(K, V)>)
    requires
        obeys_key_model::<K>(),
    ensures
        pairs@.len() == table@.dom().len(),
        forall|i: int|
            0 <= i < pairs@.len() ==> table@.contains_key(#[trigger] pairs@[i].0) && table@[pairs@[i].0]
                == pairs@[i].1,
        forall|i: int, j: int|
            0 <= i < j < pairs@.len() ==> (#[trigger] pairs@[i]).0 != (#[trigger] pairs@[j]).0,
        forall|k: K|
            table@.contains_key(k) ==> exists|i: int|
                0 <= i < pairs@.len() && (#[trigger] pairs@[i]).0 == k,
{
    table.into_iter().collect()
}

} // verus!
