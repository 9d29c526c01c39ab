//! Laws of the hash tables: what holds of every table across its operations,
//! stated over the keys that `HashTable` exposes.

use vstd::prelude::*;
use crate::trait_def::{HashTable, TableKey, inserted};

verus! {

/// A key inserted into a table that did not saturate is found afterwards,
/// and every other key is found exactly when it was found before.
pub proof fn law_insert_then_find<K: TableKey, T: HashTable<K>>(before: T, after: T, key: K::V, other: K::V)
    requires
        inserted(before, key, after),
        !after.saturated(),
    ensures
        after.keys().contains(key),
        other != key ==> (after.keys().contains(other) == before.keys().contains(other)),
{
}

/// An insertion never makes a table hold a key other than the inserted one
/// that it did not hold before, saturated or not.
pub proof fn law_insert_adds_only_the_key<K: TableKey, T: HashTable<K>>(before: T, after: T, key: K::V, other: K::V)
    requires
        inserted(before, key, after),
        other != key,
        !before.keys().contains(other),
    ensures
        !after.keys().contains(other),
{
}

/// Inserting a key that the table holds changes nothing (set semantics).
pub proof fn law_insert_present_key<K: TableKey, T: HashTable<K>>(before: T, after: T, key: K::V)
    requires
        inserted(before, key, after),
        before.keys().contains(key),
        !after.saturated(),
    ensures
        after.keys() == before.keys(),
{
    assert(before.keys().insert(key) =~= before.keys());
}

/// Inserting a key twice is the same as inserting it once.
pub proof fn law_insert_idempotent<K: TableKey, T: HashTable<K>>(before: T, once: T, twice: T, key: K::V)
    requires
        inserted(before, key, once),
        inserted(once, key, twice),
        !twice.saturated(),
    ensures
        twice.keys() == once.keys(),
{
    assert(!once.saturated());
    law_insert_present_key(once, twice, key);
}

/// The number of keys grows by one exactly when the inserted key was absent.
pub proof fn law_len_after_insert<K: TableKey, T: HashTable<K>>(before: T, after: T, key: K::V)
    requires
        before.keys().finite(),
        inserted(before, key, after),
        !after.saturated(),
    ensures
        after.keys().len() == before.keys().len() + if before.keys().contains(key) { 0int } else { 1int },
{
    if before.keys().contains(key) {
        assert(before.keys().insert(key) =~= before.keys());
    }
}

/// The order in which two keys are inserted does not matter.
pub proof fn law_insert_commutes<K: TableKey, T: HashTable<K>>(
    start: T,
    a1: T,
    a2: T,
    b1: T,
    b2: T,
    k1: K::V,
    k2: K::V,
)
    requires
        inserted(start, k1, a1),
        inserted(a1, k2, a2),
        inserted(start, k2, b1),
        inserted(b1, k1, b2),
        !a2.saturated(),
        !b2.saturated(),
    ensures
        a2.keys() == b2.keys(),
{
    assert(!a1.saturated());
    assert(!b1.saturated());
    assert(a2.keys() =~= b2.keys());
}

/// Removing a key that an insertion added gives back the keys from before
/// the insertion.
pub proof fn law_insert_then_remove<K: TableKey, T: HashTable<K>>(before: T, mid: T, after: T, key: K::V)
    requires
        inserted(before, key, mid),
        !mid.saturated(),
        !before.keys().contains(key),
        after.keys() == mid.keys().remove(key),
    ensures
        after.keys() == before.keys(),
        !after.keys().contains(key),
{
    assert(before.keys().insert(key).remove(key) =~= before.keys());
}

} // verus!
