//! `std::collections::HashSet` baseline with a fixed ahash seed.

use vstd::prelude::*;
use crate::hash_utils::{ahash_state, SEED1, SEED2};
use crate::implns::slots::max_keys;
use crate::trait_def::{HashTable, TableKey, set_views, std_set_limit};

verus! {

/// An empty std hash set with room for `capacity` keys:
/// `HashSet::with_capacity_and_hasher`. Trusted: the set is empty. Hints
/// above `std_set_limit` are left out, as the allocation they ask for could
/// overflow, which panics.
#[verifier::external_body]
fn std_set_with_capacity<K>(capacity: usize, state: ahash::RandomState) -> (s: std::collections::HashSet<K, ahash::RandomState>)
    requires
        capacity <= std_set_limit::<K>(),
    ensures
        s@ == Set::<K>::empty(),
{
    std::collections::HashSet::with_capacity_and_hasher(capacity, state)
}

/// `HashSet::insert` on `u64` keys. Trusted: `u64` keys are equal exactly
/// when their values are, so the set gains the key's value, and the result
/// says whether the value was new. Sets that hold `std_set_limit` keys are
/// left out, as growing them could overflow the allocation size, which panics.
#[verifier::external_body]
pub(crate) fn std_set_insert_u64(set: &mut std::collections::HashSet<u64, ahash::RandomState>, key: u64) -> (added: bool)
    requires
        set_views(old(set)@).len() < std_set_limit::<u64>(),
    ensures
        set_views(final(set)@) == set_views(old(set)@).insert(key@),
        added == !set_views(old(set)@).contains(key@),
{
    set.insert(key)
}

/// `HashSet::contains` on `u64` keys. Trusted: true exactly when the set
/// holds the key's value.
#[verifier::external_body]
pub(crate) fn std_set_contains_u64(set: &std::collections::HashSet<u64, ahash::RandomState>, key: &u64) -> (found: bool)
    ensures
        found == set_views(set@).contains(key@),
{
    set.contains(key)
}

/// `HashSet::len` on `u64` keys. Trusted: the number of values the set
/// holds.
#[verifier::external_body]
pub(crate) fn std_set_len_u64(set: &std::collections::HashSet<u64, ahash::RandomState>) -> (n: usize)
    ensures
        n == set_views(set@).len(),
{
    set.len()
}

/// `HashSet::insert` on `String` keys. Trusted: `String` equality and
/// hashing follow the characters, so the set gains the key's characters, and
/// the result says whether they were new. Sets that hold `std_set_limit`
/// keys are left out, as growing them could overflow the allocation size,
/// which panics.
#[verifier::external_body]
pub(crate) fn std_set_insert_string(set: &mut std::collections::HashSet<String, ahash::RandomState>, key: String) -> (added: bool)
    requires
        set_views(old(set)@).len() < std_set_limit::<String>(),
    ensures
        set_views(final(set)@) == set_views(old(set)@).insert(key@),
        added == !set_views(old(set)@).contains(key@),
{
    set.insert(key)
}

/// `HashSet::contains` on `String` keys. Trusted: true exactly when the set
/// holds a string of the key's characters.
#[verifier::external_body]
pub(crate) fn std_set_contains_string(set: &std::collections::HashSet<String, ahash::RandomState>, key: &String) -> (found: bool)
    ensures
        found == set_views(set@).contains(key@),
{
    set.contains(key)
}

/// `HashSet::len` on `String` keys. Trusted: the number of distinct
/// strings the set holds.
#[verifier::external_body]
pub(crate) fn std_set_len_string(set: &std::collections::HashSet<String, ahash::RandomState>) -> (n: usize)
    ensures
        n == set_views(set@).len(),
{
    set.len()
}

/// Number of keys a std hash set can hold without reallocating:
/// `HashSet::capacity`. Trusted: at least as many as the set holds, since it
/// holds them without reallocating; beyond that the allocator decides, and
/// nothing more is claimed.
#[verifier::external_body]
fn std_set_capacity<K: View>(set: &std::collections::HashSet<K, ahash::RandomState>) -> (c: usize)
    ensures
        c >= set_views(set@).len(),
{
    set.capacity()
}

/// `std_set_limit::<K>()`, computed.
fn key_limit<K>() -> (n: usize)
    ensures
        n == std_set_limit::<K>(),
{
    let size = core::mem::size_of::<K>();
    proof {
        assert(isize::MAX / 8 <= usize::MAX);
    }
    match size.checked_add(16) {
        Some(d) => (isize::MAX as usize / 8) / d,
        None => {
            proof {
                vstd::arithmetic::div_mod::lemma_basic_div(isize::MAX as int / 8, (vstd::layout::size_of::<K>() + 16) as int);
            }
            0
        },
    }
}

/// Standard-library hash set used as a practical baseline.
pub struct StdSetTable<K> {
    inner: std::collections::HashSet<K, ahash::RandomState>,
    saturated: bool,
    /// The capacity hint that the table was created with.
    hint: Ghost<nat>,
}

impl<K: TableKey> HashTable<K> for StdSetTable<K> {
    closed spec fn wf(&self) -> bool {
        set_views(self.inner@).finite()
    }

    closed spec fn keys(&self) -> Set<K::V> {
        set_views(self.inner@)
    }

    /// At least the number of keys; the allocator decides how many more.
    open spec fn reports_capacity(&self, c: nat) -> bool {
        c >= self.keys().len()
    }

    /// No overflow slots.
    open spec fn reports_extra_space(&self, e: nat) -> bool {
        e == 0
    }

    closed spec fn saturated(&self) -> bool {
        self.saturated
    }

    closed spec fn capacity_hint(&self) -> nat {
        self.hint@
    }

    /// Creates a set of room for the capacity hint (kept within what can be
    /// allocated), hashed with AHash seeded by both seed pairs.
    fn new(capacity: usize) -> (t: Self) {
        let state = ahash_state(SEED1.0, SEED1.1, SEED2.0, SEED2.1);
        let limit = key_limit::<K>();
        let hint = if capacity <= limit { capacity } else { limit };
        let inner = std_set_with_capacity(hint, state);
        proof {
            assert(set_views(inner@) =~= Set::<K::V>::empty());
        }
        StdSetTable { inner, saturated: false, hint: Ghost(capacity as nat) }
    }

    /// Inserts into the set; a set that would outgrow what can be allocated
    /// is marked saturated instead.
    fn insert(&mut self, key: K)
        ensures
            final(self).saturated() ==> old(self).saturated() || old(self).keys().len() >= std_set_limit::<K>(),
            final(self).keys() == old(self).keys().insert(key@) || final(self).keys() == old(self).keys(),
    {
        let len = K::std_set_len(&self.inner);
        if len < key_limit::<K>() {
            let _ = K::std_set_insert(&mut self.inner, key);
        } else {
            self.saturated = true;
        }
    }

    fn find(&self, key: &K) -> (b: bool) {
        K::std_set_contains(&self.inner, key)
    }

    /// Room of the set without reallocating: at least the number of keys.
    fn capacity(&self) -> (c: usize)
        ensures
            c >= self.keys().len(),
    {
        std_set_capacity(&self.inner)
    }

    fn len(&self) -> (n: usize) {
        K::std_set_len(&self.inner)
    }

    fn extra_space(&self) -> (e: usize)
        ensures
            e == 0,
    {
        0
    }
}

} // verus!
