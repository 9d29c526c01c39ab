//! The key abstraction and the common interface of all hash tables.

use vstd::prelude::*;
use crate::hash_utils::{ahash_str, ahash_u64, seeded_hash_str, seeded_hash_u64};
use crate::implns::slots::max_keys;
use crate::implns::std_set::{
    std_set_contains_string, std_set_contains_u64, std_set_insert_string, std_set_insert_u64,
    std_set_len_string, std_set_len_u64,
};

verus! {

/// A key that the tables can store: it can be hashed with a seed pair,
/// compared and duplicated, and its value (its view) is what the tables'
/// contents are made of.
pub trait TableKey: View + Sized {
    /// The seeded hash of a key whose value is `v`.
    spec fn spec_seeded_hash(k0: u64, k1: u64, v: Self::V) -> u64;

    /// Hashes the key with the seed pair `(k0, k1)`.
    fn seeded_hash(&self, k0: u64, k1: u64) -> (h: u64)
        ensures
            h == Self::spec_seeded_hash(k0, k1, self@),
    ;

    /// Compares two keys by value.
    fn key_eq(&self, other: &Self) -> (b: bool)
        ensures
            b == (self@ == other@),
    ;

    /// Duplicates a key.
    fn key_clone(&self) -> (c: Self)
        ensures
            c == *self,
    ;

    /// The value that fills unused slots of a table.
    fn filler() -> Self;

    /// Inserts the key into a std hash set hashed with AHash; true when the
    /// set held no key of its value.
    fn std_set_insert(set: &mut std::collections::HashSet<Self, ahash::RandomState>, key: Self) -> (added: bool)
        requires
            set_views(old(set)@).len() < std_set_limit::<Self>(),
        ensures
            set_views(final(set)@) == set_views(old(set)@).insert(key@),
            added == !set_views(old(set)@).contains(key@),
    ;

    /// Whether a std hash set hashed with AHash holds a key of the key's value.
    fn std_set_contains(set: &std::collections::HashSet<Self, ahash::RandomState>, key: &Self) -> (found: bool)
        ensures
            found == set_views(set@).contains(key@),
    ;

    /// Number of keys of a std hash set hashed with AHash.
    fn std_set_len(set: &std::collections::HashSet<Self, ahash::RandomState>) -> (n: usize)
        ensures
            n == set_views(set@).len(),
    ;
}

/// The values of the keys of a set.
pub open spec fn set_views<K: View>(s: Set<K>) -> Set<K::V> {
    s.map(|k: K| k@)
}

/// Largest number of keys for which a std hash set of keys of type `K` is
/// created or grown here: its table, of at most four buckets of the key's
/// size and a control byte per key, stays far below `isize::MAX` bytes.
pub open spec fn std_set_limit<K>() -> int {
    (isize::MAX as int / 8) / (vstd::layout::size_of::<K>() + 16) as int
}

impl TableKey for u64 {
    open spec fn spec_seeded_hash(k0: u64, k1: u64, v: u64) -> u64 {
        ahash_u64(k0, k1, v)
    }

    fn seeded_hash(&self, k0: u64, k1: u64) -> (h: u64) {
        seeded_hash_u64(k0, k1, *self)
    }

    fn key_eq(&self, other: &u64) -> (b: bool) {
        *self == *other
    }

    fn key_clone(&self) -> (c: u64) {
        *self
    }

    fn filler() -> (f: u64)
        ensures
            f == 0,
    {
        0
    }

    fn std_set_insert(set: &mut std::collections::HashSet<u64, ahash::RandomState>, key: u64) -> (added: bool) {
        std_set_insert_u64(set, key)
    }

    fn std_set_contains(set: &std::collections::HashSet<u64, ahash::RandomState>, key: &u64) -> (found: bool) {
        std_set_contains_u64(set, key)
    }

    fn std_set_len(set: &std::collections::HashSet<u64, ahash::RandomState>) -> (n: usize) {
        std_set_len_u64(set)
    }
}

impl TableKey for String {
    open spec fn spec_seeded_hash(k0: u64, k1: u64, v: Seq<char>) -> u64 {
        ahash_str(k0, k1, v)
    }

    fn seeded_hash(&self, k0: u64, k1: u64) -> (h: u64) {
        seeded_hash_str(k0, k1, self)
    }

    fn key_eq(&self, other: &String) -> (b: bool) {
        self.eq(other)
    }

    fn key_clone(&self) -> (c: String) {
        self.clone()
    }

    fn filler() -> (f: String)
        ensures
            f@ == Seq::<char>::empty(),
    {
        String::new()
    }

    fn std_set_insert(set: &mut std::collections::HashSet<String, ahash::RandomState>, key: String) -> (added: bool) {
        std_set_insert_string(set, key)
    }

    fn std_set_contains(set: &std::collections::HashSet<String, ahash::RandomState>, key: &String) -> (found: bool) {
        std_set_contains_string(set, key)
    }

    fn std_set_len(set: &std::collections::HashSet<String, ahash::RandomState>) -> (n: usize) {
        std_set_len_string(set)
    }
}

/// The values of the keys in a sequence.
pub open spec fn seq_views<K: View>(s: Seq<K>) -> Set<K::V> {
    Set::new(|v: K::V| exists|p: int| 0 <= p < s.len() && s[p]@ == v)
}

/// The values of the first `i + 1` keys are those of the first `i` keys and
/// the value of key `i`; there are at most `i` values among `i` keys.
pub proof fn lemma_seq_views_prefix<K: View>(s: Seq<K>, i: int)
    requires
        0 <= i < s.len(),
    ensures
        seq_views(s.take(i + 1)) == seq_views(s.take(i)).insert(s[i]@),
        seq_views(s.take(i)).finite(),
        seq_views(s.take(i)).len() <= i,
    decreases i,
{
    let a = s.take(i + 1);
    let b = s.take(i);
    assert forall|v: K::V| #[trigger] seq_views(a).contains(v) <==> seq_views(b).insert(s[i]@).contains(v) by {
        if seq_views(a).contains(v) {
            let p = choose|p: int| 0 <= p < a.len() && a[p]@ == v;
            if p < i {
                assert(b[p] == a[p]);
            }
        }
        if seq_views(b).contains(v) {
            let p = choose|p: int| 0 <= p < b.len() && b[p]@ == v;
            assert(a[p] == b[p]);
        }
        if v == s[i]@ {
            assert(a[i] == s[i]);
        }
    }
    assert(seq_views(a) =~= seq_views(b).insert(s[i]@));
    if i == 0 {
        assert(seq_views(b) =~= Set::<K::V>::empty());
    } else {
        lemma_seq_views_prefix(s, i - 1);
    }
}

/// `after` is what inserting a key of value `key` into `before` may give (as
/// `HashTable::insert` states it): the keys of `before` and `key`, or, for a
/// table that saturated, some of them; a saturated table stays saturated.
pub open spec fn inserted<K: TableKey, T: HashTable<K>>(before: T, key: K::V, after: T) -> bool {
    &&& after.keys() == before.keys().insert(key) || after.saturated()
    &&& after.keys() <= before.keys().insert(key)
    &&& before.saturated() ==> after.saturated()
}

/// Common interface for all hash table implementations: a set of keys.
///
/// A table is created from a capacity hint, keys are inserted one at a time
/// (inserting a present key changes nothing) and `find` reports whether a key
/// is present. `capacity`, `len` and `extra_space` report the table's size.
pub trait HashTable<K: TableKey>: Sized {
    /// The table's internal invariant.
    spec fn wf(&self) -> bool;

    /// The values of the keys that the table holds.
    spec fn keys(&self) -> Set<K::V>;

    /// The table could not make room for a key within its largest capacity.
    spec fn saturated(&self) -> bool;

    /// The capacity hint that the table was created with.
    spec fn capacity_hint(&self) -> nat;

    /// Creates an empty table for the given capacity hint.
    fn new(capacity: usize) -> (t: Self)
        requires
            capacity <= max_keys(),
        ensures
            t.wf(),
            t.keys() == Set::<K::V>::empty(),
            !t.saturated(),
            t.capacity_hint() == capacity,
    ;

    /// Inserts a key. The key is present afterwards and no other key is
    /// added; only a saturated table may fail to make room for it.
    fn insert(&mut self, key: K)
        requires
            old(self).wf(),
            old(self).keys().len() < max_keys(),
        ensures
            final(self).wf(),
            final(self).keys().finite(),
            final(self).keys() == old(self).keys().insert(key@) || final(self).saturated(),
            final(self).keys() <= old(self).keys().insert(key@),
            old(self).saturated() ==> final(self).saturated(),
            final(self).capacity_hint() == old(self).capacity_hint(),
    ;

    /// Returns true if the key is present.
    fn find(&self, key: &K) -> (b: bool)
        requires
            self.wf(),
        ensures
            b == self.keys().contains(key@),
    ;

    /// `c` is a number of slots that `capacity` may report for the table.
    spec fn reports_capacity(&self, c: nat) -> bool;

    /// `e` is a number of overflow slots that `extra_space` may report for
    /// the table.
    spec fn reports_extra_space(&self, e: nat) -> bool;

    /// Number of slots of the table.
    fn capacity(&self) -> (c: usize)
        requires
            self.wf(),
        ensures
            self.reports_capacity(c as nat),
    ;

    /// Number of keys in the table.
    fn len(&self) -> (n: usize)
        requires
            self.wf(),
        ensures
            n == self.keys().len(),
            self.keys().finite(),
    ;

    /// Number of overflow slots beside the table's main slots.
    fn extra_space(&self) -> (e: usize)
        requires
            self.wf(),
        ensures
            self.reports_extra_space(e as nat),
    ;
}

} // verus!
