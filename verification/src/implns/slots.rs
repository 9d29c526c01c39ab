//! Slot arrays shared by the open-addressing tables: their contents, the
//! number of occupied slots, and the sizing rule for initial capacities.

use vstd::prelude::*;
use crate::trait_def::TableKey;
use crate::hash_utils::{hash1, spec_hash1};

verus! {

/// `n` is a power of two.
pub open spec fn is_pow2(n: int) -> bool
    decreases n,
{
    if n <= 0 {
        false
    } else if n == 1 {
        true
    } else {
        n % 2 == 0 && is_pow2(n / 2)
    }
}

/// `p` is the smallest power of two that is at least `n`.
pub open spec fn is_next_pow2(n: int, p: int) -> bool {
    &&& is_pow2(p)
    &&& p >= n
    &&& (p == 1 || p / 2 < n)
}

/// `p` doubled until it is at least `n` (`p` itself when it is already).
pub open spec fn doubled_until(n: int, p: int) -> int
    decreases (if p < n { n - p } else { 0 }),
    when p > 0
{
    if p >= n {
        p
    } else {
        doubled_until(n, 2 * p)
    }
}

/// The next power of two of `n`: 1 doubled until it is at least `n`.
pub open spec fn next_pow2_of(n: int) -> int {
    doubled_until(n, 1)
}

/// The capacity that the tables allocate for a capacity hint: the next power
/// of two of the hint, and at least 16.
pub open spec fn spec_table_capacity(hint: int, cap: int) -> bool {
    cap == if next_pow2_of(hint) < 16 { 16 } else { next_pow2_of(hint) }
}

/// Largest capacity hint and largest number of keys that the tables accept:
/// beyond it their capacities could no longer double within `usize`.
pub open spec fn max_keys() -> int {
    (usize::MAX / 16) as int
}

/// Smallest power of two that is at least `n` (as `usize::next_power_of_two`).
pub fn next_power_of_two(n: usize) -> (p: usize)
    requires
        n <= usize::MAX / 8,
    ensures
        is_next_pow2(n as int, p as int),
        p == next_pow2_of(n as int),
        p <= 2 * n || p == 1,
{
    let mut p: usize = 1;
    while p < n
        invariant
            n <= usize::MAX / 8,
            is_pow2(p as int),
            p >= 1,
            p == 1 || p / 2 < n,
            doubled_until(n as int, p as int) == next_pow2_of(n as int),
        decreases usize::MAX - p,
    {
        assert(is_pow2(2 * p as int)) by {
            assert((2 * p as int) / 2 == p as int);
        }
        p = p * 2;
    }
    p
}

/// The initial capacity of a table for a capacity hint:
/// `hint.next_power_of_two().max(16)`.
pub fn table_capacity(hint: usize) -> (cap: usize)
    requires
        hint <= usize::MAX / 8,
    ensures
        spec_table_capacity(hint as int, cap as int),
        is_pow2(cap as int),
        16 <= cap <= usize::MAX / 4,
        cap >= hint,
{
    let p = next_power_of_two(hint);
    proof {
        reveal_with_fuel(is_pow2, 5);
        assert(is_pow2(16));
    }
    if p < 16 { 16 } else { p }
}

/// The keys (by value) held in a slot array.
pub open spec fn slot_keys<K: View>(slots: Seq<Option<K>>) -> Set<K::V> {
    Set::new(|v: K::V| exists|i: int| 0 <= i < slots.len() && slots[i] is Some && slots[i]->0@ == v)
}

/// No two occupied slots hold keys of equal value.
pub open spec fn slots_distinct<K: View>(slots: Seq<Option<K>>) -> bool {
    forall|i: int, j: int|
        0 <= i < slots.len() && 0 <= j < slots.len() && i != j && slots[i] is Some
            && slots[j] is Some ==> slots[i]->0@ != slots[j]->0@
}

/// Number of occupied slots.
pub open spec fn num_occupied<K>(slots: Seq<Option<K>>) -> nat
    decreases slots.len(),
{
    if slots.len() == 0 {
        0
    } else {
        num_occupied(slots.drop_last()) + if slots.last() is Some { 1nat } else { 0nat }
    }
}

/// Slot at which the probe sequence of a key of value `v` starts, in a table
/// of `cap` slots: `(hash1(key) as usize) % cap`.
pub open spec fn home_slot<K: TableKey>(v: K::V, cap: int) -> int {
    (spec_hash1::<K>(v) as usize) as int % cap
}

/// Computes the home slot of `key` in a table of `cap` slots.
pub fn home_index<K: TableKey>(key: &K, cap: usize) -> (i: usize)
    requires
        cap > 0,
    ensures
        i == home_slot::<K>(key@, cap as int),
        i < cap,
{
    (hash1(key) as usize) % cap
}

/// A vector of `n` empty slots.
pub fn empty_slots<K>(n: usize) -> (v: Vec<Option<K>>)
    ensures
        v@.len() == n,
        forall|i: int| 0 <= i < n ==> v@[i] is None,
{
    let mut v: Vec<Option<K>> = Vec::with_capacity(n);
    let mut i: usize = 0;
    while i < n
        invariant
            i <= n,
            v@.len() == i,
            forall|j: int| 0 <= j < i ==> v@[j] is None,
        decreases n - i,
    {
        v.push(None);
        i = i + 1;
    }
    v
}

pub proof fn lemma_num_occupied_bound<K>(slots: Seq<Option<K>>)
    ensures
        num_occupied(slots) <= slots.len(),
        (forall|i: int| 0 <= i < slots.len() ==> slots[i] is Some) ==> num_occupied(slots)
            == slots.len(),
        (forall|i: int| 0 <= i < slots.len() ==> slots[i] is None) ==> num_occupied(slots) == 0,
    decreases slots.len(),
{
    if slots.len() > 0 {
        lemma_num_occupied_bound(slots.drop_last());
    }
}

pub proof fn lemma_num_occupied_update<K>(slots: Seq<Option<K>>, i: int, x: Option<K>)
    requires
        0 <= i < slots.len(),
    ensures
        num_occupied(slots.update(i, x)) + (if slots[i] is Some { 1int } else { 0int })
            == num_occupied(slots) + (if x is Some { 1int } else { 0int }),
    decreases slots.len(),
{
    let s2 = slots.update(i, x);
    if i == slots.len() - 1 {
        assert(s2.drop_last() =~= slots.drop_last());
    } else {
        lemma_num_occupied_update(slots.drop_last(), i, x);
        assert(s2.drop_last() =~= slots.drop_last().update(i, x));
    }
}

/// Occupied slots of a prefix, one step at a time.
pub proof fn lemma_num_occupied_prefix<K>(slots: Seq<Option<K>>, i: int)
    requires
        0 <= i < slots.len(),
    ensures
        num_occupied(slots.subrange(0, i + 1)) == num_occupied(slots.subrange(0, i)) + if slots[i] is Some { 1nat } else { 0nat },
{
    assert(slots.subrange(0, i + 1).drop_last() =~= slots.subrange(0, i));
}

/// Keys of a prefix, one step at a time.
pub proof fn lemma_slot_keys_prefix<K: View>(slots: Seq<Option<K>>, i: int)
    requires
        0 <= i < slots.len(),
    ensures
        slots[i] is Some ==> slot_keys(slots.subrange(0, i + 1)) == slot_keys(slots.subrange(0, i)).insert(slots[i]->0@),
        slots[i] is None ==> slot_keys(slots.subrange(0, i + 1)) == slot_keys(slots.subrange(0, i)),
{
    let a = slots.subrange(0, i + 1);
    let b = slots.subrange(0, i);
    if slots[i] is Some {
        assert forall|v: K::V| slot_keys(a).contains(v) <==> #[trigger] slot_keys(b).insert(slots[i]->0@).contains(v) by {
            if slot_keys(a).contains(v) {
                let j = choose|j: int| 0 <= j < a.len() && a[j] is Some && a[j]->0@ == v;
                if j < i {
                    assert(b[j] == a[j]);
                }
            }
            if slot_keys(b).contains(v) {
                let j = choose|j: int| 0 <= j < b.len() && b[j] is Some && b[j]->0@ == v;
                assert(a[j] == b[j]);
            }
            if v == slots[i]->0@ {
                assert(a[i] == slots[i]);
            }
        }
        assert(slot_keys(a) =~= slot_keys(b).insert(slots[i]->0@));
    } else {
        assert forall|v: K::V| slot_keys(a).contains(v) <==> #[trigger] slot_keys(b).contains(v) by {
            if slot_keys(a).contains(v) {
                let j = choose|j: int| 0 <= j < a.len() && a[j] is Some && a[j]->0@ == v;
                if j < i {
                    assert(b[j] == a[j]);
                }
            }
            if slot_keys(b).contains(v) {
                let j = choose|j: int| 0 <= j < b.len() && b[j] is Some && b[j]->0@ == v;
                assert(a[j] == b[j]);
            }
        }
        assert(slot_keys(a) =~= slot_keys(b));
    }
}

/// With distinct keys, the key set is finite and as large as the number of
/// occupied slots.
pub proof fn lemma_slot_keys_len<K: View>(slots: Seq<Option<K>>)
    requires
        slots_distinct(slots),
    ensures
        slot_keys(slots).finite(),
        slot_keys(slots).len() == num_occupied(slots),
    decreases slots.len(),
{
    if slots.len() == 0 {
        assert(slot_keys(slots) =~= Set::<K::V>::empty());
    } else {
        let n = slots.len() - 1;
        let init = slots.drop_last();
        assert(slots.subrange(0, n) =~= init);
        assert(slots.subrange(0, n + 1) =~= slots);
        lemma_slot_keys_len(init);
        lemma_slot_keys_prefix(slots, n);
        if slots[n] is Some {
            if slot_keys(init).contains(slots[n]->0@) {
                let j = choose|j: int| 0 <= j < init.len() && init[j] is Some && init[j]->0@ == slots[n]->0@;
                assert(slots[j] == init[j]);
            }
        }
    }
}

/// Storing a key of a new value in an empty slot adds that value to the keys.
pub proof fn lemma_slot_keys_fill<K: View>(slots: Seq<Option<K>>, i: int, k: K)
    requires
        0 <= i < slots.len(),
        slots[i] is None,
    ensures
        slot_keys(slots.update(i, Some(k))) == slot_keys(slots).insert(k@),
{
    let s2 = slots.update(i, Some(k));
    assert forall|v: K::V| slot_keys(s2).contains(v) <==> #[trigger] slot_keys(slots).insert(k@).contains(v) by {
        if slot_keys(s2).contains(v) {
            let j = choose|j: int| 0 <= j < s2.len() && s2[j] is Some && s2[j]->0@ == v;
            if j != i {
                assert(slots[j] == s2[j]);
            }
        }
        if slot_keys(slots).contains(v) {
            let j = choose|j: int| 0 <= j < slots.len() && slots[j] is Some && slots[j]->0@ == v;
            assert(s2[j] == slots[j]);
        }
        if v == k@ {
            assert(s2[i] == Some(k));
        }
    }
    assert(slot_keys(s2) =~= slot_keys(slots).insert(k@));
}

/// Emptying the slot of a key removes that key's value, when keys are distinct.
pub proof fn lemma_slot_keys_clear<K: View>(slots: Seq<Option<K>>, i: int)
    requires
        0 <= i < slots.len(),
        slots[i] is Some,
        slots_distinct(slots),
    ensures
        slot_keys(slots.update(i, None)) == slot_keys(slots).remove(slots[i]->0@),
        slots_distinct(slots.update(i, None)),
{
    let s2 = slots.update(i, None);
    let k = slots[i]->0@;
    assert forall|v: K::V| slot_keys(s2).contains(v) <==> #[trigger] slot_keys(slots).remove(k).contains(v) by {
        if slot_keys(s2).contains(v) {
            let j = choose|j: int| 0 <= j < s2.len() && s2[j] is Some && s2[j]->0@ == v;
            assert(slots[j] == s2[j]);
        }
        if slot_keys(slots).remove(k).contains(v) {
            let j = choose|j: int| 0 <= j < slots.len() && slots[j] is Some && slots[j]->0@ == v;
            assert(s2[j] == slots[j]);
        }
    }
    assert(slot_keys(s2) =~= slot_keys(slots).remove(k));
}

/// Storing a key of a new value in an empty slot keeps the keys distinct.
pub proof fn lemma_slots_distinct_fill<K: View>(slots: Seq<Option<K>>, i: int, k: K)
    requires
        0 <= i < slots.len(),
        slots[i] is None,
        slots_distinct(slots),
        !slot_keys(slots).contains(k@),
    ensures
        slots_distinct(slots.update(i, Some(k))),
{
    let ns = slots.update(i, Some(k));
    assert forall|a: int, b: int|
        0 <= a < ns.len() && 0 <= b < ns.len() && a != b && ns[a] is Some && ns[b] is Some
        implies ns[a]->0@ != ns[b]->0@ by {
        if a == i {
            assert(slots[b] is Some && slot_keys(slots).contains(slots[b]->0@));
        } else if b == i {
            assert(slots[a] is Some && slot_keys(slots).contains(slots[a]->0@));
        }
    }
}


/// Indices of the occupied slots.
pub open spec fn occupied_indices<K>(slots: Seq<Option<K>>) -> Set<int> {
    Set::new(|i: int| 0 <= i < slots.len() && slots[i] is Some)
}

/// There are as many occupied indices as occupied slots.
pub proof fn lemma_occupied_indices<K>(slots: Seq<Option<K>>)
    ensures
        occupied_indices(slots).finite(),
        occupied_indices(slots).len() == num_occupied(slots),
    decreases slots.len(),
{
    if slots.len() == 0 {
        assert(occupied_indices(slots) =~= Set::<int>::empty());
    } else {
        let init = slots.drop_last();
        let last = slots.len() - 1;
        lemma_occupied_indices(init);
        if slots[last] is Some {
            assert(occupied_indices(slots) =~= occupied_indices(init).insert(last));
        } else {
            assert(occupied_indices(slots) =~= occupied_indices(init));
        }
    }
}

/// A prefix holds no more occupied slots than the whole array, and one
/// fewer at least when the slot right after it is occupied.
pub proof fn lemma_num_occupied_prefix_le<K>(slots: Seq<Option<K>>, j: int)
    requires
        0 <= j <= slots.len(),
    ensures
        num_occupied(slots.subrange(0, j)) <= num_occupied(slots),
        j < slots.len() && slots[j] is Some ==> num_occupied(slots.subrange(0, j)) + 1 <= num_occupied(slots),
    decreases slots.len() - j,
{
    if j == slots.len() {
        assert(slots.subrange(0, j) =~= slots);
    } else {
        lemma_num_occupied_prefix(slots, j);
        lemma_num_occupied_prefix_le(slots, j + 1);
    }
}

} // verus!
