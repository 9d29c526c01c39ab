//! Linear-probing baseline.

use vstd::prelude::*;
use crate::implns::slots::{
    empty_slots, home_index, home_slot, lemma_num_occupied_bound, lemma_num_occupied_prefix,
    lemma_num_occupied_update, lemma_slot_keys_clear, lemma_slot_keys_fill, lemma_slot_keys_len,
    lemma_slot_keys_prefix, lemma_slots_distinct_fill,
    is_pow2, max_keys, num_occupied, slot_keys, slots_distinct, spec_table_capacity, table_capacity,
};
use crate::trait_def::{HashTable, TableKey};

verus! {

/// Slot reached after `s` steps from slot `h` in a table of `cap` slots.
pub open spec fn lin_pos(h: int, s: int, cap: int) -> int {
    if h + s < cap {
        h + s
    } else {
        h + s - cap
    }
}

/// Number of steps from slot `h` to slot `i` in a table of `cap` slots.
pub open spec fn lin_dist(h: int, i: int, cap: int) -> int {
    if h <= i {
        i - h
    } else {
        i + cap - h
    }
}

/// Step `d` is the first step of the probe sequence from slot `h` that
/// meets an empty slot.
pub open spec fn linear_first_free<K>(slots: Seq<Option<K>>, h: int, d: int) -> bool {
    let cap = slots.len() as int;
    &&& 0 <= d < cap
    &&& slots[lin_pos(h, d, cap)] is None
    &&& forall|t: int| 0 <= t < d ==> #[trigger] slots[lin_pos(h, t, cap)] is Some
}

/// The key in slot `i` is reachable from its home slot through occupied slots.
pub open spec fn linear_chain<K: TableKey>(slots: Seq<Option<K>>, i: int) -> bool {
    let cap = slots.len() as int;
    let h = home_slot::<K>(slots[i]->0@, cap);
    forall|s: int| 0 <= s < lin_dist(h, i, cap) ==> #[trigger] slots[lin_pos(h, s, cap)] is Some
}

/// Invariant of a linear-probing slot array.
pub open spec fn linear_slots_wf<K: TableKey>(slots: Seq<Option<K>>) -> bool {
    &&& slots.len() > 0
    &&& slots_distinct(slots)
    &&& forall|i: int| #![trigger slots[i]] 0 <= i < slots.len() && slots[i] is Some ==> linear_chain(slots, i)
}

/// A key that is not met on its probe sequence before an empty slot (or
/// before the sequence wraps around) is not in the table.
pub proof fn lemma_linear_absent<K: TableKey>(slots: Seq<Option<K>>, v: K::V, s: int)
    requires
        linear_slots_wf(slots),
        0 <= s <= slots.len(),
        s < slots.len() ==> slots[lin_pos(home_slot::<K>(v, slots.len() as int), s, slots.len() as int)] is None,
        forall|t: int| #![trigger lin_pos(home_slot::<K>(v, slots.len() as int), t, slots.len() as int)] 0 <= t < s ==> {
            let p = lin_pos(home_slot::<K>(v, slots.len() as int), t, slots.len() as int);
            slots[p] is Some && slots[p]->0@ != v
        },
    ensures
        !slot_keys(slots).contains(v),
{
    let cap = slots.len() as int;
    let h = home_slot::<K>(v, cap);
    if slot_keys(slots).contains(v) {
        let j = choose|j: int| 0 <= j < slots.len() && slots[j] is Some && slots[j]->0@ == v;
        let d = lin_dist(h, j, cap);
        assert(0 <= h < cap);
        assert(lin_pos(h, d, cap) == j);
        if d < s {
            let p = lin_pos(h, d, cap);
            assert(slots[p] is Some && slots[p]->0@ != v);
        } else if d > s {
            assert(linear_chain(slots, j));
            assert(slots[lin_pos(h, s, cap)] is Some);
        }
    }
}

/// Positions and distances on a ring of `cap` slots.
pub proof fn lemma_ring(cap: int, a: int, b: int, t: int)
    requires
        0 <= a < cap,
        0 <= b < cap,
        0 <= t < cap,
    ensures
        0 <= lin_dist(a, b, cap) < cap,
        0 <= lin_pos(a, t, cap) < cap,
        lin_pos(a, lin_dist(a, b, cap), cap) == b,
        lin_dist(a, lin_pos(a, t, cap), cap) == t,
        a != b ==> lin_dist(a, b, cap) + lin_dist(b, a, cap) == cap,
        lin_dist(b, a, cap) + t < cap ==> lin_dist(b, lin_pos(a, t, cap), cap) == lin_dist(b, a, cap) + t,
        lin_dist(b, a, cap) + t >= cap ==> lin_dist(b, lin_pos(a, t, cap), cap) == lin_dist(b, a, cap) + t - cap,
{
}

/// The probe path of an occupied slot never passes an empty slot `z`: seen
/// from `z`, the path from the key's home slot runs forward without wrapping.
pub proof fn lemma_path_avoids<K: TableKey>(slots: Seq<Option<K>>, i: int, z: int)
    requires
        0 <= i < slots.len(),
        0 <= z < slots.len(),
        slots[i] is Some,
        slots[z] is None,
        linear_chain(slots, i),
    ensures
        ({
            let cap = slots.len() as int;
            let h = home_slot::<K>(slots[i]->0@, cap);
            &&& 0 <= h < cap
            &&& lin_dist(z, h, cap) + lin_dist(h, i, cap) < cap
            &&& lin_dist(z, i, cap) == lin_dist(z, h, cap) + lin_dist(h, i, cap)
        }),
{
    let cap = slots.len() as int;
    let h = home_slot::<K>(slots[i]->0@, cap);
    let l = lin_dist(h, i, cap);
    assert(0 <= h < cap);
    lemma_ring(cap, h, z, 0);
    lemma_ring(cap, h, i, 0);
    let d = lin_dist(h, z, cap);
    if d <= l {
        if d < l {
            assert(slots[lin_pos(h, d, cap)] is Some);
        }
    }
    lemma_ring(cap, z, h, 0);
    lemma_ring(cap, h, z, l);
}

/// During a removal that emptied slot `idx`: the slots `k` or more steps
/// after `idx` hold what they held before the removal.
pub open spec fn unvisited_kept<K>(o: Seq<Option<K>>, s: Seq<Option<K>>, idx: int, k: int) -> bool {
    forall|p: int| #![trigger s[p]] 0 <= p < s.len() && lin_dist(idx, p, s.len() as int) >= k ==> s[p] == o[p]
}

/// During a removal that emptied slot `idx`: every key fewer than `k` steps
/// after `idx` is reachable from its home slot.
pub open spec fn visited_chained<K: TableKey>(s: Seq<Option<K>>, idx: int, k: int) -> bool {
    forall|p: int| #![trigger s[p]] 0 <= p < s.len() && lin_dist(idx, p, s.len() as int) < k && s[p] is Some ==> linear_chain(s, p)
}

/// One step of the re-insertion that follows a removal at `idx`: the key
/// `k` steps after `idx` is taken out and placed again at `r`, the first empty
/// slot of its probe path.
pub proof fn lemma_removal_step<K: TableKey>(
    o: Seq<Option<K>>,
    s: Seq<Option<K>>,
    s2: Seq<Option<K>>,
    idx: int,
    k: int,
    d_e: int,
    r: int,
)
    requires
        linear_slots_wf(o),
        s.len() == o.len(),
        0 <= idx < o.len(),
        1 <= k < d_e < o.len(),
        o[lin_pos(idx, d_e, o.len() as int)] is None,
        unvisited_kept(o, s, idx, k),
        visited_chained(s, idx, k),
        slots_distinct(s),
        s[lin_pos(idx, k, o.len() as int)] is Some,
        0 <= r < o.len(),
        s.update(lin_pos(idx, k, o.len() as int), None)[r] is None,
        forall|t: int| 0 <= t < lin_dist(home_slot::<K>(s[lin_pos(idx, k, o.len() as int)]->0@, o.len() as int), r, o.len() as int)
            ==> #[trigger] s.update(lin_pos(idx, k, o.len() as int), None)[lin_pos(home_slot::<K>(s[lin_pos(idx, k, o.len() as int)]->0@, o.len() as int), t, o.len() as int)] is Some,
        s2 == s.update(lin_pos(idx, k, o.len() as int), None).update(r, s[lin_pos(idx, k, o.len() as int)]),
    ensures
        unvisited_kept(o, s2, idx, k + 1),
        visited_chained(s2, idx, k + 1),
        slots_distinct(s2),
        slot_keys(s2) == slot_keys(s),
        num_occupied(s2) == num_occupied(s),
{
    let cap = o.len() as int;
    let next = lin_pos(idx, k, cap);
    let z = lin_pos(idx, d_e, cap);
    let s1 = s.update(next, None);
    let e = s[next]->0;
    let he = home_slot::<K>(e@, cap);
    lemma_ring(cap, idx, idx, k);
    lemma_ring(cap, idx, idx, d_e);
    assert(lin_dist(idx, next, cap) == k);
    assert(lin_dist(idx, z, cap) == d_e);
    assert(s[next] == o[next]);
    assert(s[z] == o[z]);
    assert(linear_chain(o, next));
    lemma_path_avoids(o, next, z);
    lemma_ring(cap, idx, z, k);
    assert(lin_dist(z, next, cap) == k + cap - d_e);
    assert(0 <= he < cap);
    lemma_ring(cap, he, next, 0);
    lemma_ring(cap, he, r, 0);
    let le = lin_dist(he, next, cap);
    let tr = lin_dist(he, r, cap);
    if tr > le {
        assert(s1[lin_pos(he, le, cap)] is Some);
    }
    lemma_ring(cap, he, z, tr);
    assert(lin_dist(z, r, cap) == lin_dist(z, he, cap) + tr);
    lemma_ring(cap, z, idx, lin_dist(z, r, cap));
    lemma_ring(cap, z, r, 0);
    let rd_r = lin_dist(idx, r, cap);
    if rd_r > k {
        assert(r != next);
        assert(tr < le);
        assert(o[lin_pos(he, tr, cap)] is Some);
        assert(s[r] == o[r]);
    }
    assert(rd_r <= k);
    // keys and counts
    lemma_slot_keys_clear(s, next);
    lemma_num_occupied_update(s, next, None);
    assert(!slot_keys(s1).contains(e@));
    lemma_slots_distinct_fill(s1, r, e);
    lemma_slot_keys_fill(s1, r, e);
    lemma_num_occupied_update(s1, r, Some(e));
    assert(slot_keys(s).contains(e@));
    assert(slot_keys(s2) =~= slot_keys(s));
    // slots far from idx are untouched
    assert forall|p: int| #![trigger s2[p]] 0 <= p < s2.len() && lin_dist(idx, p, cap) >= k + 1 implies s2[p] == o[p] by {
        assert(s[p] == o[p]);
    }
    // keys near idx are reachable
    assert forall|p: int| #![trigger s2[p]] 0 <= p < s2.len() && lin_dist(idx, p, cap) < k + 1 && s2[p] is Some implies linear_chain(s2, p) by {
        if p == r {
            assert forall|t: int| 0 <= t < lin_dist(he, r, cap) implies #[trigger] s2[lin_pos(he, t, cap)] is Some by {
                assert(s1[lin_pos(he, t, cap)] is Some);
            }
        } else {
            assert(p != next);
            assert(s2[p] == s[p]);
            lemma_ring(cap, idx, p, 0);
            assert(lin_dist(idx, p, cap) < k);
            assert(linear_chain(s, p));
            lemma_path_avoids(s, p, z);
            let hp = home_slot::<K>(s[p]->0@, cap);
            lemma_ring(cap, idx, z, lin_dist(idx, p, cap));
            assert(lin_dist(z, p, cap) == lin_dist(idx, p, cap) + cap - d_e);
            assert forall|t: int| 0 <= t < lin_dist(hp, p, cap) implies #[trigger] s2[lin_pos(hp, t, cap)] is Some by {
                let q = lin_pos(hp, t, cap);
                lemma_ring(cap, hp, z, t);
                assert(lin_dist(z, q, cap) == lin_dist(z, hp, cap) + t);
                assert(q != next);
                assert(s[q] is Some);
            }
        }
    }
}

/// When the re-insertion after a removal at `idx` reaches an empty slot `k`
/// steps after `idx`, the slot array is a linear-probing array again.
pub proof fn lemma_removal_done<K: TableKey>(o: Seq<Option<K>>, s: Seq<Option<K>>, idx: int, k: int)
    requires
        linear_slots_wf(o),
        s.len() == o.len(),
        0 <= idx < o.len(),
        1 <= k < o.len(),
        unvisited_kept(o, s, idx, k),
        visited_chained(s, idx, k),
        slots_distinct(s),
        s[lin_pos(idx, k, o.len() as int)] is None,
    ensures
        linear_slots_wf(s),
{
    let cap = o.len() as int;
    let next = lin_pos(idx, k, cap);
    lemma_ring(cap, idx, idx, k);
    assert(o[next] is None);
    assert forall|p: int| #![trigger s[p]] 0 <= p < s.len() && s[p] is Some implies linear_chain(s, p) by {
        let rd = lin_dist(idx, p, cap);
        lemma_ring(cap, idx, p, 0);
        if rd >= k {
            assert(rd != k);
            assert(s[p] == o[p]);
            assert(linear_chain(o, p));
            lemma_path_avoids(o, p, next);
            let hp = home_slot::<K>(o[p]->0@, cap);
            lemma_ring(cap, idx, next, rd);
            assert(lin_dist(next, p, cap) == rd - k);
            assert forall|t: int| 0 <= t < lin_dist(hp, p, cap) implies #[trigger] s[lin_pos(hp, t, cap)] is Some by {
                let q = lin_pos(hp, t, cap);
                lemma_ring(cap, hp, next, t);
                lemma_ring(cap, next, idx, lin_dist(next, q, cap));
                lemma_ring(cap, next, q, 0);
                assert(o[q] is Some);
                assert(s[q] == o[q]);
            }
        }
    }
}

/// Open-addressed hash table with one-slot-at-a-time probe advancement.
pub struct LinearTable<K> {
    slots: Vec<Option<K>>,
    capacity: usize,
    count: usize,
    /// The capacity hint that the table was created with.
    hint: Ghost<nat>,
}

impl<K: TableKey> LinearTable<K> {
    /// Looks a key up in a slot array: probes from its home slot until the
    /// key, an empty slot, or the home slot again.
    pub fn raw_find(slots: &Vec<Option<K>>, capacity: usize, key: &K) -> (b: bool)
        requires
            slots@.len() == capacity,
            linear_slots_wf(slots@),
        ensures
            b == slot_keys(slots@).contains(key@),
    {
        let ghost cap = capacity as int;
        let start = home_index(key, capacity);
        let ghost h = start as int;
        let mut idx = start;
        let ghost mut s: int = 0;
        loop
            invariant
                slots@.len() == capacity,
                linear_slots_wf(slots@),
                cap == capacity as int,
                h == start as int,
                h == home_slot::<K>(key@, cap),
                0 <= h < cap,
                0 <= s < cap,
                idx == lin_pos(h, s, cap),
                forall|t: int| #![trigger lin_pos(h, t, cap)] 0 <= t < s ==> {
                    let p = lin_pos(h, t, cap);
                    slots@[p] is Some && slots@[p]->0@ != key@
                },
            decreases cap - s,
        {
            match &slots[idx] {
                None => {
                    proof {
                        lemma_linear_absent(slots@, key@, s);
                    }
                    return false;
                },
                Some(k) => {
                    if k.key_eq(key) {
                        proof {
                            assert(slots@[idx as int] is Some && slots@[idx as int]->0@ == key@);
                        }
                        return true;
                    }
                    idx = if idx + 1 == capacity { 0 } else { idx + 1 };
                    proof {
                        s = s + 1;
                    }
                    if idx == start {
                        proof {
                            lemma_linear_absent(slots@, key@, s);
                        }
                        return false;
                    }
                },
            }
        }
    }

    /// Inserts into an existing slot array without triggering growth; returns
    /// false when the key was already present.
    pub(crate) fn raw_insert(slots: &mut Vec<Option<K>>, capacity: usize, key: K) -> (inserted: bool)
        requires
            old(slots)@.len() == capacity,
            linear_slots_wf(old(slots)@),
            num_occupied(old(slots)@) < capacity,
        ensures
            final(slots)@.len() == capacity,
            linear_slots_wf(final(slots)@),
            slot_keys(final(slots)@) == slot_keys(old(slots)@).insert(key@),
            inserted == !slot_keys(old(slots)@).contains(key@),
            num_occupied(final(slots)@) == num_occupied(old(slots)@) + if inserted { 1nat } else { 0nat },
            !inserted ==> final(slots)@ == old(slots)@,
            inserted ==> exists|d: int|
                #[trigger] linear_first_free(old(slots)@, home_slot::<K>(key@, capacity as int), d)
                && final(slots)@ == old(slots)@.update(lin_pos(home_slot::<K>(key@, capacity as int), d, capacity as int), Some(key)),
    {
        let ghost cap = capacity as int;
        let start = home_index(&key, capacity);
        let ghost h = start as int;
        let mut idx = start;
        let ghost mut s: int = 0;
        loop
            invariant
                slots@.len() == capacity,
                *slots == *old(slots),
                linear_slots_wf(slots@),
                num_occupied(slots@) < capacity,
                cap == capacity as int,
                h == start as int,
                h == home_slot::<K>(key@, cap),
                0 <= h < cap,
                0 <= s < cap,
                idx == lin_pos(h, s, cap),
                forall|t: int| #![trigger lin_pos(h, t, cap)] 0 <= t < s ==> {
                    let p = lin_pos(h, t, cap);
                    slots@[p] is Some && slots@[p]->0@ != key@
                },
            decreases cap - s,
        {
            let is_empty = slots[idx].is_none();
            if is_empty {
                proof {
                    lemma_linear_absent(slots@, key@, s);
                    lemma_slot_keys_fill(slots@, idx as int, key);
                    lemma_num_occupied_update(slots@, idx as int, Some(key));
                }
                let ghost old_slots = slots@;
                proof {
                    assert(linear_first_free(old_slots, h, s));
                }
                slots.set(idx, Some(key));
                proof {
                    let ns = slots@;
                    assert(lin_dist(h, idx as int, cap) == s);
                    assert forall|i: int| #![trigger ns[i]] 0 <= i < ns.len() && ns[i] is Some implies linear_chain(ns, i) by {
                        if i != idx {
                            assert(linear_chain(old_slots, i));
                            let hi = home_slot::<K>(ns[i]->0@, cap);
                            assert forall|t: int| 0 <= t < lin_dist(hi, i, cap) implies #[trigger] ns[lin_pos(hi, t, cap)] is Some by {
                                assert(old_slots[lin_pos(hi, t, cap)] is Some);
                            }
                        } else {
                            assert forall|t: int| 0 <= t < lin_dist(h, i, cap) implies #[trigger] ns[lin_pos(h, t, cap)] is Some by {
                                let p = lin_pos(h, t, cap);
                                assert(old_slots[p] is Some);
                            }
                        }
                    }
                    assert forall|i: int, j: int|
                        0 <= i < ns.len() && 0 <= j < ns.len() && i != j && ns[i] is Some && ns[j] is Some
                        implies ns[i]->0@ != ns[j]->0@ by {
                        if i == idx {
                            assert(old_slots[j] is Some);
                            assert(slot_keys(old_slots).contains(old_slots[j]->0@));
                        } else if j == idx {
                            assert(old_slots[i] is Some);
                            assert(slot_keys(old_slots).contains(old_slots[i]->0@));
                        }
                    }
                }
                return true;
            }
            let matches = match &slots[idx] {
                Some(k) => k.key_eq(&key),
                None => false,
            };
            if matches {
                proof {
                    assert(slots@[idx as int] is Some && slots@[idx as int]->0@ == key@);
                    assert(slot_keys(slots@).contains(key@));
                    assert(slot_keys(slots@) =~= slot_keys(slots@).insert(key@));
                }
                return false;
            }
            idx = if idx + 1 == capacity { 0 } else { idx + 1 };
            proof {
                s = s + 1;
                if s == cap {
                    assert forall|i: int| 0 <= i < cap implies slots@[i] is Some by {
                        let d = lin_dist(h, i, cap);
                        assert(lin_pos(h, d, cap) == i);
                    }
                    lemma_num_occupied_bound(slots@);
                }
            }
        }
    }
}

impl<K: TableKey> LinearTable<K> {
    /// The table's invariant: the slot array is a linear-probing array with
    /// `count` keys, at most three quarters of the slots are taken, and there
    /// is always an empty slot.
    pub closed spec fn inv(&self) -> bool {
        &&& self.slots@.len() == self.capacity
        &&& linear_slots_wf(self.slots@)
        &&& self.count == num_occupied(self.slots@)
        &&& self.count < self.capacity
        &&& 4 * self.count <= 3 * self.capacity
        &&& self.capacity <= usize::MAX / 3
        &&& is_pow2(self.capacity as int)
        &&& self.capacity >= 16
    }

    /// Rehashes all stored keys into a table with doubled capacity.
    fn grow(&mut self)
        requires
            old(self).inv(),
            old(self).capacity <= usize::MAX / 6,
        ensures
            final(self).inv(),
            slot_keys(final(self).slots@) == slot_keys(old(self).slots@),
            final(self).count == old(self).count,
            final(self).capacity == 2 * old(self).capacity,
            final(self).hint == old(self).hint,
    {
        let new_cap = self.capacity * 2;
        let mut new_slots: Vec<Option<K>> = empty_slots(new_cap);
        proof {
            assert forall|j: int| 0 <= j < new_slots@.len() && #[trigger] new_slots@[j] is Some implies false by {}
            assert(slot_keys(new_slots@) =~= Set::<K::V>::empty());
            lemma_num_occupied_bound(new_slots@);
        }
        let mut drained: Vec<Option<K>> = Vec::new();
        std::mem::swap(&mut drained, &mut self.slots);
        let ghost old0 = drained@;
        let old_len = drained.len();
        assert(old0.subrange(0, 0) =~= Seq::<Option<K>>::empty());
        proof {
            assert(slot_keys(old0.subrange(0, 0)) =~= Set::<K::V>::empty());
        }
        let mut i: usize = 0;
        while i < old_len
            invariant
                old0.len() == old_len,
                old_len == old(self).capacity,
                new_cap == 2 * old_len,
                old0 == old(self).slots@,
                linear_slots_wf(old0),
                num_occupied(old0) == old(self).count,
                0 <= i <= old_len,
                drained@.len() == old_len,
                forall|j: int| i <= j < old_len ==> drained@[j] == old0[j],
                new_slots@.len() == new_cap,
                linear_slots_wf(new_slots@),
                slot_keys(new_slots@) == slot_keys(old0.subrange(0, i as int)),
                num_occupied(new_slots@) == num_occupied(old0.subrange(0, i as int)),
            decreases old_len - i,
        {
            let mut slot: Option<K> = None;
            drained.set_and_swap(i, &mut slot);
            proof {
                lemma_num_occupied_prefix(old0, i as int);
                lemma_slot_keys_prefix(old0, i as int);
                lemma_num_occupied_bound(old0.subrange(0, i as int));
            }
            match slot {
                Some(k) => {
                    proof {
                        if slot_keys(old0.subrange(0, i as int)).contains(k@) {
                            let j = choose|j: int| 0 <= j < i && old0.subrange(0, i as int)[j] is Some && old0.subrange(0, i as int)[j]->0@ == k@;
                            assert(old0[j] is Some);
                        }
                    }
                    let _ = Self::raw_insert(&mut new_slots, new_cap, k);
                },
                None => {},
            }
            i = i + 1;
        }
        proof {
            assert(old0.subrange(0, old_len as int) =~= old0);
        }
        self.slots = new_slots;
        self.capacity = new_cap;
    }
}

impl<K: TableKey> LinearTable<K> {
    /// An empty table of `capacity.next_power_of_two().max(16)` slots.
    pub(crate) fn with_capacity(capacity: usize) -> (t: Self)
        requires
            capacity <= usize::MAX / 8,
        ensures
            t.inv(),
            t.key_set() == Set::<K::V>::empty(),
            spec_table_capacity(capacity as int, t.slot_count() as int),
            t.capacity_hint() == capacity,
    {
        let cap = table_capacity(capacity);
        let slots = empty_slots(cap);
        proof {
            lemma_num_occupied_bound(slots@);
            assert(slot_keys(slots@) =~= Set::<K::V>::empty());
        }
        LinearTable { slots, capacity: cap, count: 0, hint: Ghost(capacity as nat) }
    }

    /// Inserts a key, growing first when the load factor would exceed 0.75;
    /// returns true when the key was not present before.
    pub(crate) fn insert_key(&mut self, key: K) -> (inserted: bool)
        requires
            old(self).inv(),
            old(self).key_set().len() < max_keys(),
        ensures
            final(self).inv(),
            final(self).key_set() == old(self).key_set().insert(key@),
            final(self).key_set().finite(),
            inserted == !old(self).key_set().contains(key@),
            final(self).capacity_hint() == old(self).capacity_hint(),
            final(self).slot_count() == if (old(self).key_set().len() + 1) * 4 > old(self).slot_count() * 3 {
                2 * old(self).slot_count()
            } else {
                old(self).slot_count()
            },
    {
        proof {
            lemma_slot_keys_len(self.slots@);
        }
        if (self.count + 1) * 4 > self.capacity * 3 {
            self.grow();
        }
        let inserted = Self::raw_insert(&mut self.slots, self.capacity, key);
        if inserted {
            self.count = self.count + 1;
        }
        proof {
            lemma_slot_keys_len(self.slots@);
        }
        inserted
    }

    /// Number of keys.
    pub(crate) fn key_count(&self) -> (n: usize)
        requires
            self.inv(),
        ensures
            n == self.key_set().len(),
            self.key_set().finite(),
    {
        proof {
            lemma_slot_keys_len(self.slots@);
        }
        self.count
    }

    /// Whether a key is present.
    pub(crate) fn contains(&self, key: &K) -> (b: bool)
        requires
            self.inv(),
        ensures
            b == self.key_set().contains(key@),
    {
        Self::raw_find(&self.slots, self.capacity, key)
    }

    /// The key set of a well-formed table is finite.
    pub(crate) proof fn lemma_finite(&self)
        requires
            self.inv(),
        ensures
            self.key_set().finite(),
    {
        lemma_slot_keys_len(self.slots@);
    }

    /// The keys (by value) in the table.
    pub(crate) closed spec fn key_set(&self) -> Set<K::V> {
        slot_keys(self.slots@)
    }

    /// Number of slots.
    pub(crate) closed spec fn slot_count(&self) -> nat {
        self.capacity as nat
    }

    /// Number of slots.
    pub(crate) fn slot_capacity(&self) -> (c: usize)
        ensures
            c == self.slot_count(),
    {
        self.capacity
    }
}

impl<K: TableKey> LinearTable<K> {
    /// Stores a key that the slot array does not hold in the first empty slot
    /// of its probe sequence (the probe loop of an insertion, for a key known
    /// to be absent); returns that slot.
    fn place(slots: &mut Vec<Option<K>>, capacity: usize, key: K) -> (r: usize)
        requires
            old(slots)@.len() == capacity,
            capacity > 0,
            num_occupied(old(slots)@) < capacity,
        ensures
            r < capacity,
            old(slots)@[r as int] is None,
            final(slots)@ == old(slots)@.update(r as int, Some(key)),
            forall|t: int| 0 <= t < lin_dist(home_slot::<K>(key@, capacity as int), r as int, capacity as int)
                ==> #[trigger] old(slots)@[lin_pos(home_slot::<K>(key@, capacity as int), t, capacity as int)] is Some,
    {
        let ghost cap = capacity as int;
        let start = home_index(&key, capacity);
        let ghost h = start as int;
        let mut idx = start;
        let ghost mut s: int = 0;
        loop
            invariant
                slots@.len() == capacity,
                *slots == *old(slots),
                num_occupied(slots@) < capacity,
                cap == capacity as int,
                h == start as int,
                h == home_slot::<K>(key@, cap),
                0 <= h < cap,
                0 <= s < cap,
                idx == lin_pos(h, s, cap),
                forall|t: int| 0 <= t < s ==> #[trigger] slots@[lin_pos(h, t, cap)] is Some,
            decreases cap - s,
        {
            if slots[idx].is_none() {
                proof {
                    lemma_ring(cap, h, h, s);
                }
                slots.set(idx, Some(key));
                return idx;
            }
            idx = if idx + 1 == capacity { 0 } else { idx + 1 };
            proof {
                s = s + 1;
                if s == cap {
                    assert forall|i: int| 0 <= i < cap implies slots@[i] is Some by {
                        lemma_ring(cap, h, i, 0);
                        assert(slots@[lin_pos(h, lin_dist(h, i, cap), cap)] is Some);
                    }
                    lemma_num_occupied_bound(slots@);
                }
            }
        }
    }

    /// Removes a key: empties its slot, then takes out each key of the
    /// cluster that follows and inserts it again, up to the first empty slot.
    /// Returns the removed key, or `None` when the key is absent.
    pub(crate) fn remove_key(&mut self, key: &K) -> (removed: Option<K>)
        requires
            old(self).inv(),
        ensures
            final(self).inv(),
            final(self).key_set() == old(self).key_set().remove(key@),
            final(self).slot_count() == old(self).slot_count(),
            removed is Some <==> old(self).key_set().contains(key@),
            removed is Some ==> removed->0@ == key@,
    {
        let ghost o = self.slots@;
        let ghost cap = self.capacity as int;
        let capacity = self.capacity;
        let start = home_index(key, capacity);
        let ghost h = start as int;
        let mut idx = start;
        let ghost mut s: int = 0;
        loop
            invariant
                self.inv(),
                *self == *old(self),
                o == self.slots@,
                capacity == self.capacity,
                cap == capacity as int,
                h == start as int,
                h == home_slot::<K>(key@, cap),
                0 <= h < cap,
                0 <= s < cap,
                idx == lin_pos(h, s, cap),
                forall|t: int| #![trigger lin_pos(h, t, cap)] 0 <= t < s ==> {
                    let p = lin_pos(h, t, cap);
                    o[p] is Some && o[p]->0@ != key@
                },
            ensures
                *self == *old(self),
                o == self.slots@,
                idx < capacity,
                o[idx as int] is Some,
                o[idx as int]->0@ == key@,
            decreases cap - s,
        {
            let found = match &self.slots[idx] {
                None => {
                    proof {
                        lemma_linear_absent(o, key@, s);
                    }
                    return None;
                },
                Some(k) => k.key_eq(key),
            };
            if found {
                break;
            }
            idx = if idx + 1 == capacity { 0 } else { idx + 1 };
            proof {
                s = s + 1;
            }
            if idx == start {
                proof {
                    lemma_linear_absent(o, key@, s);
                }
                return None;
            }
        }
        let ghost i = idx as int;
        let mut removed: Option<K> = None;
        self.slots.set_and_swap(idx, &mut removed);
        proof {
            lemma_num_occupied_update(o, i, None);
        }
        self.count = self.count - 1;
        proof {
            assert(removed == o[i]);
            lemma_slot_keys_clear(o, i);
            lemma_num_occupied_bound(o);
            if forall|j: int| 0 <= j < cap ==> o[j] is Some {
                assert(num_occupied(o) == cap);
            }
        }
        let ghost j = choose|j: int| 0 <= j < cap && o[j] is None;
        let ghost d_e = lin_dist(i, j, cap);
        proof {
            lemma_ring(cap, i, j, 0);
            assert(j != i);
            lemma_ring(cap, i, i, 0);
            assert forall|p: int| #![trigger self.slots@[p]] 0 <= p < self.slots@.len() && lin_dist(i, p, cap) >= 1 implies self.slots@[p] == o[p] by {
                lemma_ring(cap, i, p, 0);
            }
            assert forall|p: int| #![trigger self.slots@[p]] 0 <= p < self.slots@.len() && lin_dist(i, p, cap) < 1 && self.slots@[p] is Some implies linear_chain(self.slots@, p) by {
                lemma_ring(cap, i, p, 0);
            }
        }
        let mut next = if idx + 1 == capacity { 0 } else { idx + 1 };
        let ghost mut k: int = 1;
        loop
            invariant
                self.capacity == capacity,
                old(self).capacity == capacity,
                cap == capacity as int,
                self.slots@.len() == capacity,
                old(self).inv(),
                o == old(self).slots@,
                0 <= i < cap,
                1 <= k <= d_e < cap,
                o[lin_pos(i, d_e, cap)] is None,
                next == lin_pos(i, k, cap),
                unvisited_kept(o, self.slots@, i, k),
                visited_chained(self.slots@, i, k),
                slots_distinct(self.slots@),
                slot_keys(self.slots@) == slot_keys(o).remove(key@),
                num_occupied(self.slots@) + 1 == num_occupied(o),
                self.count == num_occupied(self.slots@),
                linear_slots_wf(o),
                removed is Some && removed->0@ == key@,
            ensures
                self.capacity == capacity,
                self.slots@.len() == capacity,
                linear_slots_wf(self.slots@),
                slot_keys(self.slots@) == slot_keys(o).remove(key@),
                num_occupied(self.slots@) + 1 == num_occupied(o),
                self.count == num_occupied(self.slots@),
            decreases d_e - k,
        {
            let ghost s0 = self.slots@;
            let mut entry: Option<K> = None;
            self.slots.set_and_swap(next, &mut entry);
            match entry {
                None => {
                    proof {
                        assert(s0[next as int] is None);
                        assert(self.slots@ =~= s0);
                        lemma_removal_done(o, s0, i, k);
                    }
                    break;
                },
                Some(e) => {
                    proof {
                        lemma_ring(cap, i, i, k);
                        lemma_ring(cap, i, i, d_e);
                        if k == d_e {
                            assert(s0[next as int] == o[next as int]);
                        }
                        lemma_num_occupied_update(s0, next as int, None);
                    }
                    self.count = self.count - 1;
                    let r = Self::place(&mut self.slots, capacity, e);
                    self.count = self.count + 1;
                    proof {
                        lemma_removal_step(o, s0, self.slots@, i, k, d_e, r as int);
                    }
                    next = if next + 1 == capacity { 0 } else { next + 1 };
                    proof {
                        k = k + 1;
                    }
                },
            }
        }
        proof {
            lemma_slot_keys_len(self.slots@);
            lemma_slot_keys_len(o);
        }
        removed
    }
}

impl<K: TableKey> LinearTable<K> {
    /// A linear-probing table never saturates: every insertion makes room.
    pub proof fn law_never_saturates(&self)
        ensures
            !self.saturated(),
    {
    }

    /// The load factor of a linear-probing table never exceeds 0.75: it
    /// grows before an insertion would take it past that.
    pub proof fn law_load_bound(&self)
        requires
            self.wf(),
        ensures
            4 * self.keys().len() <= 3 * self.spec_capacity(),
    {
        lemma_slot_keys_len(self.slots@);
    }

    /// The table's invariant is its well-formedness, and its key set and
    /// slot count are what the table interface reports.
    pub(crate) proof fn lemma_inv_is_wf(&self)
        requires
            self.inv(),
        ensures
            self.wf(),
            self.key_set() == self.keys(),
            self.slot_count() == self.spec_capacity(),
    {
    }

    /// The slot count of a linear-probing table is a power of two of at
    /// least 16, and some slot is always empty, so every probe loop ends.
    pub proof fn law_slot_count(&self)
        requires
            self.wf(),
        ensures
            is_pow2(self.spec_capacity() as int),
            self.spec_capacity() >= 16,
            self.keys().len() < self.spec_capacity(),
    {
        lemma_slot_keys_len(self.slots@);
    }
}

impl<K: TableKey> LinearTable<K> {
    /// Number of slots that `capacity` reports.
    pub closed spec fn spec_capacity(&self) -> nat {
        self.capacity as nat
    }

    /// Number of overflow slots that `extra_space` reports.
    pub closed spec fn spec_extra_space(&self) -> nat {
        0
    }
}

impl<K: TableKey> HashTable<K> for LinearTable<K> {
    closed spec fn wf(&self) -> bool {
        self.inv()
    }

    closed spec fn keys(&self) -> Set<K::V> {
        slot_keys(self.slots@)
    }

    /// Exactly the table's slot count.
    open spec fn reports_capacity(&self, c: nat) -> bool {
        c == self.spec_capacity()
    }

    /// Exactly the table's overflow slot count.
    open spec fn reports_extra_space(&self, e: nat) -> bool {
        e == self.spec_extra_space()
    }

    closed spec fn saturated(&self) -> bool {
        false
    }

    closed spec fn capacity_hint(&self) -> nat {
        self.hint@
    }



    /// Creates an empty table of `capacity.next_power_of_two().max(16)` slots.
    fn new(capacity: usize) -> (t: Self)
        ensures
            spec_table_capacity(capacity as int, t.spec_capacity() as int),
    {
        Self::with_capacity(capacity)
    }

    /// Grows (doubles) the table first when the new key could push the load
    /// factor over 0.75, then inserts by linear probing.
    fn insert(&mut self, key: K)
        ensures
            final(self).keys() == old(self).keys().insert(key@),
            final(self).spec_capacity() == if (old(self).keys().len() + 1) * 4 > old(self).spec_capacity() * 3 {
                2 * old(self).spec_capacity()
            } else {
                old(self).spec_capacity()
            },
    {
        let _ = self.insert_key(key);
    }

    fn find(&self, key: &K) -> (b: bool) {
        self.contains(key)
    }

    fn capacity(&self) -> (c: usize)
        ensures
            c == self.spec_capacity(),
    {
        self.capacity
    }

    fn len(&self) -> (n: usize) {
        proof {
            lemma_slot_keys_len(self.slots@);
        }
        self.count
    }

    fn extra_space(&self) -> (e: usize)
        ensures
            e == self.spec_extra_space(),
    {
        0
    }
}

} // verus!
