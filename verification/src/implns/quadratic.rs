//! Quadratic-probing baseline.

use vstd::prelude::*;
use vstd::arithmetic::div_mod::lemma_add_mod_noop_right;
use vstd::arithmetic::power2::pow2;
use crate::implns::slots::{
    empty_slots, home_index, home_slot, lemma_num_occupied_bound, lemma_num_occupied_prefix,
    lemma_num_occupied_prefix_le, lemma_occupied_indices, occupied_indices,
    lemma_num_occupied_update, lemma_slot_keys_fill, lemma_slot_keys_len, lemma_slot_keys_prefix,
    num_occupied, slot_keys, slots_distinct, spec_table_capacity, table_capacity,
};
use crate::trait_def::{HashTable, TableKey};

verus! {

/// Slot probed at step `s` of the sequence that starts at slot `h`:
/// `(h + s * s) % cap`.
pub open spec fn quad_pos(h: int, s: int, cap: int) -> int {
    (h + s * s) % cap
}

/// The key in slot `i` sits at step `d` of its probe sequence, and every
/// slot probed before that step is occupied.
pub open spec fn quad_placed<K: TableKey>(slots: Seq<Option<K>>, i: int, d: int) -> bool {
    let cap = slots.len() as int;
    let h = home_slot::<K>(slots[i]->0@, cap);
    &&& 0 <= d < cap
    &&& quad_pos(h, d, cap) == i
    &&& forall|t: int| 0 <= t < d ==> #[trigger] slots[quad_pos(h, t, cap)] is Some
}

/// Step `d` is the first step of the probe sequence from slot `h` that
/// meets an empty slot.
pub open spec fn quad_first_free<K>(slots: Seq<Option<K>>, h: int, d: int) -> bool {
    let cap = slots.len() as int;
    &&& 0 <= d < cap
    &&& slots[quad_pos(h, d, cap)] is None
    &&& forall|t: int| 0 <= t < d ==> #[trigger] slots[quad_pos(h, t, cap)] is Some
}

/// Invariant of a quadratic-probing slot array: every key sits on one of the
/// first `cap` steps of its probe sequence, behind occupied slots only.
pub open spec fn quad_slots_wf<K: TableKey>(slots: Seq<Option<K>>) -> bool {
    &&& slots.len() > 0
    &&& slots_distinct(slots)
    &&& forall|i: int| #![trigger slots[i]] 0 <= i < slots.len() && slots[i] is Some ==> exists|d: int| quad_placed(slots, i, d)
}

/// Next probe from the previous one: `(h + s*s) % cap` advances by `2s + 1`.
pub proof fn lemma_quad_step(h: int, s: int, cap: int)
    requires
        cap > 0,
        s >= 0,
    ensures
        quad_pos(h, s + 1, cap) == (quad_pos(h, s, cap) + 2 * s + 1) % cap,
{
    assert((s + 1) * (s + 1) == s * s + 2 * s + 1) by (nonlinear_arith);
    lemma_add_mod_noop_right(2 * s + 1, h + s * s, cap);
    assert(h + (s + 1) * (s + 1) == 2 * s + 1 + (h + s * s));
}

/// A key that is not met on the first `s` steps of its probe sequence, when
/// step `s` is an empty slot or `s` is the table size, is not in the table.
pub proof fn lemma_quad_absent<K: TableKey>(slots: Seq<Option<K>>, v: K::V, s: int)
    requires
        quad_slots_wf(slots),
        0 <= s <= slots.len(),
        s < slots.len() ==> slots[quad_pos(home_slot::<K>(v, slots.len() as int), s, slots.len() as int)] is None,
        forall|t: int| #![trigger quad_pos(home_slot::<K>(v, slots.len() as int), t, slots.len() as int)] 0 <= t < s ==> {
            let p = quad_pos(home_slot::<K>(v, slots.len() as int), t, slots.len() as int);
            slots[p] is Some && slots[p]->0@ != v
        },
    ensures
        !slot_keys(slots).contains(v),
{
    let cap = slots.len() as int;
    let h = home_slot::<K>(v, cap);
    if slot_keys(slots).contains(v) {
        let j = choose|j: int| 0 <= j < slots.len() && slots[j] is Some && slots[j]->0@ == v;
        let d = choose|d: int| quad_placed(slots, j, d);
        assert(quad_placed(slots, j, d));
        if d < s {
            let p = quad_pos(h, d, cap);
            assert(slots[p] is Some && slots[p]->0@ != v);
        } else if d > s {
            assert(slots[quad_pos(h, s, cap)] is Some);
        }
    }
}

/// The slots that the first `cap` steps of the probe sequence from slot `h`
/// reach, in a table of `cap` slots.
pub open spec fn quad_reach(h: int, cap: int) -> Set<int> {
    Set::new(|p: int| exists|t: int| 0 <= t < cap && p == quad_pos(h, t, cap))
}

/// In a table of `cap` slots, some value of `keys` has a probe sequence
/// that reaches fewer slots than there are keys.
pub open spec fn quad_blocked<K: TableKey>(keys: Set<K::V>, cap: int) -> bool {
    exists|v: K::V| keys.contains(v) && #[trigger] quad_reach(home_slot::<K>(v, cap), cap).len() < keys.len()
}

/// At every doubling of `cap` that stays within `usize::MAX / 3`, some value
/// of `keys` has a probe sequence that reaches fewer slots than there are
/// keys: no doubled table gives every key a slot for certain.
pub open spec fn quad_no_room<K: TableKey>(keys: Set<K::V>, cap: int) -> bool
    decreases usize::MAX - cap,
{
    if cap <= 0 || cap > usize::MAX / 6 {
        true
    } else {
        quad_blocked::<K>(keys, 2 * cap) && quad_no_room::<K>(keys, 2 * cap)
    }
}

/// The first step that meets an empty slot is unique.
proof fn lemma_first_free_unique<K>(t: Seq<Option<K>>, h: int, d1: int, d2: int)
    requires
        quad_first_free(t, h, d1),
        quad_first_free(t, h, d2),
    ensures
        d1 == d2,
{
    let cap = t.len() as int;
    if d1 < d2 {
        assert(t[quad_pos(h, d1, cap)] is Some);
    }
    if d2 < d1 {
        assert(t[quad_pos(h, d2, cap)] is Some);
    }
}

/// Placing `k` into the slot array `t`: in the first empty slot of its probe
/// sequence, or `None` when the sequence meets no empty slot.
pub open spec fn quad_place<K: TableKey>(t: Seq<Option<K>>, k: K) -> Option<Seq<Option<K>>> {
    let cap = t.len() as int;
    let h = home_slot::<K>(k@, cap);
    if exists|d: int| quad_first_free(t, h, d) {
        let d = choose|d: int| quad_first_free(t, h, d);
        Some(t.update(quad_pos(h, d, cap), Some(k)))
    } else {
        None
    }
}

/// Placing the keys of the first `i` slots of `src`, in slot order, into the
/// slot array `dst`; `None` once a key finds no empty slot.
pub open spec fn quad_place_prefix<K: TableKey>(src: Seq<Option<K>>, dst: Seq<Option<K>>, i: nat) -> Option<Seq<Option<K>>>
    decreases i,
{
    if i == 0 {
        Some(dst)
    } else {
        match quad_place_prefix(src, dst, (i - 1) as nat) {
            None => None,
            Some(t) => match src[i - 1] {
                None => Some(t),
                Some(k) => quad_place(t, k),
            },
        }
    }
}

/// What rehashing the keys of `slots`, in slot order, into `cap` empty
/// slots gives: the new slot array, or `None` when some key finds no empty
/// slot on its probe sequence.
pub open spec fn quad_rehashed<K: TableKey>(slots: Seq<Option<K>>, cap: int) -> Option<Seq<Option<K>>> {
    quad_place_prefix(slots, Seq::new(cap as nat, |i: int| None::<K>), slots.len())
}

/// Once a key finds no empty slot, placing more keys finds none either.
proof fn lemma_place_prefix_stuck<K: TableKey>(src: Seq<Option<K>>, dst: Seq<Option<K>>, i: nat, j: nat)
    requires
        i <= j,
        quad_place_prefix(src, dst, i) is None,
    ensures
        quad_place_prefix(src, dst, j) is None,
    decreases j - i,
{
    if i < j {
        lemma_place_prefix_stuck(src, dst, i, (j - 1) as nat);
    }
}

/// `c1` is `c0`, or `c0` doubled one or more times.
pub open spec fn doubled_from(c0: int, c1: int) -> bool {
    c1 == c0 || exists|j: nat| j >= 1 && c1 == c0 * #[trigger] pow2(j)
}

/// Doubling a capacity that was doubled from `c0` one or more times more
/// gives one doubled from `c0`.
pub proof fn lemma_doubled_twice(c0: int, c1: int, c2: int)
    requires
        doubled_from(c0, c1),
        exists|j: nat| j >= 1 && c2 == c1 * #[trigger] pow2(j),
    ensures
        doubled_from(c0, c2),
{
    let b = choose|j: nat| j >= 1 && c2 == c1 * #[trigger] pow2(j);
    if c1 != c0 {
        let a = choose|j: nat| j >= 1 && c1 == c0 * #[trigger] pow2(j);
        vstd::arithmetic::power2::lemma_pow2_adds(a, b);
        let pa = pow2(a) as int;
        let pb = pow2(b) as int;
        assert(c2 == c0 * (pa * pb)) by (nonlinear_arith)
            requires
                c2 == c1 * pb,
                c1 == c0 * pa,
        ;
        assert(c2 == c0 * pow2(a + b));
    }
}

/// Open-addressed hash table whose probe distance grows quadratically.
pub struct QuadraticTable<K> {
    slots: Vec<Option<K>>,
    capacity: usize,
    count: usize,
    saturated: bool,
    /// The capacity hint that the table was created with.
    hint: Ghost<nat>,
}

impl<K: TableKey> QuadraticTable<K> {
    /// Looks a key up: probes `(start + s*s) % capacity` for `s` from 0 until
    /// the key, an empty slot, or `capacity` probes.
    pub fn raw_find(slots: &Vec<Option<K>>, capacity: usize, key: &K) -> (b: bool)
        requires
            slots@.len() == capacity,
            capacity <= usize::MAX / 3,
            quad_slots_wf(slots@),
        ensures
            b == slot_keys(slots@).contains(key@),
    {
        let ghost cap = capacity as int;
        let start = home_index(key, capacity);
        let ghost h = start as int;
        let mut idx = start;
        let mut step: usize = 1;
        proof {
            vstd::arithmetic::div_mod::lemma_small_mod(h as nat, cap as nat);
            assert(quad_pos(h, 0, cap) == h);
        }
        loop
            invariant
                slots@.len() == capacity,
                capacity <= usize::MAX / 3,
                cap == capacity as int,
                quad_slots_wf(slots@),
                h == home_slot::<K>(key@, cap),
                0 <= h < cap,
                1 <= step <= cap,
                idx == quad_pos(h, step - 1, cap),
                forall|t: int| #![trigger quad_pos(h, t, cap)] 0 <= t < step - 1 ==> {
                    let p = quad_pos(h, t, cap);
                    slots@[p] is Some && slots@[p]->0@ != key@
                },
            decreases cap - step,
        {
            match &slots[idx] {
                None => {
                    proof {
                        lemma_quad_absent(slots@, key@, step - 1);
                    }
                    return false;
                },
                Some(k) => {
                    if k.key_eq(key) {
                        proof {
                            assert(slots@[idx as int] is Some && slots@[idx as int]->0@ == key@);
                        }
                        return true;
                    }
                    proof {
                        lemma_quad_step(h, step - 1, cap);
                    }
                    idx = (idx + 2 * step - 1) % capacity;
                    step = step + 1;
                    if step > capacity {
                        proof {
                            lemma_quad_absent(slots@, key@, cap);
                        }
                        return false;
                    }
                },
            }
        }
    }

    /// Inserts into an existing slot array without triggering growth.
    /// Returns `Ok(true)` when the key was stored, `Ok(false)` when it was
    /// already present, and gives the key back when none of the first
    /// `capacity` probed slots is free.
    fn raw_insert(slots: &mut Vec<Option<K>>, capacity: usize, key: K) -> (r: Result<bool, K>)
        requires
            old(slots)@.len() == capacity,
            capacity <= usize::MAX / 3,
            quad_slots_wf(old(slots)@),
        ensures
            final(slots)@.len() == capacity,
            quad_slots_wf(final(slots)@),
            match r {
                Ok(inserted) => {
                    &&& slot_keys(final(slots)@) == slot_keys(old(slots)@).insert(key@)
                    &&& inserted == !slot_keys(old(slots)@).contains(key@)
                    &&& num_occupied(final(slots)@) == num_occupied(old(slots)@) + if inserted { 1nat } else { 0nat }
                    &&& !inserted ==> final(slots)@ == old(slots)@
                    &&& inserted ==> exists|d: int|
                        #[trigger] quad_first_free(old(slots)@, home_slot::<K>(key@, capacity as int), d)
                        && final(slots)@ == old(slots)@.update(quad_pos(home_slot::<K>(key@, capacity as int), d, capacity as int), Some(key))
                },
                Err(k) => {
                    &&& k == key
                    &&& final(slots)@ == old(slots)@
                    &&& !slot_keys(old(slots)@).contains(key@)
                    &&& forall|t: int| 0 <= t < capacity ==> #[trigger] old(slots)@[quad_pos(home_slot::<K>(key@, capacity as int), t, capacity as int)] is Some
                },
            },
    {
        let ghost cap = capacity as int;
        let start = home_index(&key, capacity);
        let ghost h = start as int;
        let mut idx = start;
        let mut step: usize = 1;
        proof {
            vstd::arithmetic::div_mod::lemma_small_mod(h as nat, cap as nat);
            assert(quad_pos(h, 0, cap) == h);
        }
        loop
            invariant
                slots@.len() == capacity,
                capacity <= usize::MAX / 3,
                *slots == *old(slots),
                cap == capacity as int,
                quad_slots_wf(slots@),
                h == home_slot::<K>(key@, cap),
                0 <= h < cap,
                1 <= step <= cap,
                idx == quad_pos(h, step - 1, cap),
                forall|t: int| #![trigger quad_pos(h, t, cap)] 0 <= t < step - 1 ==> {
                    let p = quad_pos(h, t, cap);
                    slots@[p] is Some && slots@[p]->0@ != key@
                },
            decreases cap - step,
        {
            let is_empty = slots[idx].is_none();
            if is_empty {
                proof {
                    lemma_quad_absent(slots@, key@, step - 1);
                    lemma_slot_keys_fill(slots@, idx as int, key);
                    lemma_num_occupied_update(slots@, idx as int, Some(key));
                }
                let ghost old_slots = slots@;
                proof {
                    assert(quad_first_free(old_slots, h, step - 1));
                }
                slots.set(idx, Some(key));
                proof {
                    let ns = slots@;
                    assert forall|i: int| #![trigger ns[i]] 0 <= i < ns.len() && ns[i] is Some implies exists|d: int| quad_placed(ns, i, d) by {
                        if i != idx {
                            let d = choose|d: int| quad_placed(old_slots, i, d);
                            let hi = home_slot::<K>(ns[i]->0@, cap);
                            assert forall|t: int| 0 <= t < d implies #[trigger] ns[quad_pos(hi, t, cap)] is Some by {
                                assert(old_slots[quad_pos(hi, t, cap)] is Some);
                            }
                            assert(quad_placed(ns, i, d));
                        } else {
                            let d = step - 1;
                            assert forall|t: int| 0 <= t < d implies #[trigger] ns[quad_pos(h, t, cap)] is Some by {
                                let p = quad_pos(h, t, cap);
                                assert(old_slots[p] is Some);
                            }
                            assert(quad_placed(ns, i, d));
                        }
                    }
                    assert forall|i: int, j: int|
                        0 <= i < ns.len() && 0 <= j < ns.len() && i != j && ns[i] is Some && ns[j] is Some
                        implies ns[i]->0@ != ns[j]->0@ by {
                        if i == idx {
                            assert(old_slots[j] is Some);
                            assert(slot_keys(old_slots).contains(old_slots[j]->0@));
                        } else if j == idx {
                            assert(old_slots[i] is Some);
                            assert(slot_keys(old_slots).contains(old_slots[i]->0@));
                        }
                    }
                }
                return Ok(true);
            }
            let matches = match &slots[idx] {
                Some(k) => k.key_eq(&key),
                None => false,
            };
            if matches {
                proof {
                    assert(slots@[idx as int] is Some && slots@[idx as int]->0@ == key@);
                    assert(slot_keys(slots@) =~= slot_keys(slots@).insert(key@));
                }
                return Ok(false);
            }
            proof {
                lemma_quad_step(h, step - 1, cap);
            }
            idx = (idx + 2 * step - 1) % capacity;
            step = step + 1;
            if step > capacity {
                proof {
                    lemma_quad_absent(slots@, key@, cap);
                }
                return Err(key);
            }
        }
    }

    /// Rehashes the keys of `slots` into a fresh array of `new_cap` slots;
    /// `None` when some key finds no free slot on its probe sequence.
    fn rehash(slots: &Vec<Option<K>>, new_cap: usize) -> (r: Option<Vec<Option<K>>>)
        requires
            quad_slots_wf(slots@),
            slots@.len() <= new_cap <= usize::MAX / 3,
        ensures
            r matches Some(v) ==> {
                &&& v@.len() == new_cap
                &&& quad_slots_wf(v@)
                &&& slot_keys(v@) == slot_keys(slots@)
                &&& num_occupied(v@) == num_occupied(slots@)
            },
            r is None ==> quad_blocked::<K>(slot_keys(slots@), new_cap as int),
            match r {
                Some(v) => quad_rehashed(slots@, new_cap as int) == Some(v@),
                None => quad_rehashed(slots@, new_cap as int) is None,
            },
    {
        let mut new_slots: Vec<Option<K>> = empty_slots(new_cap);
        let ghost empty = Seq::new(new_cap as nat, |i: int| None::<K>);
        proof {
            assert(new_slots@ =~= empty);
            assert(slot_keys(new_slots@) =~= Set::<K::V>::empty());
            lemma_num_occupied_bound(new_slots@);
            assert(slots@.subrange(0, 0) =~= Seq::<Option<K>>::empty());
            assert(slot_keys(slots@.subrange(0, 0)) =~= Set::<K::V>::empty());
        }
        let old_len = slots.len();
        let mut i: usize = 0;
        while i < old_len
            invariant
                slots@.len() == old_len,
                old_len <= new_cap <= usize::MAX / 3,
                quad_slots_wf(slots@),
                0 <= i <= old_len,
                new_slots@.len() == new_cap,
                quad_slots_wf(new_slots@),
                slot_keys(new_slots@) == slot_keys(slots@.subrange(0, i as int)),
                num_occupied(new_slots@) == num_occupied(slots@.subrange(0, i as int)),
                empty == Seq::new(new_cap as nat, |i: int| None::<K>),
                quad_place_prefix(slots@, empty, i as nat) == Some(new_slots@),
            decreases old_len - i,
        {
            proof {
                lemma_num_occupied_prefix(slots@, i as int);
                lemma_slot_keys_prefix(slots@, i as int);
            }
            match &slots[i] {
                Some(k) => {
                    proof {
                        if slot_keys(slots@.subrange(0, i as int)).contains(k@) {
                            let j = choose|j: int| 0 <= j < i && slots@.subrange(0, i as int)[j] is Some && slots@.subrange(0, i as int)[j]->0@ == k@;
                            assert(slots@[j] is Some);
                        }
                    }
                    let ghost before = new_slots@;
                    match Self::raw_insert(&mut new_slots, new_cap, k.key_clone()) {
                        Ok(_) => {
                            proof {
                                let c = new_cap as int;
                                let h = home_slot::<K>(k@, c);
                                let d = choose|d: int| #[trigger] quad_first_free(before, h, d)
                                    && new_slots@ == before.update(quad_pos(h, d, c), Some(*k));
                                let d2 = choose|d: int| quad_first_free(before, h, d);
                                lemma_first_free_unique(before, h, d, d2);
                                assert(quad_place(before, *k) == Some(new_slots@));
                                assert(quad_place_prefix(slots@, empty, (i + 1) as nat) == Some(new_slots@));
                            }
                        },
                        Err(_) => {
                            proof {
                                let c = new_cap as int;
                                let h = home_slot::<K>(k@, c);
                                assert forall|d: int| !quad_first_free(before, h, d) by {
                                    if 0 <= d < c {
                                        assert(before[quad_pos(h, d, c)] is Some);
                                    }
                                }
                                assert(quad_place(before, *k) is None);
                                assert(quad_place_prefix(slots@, empty, (i + 1) as nat) is None);
                                lemma_place_prefix_stuck(slots@, empty, (i + 1) as nat, old_len as nat);
                            }
                            proof {
                                let c = new_cap as int;
                                let h = home_slot::<K>(k@, c);
                                let reach = quad_reach(h, c);
                                lemma_occupied_indices(before);
                                assert forall|p: int| reach.contains(p) implies occupied_indices(before).contains(p) by {
                                    let t = choose|t: int| 0 <= t < c && p == quad_pos(h, t, c);
                                    assert(before[quad_pos(h, t, c)] is Some);
                                }
                                vstd::set_lib::lemma_len_subset(reach, occupied_indices(before));
                                lemma_num_occupied_prefix_le(slots@, i as int);
                                assert(slots@[i as int] is Some && slots@[i as int]->0@ == k@);
                                assert(slot_keys(slots@).contains(k@));
                                lemma_slot_keys_len(slots@);
                                assert(quad_blocked::<K>(slot_keys(slots@), c));
                            }
                            return None;
                        },
                    }
                },
                None => {},
            }
            i = i + 1;
        }
        proof {
            assert(slots@.subrange(0, old_len as int) =~= slots@);
        }
        Some(new_slots)
    }

    /// The table's invariant: the slot array is a quadratic-probing array
    /// with `count` keys, of which there are at most three quarters of the
    /// slots.
    pub closed spec fn inv(&self) -> bool {
        &&& self.slots@.len() == self.capacity
        &&& quad_slots_wf(self.slots@)
        &&& self.count == num_occupied(self.slots@)
        &&& self.count < self.capacity
        &&& 4 * self.count <= 3 * self.capacity
        &&& self.capacity <= usize::MAX / 3
    }

    /// Rehashes all stored keys into a larger table: doubles the capacity
    /// until every key finds a slot. Returns false, changing nothing, when
    /// the capacity can no longer double.
    fn grow(&mut self) -> (grown: bool)
        requires
            old(self).inv(),
        ensures
            final(self).inv(),
            slot_keys(final(self).slots@) == slot_keys(old(self).slots@),
            final(self).count == old(self).count,
            final(self).saturated == old(self).saturated,
            final(self).hint == old(self).hint,
            grown ==> final(self).capacity >= 2 * old(self).capacity,
            grown ==> exists|j: nat| j >= 1 && final(self).capacity == old(self).capacity * #[trigger] pow2(j)
                && quad_rehashed(old(self).slots@, final(self).capacity as int) == Some(final(self).slots@)
                && forall|i: nat| 1 <= i < j ==> (#[trigger] quad_rehashed(old(self).slots@, old(self).capacity * pow2(i))) is None,
            quad_rehashed(old(self).slots@, 2 * old(self).capacity) is Some && old(self).capacity <= usize::MAX / 6
                ==> grown && final(self).capacity == 2 * old(self).capacity,
            grown ==> exists|j: nat| #[trigger] old(self).grows_by(j)
                && final(self).capacity == old(self).capacity * pow2(j)
                && quad_rehashed(old(self).slots@, final(self).capacity as int) == Some(final(self).slots@),
            !grown ==> *final(self) == *old(self),
            !grown ==> old(self).cannot_grow(),
            !grown ==> quad_no_room::<K>(slot_keys(old(self).slots@), old(self).capacity as int),
    {
        let mut new_cap = self.capacity;
        let ghost mut doublings: nat = 0;
        proof {
            vstd::arithmetic::power2::lemma_pow2(0);
            vstd::arithmetic::power::lemma_pow0(2);
            vstd::arithmetic::power2::lemma_pow2_unfold(1);
            assert(self.capacity * pow2(1) == 2 * self.capacity);
        }
        loop
            invariant
                self.inv(),
                *self == *old(self),
                self.capacity <= new_cap <= usize::MAX / 3,
                new_cap == self.capacity * pow2(doublings),
                pow2(1) == 2,
                self.capacity * pow2(1) == 2 * self.capacity,
                doublings == 0 ==> new_cap == self.capacity,
                forall|i: nat| 1 <= i <= doublings ==> (#[trigger] quad_rehashed(self.slots@, self.capacity * pow2(i))) is None,
                quad_no_room::<K>(slot_keys(self.slots@), new_cap as int) ==> quad_no_room::<K>(slot_keys(self.slots@), self.capacity as int),
            decreases usize::MAX - new_cap,
        {
            if new_cap > usize::MAX / 6 {
                proof {
                    let c = self.capacity as int;
                    if doublings >= 1 {
                        assert(quad_rehashed(self.slots@, self.capacity * pow2(1)) is None);
                    }
                    assert forall|i: nat| i >= 1 && self.capacity * pow2((i - 1) as nat) <= usize::MAX / 6
                        implies (#[trigger] quad_rehashed(self.slots@, self.capacity * pow2(i))) is None by {
                        if i - 1 >= doublings {
                            if i - 1 > doublings {
                                vstd::arithmetic::power2::lemma_pow2_strictly_increases(doublings, (i - 1) as nat);
                            }
                            let a = pow2(doublings) as int;
                            let b = pow2((i - 1) as nat) as int;
                            assert(c * a <= c * b) by (nonlinear_arith)
                                requires
                                    a <= b,
                                    c >= 0,
                            ;
                        }
                    }
                }
                return false;
            }
            let ghost prev = new_cap as int;
            new_cap = new_cap * 2;
            proof {
                let c = self.capacity as int;
                let q = pow2(doublings) as int;
                vstd::arithmetic::power2::lemma_pow2_unfold(doublings + 1);
                assert(new_cap == c * (2 * q)) by (nonlinear_arith)
                    requires
                        new_cap == 2 * prev,
                        prev == c * q,
                ;
                doublings = doublings + 1;
            }
            match Self::rehash(&self.slots, new_cap) {
                Some(v) => {
                    proof {
                        assert(quad_rehashed(self.slots@, new_cap as int) == Some(v@));
                        if doublings > 1 {
                            assert(quad_rehashed(self.slots@, self.capacity * pow2(1)) is None);
                        } else {
                            assert(new_cap == 2 * self.capacity);
                        }
                        assert(prev == self.capacity * pow2((doublings - 1) as nat));
                        assert(self.grows_by(doublings));
                    }
                    self.slots = v;
                    self.capacity = new_cap;
                    return true;
                },
                None => {
                    proof {
                        assert(quad_rehashed(self.slots@, self.capacity * pow2(doublings)) is None);
                        assert(prev > 0);
                        if quad_no_room::<K>(slot_keys(self.slots@), new_cap as int) {
                            assert(quad_no_room::<K>(slot_keys(self.slots@), prev));
                        }
                    }
                },
            }
        }
    }
}

impl<K: TableKey> QuadraticTable<K> {
    /// Number of slots that `capacity` reports.
    pub closed spec fn spec_capacity(&self) -> nat {
        self.capacity as nat
    }

    /// No doubling of the capacity that the table can reach leaves room for
    /// its keys: rehashed into each, some key meets no empty slot.
    pub closed spec fn cannot_grow(&self) -> bool {
        forall|i: nat| i >= 1 && self.capacity * pow2((i - 1) as nat) <= usize::MAX / 6
            ==> (#[trigger] quad_rehashed(self.slots@, self.capacity * pow2(i))) is None
    }

    /// Growing the table takes `j` doublings: its keys rehash into the
    /// `j`-th doubling of its capacity and into none before it, and the
    /// capacity could still double before that last step.
    pub closed spec fn grows_by(&self, j: nat) -> bool {
        &&& j >= 1
        &&& self.capacity * pow2((j - 1) as nat) <= usize::MAX / 6
        &&& quad_rehashed(self.slots@, self.capacity * pow2(j)) is Some
        &&& forall|i: nat| 1 <= i < j ==> (#[trigger] quad_rehashed(self.slots@, self.capacity * pow2(i))) is None
    }

    /// Once grown by `j` doublings, the table holds the key of value `v` or
    /// has an empty slot on its probe sequence.
    pub closed spec fn takes_after_growth(&self, j: nat, v: K::V) -> bool {
        let c = self.capacity * pow2(j);
        let t = quad_rehashed(self.slots@, c)->0;
        slot_keys(t).contains(v) || exists|d: int| quad_first_free(t, home_slot::<K>(v, c), d)
    }

    /// The keys rehash into twice the capacity.
    pub closed spec fn fits_doubled(&self) -> bool {
        quad_rehashed(self.slots@, 2 * self.capacity) is Some
    }

    /// Growing takes one number of doublings only: the first one whose
    /// rehash succeeds.
    pub proof fn law_growth_is_first_fit(&self, j1: nat, j2: nat)
        requires
            self.grows_by(j1),
            self.grows_by(j2),
        ensures
            j1 == j2,
    {
        if j1 < j2 {
            assert(quad_rehashed(self.slots@, self.capacity * pow2(j1)) is Some);
        }
        if j2 < j1 {
            assert(quad_rehashed(self.slots@, self.capacity * pow2(j2)) is Some);
        }
    }

    /// When the keys rehash into the doubled capacity, growing doubles the
    /// capacity exactly once.
    pub proof fn law_growth_doubles_when_it_fits(&self)
        requires
            self.fits_doubled(),
            self.spec_capacity() <= usize::MAX / 6,
        ensures
            self.grows_by(1),
    {
        vstd::arithmetic::power2::lemma_pow2(0);
        vstd::arithmetic::power::lemma_pow0(2);
        vstd::arithmetic::power2::lemma_pow2_unfold(1);
        assert(self.capacity * pow2(1) == 2 * self.capacity);
        assert(self.capacity * pow2(0) == self.capacity);
    }

    /// Every slot on the probe sequence of a key of value `v` is taken.
    pub closed spec fn probe_full(&self, v: K::V) -> bool {
        forall|t: int| 0 <= t < self.capacity
            ==> #[trigger] self.slots@[quad_pos(home_slot::<K>(v, self.capacity as int), t, self.capacity as int)] is Some
    }

    /// Number of overflow slots that `extra_space` reports.
    pub closed spec fn spec_extra_space(&self) -> nat {
        0
    }
}

impl<K: TableKey> QuadraticTable<K> {
    /// The load factor of a quadratic-probing table never exceeds 0.75: it
    /// grows before an insertion would take it past that, and a table that
    /// can no longer grow takes no more keys.
    pub proof fn law_load_bound(&self)
        requires
            self.wf(),
        ensures
            4 * self.keys().len() <= 3 * self.spec_capacity(),
    {
        lemma_slot_keys_len(self.slots@);
    }
}

impl<K: TableKey> HashTable<K> for QuadraticTable<K> {
    closed spec fn wf(&self) -> bool {
        self.inv()
    }

    closed spec fn keys(&self) -> Set<K::V> {
        slot_keys(self.slots@)
    }

    /// Exactly the table's slot count.
    open spec fn reports_capacity(&self, c: nat) -> bool {
        c == self.spec_capacity()
    }

    /// Exactly the table's overflow slot count.
    open spec fn reports_extra_space(&self, e: nat) -> bool {
        e == self.spec_extra_space()
    }

    closed spec fn saturated(&self) -> bool {
        self.saturated
    }

    closed spec fn capacity_hint(&self) -> nat {
        self.hint@
    }



    /// Creates an empty table of `capacity.next_power_of_two().max(16)` slots.
    fn new(capacity: usize) -> (t: Self)
        ensures
            spec_table_capacity(capacity as int, t.spec_capacity() as int),
    {
        let cap = table_capacity(capacity);
        let slots = empty_slots(cap);
        proof {
            lemma_num_occupied_bound(slots@);
            assert(slot_keys(slots@) =~= Set::<K::V>::empty());
        }
        QuadraticTable { slots, capacity: cap, count: 0, saturated: false, hint: Ghost(capacity as nat) }
    }

    /// Grows first when the new key could push the load factor over 0.75,
    /// then inserts by quadratic probing; grows again whenever the probe
    /// sequence of the key has no free slot.
    fn insert(&mut self, key: K)
        ensures
            final(self).keys() != old(self).keys().insert(key@) ==> {
                &&& final(self).keys() == old(self).keys()
                &&& final(self).saturated()
                &&& final(self).cannot_grow()
                &&& quad_no_room::<K>(old(self).keys(), final(self).spec_capacity() as int)
                &&& (final(self).spec_capacity() == old(self).spec_capacity()
                        && (old(self).keys().len() + 1) * 4 > 3 * old(self).spec_capacity())
                    || final(self).probe_full(key@)
            },
            (old(self).keys().len() + 1) * 4 <= 3 * old(self).spec_capacity()
                && (old(self).keys().contains(key@) || !old(self).probe_full(key@)) ==> {
                &&& final(self).spec_capacity() == old(self).spec_capacity()
                &&& final(self).keys() == old(self).keys().insert(key@)
                &&& final(self).saturated() == old(self).saturated()
            },
            (old(self).keys().len() + 1) * 4 > 3 * old(self).spec_capacity() ==> forall|j: nat|
                old(self).grows_by(j) && #[trigger] old(self).takes_after_growth(j, key@) ==> {
                    &&& final(self).spec_capacity() == old(self).spec_capacity() * pow2(j)
                    &&& final(self).keys() == old(self).keys().insert(key@)
                    &&& final(self).saturated() == old(self).saturated()
                },
            final(self).spec_capacity() >= old(self).spec_capacity(),
            final(self).spec_capacity() == old(self).spec_capacity()
                || exists|j: nat| j >= 1 && final(self).spec_capacity() == old(self).spec_capacity() * #[trigger] pow2(j),
    {
        proof {
            lemma_slot_keys_len(self.slots@);
        }
        let ghost c0 = self.capacity as int;
        let ghost fits_first = (old(self).keys().len() + 1) * 4 > 3 * old(self).spec_capacity()
            && exists|j: nat| old(self).grows_by(j) && #[trigger] old(self).takes_after_growth(j, key@);
        if (self.count + 1) * 4 > self.capacity * 3 {
            if !self.grow() {
                self.saturated = true;
                proof {
                    assert(quad_no_room::<K>(old(self).keys(), old(self).spec_capacity() as int));
                    lemma_slot_keys_len(self.slots@);
                }
                return;
            }
            proof {
                let j1 = choose|j: nat| #[trigger] old(self).grows_by(j)
                    && self.capacity == old(self).capacity * pow2(j)
                    && quad_rehashed(old(self).slots@, self.capacity as int) == Some(self.slots@);
                if fits_first {
                    let j = choose|j: nat| old(self).grows_by(j) && #[trigger] old(self).takes_after_growth(j, key@);
                    old(self).law_growth_is_first_fit(j, j1);
                    assert(old(self).takes_after_growth(j1, key@));
                }
            }
        } else {
            proof {
                if fits_first {
                    lemma_slot_keys_len(old(self).slots@);
                }
            }
        }
        assert(doubled_from(c0, self.capacity as int));
        let ghost v = key@;
        let ghost c1 = self.capacity as int;
        let ghost s1 = self.slots@;
        let mut pending = key;
        loop
            invariant
                self.inv(),
                self.count + 1 < self.capacity,
                (self.count + 1) * 4 <= 3 * self.capacity,
                pending@ == v,
                v == key@,
                slot_keys(self.slots@) == slot_keys(old(self).slots@),
                self.saturated == old(self).saturated,
                self.capacity >= old(self).capacity,
                c0 == old(self).capacity,
                doubled_from(c0, self.capacity as int),
                self.hint == old(self).hint,
                self.capacity == c0 ==> self.slots@ == old(self).slots@,
                old(self).inv(),
                (old(self).keys().len() + 1) * 4 <= 3 * old(self).spec_capacity()
                    && (old(self).keys().contains(key@) || !old(self).probe_full(key@)) ==> self.capacity == c0,
                self.capacity >= c1 > 0,
                self.capacity == c1 ==> self.slots@ == s1,
                fits_first == ((old(self).keys().len() + 1) * 4 > 3 * old(self).spec_capacity()
                    && exists|j: nat| old(self).grows_by(j) && #[trigger] old(self).takes_after_growth(j, key@)),
                fits_first ==> self.capacity == c1,
                fits_first ==> slot_keys(s1).contains(v)
                    || exists|d: int| quad_first_free(s1, home_slot::<K>(v, c1), d),
                fits_first ==> c1 == old(self).capacity * pow2(choose|j: nat| old(self).grows_by(j) && #[trigger] old(self).takes_after_growth(j, key@)),
            decreases usize::MAX - self.capacity,
        {
            match Self::raw_insert(&mut self.slots, self.capacity, pending) {
                Ok(inserted) => {
                    if inserted {
                        self.count = self.count + 1;
                    }
                    proof {
                        lemma_slot_keys_len(self.slots@);
                        assert(slot_keys(self.slots@) == slot_keys(old(self).slots@).insert(v));
                        assert(self.keys() == old(self).keys().insert(v));
                        assert forall|j: nat| (old(self).keys().len() + 1) * 4 > 3 * old(self).spec_capacity()
                            && old(self).grows_by(j) && #[trigger] old(self).takes_after_growth(j, key@)
                            implies self.spec_capacity() == old(self).spec_capacity() * pow2(j) by {
                            assert(fits_first);
                            let j0 = choose|j: nat| old(self).grows_by(j) && #[trigger] old(self).takes_after_growth(j, key@);
                            old(self).law_growth_is_first_fit(j, j0);
                        }
                    }
                    return;
                },
                Err(k) => {
                    pending = k;
                    let ghost c = self.capacity as int;
                    proof {
                        assert(self.probe_full(v));
                        assert(!self.keys().contains(v));
                        if self.capacity == c0 {
                            assert(old(self).probe_full(v));
                        }
                        assert(!fits_first) by {
                            if fits_first {
                                if !slot_keys(s1).contains(v) {
                                    let d = choose|d: int| quad_first_free(s1, home_slot::<K>(v, c1), d);
                                    assert(s1[quad_pos(home_slot::<K>(v, c1), d, c1)] is Some);
                                }
                            }
                        }
                    }
                    if !self.grow() {
                        self.saturated = true;
                        proof {
                            lemma_slot_keys_len(self.slots@);
                            assert(quad_no_room::<K>(old(self).keys(), c));
                            assert(self.keys() =~= old(self).keys());
                            assert(self.keys() != old(self).keys().insert(v));
                        }
                        return;
                    }
                    proof {
                        lemma_doubled_twice(c0, c, self.capacity as int);
                    }
                },
            }
        }
    }

    fn find(&self, key: &K) -> (b: bool) {
        Self::raw_find(&self.slots, self.capacity, key)
    }

    fn capacity(&self) -> (c: usize)
        ensures
            c == self.spec_capacity(),
    {
        self.capacity
    }

    fn len(&self) -> (n: usize) {
        proof {
            lemma_slot_keys_len(self.slots@);
        }
        self.count
    }

    fn extra_space(&self) -> (e: usize)
        ensures
            e == self.spec_extra_space(),
    {
        0
    }
}

} // verus!
