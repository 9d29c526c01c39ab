//! Two-table cuckoo hashing baseline.

use vstd::prelude::*;
use vstd::arithmetic::power2::pow2;
use crate::hash_utils::{hash2, spec_hash1, spec_hash2};
use crate::implns::slots::{
    empty_slots, home_index, home_slot, lemma_num_occupied_bound, lemma_num_occupied_prefix,
    lemma_num_occupied_update, lemma_slot_keys_clear, lemma_slot_keys_fill, lemma_slot_keys_len,
    lemma_slot_keys_prefix, lemma_slots_distinct_fill, num_occupied, slot_keys, slots_distinct,
    spec_table_capacity, table_capacity,
};
use crate::trait_def::{HashTable, TableKey};

verus! {

/// Number of evictions one insertion sequence may perform before the tables
/// are rebuilt.
pub const MAX_KICKS: usize = 128;

/// Slot of a key of value `v` in the first table: `(hash1(key) as usize) % cap`.
pub open spec fn idx1_of<K: TableKey>(v: K::V, cap: int) -> int {
    home_slot::<K>(v, cap)
}

/// Slot of a key of value `v` in the second table: `(hash2(key) as usize) % cap`.
pub open spec fn idx2_of<K: TableKey>(v: K::V, cap: int) -> int {
    (spec_hash2::<K>(v) as usize) as int % cap
}

/// Invariant of a pair of cuckoo tables of `cap` slots each: every key sits
/// at its own slot in the table that holds it, and no value occurs twice.
pub open spec fn cuckoo_wf<K: TableKey>(t1: Seq<Option<K>>, t2: Seq<Option<K>>, cap: int) -> bool {
    &&& cap > 0
    &&& t1.len() == cap
    &&& t2.len() == cap
    &&& forall|i: int| #![trigger t1[i]] 0 <= i < cap && t1[i] is Some ==> idx1_of::<K>(t1[i]->0@, cap) == i
    &&& forall|i: int| #![trigger t2[i]] 0 <= i < cap && t2[i] is Some ==> idx2_of::<K>(t2[i]->0@, cap) == i
    &&& slots_distinct(t1 + t2)
}

/// Two distinct values of `keys` share their slot in a second table of
/// `cap` slots.
pub open spec fn cuckoo_collide<K: TableKey>(keys: Set<K::V>, cap: int) -> bool {
    exists|u: K::V, w: K::V|
        #![trigger keys.contains(u), keys.contains(w)]
        keys.contains(u) && keys.contains(w) && u != w && idx2_of::<K>(u, cap) == idx2_of::<K>(w, cap)
}

/// At every doubling of `cap` that stays within `usize::MAX / 3`, two
/// distinct values of `keys` share their slot in the second table.
pub open spec fn cuckoo_no_room<K: TableKey>(keys: Set<K::V>, cap: int) -> bool
    decreases usize::MAX - cap,
{
    if cap <= 0 || cap > usize::MAX / 6 {
        true
    } else {
        cuckoo_collide::<K>(keys, 2 * cap) && cuckoo_no_room::<K>(keys, 2 * cap)
    }
}

/// What an insertion sequence of at most `rounds` rounds that starts with
/// `key` does to the tables `t1` and `t2` of `cap` slots each: the key takes
/// its slot in the first table, and the key it evicts, if any, takes its
/// slot in the second table, whose evicted key starts the next round. The
/// result is the two tables afterwards and the key that was left without a
/// slot when the rounds ran out (`None` when every key found one).
pub open spec fn cuckoo_walk<K: TableKey>(t1: Seq<Option<K>>, t2: Seq<Option<K>>, cap: int, key: K, rounds: nat)
    -> (Seq<Option<K>>, Seq<Option<K>>, Option<K>)
    decreases rounds,
{
    if rounds == 0 {
        (t1, t2, Some(key))
    } else {
        let i1 = idx1_of::<K>(key@, cap);
        match t1[i1] {
            None => (t1.update(i1, Some(key)), t2, None),
            Some(d1) => {
                let t1b = t1.update(i1, Some(key));
                let i2 = idx2_of::<K>(d1@, cap);
                match t2[i2] {
                    None => (t1b, t2.update(i2, Some(d1)), None),
                    Some(d2) => cuckoo_walk(t1b, t2.update(i2, Some(d1)), cap, d2, (rounds - 1) as nat),
                }
            },
        }
    }
}

/// Replacing the key in slot `i` of a distinct slot array by a key of a value
/// that is absent swaps the two values in the key set.
proof fn lemma_swap_slot<K: View>(slots: Seq<Option<K>>, i: int, k: K)
    requires
        0 <= i < slots.len(),
        slots[i] is Some,
        slots_distinct(slots),
        !slot_keys(slots).contains(k@),
    ensures
        slot_keys(slots.update(i, Some(k))) == slot_keys(slots).remove(slots[i]->0@).insert(k@),
        slots_distinct(slots.update(i, Some(k))),
        num_occupied(slots.update(i, Some(k))) == num_occupied(slots),
        !slot_keys(slots.update(i, Some(k))).contains(slots[i]->0@),
{
    let cleared = slots.update(i, None);
    lemma_slot_keys_clear(slots, i);
    lemma_slot_keys_fill(cleared, i, k);
    lemma_slots_distinct_fill(cleared, i, k);
    assert(cleared.update(i, Some(k)) =~= slots.update(i, Some(k)));
    lemma_num_occupied_update(slots, i, Some(k));
}

/// Cuckoo table with one location in each backing array.
pub struct CuckooTable<K> {
    table1: Vec<Option<K>>,
    table2: Vec<Option<K>>,
    capacity: usize,
    count: usize,
    saturated: bool,
    /// The capacity hint that the table was created with.
    hint: Ghost<nat>,
}

impl<K: TableKey> CuckooTable<K> {
    /// Slot of `key` in the first table.
    fn idx1(key: &K, cap: usize) -> (i: usize)
        requires
            cap > 0,
        ensures
            i == idx1_of::<K>(key@, cap as int),
            i < cap,
    {
        home_index(key, cap)
    }

    /// Slot of `key` in the second table.
    fn idx2(key: &K, cap: usize) -> (i: usize)
        requires
            cap > 0,
        ensures
            i == idx2_of::<K>(key@, cap as int),
            i < cap,
    {
        (hash2(key) as usize) % cap
    }

    /// Attempts one cuckoo insertion sequence of at most `MAX_KICKS` rounds:
    /// the key takes its slot in the first table, evicting its occupant, which
    /// takes its slot in the second table, and so on. Gives back the key left
    /// without a slot when the rounds run out.
    fn try_insert(t1: &mut Vec<Option<K>>, t2: &mut Vec<Option<K>>, cap: usize, new_key: K) -> (r: Result<(), K>)
        requires
            cuckoo_wf(old(t1)@, old(t2)@, cap as int),
            !slot_keys(old(t1)@ + old(t2)@).contains(new_key@),
        ensures
            cuckoo_wf(final(t1)@, final(t2)@, cap as int),
            ({
                let w = cuckoo_walk(old(t1)@, old(t2)@, cap as int, new_key, MAX_KICKS as nat);
                &&& final(t1)@ == w.0
                &&& final(t2)@ == w.1
                &&& match r {
                    Ok(()) => w.2 is None,
                    Err(h) => w.2 == Some(h),
                }
            }),
            match r {
                Ok(()) => {
                    &&& slot_keys(final(t1)@ + final(t2)@) == slot_keys(old(t1)@ + old(t2)@).insert(new_key@)
                    &&& num_occupied(final(t1)@ + final(t2)@) == num_occupied(old(t1)@ + old(t2)@) + 1
                },
                Err(h) => {
                    &&& slot_keys(final(t1)@ + final(t2)@).insert(h@) == slot_keys(old(t1)@ + old(t2)@).insert(new_key@)
                    &&& !slot_keys(final(t1)@ + final(t2)@).contains(h@)
                    &&& num_occupied(final(t1)@ + final(t2)@) == num_occupied(old(t1)@ + old(t2)@)
                    &&& final(t2)@[idx2_of::<K>(h@, cap as int)] is Some
                    &&& final(t2)@[idx2_of::<K>(h@, cap as int)]->0@ != h@
                },
            },
    {
        let ghost c = cap as int;
        let ghost goal = slot_keys(old(t1)@ + old(t2)@).insert(new_key@);
        let ghost occ = num_occupied(old(t1)@ + old(t2)@);
        let mut key = new_key;
        let mut kicks: usize = 0;
        while kicks < MAX_KICKS
            invariant
                c == cap as int,
                cuckoo_wf(t1@, t2@, c),
                !slot_keys(t1@ + t2@).contains(key@),
                slot_keys(t1@ + t2@).insert(key@) == goal,
                num_occupied(t1@ + t2@) == occ,
                goal == slot_keys(old(t1)@ + old(t2)@).insert(new_key@),
                occ == num_occupied(old(t1)@ + old(t2)@),
                kicks > 0 ==> t2@[idx2_of::<K>(key@, c)] is Some && t2@[idx2_of::<K>(key@, c)]->0@ != key@,
                kicks <= MAX_KICKS,
                cuckoo_walk(old(t1)@, old(t2)@, c, new_key, MAX_KICKS as nat)
                    == cuckoo_walk(t1@, t2@, c, key, (MAX_KICKS - kicks) as nat),
            decreases MAX_KICKS - kicks,
        {
            let ghost w1 = t1@;
            let ghost w2 = t2@;
            let ghost wk = key;
            let ghost rounds = (MAX_KICKS - kicks) as nat;
            let i1 = Self::idx1(&key, cap);
            if t1[i1].is_none() {
                let ghost s0 = t1@ + t2@;
                proof {
                    lemma_slot_keys_fill(s0, i1 as int, key);
                    lemma_slots_distinct_fill(s0, i1 as int, key);
                    lemma_num_occupied_update(s0, i1 as int, Some(key));
                }
                t1.set(i1, Some(key));
                proof {
                    assert(t1@ + t2@ =~= s0.update(i1 as int, Some(key)));
                    assert(slot_keys(t1@ + t2@) =~= goal);
                    assert(cuckoo_walk(w1, w2, c, wk, rounds) == (t1@, t2@, None::<K>));
                }
                return Ok(());
            }
            let ghost s0 = t1@ + t2@;
            let ghost kv = key@;
            let mut slot = Some(key);
            t1.set_and_swap(i1, &mut slot);
            key = slot.unwrap();
            proof {
                assert(s0[i1 as int] == Some(key));
                lemma_swap_slot(s0, i1 as int, t1@[i1 as int]->0);
                assert(t1@ + t2@ =~= s0.update(i1 as int, t1@[i1 as int]));
                assert(slot_keys(t1@ + t2@).insert(key@) =~= goal);
            }

            let i2 = Self::idx2(&key, cap);
            if t2[i2].is_none() {
                let ghost s1 = t1@ + t2@;
                let ghost p = c + i2 as int;
                proof {
                    lemma_slot_keys_fill(s1, p, key);
                    lemma_slots_distinct_fill(s1, p, key);
                    lemma_num_occupied_update(s1, p, Some(key));
                }
                t2.set(i2, Some(key));
                proof {
                    assert(t1@ + t2@ =~= s1.update(p, Some(key)));
                    assert(slot_keys(t1@ + t2@) =~= goal);
                    assert(cuckoo_walk(w1, w2, c, wk, rounds) == (t1@, t2@, None::<K>));
                }
                return Ok(());
            }
            let ghost s1 = t1@ + t2@;
            let ghost p = c + i2 as int;
            let ghost t2b = t2@;
            let ghost placed = key;
            proof {
                assert(s1[p] == t2b[i2 as int]);
                assert(!slot_keys(s1).contains(placed@));
                assert(slot_keys(s1).contains(t2b[i2 as int]->0@));
            }
            let mut slot2 = Some(key);
            t2.set_and_swap(i2, &mut slot2);
            key = slot2.unwrap();
            proof {
                assert(key == t2b[i2 as int]->0);
                assert(idx2_of::<K>(key@, c) == i2);
                assert(t2@[i2 as int] == Some(placed));
                assert(s1[p] == Some(key));
                lemma_swap_slot(s1, p, t2@[i2 as int]->0);
                assert(t1@ + t2@ =~= s1.update(p, t2@[i2 as int]));
                assert(slot_keys(t1@ + t2@).insert(key@) =~= goal);
                assert(cuckoo_walk(w1, w2, c, wk, rounds) == cuckoo_walk(t1@, t2@, c, key, (rounds - 1) as nat));
            }
            kicks = kicks + 1;
        }
        proof {
            assert(cuckoo_walk(t1@, t2@, c, key, 0) == (t1@, t2@, Some(key)));
        }
        Err(key)
    }

    /// Places the keys of `t1`, then those of `t2`, then `homeless`, into
    /// fresh tables of `new_cap` slots each; `None` when an insertion sequence
    /// runs out of rounds.
    fn rehash(t1: &Vec<Option<K>>, t2: &Vec<Option<K>>, homeless: &K, old_cap: usize, new_cap: usize)
        -> (r: Option<(Vec<Option<K>>, Vec<Option<K>>)>)
        requires
            cuckoo_wf(t1@, t2@, old_cap as int),
            old_cap <= usize::MAX / 3,
            !slot_keys(t1@ + t2@).contains(homeless@),
            new_cap > 0,
        ensures
            r matches Some((a, b)) ==> {
                &&& cuckoo_wf(a@, b@, new_cap as int)
                &&& slot_keys(a@ + b@) == slot_keys(t1@ + t2@).insert(homeless@)
                &&& num_occupied(a@ + b@) == num_occupied(t1@ + t2@) + 1
            },
            r is None ==> cuckoo_collide::<K>(slot_keys(t1@ + t2@).insert(homeless@), new_cap as int),
    {
        let mut a: Vec<Option<K>> = empty_slots(new_cap);
        let mut b: Vec<Option<K>> = empty_slots(new_cap);
        let ghost all = t1@ + t2@;
        proof {
            assert(slot_keys(a@ + b@) =~= Set::<K::V>::empty());
            lemma_num_occupied_bound(a@ + b@);
            assert(all.subrange(0, 0) =~= Seq::<Option<K>>::empty());
            assert(slot_keys(all.subrange(0, 0)) =~= Set::<K::V>::empty());
        }
        let total = 2 * old_cap;
        let mut j: usize = 0;
        while j < total
            invariant
                all == t1@ + t2@,
                total == 2 * old_cap,
                cuckoo_wf(t1@, t2@, old_cap as int),
                0 <= j <= total,
                cuckoo_wf(a@, b@, new_cap as int),
                slot_keys(a@ + b@) == slot_keys(all.subrange(0, j as int)),
                num_occupied(a@ + b@) == num_occupied(all.subrange(0, j as int)),
            decreases total - j,
        {
            proof {
                lemma_num_occupied_prefix(all, j as int);
                lemma_slot_keys_prefix(all, j as int);
            }
            let slot = if j < old_cap { &t1[j] } else { &t2[j - old_cap] };
            assert(*slot == all[j as int]);
            match slot {
                Some(k) => {
                    proof {
                        if slot_keys(all.subrange(0, j as int)).contains(k@) {
                            let i = choose|i: int| 0 <= i < j && all.subrange(0, j as int)[i] is Some && all.subrange(0, j as int)[i]->0@ == k@;
                            assert(all[i] is Some);
                        }
                    }
                    let ghost before = a@ + b@;
                    match Self::try_insert(&mut a, &mut b, new_cap, k.key_clone()) {
                        Ok(()) => {},
                        Err(h) => {
                            proof {
                                let c = new_cap as int;
                                let keys = slot_keys(all).insert(homeless@);
                                let i = idx2_of::<K>(h@, c);
                                let y = b@[i]->0;
                                assert((a@ + b@)[c + i] == b@[i]);
                                assert(slot_keys(a@ + b@).contains(y@));
                                assert(slot_keys(a@ + b@).insert(h@).contains(h@));
                                assert(all[j as int] is Some && all[j as int]->0@ == k@);
                                assert(slot_keys(all).contains(k@));
                                assert forall|v: K::V| slot_keys(before).contains(v) implies slot_keys(all).contains(v) by {
                                    let q = choose|q: int| 0 <= q < j && all.subrange(0, j as int)[q] is Some && all.subrange(0, j as int)[q]->0@ == v;
                                    assert(all[q] == all.subrange(0, j as int)[q]);
                                }
                                assert(slot_keys(before).insert(k@).contains(y@));
                                assert(slot_keys(before).insert(k@).contains(h@));
                                assert(keys.contains(y@) && keys.contains(h@));
                                assert(idx2_of::<K>(y@, c) == i);
                            }
                            return None;
                        },
                    }
                },
                None => {},
            }
            j = j + 1;
        }
        proof {
            assert(all.subrange(0, total as int) =~= all);
        }
        let ghost before = a@ + b@;
        match Self::try_insert(&mut a, &mut b, new_cap, homeless.key_clone()) {
            Ok(()) => Some((a, b)),
            Err(h) => {
                proof {
                    let c = new_cap as int;
                    let keys = slot_keys(all).insert(homeless@);
                    let i = idx2_of::<K>(h@, c);
                    let y = b@[i]->0;
                    assert((a@ + b@)[c + i] == b@[i]);
                    assert(slot_keys(a@ + b@).contains(y@));
                    assert(slot_keys(a@ + b@).insert(h@).contains(h@));
                    assert(keys.contains(y@) && keys.contains(h@));
                    assert(idx2_of::<K>(y@, c) == i);
                }
                None
            },
        }
    }

    /// The table's invariant.
    pub closed spec fn inv(&self) -> bool {
        &&& cuckoo_wf(self.table1@, self.table2@, self.capacity as int)
        &&& self.count == num_occupied(self.table1@ + self.table2@)
        &&& self.capacity <= usize::MAX / 3
    }

    /// Grows the tables (doubling their capacity until every existing key and
    /// `homeless` find a place) and reinserts all keys. Returns false,
    /// changing nothing, when the capacity can no longer double.
    fn rebuild(&mut self, homeless: &K) -> (done: bool)
        requires
            old(self).inv(),
            old(self).count < usize::MAX / 8,
            !slot_keys(old(self).table1@ + old(self).table2@).contains(homeless@),
        ensures
            final(self).inv(),
            final(self).saturated == old(self).saturated,
            final(self).hint == old(self).hint,
            done ==> slot_keys(final(self).table1@ + final(self).table2@) == slot_keys(old(self).table1@ + old(self).table2@).insert(homeless@),
            done ==> final(self).count == old(self).count + 1,
            done ==> final(self).capacity >= 2 * old(self).capacity,
            done ==> exists|j: nat| j >= 1 && final(self).capacity == old(self).capacity * #[trigger] pow2(j),
            !done ==> *final(self) == *old(self),
            !done ==> cuckoo_no_room::<K>(slot_keys(old(self).table1@ + old(self).table2@).insert(homeless@), old(self).capacity as int),
    {
        let ghost keys = slot_keys(self.table1@ + self.table2@).insert(homeless@);
        let mut new_cap = self.capacity;
        let ghost mut doublings: nat = 0;
        proof {
            vstd::arithmetic::power2::lemma_pow2(0);
            vstd::arithmetic::power::lemma_pow0(2);
        }
        loop
            invariant
                self.inv(),
                *self == *old(self),
                self.count < usize::MAX / 8,
                !slot_keys(self.table1@ + self.table2@).contains(homeless@),
                self.capacity <= new_cap <= usize::MAX / 3,
                new_cap == self.capacity * pow2(doublings),
                keys == slot_keys(self.table1@ + self.table2@).insert(homeless@),
                cuckoo_no_room::<K>(keys, new_cap as int) ==> cuckoo_no_room::<K>(keys, self.capacity as int),
            decreases usize::MAX - new_cap,
        {
            if new_cap > usize::MAX / 6 {
                return false;
            }
            let ghost prev = new_cap as int;
            new_cap = new_cap * 2;
            proof {
                let c = self.capacity as int;
                let q = pow2(doublings) as int;
                vstd::arithmetic::power2::lemma_pow2_unfold(doublings + 1);
                assert(new_cap == c * (2 * q)) by (nonlinear_arith)
                    requires
                        new_cap == 2 * prev,
                        prev == c * q,
                ;
                doublings = doublings + 1;
            }
            match Self::rehash(&self.table1, &self.table2, homeless, self.capacity, new_cap) {
                Some((a, b)) => {
                    self.table1 = a;
                    self.table2 = b;
                    self.capacity = new_cap;
                    self.count = self.count + 1;
                    return true;
                },
                None => {
                    proof {
                        assert(prev > 0);
                        if cuckoo_no_room::<K>(keys, new_cap as int) {
                            assert(cuckoo_no_room::<K>(keys, prev));
                        }
                    }
                },
            }
        }
    }

    /// Looks a key up in its slot of each table.
    fn contains(&self, key: &K) -> (b: bool)
        requires
            self.inv(),
        ensures
            b == slot_keys(self.table1@ + self.table2@).contains(key@),
    {
        let ghost all = self.table1@ + self.table2@;
        let ghost cap = self.capacity as int;
        let i1 = Self::idx1(key, self.capacity);
        let i2 = Self::idx2(key, self.capacity);
        let in1 = match &self.table1[i1] {
            Some(k) => k.key_eq(key),
            None => false,
        };
        let in2 = match &self.table2[i2] {
            Some(k) => k.key_eq(key),
            None => false,
        };
        proof {
            if in1 {
                assert(all[i1 as int] == self.table1@[i1 as int]);
            }
            if in2 {
                assert(all[cap + i2] == self.table2@[i2 as int]);
            }
            if slot_keys(all).contains(key@) {
                let j = choose|j: int| 0 <= j < all.len() && all[j] is Some && all[j]->0@ == key@;
                if j < cap {
                    assert(self.table1@[j] == all[j]);
                } else {
                    assert(self.table2@[j - cap] == all[j]);
                }
            }
        }
        in1 || in2
    }
}

impl<K: TableKey> CuckooTable<K> {
    /// Number of slots that `capacity` reports.
    pub closed spec fn spec_capacity(&self) -> nat {
        2 * self.capacity as nat
    }

    /// An insertion sequence that starts with `key` on the current tables
    /// runs out of rounds with a key left without a slot.
    pub closed spec fn sequence_fails(&self, key: K) -> bool {
        cuckoo_walk(self.table1@, self.table2@, self.capacity as int, key, MAX_KICKS as nat).2 is Some
    }

    /// On an empty table the insertion sequence of any key succeeds: the key
    /// finds its slot in the first table free.
    pub proof fn lemma_empty_sequence_succeeds(&self, key: K)
        requires
            self.wf(),
            self.keys().len() == 0,
        ensures
            !self.sequence_fails(key),
    {
        let c = self.capacity as int;
        let all = self.table1@ + self.table2@;
        lemma_slot_keys_len(all);
        let i1 = idx1_of::<K>(key@, c);
        assert(0 <= i1 < c) by {
            vstd::arithmetic::div_mod::lemma_mod_bound((spec_hash1::<K>(key@) as usize) as int, c);
        }
        if self.table1@[i1] is Some {
            assert(all[i1] == self.table1@[i1]);
            assert(slot_keys(all).contains(self.table1@[i1]->0@));
        }
    }

    /// Number of overflow slots that `extra_space` reports.
    pub closed spec fn spec_extra_space(&self) -> nat {
        0
    }
}

impl<K: TableKey> HashTable<K> for CuckooTable<K> {
    closed spec fn wf(&self) -> bool {
        self.inv()
    }

    closed spec fn keys(&self) -> Set<K::V> {
        slot_keys(self.table1@ + self.table2@)
    }

    /// Exactly the table's slot count.
    open spec fn reports_capacity(&self, c: nat) -> bool {
        c == self.spec_capacity()
    }

    /// Exactly the table's overflow slot count.
    open spec fn reports_extra_space(&self, e: nat) -> bool {
        e == self.spec_extra_space()
    }

    closed spec fn saturated(&self) -> bool {
        self.saturated
    }

    closed spec fn capacity_hint(&self) -> nat {
        self.hint@
    }



    /// Creates two empty tables of `capacity.next_power_of_two().max(16)`
    /// slots each.
    fn new(capacity: usize) -> (t: Self)
        ensures
            spec_table_capacity(capacity as int, t.spec_capacity() as int / 2),
            t.spec_capacity() as int == 2 * (t.spec_capacity() as int / 2),
    {
        let cap = table_capacity(capacity);
        let table1 = empty_slots(cap);
        let table2 = empty_slots(cap);
        proof {
            lemma_num_occupied_bound(table1@ + table2@);
            assert(slot_keys(table1@ + table2@) =~= Set::<K::V>::empty());
        }
        CuckooTable { table1, table2, capacity: cap, count: 0, saturated: false, hint: Ghost(capacity as nat) }
    }

    /// Inserts a key that is not present yet: runs one insertion sequence,
    /// and when it runs out of rounds, rebuilds the tables with every key,
    /// the one left without a slot included. Only when the capacity can no
    /// longer double is that key left out, and the table marked saturated.
    fn insert(&mut self, key: K)
        ensures
            final(self).keys() == old(self).keys().insert(key@)
                || (final(self).saturated() && exists|h: K::V| final(self).keys() == old(self).keys().insert(key@).remove(h)),
            final(self).saturated() ==> old(self).saturated()
                || cuckoo_no_room::<K>(old(self).keys().insert(key@), old(self).spec_capacity() as int / 2),
            final(self).spec_capacity() >= old(self).spec_capacity(),
            final(self).spec_capacity() == old(self).spec_capacity()
                || exists|j: nat| j >= 1 && final(self).spec_capacity() == old(self).spec_capacity() * #[trigger] pow2(j),
            old(self).keys().contains(key@) ==> *final(self) == *old(self),
            final(self).spec_capacity() != old(self).spec_capacity() ==> old(self).sequence_fails(key),
            old(self).keys().len() == 0 ==> final(self).spec_capacity() == old(self).spec_capacity()
                && final(self).keys() == old(self).keys().insert(key@),
    {
        proof {
            lemma_slot_keys_len(self.table1@ + self.table2@);
            if self.keys().len() == 0 {
                self.lemma_empty_sequence_succeeds(key);
            }
        }
        if self.contains(&key) {
            proof {
                assert(self.keys() =~= old(self).keys().insert(key@));
            }
            return;
        }
        let ghost goal = old(self).keys().insert(key@);
        match Self::try_insert(&mut self.table1, &mut self.table2, self.capacity, key) {
            Ok(()) => {
                self.count = self.count + 1;
            },
            Err(homeless) => {
                proof {
                    assert(slot_keys(self.table1@ + self.table2@).insert(homeless@) == goal);
                    assert(self.capacity == old(self).capacity);
                }
                let ghost before = self.capacity as int;
                if self.rebuild(&homeless) {
                    proof {
                        assert(self.keys() =~= goal);
                        let j = choose|j: nat| j >= 1 && self.capacity == before * #[trigger] pow2(j);
                        let q = pow2(j) as int;
                        assert(2 * (self.capacity as int) == (2 * before) * q) by (nonlinear_arith)
                            requires
                                self.capacity == before * q,
                        ;
                    }
                } else {
                    self.saturated = true;
                    proof {
                        assert(self.keys() =~= goal.remove(homeless@));
                    }
                }
            },
        }
        proof {
            lemma_slot_keys_len(self.table1@ + self.table2@);
        }
    }

    fn find(&self, key: &K) -> (b: bool) {
        self.contains(key)
    }

    fn capacity(&self) -> (c: usize)
        ensures
            c == self.spec_capacity(),
    {
        self.capacity * 2
    }

    fn len(&self) -> (n: usize) {
        proof {
            lemma_slot_keys_len(self.table1@ + self.table2@);
        }
        self.count
    }

    fn extra_space(&self) -> (e: usize)
        ensures
            e == self.spec_extra_space(),
    {
        0
    }
}

} // verus!
