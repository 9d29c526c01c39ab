//! Bulk workload: insert all keys, then probe all keys.

use vstd::prelude::*;
use crate::datasets::Dataset;
use crate::implns::slots::max_keys;
use crate::trait_def::{HashTable, TableKey, inserted, lemma_seq_views_prefix, seq_views};
use crate::workloads::{phase_total, TimedPhase, WorkloadResult};
use crate::workloads::clock::{elapsed_ns, instant_now};

verus! {

/// Inserting the key of index `i` after the first `i` keys: the table's keys
/// stay within the old keys and the first `i + 1` key values, and equal
/// them unless the table is saturated.
pub proof fn lemma_insert_step<K: TableKey, T: HashTable<K>>(
    base: Set<K::V>,
    keys: Seq<K>,
    i: int,
    before: T,
    after: T,
)
    requires
        0 <= i < keys.len(),
        base.finite(),
        before.keys() <= base + seq_views(keys.take(i)),
        before.keys() == base + seq_views(keys.take(i)) || before.saturated(),
        inserted(before, keys[i]@, after),
    ensures
        after.keys() <= base + seq_views(keys.take(i + 1)),
        after.keys() == base + seq_views(keys.take(i + 1)) || after.saturated(),
{
    lemma_seq_views_prefix(keys, i);
    assert((base + seq_views(keys.take(i))).insert(keys[i]@) =~= base + seq_views(keys.take(i + 1)));
}

/// Before inserting the key of index `i`, the table holds fewer keys than
/// the largest number accepted.
pub proof fn lemma_room_for_next<K: TableKey>(base: Set<K::V>, keys: Seq<K>, i: int, current: Set<K::V>)
    requires
        0 <= i < keys.len(),
        base.finite(),
        base.len() + keys.len() <= max_keys(),
        current <= base + seq_views(keys.take(i)),
    ensures
        current.finite(),
        current.len() < max_keys(),
{
    lemma_seq_views_prefix(keys, i);
    vstd::set_lib::lemma_len_union(base, seq_views(keys.take(i)));
    vstd::set_lib::lemma_len_subset(current, base + seq_views(keys.take(i)));
}

/// Phase 1 workload: insert all keys, then find all keys.
pub fn run<K: TableKey, T: HashTable<K>>(table: &mut T, dataset: &Dataset<K>) -> (r: WorkloadResult)
    requires
        old(table).wf(),
        old(table).keys().finite(),
        old(table).keys().len() + dataset.keys@.len() <= max_keys(),
    ensures
        final(table).wf(),
        final(table).keys().finite(),
        final(table).capacity_hint() == old(table).capacity_hint(),
        final(table).keys() <= old(table).keys() + seq_views(dataset.keys@),
        final(table).keys() == old(table).keys() + seq_views(dataset.keys@) || final(table).saturated(),
        r.insert_count == dataset.keys@.len(),
        r.find_count == dataset.keys@.len(),
{
    let (r, _phases) = run_timed(table, dataset);
    r
}

/// The indices `0, 1, ..., n - 1`.
pub open spec fn indices(n: int) -> Seq<int> {
    Seq::new(n as nat, |i: int| i)
}

/// The bulk workload with the record of its two timed phases: first one
/// phase that inserts every key, in dataset order, then one that finds every
/// key, in dataset order. The insert time is the insert phase's measured
/// time and the find time the find phase's.
pub fn run_timed<K: TableKey, T: HashTable<K>>(table: &mut T, dataset: &Dataset<K>) -> (r: (WorkloadResult, Ghost<Seq<TimedPhase>>))
    requires
        old(table).wf(),
        old(table).keys().finite(),
        old(table).keys().len() + dataset.keys@.len() <= max_keys(),
    ensures
        final(table).wf(),
        final(table).keys().finite(),
        final(table).capacity_hint() == old(table).capacity_hint(),
        final(table).keys() <= old(table).keys() + seq_views(dataset.keys@),
        final(table).keys() == old(table).keys() + seq_views(dataset.keys@) || final(table).saturated(),
        r.0.insert_count == dataset.keys@.len(),
        r.0.find_count == dataset.keys@.len(),
        r.1@.len() == 2,
        r.1@[0].inserts && r.1@[0].keys == indices(dataset.keys@.len() as int),
        !r.1@[1].inserts && r.1@[1].keys == indices(dataset.keys@.len() as int),
        r.0.insert_ns == phase_total(r.1@, true),
        r.0.find_ns == phase_total(r.1@, false),
{
    let keys = &dataset.keys;
    let n = keys.len();
    let ghost base = table.keys();
    proof {
        assert(seq_views(keys@.take(0)) =~= Set::<K::V>::empty());
        assert(base + seq_views(keys@.take(0)) =~= base);
    }

    // Bulk timings are batched by phase to avoid per-operation timer overhead.
    let t0 = instant_now();
    let ghost mut inserted_keys: Seq<int> = Seq::empty();
    let mut i: usize = 0;
    while i < n
        invariant
            n == keys@.len(),
            i <= n,
            base == old(table).keys(),
            base.finite(),
            base.len() + n <= max_keys(),
            table.wf(),
            table.capacity_hint() == old(table).capacity_hint(),
            table.keys() <= base + seq_views(keys@.take(i as int)),
            table.keys() == base + seq_views(keys@.take(i as int)) || table.saturated(),
            inserted_keys == indices(i as int),
        decreases n - i,
    {
        let ghost before = *table;
        proof {
            lemma_room_for_next(base, keys@, i as int, table.keys());
        }
        table.insert(keys[i].key_clone());
        proof {
            lemma_insert_step(base, keys@, i as int, before, *table);
            inserted_keys = inserted_keys.push(i as int);
            assert(inserted_keys =~= indices(i + 1));
        }
        i = i + 1;
    }
    let insert_ns = elapsed_ns(&t0);

    let t1 = instant_now();
    let ghost mut found_keys: Seq<int> = Seq::empty();
    let mut j: usize = 0;
    while j < n
        invariant
            n == keys@.len(),
            j <= n,
            table.wf(),
            table.capacity_hint() == old(table).capacity_hint(),
            found_keys == indices(j as int),
        decreases n - j,
    {
        let _ = table.find(&keys[j]);
        proof {
            found_keys = found_keys.push(j as int);
            assert(found_keys =~= indices(j + 1));
        }
        j = j + 1;
    }
    let find_ns = elapsed_ns(&t1);
    let ghost phases = seq![
        TimedPhase { inserts: true, keys: inserted_keys, ns: insert_ns },
        TimedPhase { inserts: false, keys: found_keys, ns: find_ns },
    ];
    proof {
        assert(keys@.take(n as int) =~= keys@);
        if n > 0 {
            lemma_seq_views_prefix(keys@, (n - 1) as int);
        } else {
            assert(seq_views(keys@) =~= Set::<K::V>::empty());
        }
        vstd::set_lib::lemma_len_subset(table.keys(), base + seq_views(keys@));
        assert(phases.drop_last().drop_last() =~= Seq::<TimedPhase>::empty());
        assert(phases.drop_last().last() == phases[0]);
        reveal_with_fuel(phase_total, 3);
        assert(phase_total(phases, true) == insert_ns);
        assert(phase_total(phases, false) == find_ns);
    }

    (WorkloadResult { insert_ns, find_ns, insert_count: n, find_count: n }, Ghost(phases))
}

} // verus!
