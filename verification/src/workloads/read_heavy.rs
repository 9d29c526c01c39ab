//! Read-heavy workload: after a warm-up on the first half of the keys, one
//! operation per turn, mostly finds.

use vstd::prelude::*;
use crate::datasets::Dataset;
use crate::implns::slots::max_keys;
use crate::trait_def::{HashTable, TableKey, seq_views};
use crate::workloads::{lemma_phase_total_push, lemma_wrap_add, phase_total, wrap64, TimedPhase, WorkloadResult};
use crate::workloads::bulk::{lemma_insert_step, lemma_room_for_next};
use crate::workloads::clock::{elapsed_ns, instant_now};

verus! {

/// Number of `true` turns.
pub open spec fn count_true(turns: Seq<bool>) -> int
    decreases turns.len(),
{
    if turns.len() == 0 {
        0
    } else {
        count_true(turns.drop_last()) + if turns.last() { 1int } else { 0int }
    }
}

/// Counting the `true` turns one turn at a time.
pub proof fn lemma_count_true_step(turns: Seq<bool>, i: int)
    requires
        0 <= i < turns.len(),
    ensures
        count_true(turns.take(i + 1)) == count_true(turns.take(i)) + if turns[i] { 1int } else { 0int },
        0 <= count_true(turns.take(i)) <= i,
    decreases i,
{
    assert(turns.take(i + 1).drop_last() =~= turns.take(i));
    if i > 0 {
        lemma_count_true_step(turns, i - 1);
    }
}

/// Number of phases of one kind in a record of timed phases.
pub open spec fn phase_count(log: Seq<TimedPhase>, inserts: bool) -> int
    decreases log.len(),
{
    if log.len() == 0 {
        0
    } else {
        phase_count(log.drop_last(), inserts) + if log.last().inserts == inserts { 1int } else { 0int }
    }
}

/// A record that has one phase per turn, inserting exactly on the `true`
/// turns, has as many insert phases as there are `true` turns, and a find
/// phase for each other turn.
pub proof fn law_one_phase_per_turn(turns: Seq<bool>, log: Seq<TimedPhase>)
    requires
        log.len() == turns.len(),
        forall|t: int| 0 <= t < log.len() ==> (#[trigger] log[t]).inserts == turns[t],
    ensures
        phase_count(log, true) == count_true(turns),
        phase_count(log, false) == turns.len() - count_true(turns),
    decreases log.len(),
{
    if log.len() > 0 {
        let l = log.drop_last();
        let u = turns.drop_last();
        assert forall|t: int| 0 <= t < l.len() implies (#[trigger] l[t]).inserts == u[t] by {
            assert(l[t] == log[t]);
        }
        law_one_phase_per_turn(u, l);
        assert(log[log.len() - 1].inserts == turns[turns.len() - 1]);
    }
}

/// Read-heavy workload on a given schedule of turns: inserts the first half
/// of the keys untimed, then for each turn inserts the next key of the
/// second half (a `true` turn) or finds an already inserted key (a `false`
/// turn), timing each operation.
pub fn run_schedule<K: TableKey, T: HashTable<K>>(table: &mut T, dataset: &Dataset<K>, insert_turns: &Vec<bool>) -> (r: WorkloadResult)
    requires
        old(table).wf(),
        old(table).keys().finite(),
        old(table).keys().len() + dataset.keys@.len() <= max_keys(),
        insert_turns@.len() == dataset.keys@.len() / 2,
    ensures
        final(table).wf(),
        final(table).keys().finite(),
        final(table).capacity_hint() == old(table).capacity_hint(),
        final(table).keys() <= old(table).keys() + seq_views(dataset.keys@.take(dataset.keys@.len() / 2 + count_true(insert_turns@))),
        final(table).keys() == old(table).keys() + seq_views(dataset.keys@.take(dataset.keys@.len() / 2 + count_true(insert_turns@)))
            || final(table).saturated(),
        r.insert_count == count_true(insert_turns@),
        r.find_count == insert_turns@.len() - count_true(insert_turns@),
        r.insert_count + r.find_count == dataset.keys@.len() / 2,
{
    let (r, _phases) = run_schedule_timed(table, dataset, insert_turns);
    r
}

/// The read-heavy workload with the record of its timed phases: one phase
/// per turn, in turn order, each timing one operation. A `true` turn
/// inserts the next key of the second half; a `false` turn finds a key that
/// was inserted before it. The insert time is the wrapping sum of the
/// insert phases' times and the find time that of the find phases' times.
pub fn run_schedule_timed<K: TableKey, T: HashTable<K>>(table: &mut T, dataset: &Dataset<K>, insert_turns: &Vec<bool>)
    -> (r: (WorkloadResult, Ghost<Seq<TimedPhase>>))
    requires
        old(table).wf(),
        old(table).keys().finite(),
        old(table).keys().len() + dataset.keys@.len() <= max_keys(),
        insert_turns@.len() == dataset.keys@.len() / 2,
    ensures
        final(table).wf(),
        final(table).keys().finite(),
        final(table).capacity_hint() == old(table).capacity_hint(),
        final(table).keys() <= old(table).keys() + seq_views(dataset.keys@.take(dataset.keys@.len() / 2 + count_true(insert_turns@))),
        final(table).keys() == old(table).keys() + seq_views(dataset.keys@.take(dataset.keys@.len() / 2 + count_true(insert_turns@)))
            || final(table).saturated(),
        r.0.insert_count == count_true(insert_turns@),
        r.0.find_count == insert_turns@.len() - count_true(insert_turns@),
        r.0.insert_count + r.0.find_count == dataset.keys@.len() / 2,
        r.1@.len() == insert_turns@.len(),
        forall|t: int| 0 <= t < r.1@.len() ==> {
            &&& (#[trigger] r.1@[t]).inserts == insert_turns@[t]
            &&& r.1@[t].keys.len() == 1
            &&& r.1@[t].inserts ==> r.1@[t].keys[0] == dataset.keys@.len() / 2 + count_true(insert_turns@.take(t))
            &&& !r.1@[t].inserts ==> 0 <= r.1@[t].keys[0] < dataset.keys@.len() / 2 + count_true(insert_turns@.take(t))
        },
        r.0.insert_ns == wrap64(phase_total(r.1@, true)),
        r.0.find_ns == wrap64(phase_total(r.1@, false)),
{
    let keys = &dataset.keys;
    let n = keys.len();
    let half = n / 2;
    let ghost base = table.keys();
    proof {
        assert(seq_views(keys@.take(0)) =~= Set::<K::V>::empty());
        assert(base + seq_views(keys@.take(0)) =~= base);
    }

    // Warm-up is intentionally excluded from timing so the measured portion
    // reflects the read-dominant steady state.
    let mut w: usize = 0;
    while w < half
        invariant
            n == keys@.len(),
            half == n / 2,
            w <= half,
            base == old(table).keys(),
            base.finite(),
            base.len() + n <= max_keys(),
            table.wf(),
            table.capacity_hint() == old(table).capacity_hint(),
            table.keys() <= base + seq_views(keys@.take(w as int)),
            table.keys() == base + seq_views(keys@.take(w as int)) || table.saturated(),
        decreases half - w,
    {
        let ghost before = *table;
        proof {
            lemma_room_for_next(base, keys@, w as int, table.keys());
        }
        table.insert(keys[w].key_clone());
        proof {
            lemma_insert_step(base, keys@, w as int, before, *table);
        }
        w = w + 1;
    }

    let mut insert_ns: u64 = 0;
    let mut find_ns: u64 = 0;
    let mut insert_count: usize = 0;
    let mut find_count: usize = 0;
    let mut insert_idx = half;
    let mut find_idx: usize = 0;

    // Per-operation timing is required here because inserts and finds are
    // interleaved rather than executed in contiguous phases.
    let ghost mut phases: Seq<TimedPhase> = Seq::empty();
    proof {
        vstd::arithmetic::div_mod::lemma_small_mod(0, 0x1_0000_0000_0000_0000);
    }
    let mut turn: usize = 0;
    while turn < half
        invariant
            n == keys@.len(),
            half == n / 2,
            insert_turns@.len() == half,
            turn <= half,
            base == old(table).keys(),
            base.finite(),
            base.len() + n <= max_keys(),
            insert_count == count_true(insert_turns@.take(turn as int)),
            find_count == turn - insert_count,
            insert_idx == half + insert_count,
            find_idx == find_count,
            insert_idx <= half + turn,
            table.wf(),
            table.capacity_hint() == old(table).capacity_hint(),
            table.keys() <= base + seq_views(keys@.take(insert_idx as int)),
            table.keys() == base + seq_views(keys@.take(insert_idx as int)) || table.saturated(),
            phases.len() == turn,
            forall|u: int| 0 <= u < phases.len() ==> {
                &&& (#[trigger] phases[u]).inserts == insert_turns@[u]
                &&& phases[u].keys.len() == 1
                &&& phases[u].inserts ==> phases[u].keys[0] == half + count_true(insert_turns@.take(u))
                &&& !phases[u].inserts ==> 0 <= phases[u].keys[0] < half + count_true(insert_turns@.take(u))
            },
            insert_ns == wrap64(phase_total(phases, true)),
            find_ns == wrap64(phase_total(phases, false)),
        decreases half - turn,
    {
        proof {
            lemma_count_true_step(insert_turns@, turn as int);
        }
        if insert_turns[turn] && insert_idx < n {
            let ghost before = *table;
            proof {
                lemma_room_for_next(base, keys@, insert_idx as int, table.keys());
            }
            let t = instant_now();
            table.insert(keys[insert_idx].key_clone());
            let d = elapsed_ns(&t);
            let ghost phase = TimedPhase { inserts: true, keys: seq![insert_idx as int], ns: d };
            proof {
                lemma_insert_step(base, keys@, insert_idx as int, before, *table);
                crate::workloads::law_phase_totals_split(phases);
                lemma_wrap_add(insert_ns, phase_total(phases, true), d);
                lemma_phase_total_push(phases, phase, true);
                lemma_phase_total_push(phases, phase, false);
            }
            insert_ns = insert_ns.wrapping_add(d);
            proof {
                phases = phases.push(phase);
            }
            insert_count = insert_count + 1;
            insert_idx = insert_idx + 1;
        } else {
            let bound = if insert_idx > 1 { insert_idx } else { 1 };
            let key = &keys[find_idx % bound];
            let t = instant_now();
            let _ = table.find(key);
            let d = elapsed_ns(&t);
            let ghost phase = TimedPhase { inserts: false, keys: seq![(find_idx % bound) as int], ns: d };
            proof {
                crate::workloads::law_phase_totals_split(phases);
                lemma_wrap_add(find_ns, phase_total(phases, false), d);
                lemma_phase_total_push(phases, phase, true);
                lemma_phase_total_push(phases, phase, false);
            }
            find_ns = find_ns.wrapping_add(d);
            proof {
                phases = phases.push(phase);
            }
            find_count = find_count + 1;
            find_idx = find_idx + 1;
        }
        turn = turn + 1;
    }
    proof {
        assert(insert_turns@.take(half as int) =~= insert_turns@);
        if insert_idx > 0 {
            lemma_room_for_next(base, keys@, (insert_idx - 1) as int, base);
        }
        if insert_idx > 0 {
            crate::trait_def::lemma_seq_views_prefix(keys@, (insert_idx - 1) as int);
        } else {
            assert(seq_views(keys@.take(0)) =~= Set::<K::V>::empty());
        }
        vstd::set_lib::lemma_len_subset(table.keys(), base + seq_views(keys@.take(insert_idx as int)));
    }

    (WorkloadResult { insert_ns, find_ns, insert_count, find_count }, Ghost(phases))
}

} // verus!
