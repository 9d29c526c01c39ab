//! Workloads: operation schedules run against a table, with their timings.

pub mod bulk;
pub mod clock;
pub mod read_heavy;

use vstd::prelude::*;
use crate::datasets::Dataset;
use crate::implns::slots::max_keys;
use crate::trait_def::{HashTable, TableKey, seq_views};

verus! {

/// Result of running one workload on one table instance.
#[derive(Clone, Copy)]
pub struct WorkloadResult {
    /// Total nanoseconds spent on insert operations.
    pub insert_ns: u64,
    /// Total nanoseconds spent on find operations.
    pub find_ns: u64,
    /// Number of insert operations performed.
    pub insert_count: usize,
    /// Number of find operations performed.
    pub find_count: usize,
}

/// One timed phase of a workload, as a ghost record: whether it timed
/// inserts or finds, the dataset indices of the keys that it inserted or
/// looked up, in order, and the nanoseconds that the clock measured from
/// just before its first operation to just after its last.
pub struct TimedPhase {
    pub inserts: bool,
    pub keys: Seq<int>,
    pub ns: u64,
}

/// Total nanoseconds of the phases of one kind: the insert phases
/// (`inserts`) or the find phases (`!inserts`).
pub open spec fn phase_total(log: Seq<TimedPhase>, inserts: bool) -> int
    decreases log.len(),
{
    if log.len() == 0 {
        0
    } else {
        phase_total(log.drop_last(), inserts) + if log.last().inserts == inserts { log.last().ns as int } else { 0int }
    }
}

/// Total nanoseconds of all phases.
pub open spec fn all_phases_total(log: Seq<TimedPhase>) -> int
    decreases log.len(),
{
    if log.len() == 0 {
        0
    } else {
        all_phases_total(log.drop_last()) + log.last().ns as int
    }
}

/// `x` reduced to 64 bits, as a wrapping sum of `u64` values gives it.
pub open spec fn wrap64(x: int) -> int {
    x % 0x1_0000_0000_0000_0000
}

/// Every measured phase counts once: the insert total and the find total
/// add up to the total of all phases.
pub proof fn law_phase_totals_split(log: Seq<TimedPhase>)
    ensures
        phase_total(log, true) + phase_total(log, false) == all_phases_total(log),
        phase_total(log, true) >= 0,
        phase_total(log, false) >= 0,
    decreases log.len(),
{
    if log.len() > 0 {
        law_phase_totals_split(log.drop_last());
    }
}

/// Adding a phase to the log adds its time to the total of its kind only.
pub proof fn lemma_phase_total_push(log: Seq<TimedPhase>, p: TimedPhase, inserts: bool)
    ensures
        phase_total(log.push(p), inserts) == phase_total(log, inserts) + if p.inserts == inserts { p.ns as int } else { 0int },
{
    assert(log.push(p).drop_last() =~= log);
}

/// A wrapping addition of `u64` values keeps the wrapped sum.
pub proof fn lemma_wrap_add(acc: u64, total: int, d: u64)
    requires
        total >= 0,
        acc == wrap64(total),
    ensures
        (if acc as int + d as int >= 0x1_0000_0000_0000_0000 { acc as int + d as int - 0x1_0000_0000_0000_0000 } else { acc as int + d as int })
            == wrap64(total + d),
{
    let m: int = 0x1_0000_0000_0000_0000;
    vstd::arithmetic::div_mod::lemma_add_mod_noop(total, d as int, m);
    vstd::arithmetic::div_mod::lemma_small_mod(d as nat, m as nat);
    let s = acc as int + d as int;
    vstd::arithmetic::div_mod::lemma_small_mod(acc as nat, m as nat);
    if s >= m {
        vstd::arithmetic::div_mod::lemma_mod_sub_multiples_vanish(s, m);
        vstd::arithmetic::div_mod::lemma_small_mod((s - m) as nat, m as nat);
    } else {
        vstd::arithmetic::div_mod::lemma_small_mod(s as nat, m as nat);
    }
}

/// A workload that a runner can repeat on fresh tables.
pub enum Workload {
    /// Insert every key, then find every key.
    Bulk,
    /// Insert the first half of the keys, then one operation per turn: an
    /// insert of the next key on a `true` turn, a find otherwise.
    ReadHeavy { insert_turns: Vec<bool> },
}

/// Number of keys that a workload inserts, in dataset order.
pub open spec fn inserted_prefix(n: nat, workload: Workload) -> nat {
    match workload {
        Workload::Bulk => n,
        Workload::ReadHeavy { insert_turns } => (n / 2 + read_heavy::count_true(insert_turns@)) as nat,
    }
}

/// The workload is one that can run on a dataset of `n` keys.
pub open spec fn workload_fits(n: nat, workload: Workload) -> bool {
    match workload {
        Workload::Bulk => true,
        Workload::ReadHeavy { insert_turns } => insert_turns@.len() == n / 2,
    }
}

/// Runs a workload on a table.
pub fn execute<K: TableKey, T: HashTable<K>>(table: &mut T, dataset: &Dataset<K>, workload: &Workload) -> (r: WorkloadResult)
    requires
        old(table).wf(),
        old(table).keys().finite(),
        old(table).keys().len() + dataset.keys@.len() <= max_keys(),
        workload_fits(dataset.keys@.len(), *workload),
    ensures
        final(table).wf(),
        final(table).keys().finite(),
        final(table).capacity_hint() == old(table).capacity_hint(),
        final(table).keys() <= old(table).keys() + seq_views(dataset.keys@.take(inserted_prefix(dataset.keys@.len(), *workload) as int)),
        final(table).keys() == old(table).keys() + seq_views(dataset.keys@.take(inserted_prefix(dataset.keys@.len(), *workload) as int))
            || final(table).saturated(),
        r.insert_count == match *workload {
            Workload::Bulk => dataset.keys@.len() as int,
            Workload::ReadHeavy { insert_turns } => read_heavy::count_true(insert_turns@),
        },
        r.find_count == match *workload {
            Workload::Bulk => dataset.keys@.len() as int,
            Workload::ReadHeavy { insert_turns } => insert_turns@.len() - read_heavy::count_true(insert_turns@),
        },
{
    match workload {
        Workload::Bulk => {
            proof {
                assert(dataset.keys@.take(dataset.keys@.len() as int) =~= dataset.keys@);
            }
            bulk::run(table, dataset)
        },
        Workload::ReadHeavy { insert_turns } => read_heavy::run_schedule(table, dataset, insert_turns),
    }
}

} // verus!
