//! Core benchmark runner utilities.
//!
//! The runner executes one workload across repeated fresh table instances and
//! retains the best observed insert and find times independently.

use vstd::prelude::*;
use crate::datasets::Dataset;
use crate::implns::slots::max_keys;
use crate::trait_def::{HashTable, TableKey, seq_views};
use crate::workloads::{Workload, WorkloadResult, execute, inserted_prefix, workload_fits};

verus! {

/// Configuration for a single benchmark run.
pub struct RunConfig {
    /// Initial capacity hint passed to HashTable::new()
    pub initial_capacity: usize,
    /// Number of times to repeat each workload (take minimum for stability)
    pub repetitions: usize,
}

impl Default for RunConfig {
    fn default() -> (c: Self)
        ensures
            c.initial_capacity == 1024,
            c.repetitions == 3,
    {
        RunConfig { initial_capacity: 1024, repetitions: 3 }
    }
}

impl RunConfig {
    /// The configuration for a dataset of `dataset_len` keys: the tables are
    /// created with the dataset's size as their capacity hint.
    pub fn for_dataset(dataset_len: usize, repetitions: usize) -> (c: Self)
        ensures
            c.initial_capacity == dataset_len,
            c.repetitions == repetitions,
    {
        RunConfig { initial_capacity: dataset_len, repetitions }
    }
}

/// `x`, or `usize::MAX` when `x` does not fit in a `usize`.
pub open spec fn capped(x: int) -> int {
    if x > usize::MAX {
        usize::MAX as int
    } else {
        x
    }
}

/// Keeps the best of two results: the smaller insert time and the smaller
/// find time, with the operation counts of the newer result.
pub fn keep_best(prev: Option<WorkloadResult>, result: WorkloadResult) -> (best: WorkloadResult)
    ensures
        match prev {
            None => best == result,
            Some(p) => {
                &&& best.insert_ns == if p.insert_ns < result.insert_ns { p.insert_ns } else { result.insert_ns }
                &&& best.find_ns == if p.find_ns < result.find_ns { p.find_ns } else { result.find_ns }
                &&& best.insert_count == result.insert_count
                &&& best.find_count == result.find_count
            },
        },
{
    match prev {
        None => result,
        // The benchmark records the minimum insert and find times seen across
        // repetitions to reduce noise from transient host activity.
        Some(prev) => WorkloadResult {
            insert_ns: if prev.insert_ns < result.insert_ns { prev.insert_ns } else { result.insert_ns },
            find_ns: if prev.find_ns < result.find_ns { prev.find_ns } else { result.find_ns },
            insert_count: result.insert_count,
            find_count: result.find_count,
        },
    }
}

/// `a * b + c * d`, capped at `usize::MAX`.
fn capped_sum_of_products(a: usize, b: usize, c: usize, d: usize) -> (r: usize)
    ensures
        r == capped(a * b + c * d),
{
    proof {
        vstd::arithmetic::mul::lemma_mul_nonnegative(a as int, b as int);
        vstd::arithmetic::mul::lemma_mul_nonnegative(c as int, d as int);
    }
    match a.checked_mul(b) {
        None => usize::MAX,
        Some(x) => match c.checked_mul(d) {
            None => usize::MAX,
            Some(y) => match x.checked_add(y) {
                None => usize::MAX,
                Some(z) => z,
            },
        },
    }
}

/// Estimated memory of a table: its slots taken as `(K, ())` pairs and its
/// overflow slots taken as keys (capped at `usize::MAX`), and that estimate
/// per element (0 for an empty table).
pub fn memory_estimate<K>(capacity: usize, elements: usize, extra_space: usize) -> (r: (usize, usize))
    ensures
        r.0 == capped(capacity * vstd::layout::size_of::<(K, ())>() + extra_space * vstd::layout::size_of::<K>()),
        r.1 == if elements > 0 { r.0 / elements } else { 0 },
{
    let bytes_estimate = capped_sum_of_products(capacity, core::mem::size_of::<(K, ())>(), extra_space, core::mem::size_of::<K>());
    let bytes_per_element = if elements > 0 { bytes_estimate / elements } else { 0 };
    (bytes_estimate, bytes_per_element)
}

/// What repeated runs of a workload measured: the result of each
/// repetition, the best of them, and the sizes of the table of the first
/// repetition.
pub struct RunSummary {
    pub results: Vec<WorkloadResult>,
    pub best: WorkloadResult,
    pub capacity: usize,
    pub elements: usize,
    pub extra_space: usize,
    pub bytes_estimate: usize,
    pub bytes_per_element: usize,
}

/// Smallest insert time among the results (0 for none).
pub open spec fn min_insert_ns(ws: Seq<WorkloadResult>) -> int
    decreases ws.len(),
{
    if ws.len() == 0 {
        0
    } else if ws.len() == 1 {
        ws[0].insert_ns as int
    } else {
        let m = min_insert_ns(ws.drop_last());
        if (ws.last().insert_ns as int) < m { ws.last().insert_ns as int } else { m }
    }
}

/// Smallest find time among the results (0 for none).
pub open spec fn min_find_ns(ws: Seq<WorkloadResult>) -> int
    decreases ws.len(),
{
    if ws.len() == 0 {
        0
    } else if ws.len() == 1 {
        ws[0].find_ns as int
    } else {
        let m = min_find_ns(ws.drop_last());
        if (ws.last().find_ns as int) < m { ws.last().find_ns as int } else { m }
    }
}

/// Runs a workload on `config.repetitions` fresh tables, each created with
/// the configured capacity hint, and keeps every result and the best times
/// (the smallest insert time and the smallest find time, taken
/// independently); the sizes come from the first repetition's table.
pub fn run_repetitions<K: TableKey, T: HashTable<K>>(config: &RunConfig, dataset: &Dataset<K>, workload: &Workload) -> (s: RunSummary)
    requires
        config.repetitions >= 1,
        config.initial_capacity <= max_keys(),
        dataset.keys@.len() <= max_keys(),
        workload_fits(dataset.keys@.len(), *workload),
    ensures
        s.results@.len() == config.repetitions,
        forall|i: int| 0 <= i < s.results@.len() ==> {
            &&& #[trigger] s.results@[i].insert_count == match *workload {
                Workload::Bulk => dataset.keys@.len() as int,
                Workload::ReadHeavy { insert_turns } => crate::workloads::read_heavy::count_true(insert_turns@),
            }
            &&& s.results@[i].find_count == match *workload {
                Workload::Bulk => dataset.keys@.len() as int,
                Workload::ReadHeavy { insert_turns } => insert_turns@.len() - crate::workloads::read_heavy::count_true(insert_turns@),
            }
        },
        s.best.insert_ns == min_insert_ns(s.results@),
        s.best.find_ns == min_find_ns(s.results@),
        s.best.insert_count == s.results@.last().insert_count,
        s.best.find_count == s.results@.last().find_count,
        exists|t: T| #[trigger] first_table_sizes(
            t,
            config.initial_capacity,
            s.capacity,
            s.elements,
            s.extra_space,
            seq_views(dataset.keys@.take(inserted_prefix(dataset.keys@.len(), *workload) as int)),
        ),
        (s.bytes_estimate, s.bytes_per_element) == memory_estimate_spec::<K>(s.capacity, s.elements, s.extra_space),
{
    let ghost v = seq_views(dataset.keys@.take(inserted_prefix(dataset.keys@.len(), *workload) as int));
    let mut results: Vec<WorkloadResult> = Vec::new();
    let mut best: Option<WorkloadResult> = None;
    let mut best_metrics: Option<(usize, usize, usize)> = None;
    let ghost mut first: Option<T> = None;
    let mut rep: usize = 0;
    while rep < config.repetitions
        invariant
            config.repetitions >= 1,
            config.initial_capacity <= max_keys(),
            dataset.keys@.len() <= max_keys(),
            workload_fits(dataset.keys@.len(), *workload),
            v == seq_views(dataset.keys@.take(inserted_prefix(dataset.keys@.len(), *workload) as int)),
            rep <= config.repetitions,
            results@.len() == rep,
            rep > 0 <==> best is Some,
            rep > 0 <==> best_metrics is Some,
            forall|i: int| 0 <= i < results@.len() ==> {
                &&& #[trigger] results@[i].insert_count == match *workload {
                    Workload::Bulk => dataset.keys@.len() as int,
                    Workload::ReadHeavy { insert_turns } => crate::workloads::read_heavy::count_true(insert_turns@),
                }
                &&& results@[i].find_count == match *workload {
                    Workload::Bulk => dataset.keys@.len() as int,
                    Workload::ReadHeavy { insert_turns } => insert_turns@.len() - crate::workloads::read_heavy::count_true(insert_turns@),
                }
            },
            best matches Some(b) ==> {
                &&& b.insert_ns == min_insert_ns(results@)
                &&& b.find_ns == min_find_ns(results@)
                &&& b.insert_count == results@.last().insert_count
                &&& b.find_count == results@.last().find_count
            },
            best_metrics is Some <==> first is Some,
            match (first, best_metrics) {
                (Some(t), Some((c, n, e))) => first_table_sizes(t, config.initial_capacity, c, n, e, v),
                _ => true,
            },
        decreases config.repetitions - rep,
    {
        let mut table = T::new(config.initial_capacity);
        let result = execute(&mut table, dataset, workload);
        let cap = table.capacity();
        let len = table.len();
        let extra = table.extra_space();
        proof {
            if inserted_prefix(dataset.keys@.len(), *workload) > 0 {
                crate::trait_def::lemma_seq_views_prefix(dataset.keys@, inserted_prefix(dataset.keys@.len(), *workload) - 1);
            } else {
                assert(v =~= Set::<K::V>::empty());
            }
            assert(Set::<K::V>::empty() + v =~= v);
        }
        if best_metrics.is_none() {
            best_metrics = Some((cap, len, extra));
            proof {
                first = Some(table);
            }
        }
        let ghost prev = results@;
        results.push(result);
        proof {
            assert(results@.drop_last() =~= prev);
        }
        best = Some(keep_best(best, result));
        rep = rep + 1;
    }
    let best = best.unwrap();
    let metrics = best_metrics.unwrap();
    let (bytes_estimate, bytes_per_element) = memory_estimate::<K>(metrics.0, metrics.1, metrics.2);
    let s = RunSummary {
        results,
        best,
        capacity: metrics.0,
        elements: metrics.1,
        extra_space: metrics.2,
        bytes_estimate,
        bytes_per_element,
    };
    assert(first_table_sizes(first->0, config.initial_capacity, s.capacity, s.elements, s.extra_space, v));
    s
}

/// `t` is a table created with the capacity hint `hint` that a workload
/// left holding the keys `inserted` (or, if it saturated, some of them),
/// and the three sizes are the ones that `t` reports: its capacity, its
/// number of keys and its overflow slots.
pub open spec fn first_table_sizes<K: TableKey, T: HashTable<K>>(
    t: T,
    hint: usize,
    capacity: usize,
    elements: usize,
    extra_space: usize,
    inserted: Set<K::V>,
) -> bool {
    &&& t.wf()
    &&& t.capacity_hint() == hint
    &&& t.keys() <= inserted
    &&& t.keys() == inserted || t.saturated()
    &&& elements == t.keys().len()
    &&& t.reports_capacity(capacity as nat)
    &&& t.reports_extra_space(extra_space as nat)
}

/// What `memory_estimate` returns.
pub open spec fn memory_estimate_spec<K>(capacity: usize, elements: usize, extra_space: usize) -> (usize, usize) {
    let bytes = capped(capacity * vstd::layout::size_of::<(K, ())>() + extra_space * vstd::layout::size_of::<K>()) as usize;
    (bytes, if elements > 0 { (bytes / elements) as usize } else { 0 })
}

} // verus!
