use slickbench::datasets::{sequential, uniform, Dataset};
use slickbench::implns::linear::LinearTable;
use slickbench::implns::slick::SlickHash;
use slickbench::runner::bench::{keep_best, memory_estimate, run_repetitions, RunConfig};
use slickbench::trait_def::HashTable;
use slickbench::workloads::{bulk, execute, read_heavy, Workload, WorkloadResult};

fn dataset(keys: Vec<u64>) -> Dataset<u64> {
    Dataset { name: "test".to_string(), keys }
}

#[test]
fn sequential_is_a_shuffled_range() {
    let d = sequential::generate(1000, 42);
    assert_eq!(d.name, "sequential");
    assert_eq!(d.keys.len(), 1000);
    let mut sorted = d.keys.clone();
    sorted.sort();
    assert_eq!(sorted, (0..1000u64).collect::<Vec<_>>());
    assert_ne!(d.keys, sorted);
}

#[test]
fn sequential_is_reproducible() {
    assert_eq!(sequential::generate(200, 7).keys, sequential::generate(200, 7).keys);
    assert_eq!(sequential::generate(0, 7).keys.len(), 0);
}

#[test]
fn uniform_has_the_requested_size() {
    let d = uniform::generate(500, 3);
    assert_eq!(d.name, "uniform");
    assert_eq!(d.keys.len(), 500);
    assert_eq!(d.keys, uniform::generate(500, 3).keys);
}

#[test]
fn from_keys_takes_a_prefix_and_shuffles() {
    let d = Dataset::from_keys("words".to_string(), vec![5u64, 1, 4, 2, 3], 3, 9);
    assert_eq!(d.name, "words");
    let mut k = d.keys.clone();
    k.sort();
    assert_eq!(k, vec![1, 4, 5]);
    let all = Dataset::from_keys("words".to_string(), vec![5u64, 1], 10, 9);
    assert_eq!(all.keys.len(), 2);
}

#[test]
fn bulk_inserts_then_finds_every_key() {
    let d = dataset(vec![3, 1, 3, 2]);
    let mut t = LinearTable::<u64>::new(0);
    let r = bulk::run(&mut t, &d);
    assert_eq!((r.insert_count, r.find_count), (4, 4));
    assert_eq!(t.len(), 3);
    assert!(t.find(&1) && t.find(&2) && t.find(&3) && !t.find(&4));
}

#[test]
fn read_heavy_schedule_counts_turns() {
    let d = dataset((0..10).collect());
    let mut t = SlickHash::<u64>::new(10);
    let turns = vec![true, false, true, false, false];
    let r = read_heavy::run_schedule(&mut t, &d, &turns);
    assert_eq!(r.insert_count, 2);
    assert_eq!(r.find_count, 3);
    assert_eq!(t.len(), 7);
    assert!(t.find(&6));
    assert!(!t.find(&7));
}

#[test]
fn read_heavy_all_finds() {
    let d = dataset((0..9).collect());
    let mut t = LinearTable::<u64>::new(0);
    let r = read_heavy::run_schedule(&mut t, &d, &vec![false; 4]);
    assert_eq!((r.insert_count, r.find_count), (0, 4));
    assert_eq!(t.len(), 4);
}

#[test]
fn execute_dispatches() {
    let d = dataset((0..6).collect());
    let mut t = LinearTable::<u64>::new(0);
    let r = execute(&mut t, &d, &Workload::Bulk);
    assert_eq!((r.insert_count, r.find_count), (6, 6));
    let mut t2 = LinearTable::<u64>::new(0);
    let r2 = execute(&mut t2, &d, &Workload::ReadHeavy { insert_turns: vec![true, true, true] });
    assert_eq!((r2.insert_count, r2.find_count), (3, 0));
    assert_eq!(t2.len(), 6);
}

#[test]
fn run_config_default() {
    let c = RunConfig::default();
    assert_eq!(c.initial_capacity, 1024);
    assert_eq!(c.repetitions, 3);
}

#[test]
fn keep_best_takes_minimum_times_and_newest_counts() {
    let a = WorkloadResult { insert_ns: 10, find_ns: 50, insert_count: 1, find_count: 2 };
    let b = WorkloadResult { insert_ns: 20, find_ns: 40, insert_count: 3, find_count: 4 };
    let first = keep_best(None, WorkloadResult { insert_ns: 10, find_ns: 50, insert_count: 1, find_count: 2 });
    assert_eq!((first.insert_ns, first.find_ns, first.insert_count, first.find_count), (10, 50, 1, 2));
    let best = keep_best(Some(a), b);
    assert_eq!((best.insert_ns, best.find_ns, best.insert_count, best.find_count), (10, 40, 3, 4));
}

#[test]
fn memory_estimate_of_u64_tables() {
    assert_eq!(memory_estimate::<u64>(16, 4, 32), (384, 96));
    assert_eq!(memory_estimate::<u64>(16, 0, 0), (128, 0));
    assert_eq!(memory_estimate::<u64>(usize::MAX, 1, 0), (usize::MAX, usize::MAX));
}

#[test]
fn run_repetitions_keeps_first_metrics() {
    let d = dataset(vec![1, 2, 2, 3, 4]);
    let config = RunConfig { initial_capacity: 4, repetitions: 2 };
    let s = run_repetitions::<u64, LinearTable<u64>>(&config, &d, &Workload::Bulk);
    assert_eq!((s.best.insert_count, s.best.find_count), (5, 5));
    assert_eq!((s.capacity, s.elements, s.extra_space), (16, 4, 0));
    assert_eq!((s.bytes_estimate, s.bytes_per_element), (128, 32));
}

#[test]
fn run_repetitions_reports_the_first_table() {
    let d = sequential::generate(100, 3);
    let config = RunConfig::for_dataset(d.keys.len(), 2);
    assert_eq!((config.initial_capacity, config.repetitions), (100, 2));
    let s = run_repetitions::<u64, SlickHash<u64>>(&config, &d, &Workload::Bulk);
    let mut t = SlickHash::<u64>::new(100);
    for k in d.keys.iter() {
        t.insert(*k);
    }
    assert_eq!((s.capacity, s.elements, s.extra_space), (t.capacity(), t.len(), t.extra_space()));
    assert_eq!((s.capacity, s.elements), (100, 100));
}

#[test]
fn run_repetitions_keeps_each_result_and_their_minima() {
    let d = dataset(vec![5, 6, 7, 8]);
    let config = RunConfig { initial_capacity: 100, repetitions: 3 };
    let s = run_repetitions::<u64, LinearTable<u64>>(&config, &d, &Workload::Bulk);
    assert_eq!(s.results.len(), 3);
    let min_insert = s.results.iter().map(|r| r.insert_ns).min().unwrap();
    let min_find = s.results.iter().map(|r| r.find_ns).min().unwrap();
    assert_eq!((s.best.insert_ns, s.best.find_ns), (min_insert, min_find));
    assert!(s.results.iter().all(|r| r.insert_count == 4 && r.find_count == 4));
    // The tables are created with the configured hint: 100 rounds up to 128.
    assert_eq!((s.capacity, s.elements, s.extra_space), (128, 4, 0));
}
