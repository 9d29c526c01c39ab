use slickbench::datasets::sequential;
use slickbench::datasets::Dataset;
use slickbench::implns::cuckoo::CuckooTable;
use slickbench::implns::linear::LinearTable;
use slickbench::implns::quadratic::QuadraticTable;
use slickbench::implns::slick::SlickHash;
use slickbench::trait_def::HashTable;
use slickbench::workloads::bulk;

#[test]
fn law_insert_then_find_on_values() {
    let mut t = SlickHash::<u64>::new(10);
    t.insert(11);
    assert!(t.find(&11));
    assert!(!t.find(&12));
    t.insert(12);
    assert!(t.find(&11) && t.find(&12));
}

#[test]
fn law_insert_idempotent_on_values() {
    let mut t = QuadraticTable::<u64>::new(0);
    t.insert(9);
    let once = t.len();
    t.insert(9);
    assert_eq!(t.len(), once);
    assert_eq!(once, 1);
}

#[test]
fn law_len_after_insert_on_values() {
    let mut t = CuckooTable::<u64>::new(0);
    t.insert(1);
    t.insert(2);
    assert_eq!(t.len(), 2);
    t.insert(2);
    assert_eq!(t.len(), 2);
    t.insert(3);
    assert_eq!(t.len(), 3);
}

#[test]
fn law_insert_commutes_on_values() {
    let mut a = LinearTable::<u64>::new(0);
    let mut b = LinearTable::<u64>::new(0);
    a.insert(5);
    a.insert(6);
    b.insert(6);
    b.insert(5);
    for k in 0..10u64 {
        assert_eq!(a.find(&k), b.find(&k));
    }
}

#[test]
fn law_insert_then_remove_on_values() {
    let mut t = SlickHash::<u64>::new(20);
    for k in 0..50u64 {
        t.insert(k);
    }
    t.insert(77);
    assert_eq!(t.remove_entry(&77), Some(77));
    assert_eq!(t.len(), 50);
    assert!(!t.find(&77));
    for k in 0..50u64 {
        assert!(t.find(&k));
    }
}

#[test]
fn law_load_bound_on_values() {
    let mut t = LinearTable::<u64>::new(0);
    for k in 0..1000u64 {
        t.insert(k);
        assert!(4 * t.len() <= 3 * t.capacity());
    }
}

#[test]
fn law_quadratic_load_bound_on_values() {
    let mut t = QuadraticTable::<u64>::new(0);
    for k in 0..1000u64 {
        t.insert(k * 31);
        assert!(4 * t.len() <= 3 * t.capacity());
    }
}

#[test]
fn law_sequential_distinct_on_values() {
    let d: Dataset<u64> = sequential::generate(777, 5);
    let mut t = SlickHash::<u64>::new(d.keys.len());
    bulk::run(&mut t, &d);
    assert_eq!(t.len(), 777);
}
