use slickbench::hash_utils::{hash1, hash2, SEED1, SEED2};
use slickbench::implns::cuckoo::CuckooTable;
use slickbench::implns::linear::LinearTable;
use slickbench::implns::quadratic::QuadraticTable;
use slickbench::implns::slick::SlickHash;
use slickbench::implns::std_set::StdSetTable;
use slickbench::trait_def::HashTable;
use std::hash::{BuildHasher, Hash, Hasher};

fn ahash_with(seed: (u64, u64), key: &impl Hash) -> u64 {
    let mut h = ahash::RandomState::with_seeds(seed.0, seed.1, 0, 0).build_hasher();
    key.hash(&mut h);
    h.finish()
}

fn exercise<T: HashTable<u64>>(initial: usize, n: u64) {
    let mut t = T::new(initial);
    assert_eq!(t.len(), 0);
    assert!(!t.find(&7));
    for k in 0..n {
        t.insert(k * 7 + 3);
    }
    for k in 0..n {
        t.insert(k * 7 + 3);
    }
    assert_eq!(t.len(), n as usize);
    for k in 0..n {
        assert!(t.find(&(k * 7 + 3)));
        assert!(!t.find(&(k * 7 + 4)));
    }
}

#[test]
fn hash1_matches_seeded_ahash_u64() {
    assert_eq!(hash1(&5u64), ahash_with(SEED1, &5u64));
    assert_ne!(hash1(&5u64), 5);
}

#[test]
fn hash2_matches_seeded_ahash_u64() {
    assert_eq!(hash2(&5u64), ahash_with(SEED2, &5u64));
    assert_ne!(hash1(&5u64), hash2(&5u64));
}

#[test]
fn hashes_match_seeded_ahash_string() {
    let k = "hello".to_string();
    assert_eq!(hash1(&k), ahash_with(SEED1, &k));
    assert_eq!(hash2(&k), ahash_with(SEED2, &k));
    assert_eq!(hash1(&k), hash1(&"hello".to_string()));
}

#[test]
fn linear_capacity_rounds_to_power_of_two() {
    assert_eq!(LinearTable::<u64>::new(0).capacity(), 16);
    assert_eq!(LinearTable::<u64>::new(100).capacity(), 128);
    assert_eq!(LinearTable::<u64>::new(128).capacity(), 128);
    assert_eq!(LinearTable::<u64>::new(100).extra_space(), 0);
}

#[test]
fn linear_grows_past_three_quarters() {
    let mut t = LinearTable::<u64>::new(16);
    for k in 0..12u64 {
        t.insert(k);
    }
    assert_eq!(t.capacity(), 16);
    t.insert(12);
    assert_eq!(t.capacity(), 32);
    assert_eq!(t.len(), 13);
    assert!(4 * t.len() <= 3 * t.capacity());
}

#[test]
fn linear_set_semantics() {
    exercise::<LinearTable<u64>>(0, 2000);
}

#[test]
fn quadratic_capacity_and_set_semantics() {
    assert_eq!(QuadraticTable::<u64>::new(100).capacity(), 128);
    assert_eq!(QuadraticTable::<u64>::new(3).capacity(), 16);
    exercise::<QuadraticTable<u64>>(0, 2000);
}

#[test]
fn cuckoo_capacity_counts_both_tables() {
    assert_eq!(CuckooTable::<u64>::new(100).capacity(), 256);
    assert_eq!(CuckooTable::<u64>::new(0).capacity(), 32);
    assert_eq!(CuckooTable::<u64>::new(0).extra_space(), 0);
}

#[test]
fn cuckoo_set_semantics() {
    exercise::<CuckooTable<u64>>(0, 3000);
}

#[test]
fn slick_capacity_is_whole_blocks() {
    assert_eq!(SlickHash::<u64>::new(25).capacity(), 30);
    assert_eq!(SlickHash::<u64>::new(5).capacity(), 10);
    assert_eq!(SlickHash::<u64>::new(30).capacity(), 30);
    assert_eq!(SlickHash::<u64>::new(25).extra_space(), 32);
    assert_eq!(SlickHash::<u64>::new(5).extra_space(), 16);
}

#[test]
fn slick_set_semantics_small_main_table() {
    exercise::<SlickHash<u64>>(10, 3000);
}

#[test]
fn slick_set_semantics_sized_main_table() {
    exercise::<SlickHash<u64>>(5000, 5000);
}

#[test]
fn slick_remove_entry() {
    let mut t = SlickHash::<u64>::new(100);
    for k in 0..500u64 {
        t.insert(k);
    }
    assert_eq!(t.remove_entry(&42), Some(42));
    assert_eq!(t.remove_entry(&42), None);
    assert_eq!(t.remove_entry(&1000), None);
    assert!(!t.find(&42));
    assert_eq!(t.len(), 499);
    for k in 0..500u64 {
        if k != 42 {
            assert!(t.find(&k));
        }
    }
    for k in 0..500u64 {
        if k % 3 == 0 && k != 42 {
            assert_eq!(t.remove_entry(&k), Some(k));
        }
    }
    for k in 0..500u64 {
        assert_eq!(t.find(&k), k % 3 != 0 && k != 42);
    }
    t.insert(42);
    assert!(t.find(&42));
}

#[test]
fn string_keys_in_every_table() {
    let words: Vec<String> = (0..300).map(|i| format!("word{i}")).collect();
    let mut l = LinearTable::<String>::new(0);
    let mut q = QuadraticTable::<String>::new(0);
    let mut c = CuckooTable::<String>::new(0);
    let mut s = SlickHash::<String>::new(0);
    for w in &words {
        l.insert(w.clone());
        q.insert(w.clone());
        c.insert(w.clone());
        s.insert(w.clone());
    }
    for w in &words {
        assert!(l.find(w) && q.find(w) && c.find(w) && s.find(w));
    }
    let absent = "absent".to_string();
    assert!(!l.find(&absent) && !q.find(&absent) && !c.find(&absent) && !s.find(&absent));
    assert_eq!((l.len(), q.len(), c.len(), s.len()), (300, 300, 300, 300));
}

#[test]
fn std_set_set_semantics() {
    exercise::<StdSetTable<u64>>(0, 2000);
    let mut t = StdSetTable::<String>::new(4);
    t.insert("a".to_string());
    t.insert("a".to_string());
    t.insert("b".to_string());
    assert_eq!(t.len(), 2);
    assert!(t.find(&"a".to_string()) && !t.find(&"c".to_string()));
    assert!(t.capacity() >= 2);
    assert_eq!(t.extra_space(), 0);
}

#[test]
fn cuckoo_sizes_for_a_large_hint() {
    let mut t = CuckooTable::<u64>::new(1000);
    assert_eq!(t.capacity(), 2048);
    t.insert(7);
    t.insert(7);
    assert!(t.find(&7));
    assert_eq!(t.capacity(), 2048);
    assert_eq!(t.len(), 1);
}

#[test]
fn slick_backyard_is_sized_for_the_main_table() {
    let t = SlickHash::<u64>::new(1024);
    assert_eq!(t.capacity(), 1030);
    assert_eq!(t.extra_space(), 2048);
    let u = SlickHash::<u64>::new(0);
    assert_eq!(u.capacity(), 10);
    assert_eq!(u.extra_space(), 16);
}

#[test]
fn slick_full_single_block_overflows_to_backyard() {
    let mut t = SlickHash::<u64>::new(10);
    for k in 0..11u64 {
        t.insert(k);
    }
    assert_eq!(t.len(), 11);
    assert_eq!(t.capacity(), 10);
    for k in 0..11u64 {
        assert!(t.find(&k));
    }
}

#[test]
fn slick_remove_keeps_sizes() {
    let mut t = SlickHash::<u64>::new(16);
    for k in 0..40u64 {
        t.insert(k);
    }
    let (c, e) = (t.capacity(), t.extra_space());
    for k in 0..40u64 {
        assert_eq!(t.remove_entry(&k), Some(k));
    }
    assert_eq!((t.capacity(), t.extra_space(), t.len()), (c, e, 0));
}

#[test]
fn quadratic_grows_by_doubling() {
    let mut t = QuadraticTable::<u64>::new(16);
    for k in 0..100u64 {
        t.insert(k);
    }
    let c = t.capacity();
    assert!(c >= 16 && c.is_power_of_two());
    assert_eq!(t.len(), 100);
}

#[test]
fn quadratic_grows_past_three_quarters() {
    let mut t = QuadraticTable::<u64>::new(16);
    let mut cap = t.capacity();
    assert_eq!(cap, 16);
    for k in 0..200u64 {
        t.insert(k);
        let c = t.capacity();
        assert!(c >= cap && c.is_power_of_two());
        assert!(4 * t.len() <= 3 * c);
        cap = c;
    }
    for k in 0..200u64 {
        assert!(t.find(&k));
    }
}

#[test]
fn slick_backyard_stays_power_of_two() {
    let mut t = SlickHash::<u64>::new(10);
    for k in 0..200u64 {
        t.insert(k);
        assert!(t.extra_space() >= 16 && t.extra_space().is_power_of_two());
    }
    assert_eq!(t.len(), 200);
}

#[test]
fn make_hasher_agrees_with_hash1_and_hash2() {
    let mut a = slickbench::hash_utils::make_hasher(SEED1);
    42u64.hash(&mut a);
    assert_eq!(a.finish(), hash1(&42u64));
    let mut b = slickbench::hash_utils::make_hasher(SEED2);
    42u64.hash(&mut b);
    assert_eq!(b.finish(), hash2(&42u64));
}
