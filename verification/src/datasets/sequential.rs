//! Sequential `u64` dataset generator.

use vstd::prelude::*;
use crate::datasets::Dataset;
use crate::datasets::rng::{seeded_rng, shuffle};
use crate::trait_def::seq_views;

verus! {

/// The keys `0, 1, ..., size - 1`.
pub open spec fn sequential_keys(size: nat) -> Seq<u64> {
    Seq::new(size, |i: int| i as u64)
}

/// Keys that are a permutation of the sequential keys `0..size` take `size`
/// distinct values: a bulk run of them on a table that does not saturate
/// leaves `size` keys in it.
pub proof fn law_sequential_distinct(keys: Seq<u64>, size: nat)
    requires
        size <= u64::MAX,
        keys.to_multiset() == sequential_keys(size).to_multiset(),
    ensures
        seq_views(keys).finite(),
        seq_views(keys).len() == size,
{
    let seq = sequential_keys(size);
    keys.to_multiset_ensures();
    seq.to_multiset_ensures();
    assert forall|v: u64| #[trigger] seq_views(keys).contains(v) <==> seq.to_set().contains(v) by {
        if seq_views(keys).contains(v) {
            let p = choose|p: int| 0 <= p < keys.len() && keys[p]@ == v;
            assert(keys.contains(keys[p]));
        }
        if seq.contains(v) {
            assert(keys.to_multiset().count(v) > 0);
            assert(keys.contains(v));
        }
    }
    assert(seq_views(keys) =~= seq.to_set());
    assert(seq.no_duplicates());
    seq.unique_seq_to_set();
    vstd::seq_lib::seq_to_set_is_finite(seq);
}

/// Generates keys [0, 1, 2, ..., size-1] then shuffles them.
/// Represents a cache-friendly, low-entropy distribution.
pub fn generate(size: usize, seed: u64) -> (d: Dataset<u64>)
    requires
        size <= u64::MAX,
    ensures
        d.name@ == "sequential"@,
        d.keys@.len() == size,
        d.keys@.to_multiset() == sequential_keys(size as nat).to_multiset(),
{
    let mut rng = seeded_rng(seed);
    let mut keys: Vec<u64> = Vec::with_capacity(size);
    let n = size as u64;
    let mut i: u64 = 0;
    while i < n
        invariant
            n == size,
            i <= n,
            keys@ == sequential_keys(i as nat),
        decreases n - i,
    {
        keys.push(i);
        i = i + 1;
        proof {
            assert(keys@ =~= sequential_keys(i as nat));
        }
    }
    shuffle(&mut keys, &mut rng);
    Dataset { name: "sequential".to_string(), keys }
}

} // verus!
