//! Datasets: named key sequences, shuffled with a seeded generator.

pub mod norvig;
pub mod rng;
pub mod sequential;
pub mod text;
pub mod uniform;
pub mod wikipedia;

use vstd::prelude::*;
use crate::datasets::rng::{shuffled_by, RngEvent, SeededRng};

verus! {

/// A loaded dataset, ready for benchmarking.
/// Keys are already shuffled and NOT deduplicated.
pub struct Dataset<K> {
    pub name: String,
    pub keys: Vec<K>,
}

impl<K> Dataset<K> {
    /// A dataset of the first `size` of `keys` (all of them when there are
    /// fewer), shuffled with a generator seeded by `seed`.
    pub fn from_keys(name: String, keys: Vec<K>, size: usize, seed: u64) -> (d: Dataset<K>)
        ensures
            d.name@ == name@,
            d.keys@.to_multiset() == keys@.take(if size < keys@.len() { size as int } else { keys@.len() as int }).to_multiset(),
            d.keys@.len() == if size < keys@.len() { size as int } else { keys@.len() as int },
    {
        let (d, _rng) = Self::from_keys_traced(name, keys, size, seed);
        d
    }

    /// The dataset of `from_keys` with the record of its generator: one
    /// generator seeded with `seed` does exactly one thing, shuffle the
    /// first `size` keys, and the dataset's keys are those keys in the order
    /// that this shuffle produced.
    pub fn from_keys_traced(name: String, keys: Vec<K>, size: usize, seed: u64) -> (r: (Dataset<K>, Ghost<SeededRng>))
        ensures
            r.0.name@ == name@,
            r.0.keys@.to_multiset() == keys@.take(if size < keys@.len() { size as int } else { keys@.len() as int }).to_multiset(),
            r.0.keys@.len() == if size < keys@.len() { size as int } else { keys@.len() as int },
            r.1@.seed() == seed,
            r.1@.events().len() == 1,
            r.1@.events()[0] matches RngEvent::Shuffle(p)
                && shuffled_by(keys@.take(if size < keys@.len() { size as int } else { keys@.len() as int }), p, r.0.keys@),
    {
        let mut rng = SeededRng::new(seed);
        let mut keys = keys;
        let ghost all = keys@;
        if size < keys.len() {
            keys.truncate(size);
        }
        proof {
            assert(keys@ =~= all.take(keys@.len() as int));
        }
        rng.shuffle(&mut keys);
        proof {
            assert(rng.events().drop_last() =~= Seq::<RngEvent>::empty());
            assert(rng.events()[0] == rng.events().last());
        }
        (Dataset { name, keys }, Ghost(rng))
    }
}

} // verus!
