//! Uniformly random `u64` dataset generator.

use vstd::prelude::*;
use crate::datasets::Dataset;
use crate::datasets::rng::{drawn_values, shuffled_by, RngEvent, SeededRng};

verus! {

/// Generates `size` uniformly random u64 values.
/// Keys are NOT deduplicated — duplicates are expected and preserved.
pub fn generate(size: usize, seed: u64) -> (d: Dataset<u64>)
    ensures
        d.name@ == "uniform"@,
        d.keys@.len() == size,
{
    let (d, _rng) = generate_traced(size, seed);
    d
}

/// Generates the uniform dataset with the record of its generator: one
/// generator seeded with `seed` draws `size` values in turn, then shuffles
/// them, and the keys are those draws in the shuffled order.
pub fn generate_traced(size: usize, seed: u64) -> (r: (Dataset<u64>, Ghost<SeededRng>))
    ensures
        r.0.name@ == "uniform"@,
        r.0.keys@.len() == size,
        r.1@.seed() == seed,
        r.1@.events().len() == size + 1,
        forall|i: int| 0 <= i < size ==> #[trigger] r.1@.events()[i] is Draw,
        r.1@.events()[size as int] matches RngEvent::Shuffle(p)
            && shuffled_by(drawn_values(r.1@.events().take(size as int)), p, r.0.keys@),
        r.0.keys@.to_multiset() == drawn_values(r.1@.events().take(size as int)).to_multiset(),
{
    let mut rng = SeededRng::new(seed);
    let mut keys: Vec<u64> = Vec::with_capacity(size);
    let mut i: usize = 0;
    while i < size
        invariant
            i <= size,
            keys@.len() == i,
            rng.seed() == seed,
            rng.events().len() == i,
            forall|j: int| 0 <= j < i ==> #[trigger] rng.events()[j] is Draw,
            keys@ == drawn_values(rng.events()),
        decreases size - i,
    {
        let x = rng.next_u64();
        keys.push(x);
        i = i + 1;
        proof {
            assert(keys@ =~= drawn_values(rng.events()));
        }
    }
    let ghost drawn = rng.events();
    rng.shuffle(&mut keys);
    proof {
        assert(rng.events().take(size as int) =~= drawn);
        assert forall|j: int| 0 <= j < size implies #[trigger] rng.events()[j] is Draw by {
            assert(rng.events()[j] == rng.events().drop_last()[j]);
            assert(drawn[j] is Draw);
        }
    }
    (Dataset { name: "uniform".to_string(), keys }, Ghost(rng))
}

} // verus!
