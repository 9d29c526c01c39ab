//! The seeded random generator behind the dataset generators.

use vstd::prelude::*;

verus! {

/// The small, fast generator of the `rand` crate.
#[verifier::external_type_specification]
#[verifier::external_body]
pub struct ExSmallRng(rand::rngs::SmallRng);

/// A generator seeded with `seed`: `rand::SeedableRng::seed_from_u64`.
/// Nothing is claimed of its state: which algorithm it runs depends on the
/// platform.
#[verifier::external_body]
pub(crate) fn seeded_rng(seed: u64) -> rand::rngs::SmallRng {
    <rand::rngs::SmallRng as rand::SeedableRng>::seed_from_u64(seed)
}

/// The next random `u64` of a generator: `rand::Rng::gen::<u64>`.
/// Nothing is claimed of the value.
#[verifier::external_body]
pub(crate) fn random_u64(rng: &mut rand::rngs::SmallRng) -> u64 {
    rand::Rng::gen::<u64>(rng)
}

/// Shuffles a vector in place with `rand::seq::SliceRandom::shuffle`.
/// Trusted: the result is a permutation of the input (the source swaps
/// elements only, so each element goes to one position and each position
/// gets one element); which permutation comes out is not claimed.
#[verifier::external_body]
pub(crate) fn shuffle<T>(v: &mut Vec<T>, rng: &mut rand::rngs::SmallRng)
    ensures
        final(v)@.len() == old(v)@.len(),
        final(v)@.to_multiset() == old(v)@.to_multiset(),
        exists|p: Seq<int>| is_permutation(p, old(v)@.len() as int)
            && forall|i: int| 0 <= i < final(v)@.len() ==> final(v)@[i] == old(v)@[#[trigger] p[i]],
{
    rand::seq::SliceRandom::shuffle(v.as_mut_slice(), rng)
}

/// `p` is a permutation of `0..n`: each position `i < n` names a distinct
/// index below `n`.
pub open spec fn is_permutation(p: Seq<int>, n: int) -> bool {
    &&& p.len() == n
    &&& forall|i: int| 0 <= i < n ==> 0 <= #[trigger] p[i] < n
    &&& forall|i: int, j: int| 0 <= i < n && 0 <= j < n && i != j ==> p[i] != p[j]
}

/// What a seeded generator did: drew a value, or shuffled a sequence by a
/// permutation (position `i` of the result holds the element that was at
/// position `p[i]`).
pub enum RngEvent {
    Draw(u64),
    Shuffle(Seq<int>),
}

/// A generator seeded with a known seed, with the record of everything it
/// has done since it was seeded.
pub struct SeededRng {
    rng: rand::rngs::SmallRng,
    seed: Ghost<u64>,
    events: Ghost<Seq<RngEvent>>,
}

impl SeededRng {
    /// The seed the generator was created with.
    pub closed spec fn seed(&self) -> u64 {
        self.seed@
    }

    /// What the generator has done since it was seeded, in order.
    pub closed spec fn events(&self) -> Seq<RngEvent> {
        self.events@
    }

    /// A fresh generator seeded with `seed`, which has done nothing yet.
    pub fn new(seed: u64) -> (g: Self)
        ensures
            g.seed() == seed,
            g.events() == Seq::<RngEvent>::empty(),
    {
        SeededRng { rng: seeded_rng(seed), seed: Ghost(seed), events: Ghost(Seq::empty()) }
    }

    /// The generator's next random `u64`.
    pub fn next_u64(&mut self) -> (x: u64)
        ensures
            final(self).seed() == old(self).seed(),
            final(self).events() == old(self).events().push(RngEvent::Draw(x)),
    {
        let x = random_u64(&mut self.rng);
        proof {
            self.events@ = self.events@.push(RngEvent::Draw(x));
        }
        x
    }

    /// Shuffles a vector with the generator.
    pub fn shuffle<T>(&mut self, v: &mut Vec<T>)
        ensures
            final(self).seed() == old(self).seed(),
            final(self).events().len() == old(self).events().len() + 1,
            final(self).events().drop_last() == old(self).events(),
            final(v)@.to_multiset() == old(v)@.to_multiset(),
            final(self).events().last() matches RngEvent::Shuffle(p) && shuffled_by(old(v)@, p, final(v)@),
    {
        let ghost before = v@;
        shuffle(v, &mut self.rng);
        proof {
            let p = choose|p: Seq<int>| is_permutation(p, before.len() as int)
                && forall|i: int| 0 <= i < v@.len() ==> v@[i] == before[#[trigger] p[i]];
            self.events@ = self.events@.push(RngEvent::Shuffle(p));
            assert(self.events@.drop_last() =~= old(self).events@);
        }
    }
}

/// The values drawn in a run of events (0 for an event that is no draw).
pub open spec fn drawn_values(events: Seq<RngEvent>) -> Seq<u64> {
    events.map_values(|e: RngEvent| match e {
        RngEvent::Draw(x) => x,
        RngEvent::Shuffle(_) => 0u64,
    })
}

/// `after` is `before` rearranged by the permutation `p`: position `i` of
/// `after` holds the element at position `p[i]` of `before`.
pub open spec fn shuffled_by<T>(before: Seq<T>, p: Seq<int>, after: Seq<T>) -> bool {
    &&& is_permutation(p, before.len() as int)
    &&& after.len() == before.len()
    &&& forall|i: int| 0 <= i < after.len() ==> after[i] == before[#[trigger] p[i]]
}

} // verus!
