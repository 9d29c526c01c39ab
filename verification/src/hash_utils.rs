//! Centralized hashing helpers shared by all table implementations.
//!
//! Every custom table hashes its keys through `hash1` and `hash2`, which use
//! one seeded AHash state each, so that all tables observe the same hashing.

use vstd::prelude::*;
use crate::trait_def::TableKey;

verus! {

/// Fixed seed pair used for the primary hash.
pub const SEED1: (u64, u64) = (0x243F_6A88_85A3_08D3, 0x1319_8A2E_0370_7344);

/// Fixed seed pair used for the secondary hash.
pub const SEED2: (u64, u64) = (0xA409_3822_299F_31D0, 0x082E_FA98_EC4E_6C89);

/// The seeded hasher of the `ahash` crate.
#[verifier::external_type_specification]
#[verifier::external_body]
pub struct ExAHasher(ahash::AHasher);

/// The AHash hasher builder of the `ahash` crate.
#[verifier::external_type_specification]
#[verifier::external_body]
pub struct ExAhashRandomState(ahash::RandomState);

/// The AHash hasher builder of four fixed keys:
/// `ahash::RandomState::with_seeds`. Nothing is claimed of it.
#[verifier::external_body]
pub(crate) fn ahash_state(k0: u64, k1: u64, k2: u64, k3: u64) -> ahash::RandomState {
    ahash::RandomState::with_seeds(k0, k1, k2, k3)
}

/// A hasher from an AHash builder: `BuildHasher::build_hasher` of
/// `ahash::RandomState`. Nothing is claimed of it.
#[verifier::external_body]
fn build_ahasher(state: &ahash::RandomState) -> ahash::AHasher {
    std::hash::BuildHasher::build_hasher(state)
}

/// Creates a seeded AHasher from a seed pair, as `hash1` and `hash2` do:
/// from the builder `ahash::RandomState::with_seeds(seed.0, seed.1, 0, 0)`.
pub fn make_hasher(seed: (u64, u64)) -> ahash::AHasher {
    build_ahasher(&ahash_state(seed.0, seed.1, 0, 0))
}

/// The hash of a `u64` key under the AHash state seeded with
/// `ahash::RandomState::with_seeds(k0, k1, 0, 0)`.
pub uninterp spec fn ahash_u64(k0: u64, k1: u64, key: u64) -> u64;

/// The hash of a string key whose characters are `key` under the AHash state
/// seeded with `ahash::RandomState::with_seeds(k0, k1, 0, 0)`.
pub uninterp spec fn ahash_str(k0: u64, k1: u64, key: Seq<char>) -> u64;

/// Hashes a `u64` with a seeded AHash hasher: builds an `ahash::AHasher` from
/// `ahash::RandomState::with_seeds(k0, k1, 0, 0)`, feeds the key to it with
/// `Hash::hash` and returns `Hasher::finish`.
/// Trusted: the result is only claimed to be the same whenever the seeds and
/// the key are the same (`ahash_u64`); nothing is claimed about its value.
#[verifier::external_body]
pub(crate) fn seeded_hash_u64(k0: u64, k1: u64, key: u64) -> (h: u64)
    ensures
        h == ahash_u64(k0, k1, key),
{
    let mut h = std::hash::BuildHasher::build_hasher(&ahash::RandomState::with_seeds(k0, k1, 0, 0));
    std::hash::Hash::hash(&key, &mut h);
    std::hash::Hasher::finish(&h)
}

/// Hashes a string with a seeded AHash hasher: builds an `ahash::AHasher`
/// from `ahash::RandomState::with_seeds(k0, k1, 0, 0)`, feeds the string to it
/// with `Hash::hash` and returns `Hasher::finish`.
/// Trusted: the result is only claimed to depend on the seeds and on the
/// characters of the string (`ahash_str`); nothing is claimed about its value.
#[verifier::external_body]
pub(crate) fn seeded_hash_str(k0: u64, k1: u64, key: &String) -> (h: u64)
    ensures
        h == ahash_str(k0, k1, key@),
{
    let mut h = std::hash::BuildHasher::build_hasher(&ahash::RandomState::with_seeds(k0, k1, 0, 0));
    std::hash::Hash::hash(key, &mut h);
    std::hash::Hasher::finish(&h)
}

/// The primary hash of a key's value.
pub open spec fn spec_hash1<K: TableKey>(v: K::V) -> u64 {
    K::spec_seeded_hash(SEED1.0, SEED1.1, v)
}

/// The secondary hash of a key's value.
pub open spec fn spec_hash2<K: TableKey>(v: K::V) -> u64 {
    K::spec_seeded_hash(SEED2.0, SEED2.1, v)
}

/// Computes h1 for any key (used by all tables).
pub fn hash1<K: TableKey>(key: &K) -> (h: u64)
    ensures
        h == spec_hash1::<K>(key@),
{
    key.seeded_hash(SEED1.0, SEED1.1)
}

/// Computes h2 for any key (used by the cuckoo and Slick tables).
pub fn hash2<K: TableKey>(key: &K) -> (h: u64)
    ensures
        h == spec_hash2::<K>(key@),
{
    key.seeded_hash(SEED2.0, SEED2.1)
}

} // verus!
