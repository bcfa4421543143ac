//! Deterministic, non-cryptographic hash functions with machine-checked
//! contracts, and a rendezvous (highest random weight) selector built on them.
//!
//! Every hash function here returns exactly the value of a `spec` function of
//! its input bytes and seed. None of them resists deliberate collisions.

pub mod bits;
pub mod city;
pub mod fnv;
pub mod hasher;
pub mod murmur;
pub mod rendezvous;
pub mod uint128;

pub use crate::city::{city_hash_64, city_hash_64_with_seed, city_hash_64_with_seeds};
pub use crate::fnv::{fnv1_32, fnv1_64, fnv1a_32, fnv1a_64};
pub use crate::hasher::{BuildStreamHasher, HashInput, StreamHasher};
pub use crate::murmur::{murmurhash3_128, murmurhash3_32};
pub use crate::rendezvous::{
    best_by_scores, rank_by_scores, with_default_hasher, RendezvousHasher,
};
pub use crate::uint128::Uint128;
