//! MurmurHash3, with 32 and with 128 bits of output, each as a function of the
//! whole input and as an incremental hasher that buffers what does not fill a
//! block yet.

pub mod hash128;
pub mod hash32;

pub use crate::murmur::hash128::{murmurhash3_128, MurmurHasher128};
pub use crate::murmur::hash32::{fmix32, murmurhash3_32, MurmurHasher32};
