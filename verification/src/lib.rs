//! Cache eviction policies, replayed over a fixed trace of accesses.
//!
//! Every policy owns a bounded set of resident items. One access either finds
//! its item resident (a hit) or inserts it (a miss), evicting a resident item
//! of the policy's choice when the cache is full. A replay runs a whole trace
//! through a policy and counts hits and misses.

use vstd::prelude::*;

pub mod belady;
pub mod fifo;
pub mod lfu;
pub mod lru;
pub mod memory;
pub mod mru;
pub mod random;
pub mod resident;
pub mod rr;
pub mod slru;
pub mod stats;

verus! {

/// Why a cache could not be made.
#[derive(Debug, Clone, Copy, PartialEq, Eq, Structural)]
pub enum CacheError {
    /// The cache was asked to hold no item at all.
    ZeroCapacity,
}

/// List of cache algorithms.
///
/// See info about each algorithm in the module of that algorithm.
#[derive(Debug)]
pub enum Algos {
    Belady,
    FIFO,
    LRU,
    LFU,
    RR,
    MRU,
    PLRU,
    SLRU,
    TwoQ,
    ARC,
    CAR,
    MQ,
}

} // verus!
