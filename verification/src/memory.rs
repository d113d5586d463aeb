//! Implementation of RAM: the batches of accesses that a cache is run on.
//!
//! See info about `RamBuilder` structure.

use crate::random::sample_between;
use vstd::prelude::*;

verus! {

/// What a `RamBuilder` has been told so far.
#[verifier::ext_equal]
pub struct RamPlan {
    pub count_batches: usize,
    pub size_batch: usize,
    pub random: bool,
    pub random_local: bool,
    pub low: i32,
    pub high: i32,
}

impl RamPlan {
    /// Whether the elements are drawn at random, in either way.
    pub open spec fn randomized(self) -> bool {
        self.random || self.random_local
    }
}

/// Structure for creating Vec of batches of Vec<i32>.
///
/// Vec may be generated in direct way:
///
/// `[[0, 1, 2, 3, 4, ...], [0, 1, 2, 3, 4, ...], [0, 1, 2, 3, 4, ...], ... ]`
///
/// Vec may be generated with random of all elements, with random of elements in batch e.g.:
///
/// `[[3, 0, 0, 1, 4], [3, 1, 1, 1, 1], [0, 2, 1, 4, 0], ...]`
pub struct RamBuilder {
    count_batches: usize,
    size_batch: usize,
    random: bool,
    random_local: bool,
    low: i32,
    high: i32,
}

impl View for RamBuilder {
    type V = RamPlan;

    closed spec fn view(&self) -> RamPlan {
        RamPlan {
            count_batches: self.count_batches,
            size_batch: self.size_batch,
            random: self.random,
            random_local: self.random_local,
            low: self.low,
            high: self.high,
        }
    }
}

impl RamBuilder {
    /// Create new builder with 10 batches of 10 elements without random by default.
    pub fn new() -> (builder: Self)
        ensures
            builder@ == (RamPlan {
                count_batches: 10,
                size_batch: 10,
                random: false,
                random_local: false,
                low: 0,
                high: 100,
            }),
    {
        RamBuilder {
            count_batches: 10,
            size_batch: 10,
            random: false,
            random_local: false,
            low: 0,
            high: 100,
        }
    }

    /// Set count of batches.
    pub fn with_count_batches(self, c_batches: usize) -> (builder: Self)
        ensures
            builder@ == (RamPlan { count_batches: c_batches, ..self@ }),
    {
        let mut builder = self;
        builder.count_batches = c_batches;
        builder
    }

    /// Set count of elements in batch.
    ///
    /// The range of random becomes the count of elements in batch, cut to 32 bits.
    pub fn with_size_batch(self, s_batch: usize) -> (builder: Self)
        ensures
            builder@ == (RamPlan { size_batch: s_batch, low: 0, high: s_batch as i32, ..self@ }),
    {
        let mut builder = self;
        builder.size_batch = s_batch;
        builder.low = 0;
        builder.high = #[verifier::truncate] (s_batch as i32);
        builder
    }

    /// Randomize all elements in all batches.
    ///
    /// Nothing changes if random of elements in each batch was asked for before.
    pub fn with_all_random(self) -> (builder: Self)
        ensures
            builder@ == if self@.random_local {
                self@
            } else {
                RamPlan { random: true, ..self@ }
            },
    {
        let mut builder = self;
        if !builder.random_local {
            builder.random = true;
        }
        builder
    }

    /// Randomize all elements in each batch.
    ///
    /// Range of random is counts of elements in batch. Nothing changes if random of all
    /// elements was asked for before.
    pub fn with_local_random(self) -> (builder: Self)
        ensures
            builder@ == if self@.random {
                self@
            } else {
                RamPlan {
                    random_local: true,
                    low: 0,
                    high: self@.size_batch as i32,
                    ..self@
                }
            },
    {
        let mut builder = self;
        if !builder.random {
            builder.random_local = true;
            builder.low = 0;
            builder.high = #[verifier::truncate] (builder.size_batch as i32);
        }
        builder
    }

    /// Set range of random for all elements in all batches.
    ///
    /// Nothing changes unless random of all elements was asked for before.
    pub fn with_range_random(self, low: i32, high: i32) -> (builder: Self)
        ensures
            builder@ == if self@.random {
                RamPlan { low: low, high: high, ..self@ }
            } else {
                self@
            },
    {
        let mut builder = self;
        if builder.random {
            builder.low = low;
            builder.high = high;
        }
        builder
    }

    /// Whether `build` can be called: without random always, with random if the lower end
    /// of the range of random lies below its upper end.
    pub fn can_build(&self) -> (ready: bool)
        ensures
            ready == (self@.randomized() ==> self@.low < self@.high),
    {
        !(self.random || self.random_local) || self.low < self.high
    }

    /// Create batches of elements.
    ///
    /// Without random every batch counts up from zero. With random every element is drawn
    /// from the range of random, whose lower end must lie below its upper end.
    pub fn build(self) -> (ram: Vec<Vec<i32>>)
        requires
            self@.randomized() ==> self@.low < self@.high,
        ensures
            ram@.len() == self@.count_batches,
            forall|b: int| 0 <= b < ram@.len() ==> (#[trigger] ram@[b])@.len() == self@.size_batch,
            !self@.randomized() ==> forall|b: int, i: int|
                0 <= b < ram@.len() && 0 <= i < self@.size_batch ==> #[trigger] ram@[b]@[i] == i as i32,
            self@.randomized() ==> forall|b: int, i: int|
                0 <= b < ram@.len() && 0 <= i < self@.size_batch ==> self@.low
                    <= #[trigger] ram@[b]@[i] < self@.high,
    {
        let mut ram: Vec<Vec<i32>> = Vec::with_capacity(self.count_batches);
        if self.random || self.random_local {
            let mut rng = rand::thread_rng();
            for b in 0..self.count_batches
                invariant
                    self.low < self.high,
                    ram@.len() == b,
                    forall|c: int| 0 <= c < b ==> (#[trigger] ram@[c])@.len() == self.size_batch,
                    forall|c: int, i: int|
                        0 <= c < b && 0 <= i < self.size_batch ==> self.low
                            <= #[trigger] ram@[c]@[i] < self.high,
            {
                let mut batch: Vec<i32> = Vec::with_capacity(self.size_batch);
                for i in 0..self.size_batch
                    invariant
                        self.low < self.high,
                        batch@.len() == i,
                        forall|k: int| 0 <= k < i ==> self.low <= #[trigger] batch@[k] < self.high,
                {
                    batch.push(sample_between(&mut rng, self.low, self.high));
                }
                ram.push(batch);
            }
        } else {
            for b in 0..self.count_batches
                invariant
                    ram@.len() == b,
                    forall|c: int| 0 <= c < b ==> (#[trigger] ram@[c])@.len() == self.size_batch,
                    forall|c: int, i: int|
                        0 <= c < b && 0 <= i < self.size_batch ==> #[trigger] ram@[c]@[i]
                            == i as i32,
            {
                let mut batch: Vec<i32> = Vec::with_capacity(self.size_batch);
                for i in 0..self.size_batch
                    invariant
                        batch@.len() == i,
                        forall|k: int| 0 <= k < i ==> #[trigger] batch@[k] == k as i32,
                {
                    batch.push(#[verifier::truncate] (i as i32));
                }
                ram.push(batch);
            }
        }
        ram
    }
}

} // verus!
