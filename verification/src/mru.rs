//! MRU cache algorithm.
//!
//! Discards, in contrast to LRU, the most recently used items first. MRU algorithms are most useful
//! in situations where the older an item is, the more likely it is to be accessed. The resident
//! items are kept in the order of their last access, the most recently used last.

use crate::resident::{
    bounded, lemma_drop_last, lemma_index_of_resident, lemma_push_back, lemma_remove,
    vec_position,
};
use crate::stats::{
    count_hits, count_misses, lemma_batch_bounds, lemma_batch_end, lemma_batch_item,
    lemma_counts_of_next, lemma_counts_of_prefix, offset,
};
use crate::CacheError;
use vstd::prelude::*;

verus! {

/// The resident items after one access to `item`, most recently used last.
///
/// A resident item moves to the back. A new item enters at the back; if the
/// cache is full, the item at the back, the most recently used, leaves first.
pub open spec fn access(resident: Seq<i32>, capacity: nat, item: i32) -> Seq<i32> {
    if resident.contains(item) {
        resident.remove(resident.index_of(item)).push(item)
    } else if resident.len() < capacity {
        resident.push(item)
    } else {
        resident.drop_last().push(item)
    }
}

/// The resident items after the accesses of `trace`, one after the other.
pub open spec fn replay(resident: Seq<i32>, capacity: nat, trace: Seq<i32>) -> Seq<i32>
    decreases trace.len(),
{
    if trace.len() == 0 {
        resident
    } else {
        access(replay(resident, capacity, trace.drop_last()), capacity, trace.last())
    }
}

/// For each access of `trace`, whether it is a hit: whether its item is
/// resident after the accesses before it.
pub open spec fn outcomes(resident: Seq<i32>, capacity: nat, trace: Seq<i32>) -> Seq<bool> {
    Seq::new(trace.len(), |k: int| replay(resident, capacity, trace.take(k)).contains(trace[k]))
}

/// Implementation cache, based on a MRU algorithm.
pub struct MRUCache {
    cache: Vec<i32>,
    size: usize,
}

impl View for MRUCache {
    type V = Seq<i32>;

    /// The resident items, most recently used last.
    closed spec fn view(&self) -> Seq<i32> {
        self.cache@
    }
}

impl MRUCache {
    /// The number of items that the cache holds at most.
    pub closed spec fn capacity(&self) -> nat {
        self.size as nat
    }

    /// The cache is within its capacity and holds no item twice.
    pub open spec fn wf(&self) -> bool {
        bounded(self@, self.capacity())
    }

    /// Create new cache with fix size. A cache of size zero is refused.
    pub fn new(size: usize) -> (made: Result<Self, CacheError>)
        ensures
            size == 0 <==> made is Err,
            made matches Ok(cache) ==> cache.wf() && cache@ == Seq::<i32>::empty() && cache.capacity() == size,
            made matches Err(error) ==> error == CacheError::ZeroCapacity,
    {
        if size == 0 {
            return Err(CacheError::ZeroCapacity);
        }
        Ok(MRUCache { cache: Vec::with_capacity(size), size: size })
    }

    /// Checks the cache to find element. If the cache don't have element, checks the cache size
    /// and removes old element for pushing new element.
    ///
    /// Return `true`, if the cache have element and `false` otherwise.
    pub fn hit(&mut self, val: &i32) -> (found: bool)
        requires
            old(self).wf(),
        ensures
            found == old(self)@.contains(*val),
            final(self)@.contains(*val),
            final(self)@ == access(old(self)@, old(self).capacity(), *val),
            final(self).capacity() == old(self).capacity(),
            final(self).wf(),
            final(self)@.len() <= final(self).capacity(),
    {
        proof {
            lemma_access_bounded(self@, self.capacity(), *val);
        }
        if let Some(position) = vec_position(&self.cache, *val) {
            proof {
                lemma_index_of_resident(self@, position as int);
            }
            let elem = self.cache.remove(position);
            self.cache.push(elem);
            true
        } else {
            if self.cache.len() < self.size {
                self.cache.push(*val);
            } else {
                self.cache.pop();
                self.cache.push(*val);
            }
            false
        }
    }

    /// Run process of checking algorithm.
    ///
    /// Return tuple with statistic: `(cache hit, cache miss)`.
    pub fn run(&mut self, ram: &Vec<Vec<i32>>) -> (statistic: (i32, i32))
        requires
            old(self).wf(),
            count_hits(outcomes(old(self)@, old(self).capacity(), ram.deep_view().flatten()))
                <= i32::MAX,
            count_misses(outcomes(old(self)@, old(self).capacity(), ram.deep_view().flatten()))
                <= i32::MAX,
        ensures
            final(self)@ == replay(old(self)@, old(self).capacity(), ram.deep_view().flatten()),
            statistic.0 == count_hits(
                outcomes(old(self)@, old(self).capacity(), ram.deep_view().flatten()),
            ),
            statistic.1 == count_misses(
                outcomes(old(self)@, old(self).capacity(), ram.deep_view().flatten()),
            ),
            ram.deep_view().flatten().len() == 0 ==> statistic == (0i32, 0i32),
            final(self).capacity() == old(self).capacity(),
            final(self).wf(),
            final(self)@.len() <= final(self).capacity(),
    {
        let ghost start = self@;
        let ghost capacity = self.capacity();
        let ghost batches = ram.deep_view();
        let ghost trace = batches.flatten();
        let ghost all = outcomes(start, capacity, trace);
        let mut hits: i32 = 0;
        let mut misses: i32 = 0;
        let mut b: usize = 0;
        proof {
            lemma_batch_bounds(batches);
            assert(trace.take(0) =~= Seq::<i32>::empty());
            assert(all.take(0) =~= Seq::<bool>::empty());
        }
        while b < ram.len()
            invariant
                b <= ram.len(),
                batches == ram.deep_view(),
                trace == batches.flatten(),
                all == outcomes(start, capacity, trace),
                self.wf(),
                self.capacity() == capacity,
                offset(batches, b as int) <= trace.len(),
                self@ == replay(start, capacity, trace.take(offset(batches, b as int) as int)),
                hits == count_hits(all.take(offset(batches, b as int) as int)),
                misses == count_misses(all.take(offset(batches, b as int) as int)),
                count_hits(all) <= i32::MAX,
                count_misses(all) <= i32::MAX,
            decreases ram.len() - b,
        {
            let batch = &ram[b];
            let mut j: usize = 0;
            while j < batch.len()
                invariant
                    b < ram.len(),
                    j <= batch.len(),
                    batch == &ram[b as int],
                    batches == ram.deep_view(),
                    trace == batches.flatten(),
                    all == outcomes(start, capacity, trace),
                    self.wf(),
                    self.capacity() == capacity,
                    offset(batches, b as int) + j <= trace.len(),
                    self@ == replay(start, capacity, trace.take(offset(batches, b as int) + j)),
                    hits == count_hits(all.take(offset(batches, b as int) + j)),
                    misses == count_misses(all.take(offset(batches, b as int) + j)),
                    count_hits(all) <= i32::MAX,
                    count_misses(all) <= i32::MAX,
                decreases batch.len() - j,
            {
                let ghost n = offset(batches, b as int) + j;
                proof {
                    lemma_batch_item(batches, b as int, j as int);
                    lemma_replay_next(start, capacity, trace, n);
                    lemma_counts_of_next(all, n);
                    lemma_counts_of_prefix(all, n + 1);
                }
                if self.hit(&batch[j]) {
                    hits += 1;
                } else {
                    misses += 1;
                }
                j += 1;
            }
            proof {
                lemma_batch_end(batches, b as int);
            }
            b += 1;
        }
        proof {
            lemma_batch_bounds(batches);
            assert(trace.take(trace.len() as int) =~= trace);
            assert(all.take(trace.len() as int) =~= all);
        }
        (hits, misses)
    }
}

/// An access keeps the cache within its capacity and free of duplicates, and
/// leaves the accessed item resident. An access to a resident item leaves the
/// number of resident items as it is.
pub proof fn lemma_access_bounded(resident: Seq<i32>, capacity: nat, item: i32)
    requires
        bounded(resident, capacity),
    ensures
        bounded(access(resident, capacity, item), capacity),
        access(resident, capacity, item).contains(item),
        resident.contains(item) ==> access(resident, capacity, item).len() == resident.len(),
{
    if resident.contains(item) {
        let i = resident.index_of(item);
        lemma_remove(resident, i);
        lemma_push_back(resident.remove(i), item);
    } else if resident.len() < capacity {
        lemma_push_back(resident, item);
    } else {
        lemma_drop_last(resident);
        lemma_push_back(resident.drop_last(), item);
    }
}

/// The replay of one more access is one access on the replay so far.
proof fn lemma_replay_next(resident: Seq<i32>, capacity: nat, trace: Seq<i32>, n: int)
    requires
        0 <= n < trace.len(),
    ensures
        replay(resident, capacity, trace.take(n + 1)) == access(
            replay(resident, capacity, trace.take(n)),
            capacity,
            trace[n],
        ),
        outcomes(resident, capacity, trace)[n] == replay(resident, capacity, trace.take(n)).contains(
            trace[n],
        ),
{
    assert(trace.take(n + 1).drop_last() =~= trace.take(n));
}

/// However many accesses are replayed, the cache stays within its capacity
/// and holds no item twice.
pub proof fn lemma_replay_bounded(resident: Seq<i32>, capacity: nat, trace: Seq<i32>)
    requires
        bounded(resident, capacity),
    ensures
        bounded(replay(resident, capacity, trace), capacity),
        replay(resident, capacity, trace).len() <= capacity,
    decreases trace.len(),
{
    if trace.len() > 0 {
        lemma_replay_bounded(resident, capacity, trace.drop_last());
        lemma_access_bounded(
            replay(resident, capacity, trace.drop_last()),
            capacity,
            trace.last(),
        );
    }
}

/// An item is resident right after its access, so a second access to it that
/// follows at once is a hit.
pub proof fn lemma_repeat_is_hit(resident: Seq<i32>, capacity: nat, item: i32)
    requires
        bounded(resident, capacity),
    ensures
        access(resident, capacity, item).contains(item),
        outcomes(resident, capacity, seq![item, item])[1],
{
    let twice = seq![item, item];
    lemma_access_bounded(resident, capacity, item);
    assert(twice.take(1).drop_last() =~= Seq::<i32>::empty());
    assert(replay(resident, capacity, twice.take(1)) == access(resident, capacity, item)) by {
        assert(replay(resident, capacity, twice.take(1).drop_last()) == resident);
    }
}

/// Accesses to one resident item, however many, are all hits and leave the
/// number of resident items as it is.
pub proof fn lemma_repeated_hits_keep_size(
    resident: Seq<i32>,
    capacity: nat,
    item: i32,
    trace: Seq<i32>,
)
    requires
        bounded(resident, capacity),
        resident.contains(item),
        forall|k: int| 0 <= k < trace.len() ==> trace[k] == item,
    ensures
        replay(resident, capacity, trace).len() == resident.len(),
        replay(resident, capacity, trace).contains(item),
        bounded(replay(resident, capacity, trace), capacity),
        forall|k: int| 0 <= k < trace.len() ==> outcomes(resident, capacity, trace)[k],
    decreases trace.len(),
{
    if trace.len() > 0 {
        lemma_repeated_hits_keep_size(resident, capacity, item, trace.drop_last());
        lemma_access_bounded(replay(resident, capacity, trace.drop_last()), capacity, item);
    }
    assert forall|k: int| 0 <= k < trace.len() implies outcomes(resident, capacity, trace)[k] by {
        lemma_repeated_hits_keep_size(resident, capacity, item, trace.take(k));
    }
}

/// The replay of an empty trace changes nothing and counts nothing.
pub proof fn lemma_replay_of_nothing(resident: Seq<i32>, capacity: nat)
    ensures
        replay(resident, capacity, Seq::<i32>::empty()) == resident,
        count_hits(outcomes(resident, capacity, Seq::<i32>::empty())) == 0,
        count_misses(outcomes(resident, capacity, Seq::<i32>::empty())) == 0,
{
}

} // verus!
