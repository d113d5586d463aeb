//! SLRU (Segmented LRU) cache algorithm.
//!
//! An SLRU cache is divided into two segments, a probationary segment and a protected segment.
//! Lines in each segment are ordered from the most to the least recently accessed. Data from misses
//! is added to the cache at the most recently accessed end of the probationary segment. Hits in the
//! probationary segment are promoted: removed from it and added to the most recently accessed end
//! of the protected segment. Lines in the protected segment have thus been accessed at least twice.
//! The protected segment is finite, so migration of a line from the probationary segment to the
//! protected segment may force the migration of the LRU line in the protected segment to the most
//! recently used (MRU) end of the probationary segment, giving this line another chance to be
//! accessed before being replaced. Whenever data must be discarded from the cache, lines are
//! obtained from the LRU end of the probationary segment.

use crate::resident::{
    deque_position, lemma_drop_last, lemma_index_of_resident, lemma_push_front, lemma_remove,
};
use crate::stats::{
    count_hits, count_misses, lemma_batch_bounds, lemma_batch_end, lemma_batch_item,
    lemma_counts_of_next, lemma_counts_of_prefix, offset,
};
use crate::CacheError;
use std::collections::VecDeque;
use vstd::prelude::*;

verus! {

/// What an SLRU cache holds: its two segments, each with the most recently
/// used item first, the ceiling of the probationary segment, which shrinks as
/// the protected segment fills, and the capacity of the whole cache.
#[verifier::ext_equal]
pub struct Segments {
    pub probationary: Seq<i32>,
    pub protected: Seq<i32>,
    pub ceiling: nat,
    pub capacity: nat,
}

/// A segment after `item` has entered at its most recently used end: if the
/// segment has reached `ceiling`, its least recently used item leaves first.
pub open spec fn enter(segment: Seq<i32>, ceiling: nat, item: i32) -> Seq<i32> {
    if segment.len() < ceiling {
        seq![item] + segment
    } else {
        seq![item] + segment.drop_last()
    }
}

impl Segments {
    /// An empty cache of the given capacity: the probationary segment may
    /// fill all of it.
    pub open spec fn empty(capacity: nat) -> Self {
        Segments {
            probationary: Seq::empty(),
            protected: Seq::empty(),
            ceiling: capacity,
            capacity: capacity,
        }
    }

    /// The ceiling of the protected segment: half of the capacity, rounded down.
    pub open spec fn protected_ceiling(self) -> nat {
        self.capacity / 2
    }

    /// The floor under the ceiling of the probationary segment: what the
    /// protected segment leaves of the capacity when it is full.
    pub open spec fn floor(self) -> nat {
        (self.capacity - self.capacity / 2) as nat
    }

    /// Whether `item` is resident, in either segment.
    pub open spec fn contains(self, item: i32) -> bool {
        self.probationary.contains(item) || self.protected.contains(item)
    }

    /// The number of resident items, both segments together.
    pub open spec fn len(self) -> nat {
        self.probationary.len() + self.protected.len()
    }

    /// The segments are disjoint and free of duplicates, each is within its
    /// ceiling, and the probationary ceiling has given up exactly the room
    /// that the protected segment has taken.
    pub open spec fn wf(self) -> bool {
        &&& 0 < self.capacity
        &&& self.probationary.no_duplicates()
        &&& self.protected.no_duplicates()
        &&& forall|x: i32| self.probationary.contains(x) ==> !self.protected.contains(x)
        &&& self.probationary.len() <= self.ceiling
        &&& self.protected.len() <= self.protected_ceiling()
        &&& self.ceiling + self.protected.len() == self.capacity
    }

    /// The cache after `item`, just taken out of the probationary segment,
    /// has been promoted.
    ///
    /// Below its ceiling the protected segment takes the item, and the
    /// probationary ceiling shrinks by one, but not below its floor. At its
    /// ceiling the protected segment first hands its least recently used item
    /// back to the probationary segment. A protected segment whose ceiling is
    /// zero has nothing to hand back but the item itself.
    pub open spec fn promote(self, item: i32) -> Self {
        if self.protected.len() < self.protected_ceiling() {
            Segments {
                protected: seq![item] + self.protected,
                ceiling: if self.ceiling > self.floor() {
                    (self.ceiling - 1) as nat
                } else {
                    self.ceiling
                },
                ..self
            }
        } else if self.protected.len() > 0 {
            Segments {
                probationary: enter(self.probationary, self.ceiling, self.protected.last()),
                protected: seq![item] + self.protected.drop_last(),
                ..self
            }
        } else {
            Segments { probationary: enter(self.probationary, self.ceiling, item), ..self }
        }
    }

    /// The cache after one access to `item`.
    ///
    /// A probationary item is promoted. A protected item moves to the most
    /// recently used end of its segment. Any other item enters the
    /// probationary segment.
    pub open spec fn access(self, item: i32) -> Self {
        if self.probationary.contains(item) {
            Segments {
                probationary: self.probationary.remove(self.probationary.index_of(item)),
                ..self
            }.promote(item)
        } else if self.protected.contains(item) {
            Segments {
                protected: seq![item] + self.protected.remove(self.protected.index_of(item)),
                ..self
            }
        } else {
            Segments { probationary: enter(self.probationary, self.ceiling, item), ..self }
        }
    }

    /// The cache after the accesses of `trace`, one after the other.
    pub open spec fn replay(self, trace: Seq<i32>) -> Self
        decreases trace.len(),
    {
        if trace.len() == 0 {
            self
        } else {
            self.replay(trace.drop_last()).access(trace.last())
        }
    }

    /// For each access of `trace`, whether it is a hit: whether its item is
    /// resident after the accesses before it.
    pub open spec fn outcomes(self, trace: Seq<i32>) -> Seq<bool> {
        Seq::new(trace.len(), |k: int| self.replay(trace.take(k)).contains(trace[k]))
    }
}

/// Implementation cache, based on a SLRU algorithm.
pub struct SLRUCache {
    prob_cache: VecDeque<i32>,
    prot_cache: VecDeque<i32>,
    size_prob_cache: usize,
    size_prob_cache_min: usize,
    size_prot_cache: usize,
}

impl View for SLRUCache {
    type V = Segments;

    closed spec fn view(&self) -> Segments {
        Segments {
            probationary: self.prob_cache@,
            protected: self.prot_cache@,
            ceiling: self.size_prob_cache as nat,
            capacity: (self.size_prob_cache_min + self.size_prot_cache) as nat,
        }
    }
}

impl SLRUCache {
    /// The segments are well formed, and the cache knows the ceiling of the
    /// protected segment and the floor of the probationary one.
    pub closed spec fn wf(&self) -> bool {
        &&& self@.wf()
        &&& self.size_prot_cache == self@.protected_ceiling()
        &&& self.size_prob_cache_min == self@.floor()
    }

    /// A well-formed cache has well-formed segments.
    pub proof fn lemma_wf(&self)
        requires
            self.wf(),
        ensures
            self@.wf(),
    {
    }

    /// Create new cache with fix size. A cache of size zero is refused.
    pub fn new(size: usize) -> (made: Result<Self, CacheError>)
        ensures
            size == 0 <==> made is Err,
            made matches Ok(cache) ==> cache.wf() && cache@ == Segments::empty(size as nat),
            made matches Err(error) ==> error == CacheError::ZeroCapacity,
    {
        if size == 0 {
            return Err(CacheError::ZeroCapacity);
        }
        Ok(
            SLRUCache {
                prob_cache: VecDeque::with_capacity(size),
                prot_cache: VecDeque::with_capacity(size / 2),
                size_prob_cache: size,
                size_prob_cache_min: size - size / 2,
                size_prot_cache: size / 2,
            },
        )
    }

    /// Checks the cache to find element. If the cache don't have element, checks the cache size
    /// and removes old element for pushing new element.
    ///
    /// Return `true`, if the cache have element and `false` otherwise.
    pub fn hit(&mut self, val: &i32) -> (found: bool)
        requires
            old(self).wf(),
        ensures
            found == old(self)@.contains(*val),
            final(self)@.contains(*val),
            final(self)@ == old(self)@.access(*val),
            final(self).wf(),
            final(self)@.wf(),
            final(self)@.capacity == old(self)@.capacity,
            final(self)@.len() <= final(self)@.capacity,
            final(self)@.protected.len() <= final(self)@.protected_ceiling(),
            final(self)@.ceiling >= final(self)@.floor(),
    {
        proof {
            lemma_access_wf(self@, *val);
        }
        if let Some(position) = deque_position(&self.prob_cache, *val) {
            proof {
                lemma_index_of_resident(self@.probationary, position as int);
            }
            let elem = self.prob_cache.remove(position).unwrap();
            self.add_to_protected_cache(elem);
            true
        } else {
            if let Some(position) = deque_position(&self.prot_cache, *val) {
                proof {
                    lemma_index_of_resident(self@.protected, position as int);
                }
                let elem = self.prot_cache.remove(position).unwrap();
                self.prot_cache.push_front(elem);
                true
            } else {
                self.add_to_probationary_cache(*val);
                false
            }
        }
    }

    // Auxiliary function for adding to probationary cache in right way.
    fn add_to_probationary_cache(&mut self, val: i32)
        requires
            0 < old(self).size_prob_cache,
        ensures
            final(self)@ == (Segments {
                probationary: enter(old(self)@.probationary, old(self)@.ceiling, val),
                ..old(self)@
            }),
            final(self).size_prot_cache == old(self).size_prot_cache,
            final(self).size_prob_cache_min == old(self).size_prob_cache_min,
    {
        if self.prob_cache.len() < self.size_prob_cache {
            self.prob_cache.push_front(val);
        } else {
            self.prob_cache.pop_back();
            self.prob_cache.push_front(val);
        }
    }

    // Auxiliary function for adding to protected cache in right way.
    fn add_to_protected_cache(&mut self, val: i32)
        requires
            old(self).size_prot_cache == old(self)@.protected_ceiling(),
            old(self).size_prob_cache_min == old(self)@.floor(),
            0 < old(self).size_prob_cache_min <= old(self).size_prob_cache,
        ensures
            final(self)@ == old(self)@.promote(val),
            final(self).size_prot_cache == old(self).size_prot_cache,
            final(self).size_prob_cache_min == old(self).size_prob_cache_min,
    {
        if self.prot_cache.len() < self.size_prot_cache {
            self.prot_cache.push_front(val);
            if self.size_prob_cache_min < self.size_prob_cache {
                self.size_prob_cache -= 1;
            }
        } else {
            match self.prot_cache.pop_back() {
                Some(to_probationary) => {
                    self.prot_cache.push_front(val);
                    self.add_to_probationary_cache(to_probationary);
                },
                None => {
                    // A protected cache that may hold nothing has only the element itself
                    // to give back.
                    self.add_to_probationary_cache(val);
                },
            }
        }
    }

    /// Run process of checking algorithm.
    ///
    /// Return tuple with statistic: `(cache hit, cache miss)`.
    pub fn run(&mut self, ram: &Vec<Vec<i32>>) -> (statistic: (i32, i32))
        requires
            old(self).wf(),
            count_hits(old(self)@.outcomes(ram.deep_view().flatten())) <= i32::MAX,
            count_misses(old(self)@.outcomes(ram.deep_view().flatten())) <= i32::MAX,
        ensures
            final(self)@ == old(self)@.replay(ram.deep_view().flatten()),
            statistic.0 == count_hits(old(self)@.outcomes(ram.deep_view().flatten())),
            statistic.1 == count_misses(old(self)@.outcomes(ram.deep_view().flatten())),
            ram.deep_view().flatten().len() == 0 ==> statistic == (0i32, 0i32),
            final(self).wf(),
            final(self)@.wf(),
            final(self)@.capacity == old(self)@.capacity,
            final(self)@.len() <= final(self)@.capacity,
            final(self)@.protected.len() <= final(self)@.protected_ceiling(),
            final(self)@.ceiling >= final(self)@.floor(),
    {
        let ghost start = self@;
        let ghost batches = ram.deep_view();
        let ghost trace = batches.flatten();
        let ghost all = start.outcomes(trace);
        let mut hits: i32 = 0;
        let mut misses: i32 = 0;
        let mut b: usize = 0;
        proof {
            lemma_batch_bounds(batches);
            assert(trace.take(0) =~= Seq::<i32>::empty());
            assert(all.take(0) =~= Seq::<bool>::empty());
        }
        while b < ram.len()
            invariant
                b <= ram.len(),
                batches == ram.deep_view(),
                trace == batches.flatten(),
                all == start.outcomes(trace),
                self.wf(),
                self@.wf(),
                self@.capacity == start.capacity,
                offset(batches, b as int) <= trace.len(),
                self@ == start.replay(trace.take(offset(batches, b as int) as int)),
                hits == count_hits(all.take(offset(batches, b as int) as int)),
                misses == count_misses(all.take(offset(batches, b as int) as int)),
                count_hits(all) <= i32::MAX,
                count_misses(all) <= i32::MAX,
            decreases ram.len() - b,
        {
            let batch = &ram[b];
            let mut j: usize = 0;
            while j < batch.len()
                invariant
                    b < ram.len(),
                    j <= batch.len(),
                    batch == &ram[b as int],
                    batches == ram.deep_view(),
                    trace == batches.flatten(),
                    all == start.outcomes(trace),
                    self.wf(),
                    self@.wf(),
                    self@.capacity == start.capacity,
                    offset(batches, b as int) + j <= trace.len(),
                    self@ == start.replay(trace.take(offset(batches, b as int) + j)),
                    hits == count_hits(all.take(offset(batches, b as int) + j)),
                    misses == count_misses(all.take(offset(batches, b as int) + j)),
                    count_hits(all) <= i32::MAX,
                    count_misses(all) <= i32::MAX,
                decreases batch.len() - j,
            {
                let ghost n = offset(batches, b as int) + j;
                proof {
                    lemma_batch_item(batches, b as int, j as int);
                    lemma_replay_next(start, trace, n);
                    lemma_counts_of_next(all, n);
                    lemma_counts_of_prefix(all, n + 1);
                }
                if self.hit(&batch[j]) {
                    hits += 1;
                } else {
                    misses += 1;
                }
                j += 1;
            }
            proof {
                lemma_batch_end(batches, b as int);
            }
            b += 1;
        }
        proof {
            lemma_batch_bounds(batches);
            assert(trace.take(trace.len() as int) =~= trace);
            assert(all.take(trace.len() as int) =~= all);
        }
        (hits, misses)
    }
}

/// A segment without duplicates that a new item enters stays without
/// duplicates, within its ceiling if that is positive, and holds the item.
pub proof fn lemma_enter(segment: Seq<i32>, ceiling: nat, item: i32)
    requires
        segment.no_duplicates(),
        !segment.contains(item),
        segment.len() <= ceiling,
        0 < ceiling,
    ensures
        enter(segment, ceiling, item).no_duplicates(),
        enter(segment, ceiling, item).len() <= ceiling,
        enter(segment, ceiling, item).contains(item),
        forall|x: i32| enter(segment, ceiling, item).contains(x) ==> x == item || segment.contains(x),
        segment.len() < ceiling ==> enter(segment, ceiling, item).len() == segment.len() + 1,
{
    if segment.len() < ceiling {
        lemma_push_front(segment, item);
    } else {
        lemma_drop_last(segment);
        lemma_push_front(segment.drop_last(), item);
    }
}

/// An access keeps the segments well formed and the capacity as it is, and
/// leaves the accessed item resident. An access to a resident item leaves the
/// number of resident items as it is.
pub proof fn lemma_access_wf(segments: Segments, item: i32)
    requires
        segments.wf(),
    ensures
        segments.access(item).wf(),
        segments.access(item).capacity == segments.capacity,
        segments.access(item).contains(item),
        segments.contains(item) ==> segments.access(item).len() == segments.len(),
{
    let probationary = segments.probationary;
    let protected = segments.protected;
    let next = segments.access(item);
    if probationary.contains(item) {
        let i = probationary.index_of(item);
        let rest = probationary.remove(i);
        lemma_remove(probationary, i);
        if protected.len() < segments.protected_ceiling() {
            lemma_push_front(protected, item);
        } else if protected.len() > 0 {
            let back = protected.last();
            assert(protected.contains(back));
            lemma_drop_last(protected);
            lemma_push_front(protected.drop_last(), item);
            lemma_enter(rest, segments.ceiling, back);
        } else {
            lemma_enter(rest, segments.ceiling, item);
        }
    } else if protected.contains(item) {
        let i = protected.index_of(item);
        lemma_remove(protected, i);
        lemma_push_front(protected.remove(i), item);
    } else {
        lemma_enter(probationary, segments.ceiling, item);
    }
    assert forall|x: i32| next.probationary.contains(x) implies !next.protected.contains(x) by {
        if probationary.contains(x) {
            assert(!protected.contains(x));
        }
    }
}

/// The replay of one more access is one access on the replay so far.
proof fn lemma_replay_next(segments: Segments, trace: Seq<i32>, n: int)
    requires
        0 <= n < trace.len(),
    ensures
        segments.replay(trace.take(n + 1)) == segments.replay(trace.take(n)).access(trace[n]),
        segments.outcomes(trace)[n] == segments.replay(trace.take(n)).contains(trace[n]),
{
    assert(trace.take(n + 1).drop_last() =~= trace.take(n));
}

/// However many accesses are replayed, the segments stay well formed: both
/// together hold no more items than the capacity, the protected segment is
/// within its ceiling, and the probationary ceiling is not below its floor.
pub proof fn lemma_replay_wf(segments: Segments, trace: Seq<i32>)
    requires
        segments.wf(),
    ensures
        segments.replay(trace).wf(),
        segments.replay(trace).capacity == segments.capacity,
        segments.replay(trace).len() <= segments.capacity,
        segments.replay(trace).protected.len() <= segments.replay(trace).protected_ceiling(),
        segments.replay(trace).ceiling >= segments.replay(trace).floor(),
    decreases trace.len(),
{
    if trace.len() > 0 {
        lemma_replay_wf(segments, trace.drop_last());
        lemma_access_wf(segments.replay(trace.drop_last()), trace.last());
    }
}

/// An item is resident right after its access, so a second access to it that
/// follows at once is a hit.
pub proof fn lemma_repeat_is_hit(segments: Segments, item: i32)
    requires
        segments.wf(),
    ensures
        segments.access(item).contains(item),
        segments.outcomes(seq![item, item])[1],
{
    let twice = seq![item, item];
    lemma_access_wf(segments, item);
    assert(twice.take(1).drop_last() =~= Seq::<i32>::empty());
    assert(segments.replay(twice.take(1)) == segments.access(item)) by {
        assert(segments.replay(twice.take(1).drop_last()) == segments);
    }
}

/// Accesses to one resident item, however many, are all hits and leave the
/// number of resident items as it is.
pub proof fn lemma_repeated_hits_keep_size(segments: Segments, item: i32, trace: Seq<i32>)
    requires
        segments.wf(),
        segments.contains(item),
        forall|k: int| 0 <= k < trace.len() ==> trace[k] == item,
    ensures
        segments.replay(trace).len() == segments.len(),
        segments.replay(trace).contains(item),
        segments.replay(trace).wf(),
        forall|k: int| 0 <= k < trace.len() ==> segments.outcomes(trace)[k],
    decreases trace.len(),
{
    if trace.len() > 0 {
        lemma_repeated_hits_keep_size(segments, item, trace.drop_last());
        lemma_access_wf(segments.replay(trace.drop_last()), item);
    }
    assert forall|k: int| 0 <= k < trace.len() implies segments.outcomes(trace)[k] by {
        lemma_repeated_hits_keep_size(segments, item, trace.take(k));
    }
}

/// The replay of an empty trace changes nothing and counts nothing.
pub proof fn lemma_replay_of_nothing(segments: Segments)
    ensures
        segments.replay(Seq::<i32>::empty()) == segments,
        count_hits(segments.outcomes(Seq::<i32>::empty())) == 0,
        count_misses(segments.outcomes(Seq::<i32>::empty())) == 0,
{
}

} // verus!
