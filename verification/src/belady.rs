//! Belady's (OPT) cache algorithm.
//!
//! The most efficient caching algorithm would be to always discard the information that will not be
//! needed for the longest time in the future. This optimal result is referred to as Belady's
//! optimal algorithm or the clairvoyant algorithm. Since it is generally impossible to predict how
//! far in the future information will be needed, this is generally not implementable in practice.
//! The practical minimum can be calculated only after experimentation, and one can compare the
//! effectiveness of the actually chosen cache algorithm.

use crate::resident::{bounded, deque_position, lemma_push_back, lemma_remove, vec_position};
use crate::stats::{
    count_hits, count_misses, lemma_batch_bounds, lemma_batch_end, lemma_batch_item,
    lemma_counts_of_next, lemma_counts_of_prefix, offset,
};
use crate::CacheError;
use std::collections::VecDeque;
use vstd::prelude::*;

verus! {

/// How far away the next use of `item` is: the index of its first occurrence
/// in `future`, or the length of `future` if it is never used again.
pub open spec fn next_use(future: Seq<i32>, item: i32) -> nat
    decreases future.len(),
{
    if future.len() == 0 || future.first() == item {
        0
    } else {
        1 + next_use(future.drop_first(), item)
    }
}

/// Whether the item at index `v` is the one to evict: no resident item is
/// used again later than it, and every resident item before it is used again
/// sooner. An item that is never used again counts as used later than any
/// that is, so the first such item is the victim if there is one.
pub open spec fn is_victim(resident: Seq<i32>, future: Seq<i32>, v: int) -> bool {
    &&& 0 <= v < resident.len()
    &&& forall|j: int|
        0 <= j < resident.len() ==> next_use(future, #[trigger] resident[j]) <= next_use(
            future,
            resident[v],
        )
    &&& forall|j: int|
        0 <= j < v ==> next_use(future, #[trigger] resident[j]) < next_use(future, resident[v])
}

/// The index of the item to evict.
pub open spec fn victim(resident: Seq<i32>, future: Seq<i32>) -> int {
    choose|v: int| is_victim(resident, future, v)
}

/// The resident items after one access to `item`, in the order of their
/// insertion, where `future` holds the accesses that follow this one.
///
/// A resident item leaves the cache as it is. A new item enters at the end;
/// if the cache is full, the victim leaves first.
pub open spec fn access(resident: Seq<i32>, capacity: nat, item: i32, future: Seq<i32>) -> Seq<
    i32,
> {
    if resident.contains(item) {
        resident
    } else if resident.len() < capacity {
        resident.push(item)
    } else {
        resident.remove(victim(resident, future)).push(item)
    }
}

/// The resident items after the first `done` accesses of `trace`. Each access
/// looks into the accesses of `trace` that follow it.
pub open spec fn replay(resident: Seq<i32>, capacity: nat, trace: Seq<i32>, done: nat) -> Seq<i32>
    decreases done,
{
    if done == 0 {
        resident
    } else {
        access(
            replay(resident, capacity, trace, (done - 1) as nat),
            capacity,
            trace[done - 1],
            trace.skip(done as int),
        )
    }
}

/// For each access of `trace`, whether it is a hit: whether its item is
/// resident after the accesses before it.
pub open spec fn outcomes(resident: Seq<i32>, capacity: nat, trace: Seq<i32>) -> Seq<bool> {
    Seq::new(trace.len(), |k: int| replay(resident, capacity, trace, k as nat).contains(trace[k]))
}

/// Implementation cache, based on a Belady's algorithm.
pub struct BeladyCache {
    cache: Vec<i32>,
    size: usize,
}

impl View for BeladyCache {
    type V = Seq<i32>;

    /// The resident items, in the order of their insertion.
    closed spec fn view(&self) -> Seq<i32> {
        self.cache@
    }
}

impl BeladyCache {
    /// The number of items that the cache holds at most.
    pub closed spec fn capacity(&self) -> nat {
        self.size as nat
    }

    /// The cache is within its capacity and holds no item twice.
    pub open spec fn wf(&self) -> bool {
        bounded(self@, self.capacity())
    }

    /// Create new cache with fix size. A cache of size zero is refused.
    pub fn new(size: usize) -> (made: Result<Self, CacheError>)
        ensures
            size == 0 <==> made is Err,
            made matches Ok(cache) ==> cache.wf() && cache@ == Seq::<i32>::empty() && cache.capacity() == size,
            made matches Err(error) ==> error == CacheError::ZeroCapacity,
    {
        if size == 0 {
            return Err(CacheError::ZeroCapacity);
        }
        Ok(BeladyCache { cache: Vec::with_capacity(size), size: size })
    }

    /// Checks the cache to find element. If the cache don't have element, checks the cache size
    /// and removes old element for pushing new element.
    ///
    /// Return `true`, if the cache have element and `false` otherwise.
    pub fn hit(&mut self, val: &i32, future: &VecDeque<i32>) -> (found: bool)
        requires
            old(self).wf(),
        ensures
            found == old(self)@.contains(*val),
            final(self)@.contains(*val),
            final(self)@ == access(old(self)@, old(self).capacity(), *val, future@),
            final(self).capacity() == old(self).capacity(),
            final(self).wf(),
            final(self)@.len() <= final(self).capacity(),
    {
        proof {
            lemma_access_bounded(self@, self.capacity(), *val, future@);
        }
        if vec_position(&self.cache, *val).is_some() {
            true
        } else {
            if self.cache.len() < self.size {
                self.cache.push(*val);
            } else {
                self.look_into_the_future(future);

                self.cache.push(*val);
            }
            false
        }
    }

    // Remove the element that will not be needed for the longest time in the future.
    fn look_into_the_future(&mut self, future: &VecDeque<i32>)
        requires
            old(self)@.len() > 0,
        ensures
            is_victim(old(self)@, future@, victim(old(self)@, future@)),
            final(self)@ == old(self)@.remove(victim(old(self)@, future@)),
            final(self).size == old(self).size,
    {
        let mut usage: Vec<Option<usize>> = Vec::with_capacity(self.cache.len());
        let mut i: usize = 0;
        while i < self.cache.len()
            invariant
                i <= self.cache@.len(),
                self.cache@ == old(self).cache@,
                usage@.len() == i,
                forall|k: int|
                    0 <= k < i ==> used_at(future@, self.cache@[k], #[trigger] usage@[k]),
            decreases self.cache@.len() - i,
        {
            let position_in_future = deque_position(future, self.cache[i]);
            proof {
                match position_in_future {
                    Some(p) => {
                        lemma_next_use(future@, self.cache@[i as int], p as int);
                    },
                    None => {
                        lemma_next_use(future@, self.cache@[i as int], future@.len() as int);
                    },
                }
            }
            usage.push(position_in_future);
            i += 1;
        }
        let elem_for_remove = first_unused(&usage);
        let index = match elem_for_remove {
            Some(index) => index,
            None => last_used(&usage),
        };
        proof {
            assert(is_victim(self@, future@, index as int)) by {
                assert forall|j: int| 0 <= j < self@.len() implies next_use(
                    future@,
                    #[trigger] self@[j],
                ) <= next_use(future@, self@[index as int]) by {
                    assert(used_at(future@, self.cache@[j], usage@[j]));
                    lemma_next_use_bound(future@, self@[j]);
                }
                assert forall|j: int| 0 <= j < index implies next_use(future@, #[trigger] self@[j])
                    < next_use(future@, self@[index as int]) by {
                    assert(used_at(future@, self.cache@[j], usage@[j]));
                }
            }
            lemma_victim_is_unique(self@, future@, index as int);
        }
        self.cache.remove(index);
    }

    /// Run process of checking algorithm.
    ///
    /// Return tuple with statistic: `(cache hit, cache miss)`.
    pub fn run(&mut self, ram: &Vec<Vec<i32>>) -> (statistic: (i32, i32))
        requires
            old(self).wf(),
            count_hits(outcomes(old(self)@, old(self).capacity(), ram.deep_view().flatten()))
                <= i32::MAX,
            count_misses(outcomes(old(self)@, old(self).capacity(), ram.deep_view().flatten()))
                <= i32::MAX,
        ensures
            final(self)@ == replay(
                old(self)@,
                old(self).capacity(),
                ram.deep_view().flatten(),
                ram.deep_view().flatten().len(),
            ),
            statistic.0 == count_hits(
                outcomes(old(self)@, old(self).capacity(), ram.deep_view().flatten()),
            ),
            statistic.1 == count_misses(
                outcomes(old(self)@, old(self).capacity(), ram.deep_view().flatten()),
            ),
            ram.deep_view().flatten().len() == 0 ==> statistic == (0i32, 0i32),
            final(self).capacity() == old(self).capacity(),
            final(self).wf(),
            final(self)@.len() <= final(self).capacity(),
    {
        let ghost start = self@;
        let ghost capacity = self.capacity();
        let ghost batches = ram.deep_view();
        let ghost trace = batches.flatten();
        let ghost all = outcomes(start, capacity, trace);
        let mut hits: i32 = 0;
        let mut misses: i32 = 0;
        let mut future: VecDeque<i32> = flatten(ram);
        let mut b: usize = 0;
        proof {
            lemma_batch_bounds(batches);
            assert(trace.skip(0) =~= trace);
            assert(all.take(0) =~= Seq::<bool>::empty());
        }
        while b < ram.len()
            invariant
                b <= ram.len(),
                batches == ram.deep_view(),
                trace == batches.flatten(),
                all == outcomes(start, capacity, trace),
                self.wf(),
                self.capacity() == capacity,
                offset(batches, b as int) <= trace.len(),
                future@ == trace.skip(offset(batches, b as int) as int),
                self@ == replay(start, capacity, trace, offset(batches, b as int)),
                hits == count_hits(all.take(offset(batches, b as int) as int)),
                misses == count_misses(all.take(offset(batches, b as int) as int)),
                count_hits(all) <= i32::MAX,
                count_misses(all) <= i32::MAX,
            decreases ram.len() - b,
        {
            let batch = &ram[b];
            let mut j: usize = 0;
            while j < batch.len()
                invariant
                    b < ram.len(),
                    j <= batch.len(),
                    batch == &ram[b as int],
                    batches == ram.deep_view(),
                    trace == batches.flatten(),
                    all == outcomes(start, capacity, trace),
                    self.wf(),
                    self.capacity() == capacity,
                    offset(batches, b as int) + j <= trace.len(),
                    future@ == trace.skip(offset(batches, b as int) + j),
                    self@ == replay(start, capacity, trace, (offset(batches, b as int) + j) as nat),
                    hits == count_hits(all.take(offset(batches, b as int) + j)),
                    misses == count_misses(all.take(offset(batches, b as int) + j)),
                    count_hits(all) <= i32::MAX,
                    count_misses(all) <= i32::MAX,
                decreases batch.len() - j,
            {
                let ghost n = offset(batches, b as int) + j;
                proof {
                    lemma_batch_item(batches, b as int, j as int);
                    lemma_counts_of_next(all, n);
                    lemma_counts_of_prefix(all, n + 1);
                    assert(trace.skip(n).subrange(1, trace.skip(n).len() as int) =~= trace.skip(
                        n + 1,
                    ));
                }
                future.pop_front();
                if self.hit(&batch[j], &future) {
                    hits += 1;
                } else {
                    misses += 1;
                }
                j += 1;
            }
            proof {
                lemma_batch_end(batches, b as int);
            }
            b += 1;
        }
        proof {
            lemma_batch_bounds(batches);
            assert(all.take(trace.len() as int) =~= all);
        }
        (hits, misses)
    }
}

/// All elements of all batches in one queue, in the order of the batches.
fn flatten(ram: &Vec<Vec<i32>>) -> (trace: VecDeque<i32>)
    ensures
        trace@ == ram.deep_view().flatten(),
{
    let ghost batches = ram.deep_view();
    let mut trace: VecDeque<i32> = VecDeque::new();
    let mut b: usize = 0;
    proof {
        lemma_batch_bounds(batches);
    }
    while b < ram.len()
        invariant
            b <= ram.len(),
            batches == ram.deep_view(),
            offset(batches, b as int) <= batches.flatten().len(),
            trace@ == batches.flatten().take(offset(batches, b as int) as int),
        decreases ram.len() - b,
    {
        let batch = &ram[b];
        let mut j: usize = 0;
        while j < batch.len()
            invariant
                b < ram.len(),
                j <= batch.len(),
                batch == &ram[b as int],
                batches == ram.deep_view(),
                offset(batches, b as int) + j <= batches.flatten().len(),
                trace@ == batches.flatten().take(offset(batches, b as int) + j),
            decreases batch.len() - j,
        {
            proof {
                lemma_batch_item(batches, b as int, j as int);
            }
            trace.push_back(batch[j]);
            j += 1;
        }
        proof {
            lemma_batch_end(batches, b as int);
        }
        b += 1;
    }
    proof {
        lemma_batch_bounds(batches);
    }
    trace
}

/// Whether `position` says where `item` is next used: at that index of
/// `future`, or never.
pub open spec fn used_at(future: Seq<i32>, item: i32, position: Option<usize>) -> bool {
    match position {
        Some(p) => p < future.len() && next_use(future, item) == p,
        None => next_use(future, item) == future.len(),
    }
}

/// Index of the first item that is never used again, if there is one.
fn first_unused(usage: &Vec<Option<usize>>) -> (found: Option<usize>)
    ensures
        match found {
            Some(i) => {
                &&& i < usage@.len()
                &&& usage@[i as int] is None
                &&& forall|j: int| 0 <= j < i ==> usage@[j] is Some
            },
            None => forall|j: int| 0 <= j < usage@.len() ==> usage@[j] is Some,
        },
{
    let mut i: usize = 0;
    while i < usage.len()
        invariant
            i <= usage@.len(),
            forall|j: int| 0 <= j < i ==> usage@[j] is Some,
        decreases usage@.len() - i,
    {
        if usage[i].is_none() {
            return Some(i);
        }
        i += 1;
    }
    None
}

/// Index of the item that is used again last of all; of several, the first.
fn last_used(usage: &Vec<Option<usize>>) -> (last: usize)
    requires
        usage@.len() > 0,
        forall|j: int| 0 <= j < usage@.len() ==> usage@[j] is Some,
    ensures
        last < usage@.len(),
        forall|j: int| 0 <= j < usage@.len() ==> usage@[j]->0 <= usage@[last as int]->0,
        forall|j: int| 0 <= j < last ==> usage@[j]->0 < usage@[last as int]->0,
{
    let mut last: usize = 0;
    let mut i: usize = 1;
    while i < usage.len()
        invariant
            last < i <= usage@.len(),
            forall|j: int| 0 <= j < usage@.len() ==> usage@[j] is Some,
            forall|j: int| 0 <= j < i ==> usage@[j]->0 <= usage@[last as int]->0,
            forall|j: int| 0 <= j < last ==> usage@[j]->0 < usage@[last as int]->0,
        decreases usage@.len() - i,
    {
        if usage[i].unwrap() > usage[last].unwrap() {
            last = i;
        }
        i += 1;
    }
    last
}

/// The next use of an item is where it first occurs: at `k`, if it occurs
/// there and not before, and at the end, if it occurs nowhere.
pub proof fn lemma_next_use(future: Seq<i32>, item: i32, k: int)
    requires
        0 <= k <= future.len(),
        forall|j: int| 0 <= j < k ==> future[j] != item,
        k < future.len() ==> future[k] == item,
    ensures
        next_use(future, item) == k,
    decreases k,
{
    if k > 0 {
        let rest = future.drop_first();
        assert forall|j: int| 0 <= j < k - 1 implies rest[j] != item by {
            assert(rest[j] == future[j + 1]);
        }
        lemma_next_use(rest, item, k - 1);
    }
}

/// No item is next used beyond the end of the future.
pub proof fn lemma_next_use_bound(future: Seq<i32>, item: i32)
    ensures
        next_use(future, item) <= future.len(),
    decreases future.len(),
{
    if future.len() > 0 && future.first() != item {
        lemma_next_use_bound(future.drop_first(), item);
    }
}

/// Only one item can be the victim.
pub proof fn lemma_victim_is_unique(resident: Seq<i32>, future: Seq<i32>, v: int)
    requires
        is_victim(resident, future, v),
    ensures
        victim(resident, future) == v,
{
    let w = victim(resident, future);
    assert(is_victim(resident, future, w));
    if w < v {
        assert(next_use(future, resident[w]) < next_use(future, resident[v]));
        assert(next_use(future, resident[v]) <= next_use(future, resident[w]));
    }
    if v < w {
        assert(next_use(future, resident[v]) < next_use(future, resident[w]));
        assert(next_use(future, resident[w]) <= next_use(future, resident[v]));
    }
}

/// A cache that is not empty has a victim.
pub proof fn lemma_victim_exists(resident: Seq<i32>, future: Seq<i32>)
    requires
        resident.len() > 0,
    ensures
        is_victim(resident, future, victim(resident, future)),
    decreases resident.len(),
{
    if resident.len() == 1 {
        assert(is_victim(resident, future, 0));
    } else {
        let front = resident.drop_last();
        lemma_victim_exists(front, future);
        let v = victim(front, future);
        if next_use(future, resident.last()) > next_use(future, front[v]) {
            assert(is_victim(resident, future, resident.len() - 1)) by {
                assert forall|j: int| 0 <= j < resident.len() - 1 implies next_use(
                    future,
                    #[trigger] resident[j],
                ) < next_use(future, resident.last()) by {
                    assert(next_use(future, front[j]) <= next_use(future, front[v]));
                }
            }
        } else {
            assert(is_victim(resident, future, v)) by {
                assert forall|j: int| 0 <= j < resident.len() implies next_use(
                    future,
                    #[trigger] resident[j],
                ) <= next_use(future, resident[v]) by {
                    if j < front.len() {
                        assert(next_use(future, front[j]) <= next_use(future, front[v]));
                    }
                }
                assert forall|j: int| 0 <= j < v implies next_use(future, #[trigger] resident[j])
                    < next_use(future, resident[v]) by {
                    assert(next_use(future, front[j]) < next_use(future, front[v]));
                }
            }
        }
    }
}

/// An access keeps the cache within its capacity and free of duplicates,
/// whatever the future holds, and leaves the accessed item resident. An
/// access to a resident item leaves the cache as it is.
pub proof fn lemma_access_bounded(resident: Seq<i32>, capacity: nat, item: i32, future: Seq<i32>)
    requires
        bounded(resident, capacity),
    ensures
        bounded(access(resident, capacity, item, future), capacity),
        access(resident, capacity, item, future).contains(item),
        resident.contains(item) ==> access(resident, capacity, item, future) == resident,
{
    if resident.contains(item) {
    } else if resident.len() < capacity {
        lemma_push_back(resident, item);
    } else {
        lemma_victim_exists(resident, future);
        let v = victim(resident, future);
        lemma_remove(resident, v);
        lemma_push_back(resident.remove(v), item);
    }
}

/// However many accesses of a trace are replayed, the cache stays within
/// its capacity and holds no item twice.
pub proof fn lemma_replay_bounded(resident: Seq<i32>, capacity: nat, trace: Seq<i32>, done: nat)
    requires
        bounded(resident, capacity),
    ensures
        bounded(replay(resident, capacity, trace, done), capacity),
        replay(resident, capacity, trace, done).len() <= capacity,
    decreases done,
{
    if done > 0 {
        lemma_replay_bounded(resident, capacity, trace, (done - 1) as nat);
        lemma_access_bounded(
            replay(resident, capacity, trace, (done - 1) as nat),
            capacity,
            trace[done - 1],
            trace.skip(done as int),
        );
    }
}

/// An item is resident right after its access, so a second access to it that
/// follows at once is a hit, whatever follows the two.
pub proof fn lemma_repeat_is_hit(resident: Seq<i32>, capacity: nat, item: i32, rest: Seq<i32>)
    requires
        bounded(resident, capacity),
    ensures
        outcomes(resident, capacity, seq![item, item] + rest)[1],
{
    let trace = seq![item, item] + rest;
    lemma_access_bounded(resident, capacity, item, trace.skip(1));
    assert(replay(resident, capacity, trace, 1) == access(
        replay(resident, capacity, trace, 0),
        capacity,
        trace[0],
        trace.skip(1),
    ));
}

/// Accesses to one resident item, however many, are all hits and leave the
/// cache as it is.
pub proof fn lemma_repeated_hits_keep_size(
    resident: Seq<i32>,
    capacity: nat,
    item: i32,
    trace: Seq<i32>,
    done: nat,
)
    requires
        bounded(resident, capacity),
        resident.contains(item),
        done <= trace.len(),
        forall|k: int| 0 <= k < done ==> trace[k] == item,
    ensures
        replay(resident, capacity, trace, done).len() == resident.len(),
        replay(resident, capacity, trace, done) == resident,
        forall|k: int| 0 <= k < done ==> outcomes(resident, capacity, trace)[k],
    decreases done,
{
    if done > 0 {
        lemma_repeated_hits_keep_size(resident, capacity, item, trace, (done - 1) as nat);
    }
    assert forall|k: int| 0 <= k < done implies outcomes(resident, capacity, trace)[k] by {
        lemma_repeated_hits_keep_size(resident, capacity, item, trace, k as nat);
    }
}

/// The replay of an empty trace changes nothing and counts nothing.
pub proof fn lemma_replay_of_nothing(resident: Seq<i32>, capacity: nat)
    ensures
        replay(resident, capacity, Seq::<i32>::empty(), 0) == resident,
        count_hits(outcomes(resident, capacity, Seq::<i32>::empty())) == 0,
        count_misses(outcomes(resident, capacity, Seq::<i32>::empty())) == 0,
{
}

} // verus!
