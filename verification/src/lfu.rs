//! LFU (Least-Frequently Used) cache algorithm.
//!
//! Counts how often an item is needed. Those that are used least often are discarded first.

use crate::resident::{bounded, lemma_index_of_resident, lemma_push_back, lemma_remove};
use crate::stats::{
    count_hits, count_misses, lemma_batch_bounds, lemma_batch_end, lemma_batch_item,
    lemma_counts_of_next, lemma_counts_of_prefix, offset,
};
use crate::CacheError;
use vstd::prelude::*;

verus! {

/// The resident items without their counts, in the order of their insertion.
pub open spec fn items(resident: Seq<(i32, nat)>) -> Seq<i32> {
    Seq::new(resident.len(), |i: int| resident[i].0)
}

/// How often `item` has been accessed since it became resident; zero if it is
/// not resident.
pub open spec fn count_of(resident: Seq<(i32, nat)>, item: i32) -> nat {
    if items(resident).contains(item) {
        resident[items(resident).index_of(item)].1
    } else {
        0
    }
}

/// Whether the entry at index `v` is the one to evict: no entry has a smaller
/// count, and every entry before it has a greater one.
pub open spec fn is_victim(resident: Seq<(i32, nat)>, v: int) -> bool {
    &&& 0 <= v < resident.len()
    &&& forall|j: int| 0 <= j < resident.len() ==> resident[v].1 <= (#[trigger] resident[j]).1
    &&& forall|j: int| 0 <= j < v ==> resident[v].1 < (#[trigger] resident[j]).1
}

/// The index of the entry to evict: the first of those with the least count.
pub open spec fn victim(resident: Seq<(i32, nat)>) -> int {
    choose|v: int| is_victim(resident, v)
}

/// The resident items and their counts after one access to `item`.
///
/// A resident item counts one access more. A new item enters at the end with
/// a count of one; if the cache is full, the victim leaves first.
pub open spec fn access(resident: Seq<(i32, nat)>, capacity: nat, item: i32) -> Seq<(i32, nat)> {
    if items(resident).contains(item) {
        let i = items(resident).index_of(item);
        resident.update(i, (item, resident[i].1 + 1))
    } else if resident.len() < capacity {
        resident.push((item, 1))
    } else {
        resident.remove(victim(resident)).push((item, 1))
    }
}

/// The resident items and their counts after the accesses of `trace`, one
/// after the other.
pub open spec fn replay(resident: Seq<(i32, nat)>, capacity: nat, trace: Seq<i32>) -> Seq<
    (i32, nat),
>
    decreases trace.len(),
{
    if trace.len() == 0 {
        resident
    } else {
        access(replay(resident, capacity, trace.drop_last()), capacity, trace.last())
    }
}

/// For each access of `trace`, whether it is a hit: whether its item is
/// resident after the accesses before it.
pub open spec fn outcomes(resident: Seq<(i32, nat)>, capacity: nat, trace: Seq<i32>) -> Seq<bool> {
    Seq::new(
        trace.len(),
        |k: int| items(replay(resident, capacity, trace.take(k))).contains(trace[k]),
    )
}

/// Whether every count stays within `usize` while `trace` is replayed: each
/// access finds a count that can still grow by one.
pub open spec fn counts_fit(resident: Seq<(i32, nat)>, capacity: nat, trace: Seq<i32>) -> bool {
    forall|k: int|
        0 <= k < trace.len() ==> #[trigger] count_of(
            replay(resident, capacity, trace.take(k)),
            trace[k],
        ) < usize::MAX
}

/// The cache is within its capacity, holds no item twice, and every resident
/// item has been accessed at least once.
pub open spec fn counted(resident: Seq<(i32, nat)>, capacity: nat) -> bool {
    &&& bounded(items(resident), capacity)
    &&& forall|i: int| 0 <= i < resident.len() ==> (#[trigger] resident[i]).1 >= 1
}

/// Implementation cache, based on a LFU algorithm.
pub struct LFUCache {
    cache: Vec<(i32, usize)>,
    size: usize,
}

impl View for LFUCache {
    type V = Seq<(i32, nat)>;

    /// The resident items with their counts, in the order of their insertion.
    closed spec fn view(&self) -> Seq<(i32, nat)> {
        Seq::new(self.cache@.len(), |i: int| (self.cache@[i].0, self.cache@[i].1 as nat))
    }
}

impl LFUCache {
    /// The number of items that the cache holds at most.
    pub closed spec fn capacity(&self) -> nat {
        self.size as nat
    }

    /// The cache is within its capacity, holds no item twice, and has counted
    /// every resident item at least once.
    pub open spec fn wf(&self) -> bool {
        counted(self@, self.capacity())
    }

    /// Create new cache with fix size. A cache of size zero is refused.
    pub fn new(size: usize) -> (made: Result<Self, CacheError>)
        ensures
            size == 0 <==> made is Err,
            made matches Ok(cache) ==> cache.wf() && cache@ == Seq::<(i32, nat)>::empty() && cache.capacity() == size,
            made matches Err(error) ==> error == CacheError::ZeroCapacity,
    {
        if size == 0 {
            return Err(CacheError::ZeroCapacity);
        }
        Ok(LFUCache { cache: Vec::with_capacity(size), size: size })
    }

    /// Checks the cache to find element. If the cache don't have element, checks the cache size
    /// and removes old element for pushing new element.
    ///
    /// Return `true`, if the cache have element and `false` otherwise.
    pub fn hit(&mut self, val: &i32) -> (found: bool)
        requires
            old(self).wf(),
            count_of(old(self)@, *val) < usize::MAX,
        ensures
            found == items(old(self)@).contains(*val),
            items(final(self)@).contains(*val),
            final(self)@ == access(old(self)@, old(self).capacity(), *val),
            final(self).capacity() == old(self).capacity(),
            final(self).wf(),
            final(self)@.len() <= final(self).capacity(),
    {
        proof {
            lemma_access_counted(self@, self.capacity(), *val);
        }
        if let Some(pos) = position(&self.cache, *val) {
            proof {
                lemma_index_of_resident(items(self@), pos as int);
            }
            self.cache[pos].1 += 1;
            assert(self@ =~= access(old(self)@, old(self).capacity(), *val));
            true
        } else {
            if self.cache.len() < self.size {
                self.cache.push((*val, 1));
            } else {
                let elem = least_used(&self.cache);
                proof {
                    lemma_victim_is_unique(self@, elem as int);
                }
                self.cache.remove(elem);
                self.cache.push((*val, 1));
            }
            assert(self@ =~= access(old(self)@, old(self).capacity(), *val));
            false
        }
    }

    /// Run process of checking algorithm.
    ///
    /// Return tuple with statistic: `(cache hit, cache miss)`.
    pub fn run(&mut self, ram: &Vec<Vec<i32>>) -> (statistic: (i32, i32))
        requires
            old(self).wf(),
            counts_fit(old(self)@, old(self).capacity(), ram.deep_view().flatten()),
            count_hits(outcomes(old(self)@, old(self).capacity(), ram.deep_view().flatten()))
                <= i32::MAX,
            count_misses(outcomes(old(self)@, old(self).capacity(), ram.deep_view().flatten()))
                <= i32::MAX,
        ensures
            final(self)@ == replay(old(self)@, old(self).capacity(), ram.deep_view().flatten()),
            statistic.0 == count_hits(
                outcomes(old(self)@, old(self).capacity(), ram.deep_view().flatten()),
            ),
            statistic.1 == count_misses(
                outcomes(old(self)@, old(self).capacity(), ram.deep_view().flatten()),
            ),
            ram.deep_view().flatten().len() == 0 ==> statistic == (0i32, 0i32),
            final(self).capacity() == old(self).capacity(),
            final(self).wf(),
            final(self)@.len() <= final(self).capacity(),
    {
        let ghost start = self@;
        let ghost capacity = self.capacity();
        let ghost batches = ram.deep_view();
        let ghost trace = batches.flatten();
        let ghost all = outcomes(start, capacity, trace);
        let mut hits: i32 = 0;
        let mut misses: i32 = 0;
        let mut b: usize = 0;
        proof {
            lemma_batch_bounds(batches);
            assert(trace.take(0) =~= Seq::<i32>::empty());
            assert(all.take(0) =~= Seq::<bool>::empty());
        }
        while b < ram.len()
            invariant
                b <= ram.len(),
                batches == ram.deep_view(),
                trace == batches.flatten(),
                all == outcomes(start, capacity, trace),
                self.wf(),
                self.capacity() == capacity,
                offset(batches, b as int) <= trace.len(),
                self@ == replay(start, capacity, trace.take(offset(batches, b as int) as int)),
                hits == count_hits(all.take(offset(batches, b as int) as int)),
                misses == count_misses(all.take(offset(batches, b as int) as int)),
                counts_fit(start, capacity, trace),
                count_hits(all) <= i32::MAX,
                count_misses(all) <= i32::MAX,
            decreases ram.len() - b,
        {
            let batch = &ram[b];
            let mut j: usize = 0;
            while j < batch.len()
                invariant
                    b < ram.len(),
                    j <= batch.len(),
                    batch == &ram[b as int],
                    batches == ram.deep_view(),
                    trace == batches.flatten(),
                    all == outcomes(start, capacity, trace),
                    self.wf(),
                    self.capacity() == capacity,
                    offset(batches, b as int) + j <= trace.len(),
                    self@ == replay(start, capacity, trace.take(offset(batches, b as int) + j)),
                    hits == count_hits(all.take(offset(batches, b as int) + j)),
                    misses == count_misses(all.take(offset(batches, b as int) + j)),
                    counts_fit(start, capacity, trace),
                    count_hits(all) <= i32::MAX,
                    count_misses(all) <= i32::MAX,
                decreases batch.len() - j,
            {
                let ghost n = offset(batches, b as int) + j;
                proof {
                    lemma_batch_item(batches, b as int, j as int);
                    lemma_replay_next(start, capacity, trace, n);
                    lemma_counts_of_next(all, n);
                    lemma_counts_of_prefix(all, n + 1);
                    assert(count_of(replay(start, capacity, trace.take(n)), trace[n]) < usize::MAX);
                }
                if self.hit(&batch[j]) {
                    hits += 1;
                } else {
                    misses += 1;
                }
                j += 1;
            }
            proof {
                lemma_batch_end(batches, b as int);
            }
            b += 1;
        }
        proof {
            lemma_batch_bounds(batches);
            assert(trace.take(trace.len() as int) =~= trace);
            assert(all.take(trace.len() as int) =~= all);
        }
        (hits, misses)
    }
}

/// Index of the entry of `val`, if `val` has one.
fn position(cache: &Vec<(i32, usize)>, val: i32) -> (found: Option<usize>)
    ensures
        match found {
            Some(i) => i < cache@.len() && cache@[i as int].0 == val,
            None => forall|j: int| 0 <= j < cache@.len() ==> cache@[j].0 != val,
        },
{
    let mut i: usize = 0;
    while i < cache.len()
        invariant
            i <= cache@.len(),
            forall|j: int| 0 <= j < i ==> cache@[j].0 != val,
        decreases cache@.len() - i,
    {
        if cache[i].0 == val {
            return Some(i);
        }
        i += 1;
    }
    None
}

/// Index of the first entry with the least count.
fn least_used(cache: &Vec<(i32, usize)>) -> (least: usize)
    requires
        cache@.len() > 0,
    ensures
        least < cache@.len(),
        forall|j: int| 0 <= j < cache@.len() ==> cache@[least as int].1 <= cache@[j].1,
        forall|j: int| 0 <= j < least ==> cache@[least as int].1 < cache@[j].1,
{
    let mut least: usize = 0;
    let mut i: usize = 1;
    while i < cache.len()
        invariant
            least < i <= cache@.len(),
            forall|j: int| 0 <= j < i ==> cache@[least as int].1 <= cache@[j].1,
            forall|j: int| 0 <= j < least ==> cache@[least as int].1 < cache@[j].1,
        decreases cache@.len() - i,
    {
        if cache[i].1 < cache[least].1 {
            least = i;
        }
        i += 1;
    }
    least
}

/// Only one entry can be the victim.
pub proof fn lemma_victim_is_unique(resident: Seq<(i32, nat)>, v: int)
    requires
        is_victim(resident, v),
    ensures
        victim(resident) == v,
{
    let w = victim(resident);
    assert(is_victim(resident, w));
    if w < v {
        assert(resident[v].1 < resident[w].1);
        assert(resident[w].1 <= resident[v].1);
    }
    if v < w {
        assert(resident[w].1 < resident[v].1);
        assert(resident[v].1 <= resident[w].1);
    }
}

/// A cache that is not empty has a victim.
pub proof fn lemma_victim_exists(resident: Seq<(i32, nat)>)
    requires
        resident.len() > 0,
    ensures
        is_victim(resident, victim(resident)),
    decreases resident.len(),
{
    if resident.len() == 1 {
        assert(is_victim(resident, 0));
    } else {
        let front = resident.drop_last();
        lemma_victim_exists(front);
        let v = victim(front);
        if resident.last().1 < front[v].1 {
            assert(is_victim(resident, resident.len() - 1)) by {
                assert forall|j: int| 0 <= j < resident.len() - 1 implies resident.last().1 < (
                #[trigger] resident[j]).1 by {
                    assert(front[v].1 <= front[j].1);
                }
            }
        } else {
            assert(is_victim(resident, v)) by {
                assert forall|j: int| 0 <= j < resident.len() implies resident[v].1 <= (
                #[trigger] resident[j]).1 by {
                    if j < front.len() {
                        assert(front[v].1 <= front[j].1);
                    }
                }
                assert forall|j: int| 0 <= j < v implies resident[v].1 < (#[trigger] resident[j]).1 by {
                    assert(front[v].1 < front[j].1);
                }
            }
        }
    }
}

/// An access keeps the cache within its capacity and free of duplicates, and
/// leaves the accessed item resident. An access to a resident item leaves the
/// number of resident items as it is.
pub proof fn lemma_access_counted(resident: Seq<(i32, nat)>, capacity: nat, item: i32)
    requires
        counted(resident, capacity),
    ensures
        counted(access(resident, capacity, item), capacity),
        items(access(resident, capacity, item)).contains(item),
        items(resident).contains(item) ==> access(resident, capacity, item).len()
            == resident.len(),
{
    let next = access(resident, capacity, item);
    if items(resident).contains(item) {
        let i = items(resident).index_of(item);
        assert(items(next) =~= items(resident));
    } else if resident.len() < capacity {
        assert(items(next) =~= items(resident).push(item));
        lemma_push_back(items(resident), item);
    } else {
        lemma_victim_exists(resident);
        let v = victim(resident);
        let rest = resident.remove(v);
        assert(items(rest) =~= items(resident).remove(v));
        lemma_remove(items(resident), v);
        assert(items(next) =~= items(rest).push(item));
        lemma_push_back(items(rest), item);
    }
}

/// The replay of one more access is one access on the replay so far.
proof fn lemma_replay_next(resident: Seq<(i32, nat)>, capacity: nat, trace: Seq<i32>, n: int)
    requires
        0 <= n < trace.len(),
    ensures
        replay(resident, capacity, trace.take(n + 1)) == access(
            replay(resident, capacity, trace.take(n)),
            capacity,
            trace[n],
        ),
        outcomes(resident, capacity, trace)[n] == items(
            replay(resident, capacity, trace.take(n)),
        ).contains(trace[n]),
{
    assert(trace.take(n + 1).drop_last() =~= trace.take(n));
}

/// However many accesses are replayed, the cache stays within its capacity
/// and holds no item twice.
pub proof fn lemma_replay_counted(resident: Seq<(i32, nat)>, capacity: nat, trace: Seq<i32>)
    requires
        counted(resident, capacity),
    ensures
        counted(replay(resident, capacity, trace), capacity),
        replay(resident, capacity, trace).len() <= capacity,
    decreases trace.len(),
{
    if trace.len() > 0 {
        lemma_replay_counted(resident, capacity, trace.drop_last());
        lemma_access_counted(
            replay(resident, capacity, trace.drop_last()),
            capacity,
            trace.last(),
        );
    }
}

/// An item is resident right after its access, so a second access to it that
/// follows at once is a hit.
pub proof fn lemma_repeat_is_hit(resident: Seq<(i32, nat)>, capacity: nat, item: i32)
    requires
        counted(resident, capacity),
    ensures
        items(access(resident, capacity, item)).contains(item),
        outcomes(resident, capacity, seq![item, item])[1],
{
    let twice = seq![item, item];
    lemma_access_counted(resident, capacity, item);
    assert(twice.take(1).drop_last() =~= Seq::<i32>::empty());
    assert(replay(resident, capacity, twice.take(1)) == access(resident, capacity, item)) by {
        assert(replay(resident, capacity, twice.take(1).drop_last()) == resident);
    }
}

/// Accesses to one resident item, however many, are all hits and leave the
/// number of resident items as it is.
pub proof fn lemma_repeated_hits_keep_size(
    resident: Seq<(i32, nat)>,
    capacity: nat,
    item: i32,
    trace: Seq<i32>,
)
    requires
        counted(resident, capacity),
        items(resident).contains(item),
        forall|k: int| 0 <= k < trace.len() ==> trace[k] == item,
    ensures
        replay(resident, capacity, trace).len() == resident.len(),
        items(replay(resident, capacity, trace)).contains(item),
        counted(replay(resident, capacity, trace), capacity),
        forall|k: int| 0 <= k < trace.len() ==> outcomes(resident, capacity, trace)[k],
    decreases trace.len(),
{
    if trace.len() > 0 {
        lemma_repeated_hits_keep_size(resident, capacity, item, trace.drop_last());
        lemma_access_counted(replay(resident, capacity, trace.drop_last()), capacity, item);
    }
    assert forall|k: int| 0 <= k < trace.len() implies outcomes(resident, capacity, trace)[k] by {
        lemma_repeated_hits_keep_size(resident, capacity, item, trace.take(k));
    }
}

/// The replay of an empty trace changes nothing and counts nothing.
pub proof fn lemma_replay_of_nothing(resident: Seq<(i32, nat)>, capacity: nat)
    ensures
        replay(resident, capacity, Seq::<i32>::empty()) == resident,
        count_hits(outcomes(resident, capacity, Seq::<i32>::empty())) == 0,
        count_misses(outcomes(resident, capacity, Seq::<i32>::empty())) == 0,
{
}

/// A count grows by one per access at most: counts that start at or below
/// `bound` are at or below `bound` plus the number of accesses replayed.
pub proof fn lemma_counts_grow(
    resident: Seq<(i32, nat)>,
    capacity: nat,
    trace: Seq<i32>,
    bound: nat,
)
    requires
        counted(resident, capacity),
        forall|i: int| 0 <= i < resident.len() ==> (#[trigger] resident[i]).1 <= bound,
    ensures
        forall|i: int|
            0 <= i < replay(resident, capacity, trace).len() ==> (#[trigger] replay(
                resident,
                capacity,
                trace,
            )[i]).1 <= bound + trace.len(),
    decreases trace.len(),
{
    if trace.len() > 0 {
        let before = replay(resident, capacity, trace.drop_last());
        let after = replay(resident, capacity, trace);
        lemma_counts_grow(resident, capacity, trace.drop_last(), bound);
        lemma_replay_counted(resident, capacity, trace.drop_last());
        if !items(before).contains(trace.last()) && before.len() >= capacity {
            lemma_victim_exists(before);
        }
        assert forall|i: int| 0 <= i < after.len() implies (#[trigger] after[i]).1 <= bound
            + trace.len() by {
            if items(before).contains(trace.last()) {
                assert(after[i].1 <= before[i].1 + 1);
            } else if before.len() < capacity {
                if i < before.len() {
                    assert(after[i] == before[i]);
                }
            } else {
                let rest = before.remove(victim(before));
                if i < rest.len() {
                    assert(after[i] == rest[i]);
                    if i < victim(before) {
                        assert(rest[i] == before[i]);
                    } else {
                        assert(rest[i] == before[i + 1]);
                    }
                }
            }
        }
    }
}

/// Counts that leave room for as many accesses as `trace` has stay within
/// `usize` while it is replayed.
pub proof fn lemma_counts_fit(
    resident: Seq<(i32, nat)>,
    capacity: nat,
    trace: Seq<i32>,
    bound: nat,
)
    requires
        counted(resident, capacity),
        forall|i: int| 0 <= i < resident.len() ==> (#[trigger] resident[i]).1 <= bound,
        bound + trace.len() <= usize::MAX,
    ensures
        counts_fit(resident, capacity, trace),
{
    assert forall|k: int| 0 <= k < trace.len() implies #[trigger] count_of(
        replay(resident, capacity, trace.take(k)),
        trace[k],
    ) < usize::MAX by {
        let before = replay(resident, capacity, trace.take(k));
        lemma_counts_grow(resident, capacity, trace.take(k), bound);
        if items(before).contains(trace[k]) {
            let i = items(before).index_of(trace[k]);
            assert(before[i].1 <= bound + k);
        }
    }
}

} // verus!
