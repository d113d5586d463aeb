//! RR (Random Replacement) cache algorithm.
//!
//! Randomly selects a candidate item and discards it to make space when necessary. This algorithm
//! does not require keeping any information about the access history.
//!
//! Which item a full cache gives up is drawn from the random source, once per eviction. The
//! policy itself is told over the slot that was drawn, so that it says what the cache holds for
//! every draw.

use crate::random::sample_index;
use crate::resident::{bounded, lemma_push_back, lemma_remove, vec_position};
use crate::stats::{
    count_hits, count_misses, lemma_batch_bounds, lemma_batch_end, lemma_batch_item,
    lemma_counts_add_up, offset,
};
use crate::CacheError;
use vstd::prelude::*;

verus! {

/// The resident items after one access to `item`, in the order of their
/// insertion, where `slot` is the index drawn for this access.
///
/// A resident item leaves the cache as it is. A new item enters at the end;
/// if the cache is full, the item at `slot` leaves first. The slot counts
/// only for an access that evicts.
pub open spec fn access(resident: Seq<i32>, capacity: nat, item: i32, slot: int) -> Seq<i32> {
    if resident.contains(item) {
        resident
    } else if resident.len() < capacity {
        resident.push(item)
    } else {
        resident.remove(slot).push(item)
    }
}

/// The resident items after the accesses of `trace`, one after the other,
/// where `slots[k]` is the index drawn for access `k`.
pub open spec fn replay(
    resident: Seq<i32>,
    capacity: nat,
    trace: Seq<i32>,
    slots: Seq<int>,
) -> Seq<i32>
    decreases trace.len(),
{
    if trace.len() == 0 {
        resident
    } else {
        access(
            replay(resident, capacity, trace.drop_last(), slots),
            capacity,
            trace.last(),
            slots[trace.len() - 1],
        )
    }
}

/// For each access of `trace`, whether it is a hit: whether its item is
/// resident after the accesses before it.
pub open spec fn outcomes(
    resident: Seq<i32>,
    capacity: nat,
    trace: Seq<i32>,
    slots: Seq<int>,
) -> Seq<bool> {
    Seq::new(
        trace.len(),
        |k: int| replay(resident, capacity, trace.take(k), slots).contains(trace[k]),
    )
}

/// Whether `slots` can have been drawn for a trace of `len` accesses: one
/// slot for each access, each of them an index into a full cache.
pub open spec fn drawn(slots: Seq<int>, capacity: nat, len: nat) -> bool {
    &&& slots.len() == len
    &&& forall|k: int| 0 <= k < slots.len() ==> 0 <= #[trigger] slots[k] < capacity
}

/// Implementation cache, based on a RR algorithm.
pub struct RRCache {
    cache: Vec<i32>,
    size: usize,
}

impl View for RRCache {
    type V = Seq<i32>;

    /// The resident items, in the order of their insertion.
    closed spec fn view(&self) -> Seq<i32> {
        self.cache@
    }
}

impl RRCache {
    /// The number of items that the cache holds at most.
    pub closed spec fn capacity(&self) -> nat {
        self.size as nat
    }

    /// The cache is within its capacity and holds no item twice.
    pub open spec fn wf(&self) -> bool {
        bounded(self@, self.capacity())
    }

    /// Create new cache with fix size. A cache of size zero is refused.
    pub fn new(size: usize) -> (made: Result<Self, CacheError>)
        ensures
            size == 0 <==> made is Err,
            made matches Ok(cache) ==> cache.wf() && cache@ == Seq::<i32>::empty() && cache.capacity() == size,
            made matches Err(error) ==> error == CacheError::ZeroCapacity,
    {
        if size == 0 {
            return Err(CacheError::ZeroCapacity);
        }
        Ok(RRCache { cache: Vec::with_capacity(size), size: size })
    }

    /// Checks the cache to find element. If the cache don't have element, checks the cache size
    /// and removes random element for pushing new element.
    ///
    /// Return `true`, if the cache have element and `false` otherwise.
    pub fn hit(&mut self, val: &i32, rng: &mut rand::ThreadRng) -> (found: bool)
        requires
            old(self).wf(),
        ensures
            found == old(self)@.contains(*val),
            final(self)@.contains(*val),
            exists|slot: int|
                0 <= slot < old(self).capacity() && final(self)@ == #[trigger] access(
                    old(self)@,
                    old(self).capacity(),
                    *val,
                    slot,
                ),
            final(self).capacity() == old(self).capacity(),
            final(self).wf(),
            final(self)@.len() <= final(self).capacity(),
    {
        if vec_position(&self.cache, *val).is_some() {
            assert(self@ == access(old(self)@, old(self).capacity(), *val, 0));
            true
        } else {
            if self.cache.len() < self.size {
                proof {
                    lemma_push_back(self@, *val);
                }
                self.cache.push(*val);
                assert(self@ == access(old(self)@, old(self).capacity(), *val, 0));
            } else {
                let random_index = sample_index(rng, self.size);
                self.replace(random_index, *val);
                assert(self@ == access(
                    old(self)@,
                    old(self).capacity(),
                    *val,
                    random_index as int,
                ));
            }
            false
        }
    }

    /// A miss on a full cache, with the slot to evict already drawn: the item at `slot`
    /// leaves, and `val` enters at the end.
    pub fn replace(&mut self, slot: usize, val: i32)
        requires
            old(self).wf(),
            !old(self)@.contains(val),
            old(self)@.len() == old(self).capacity(),
            slot < old(self).capacity(),
        ensures
            final(self)@ == old(self)@.remove(slot as int).push(val),
            final(self)@ == access(old(self)@, old(self).capacity(), val, slot as int),
            final(self)@.contains(val),
            final(self).capacity() == old(self).capacity(),
            final(self).wf(),
            final(self)@.len() <= final(self).capacity(),
    {
        proof {
            lemma_remove(self@, slot as int);
            lemma_push_back(self@.remove(slot as int), val);
        }
        self.cache.remove(slot);
        self.cache.push(val);
    }

    /// Run process of checking algorithm.
    ///
    /// Return tuple with statistic: `(cache hit, cache miss)`.
    pub fn run(&mut self, ram: &Vec<Vec<i32>>) -> (statistic: (i32, i32))
        requires
            old(self).wf(),
            ram.deep_view().flatten().len() <= i32::MAX,
        ensures
            exists|slots: Seq<int>|
                {
                    &&& drawn(slots, old(self).capacity(), ram.deep_view().flatten().len())
                    &&& final(self)@ == #[trigger] replay(
                        old(self)@,
                        old(self).capacity(),
                        ram.deep_view().flatten(),
                        slots,
                    )
                    &&& statistic.0 == count_hits(
                        outcomes(
                            old(self)@,
                            old(self).capacity(),
                            ram.deep_view().flatten(),
                            slots,
                        ),
                    )
                    &&& statistic.1 == count_misses(
                        outcomes(
                            old(self)@,
                            old(self).capacity(),
                            ram.deep_view().flatten(),
                            slots,
                        ),
                    )
                },
            statistic.0 + statistic.1 == ram.deep_view().flatten().len(),
            0 <= statistic.0,
            0 <= statistic.1,
            ram.deep_view().flatten().len() == 0 ==> statistic == (0i32, 0i32) && final(self)@
                == old(self)@,
            final(self).capacity() == old(self).capacity(),
            final(self).wf(),
            final(self)@.len() <= final(self).capacity(),
    {
        let ghost start = self@;
        let ghost capacity = self.capacity();
        let ghost batches = ram.deep_view();
        let ghost trace = batches.flatten();
        let ghost mut slots: Seq<int> = Seq::empty();
        let mut hits: i32 = 0;
        let mut misses: i32 = 0;
        let mut rng = rand::thread_rng();
        let mut b: usize = 0;
        proof {
            lemma_batch_bounds(batches);
            assert(trace.take(0) =~= Seq::<i32>::empty());
            assert(outcomes(start, capacity, trace.take(0), slots) =~= Seq::<bool>::empty());
        }
        while b < ram.len()
            invariant
                b <= ram.len(),
                batches == ram.deep_view(),
                trace == batches.flatten(),
                trace.len() <= i32::MAX,
                self.wf(),
                self.capacity() == capacity,
                offset(batches, b as int) <= trace.len(),
                drawn(slots, capacity, offset(batches, b as int)),
                self@ == replay(start, capacity, trace.take(offset(batches, b as int) as int), slots),
                hits == count_hits(
                    outcomes(start, capacity, trace.take(offset(batches, b as int) as int), slots),
                ),
                misses == count_misses(
                    outcomes(start, capacity, trace.take(offset(batches, b as int) as int), slots),
                ),
            decreases ram.len() - b,
        {
            let batch = &ram[b];
            let mut j: usize = 0;
            while j < batch.len()
                invariant
                    b < ram.len(),
                    j <= batch.len(),
                    batch == &ram[b as int],
                    batches == ram.deep_view(),
                    trace == batches.flatten(),
                    trace.len() <= i32::MAX,
                    self.wf(),
                    self.capacity() == capacity,
                    offset(batches, b as int) + j <= trace.len(),
                    drawn(slots, capacity, (offset(batches, b as int) + j) as nat),
                    self@ == replay(start, capacity, trace.take(offset(batches, b as int) + j), slots),
                    hits == count_hits(
                        outcomes(start, capacity, trace.take(offset(batches, b as int) + j), slots),
                    ),
                    misses == count_misses(
                        outcomes(start, capacity, trace.take(offset(batches, b as int) + j), slots),
                    ),
                decreases batch.len() - j,
            {
                let ghost n = offset(batches, b as int) + j;
                let ghost before = self@;
                proof {
                    lemma_batch_item(batches, b as int, j as int);
                    lemma_counts_add_up(outcomes(start, capacity, trace.take(n), slots));
                }
                let found = self.hit(&batch[j], &mut rng);
                proof {
                    let slot = choose|slot: int|
                        0 <= slot < capacity && self@ == #[trigger] access(
                            before,
                            capacity,
                            trace[n],
                            slot,
                        );
                    lemma_replay_next(start, capacity, trace, slots, n, slot);
                    slots = slots.push(slot);
                }
                if found {
                    hits += 1;
                } else {
                    misses += 1;
                }
                j += 1;
            }
            proof {
                lemma_batch_end(batches, b as int);
            }
            b += 1;
        }
        proof {
            lemma_batch_bounds(batches);
            assert(trace.take(trace.len() as int) =~= trace);
            lemma_counts_add_up(outcomes(start, capacity, trace, slots));
        }
        (hits, misses)
    }
}

/// An access keeps the cache within its capacity and free of duplicates,
/// whichever slot was drawn for it, and leaves the accessed item resident. An
/// access to a resident item leaves the cache as it is.
pub proof fn lemma_access_bounded(resident: Seq<i32>, capacity: nat, item: i32, slot: int)
    requires
        bounded(resident, capacity),
        0 <= slot < capacity,
    ensures
        bounded(access(resident, capacity, item, slot), capacity),
        access(resident, capacity, item, slot).contains(item),
        resident.contains(item) ==> access(resident, capacity, item, slot) == resident,
{
    if resident.contains(item) {
    } else if resident.len() < capacity {
        lemma_push_back(resident, item);
    } else {
        lemma_remove(resident, slot);
        lemma_push_back(resident.remove(slot), item);
    }
}

/// A replay reads one slot for each access and none beyond: two sequences of
/// slots that agree on those give the same replay.
pub proof fn lemma_replay_reads_prefix(
    resident: Seq<i32>,
    capacity: nat,
    trace: Seq<i32>,
    slots: Seq<int>,
    others: Seq<int>,
)
    requires
        forall|k: int| 0 <= k < trace.len() ==> slots[k] == others[k],
    ensures
        replay(resident, capacity, trace, slots) == replay(resident, capacity, trace, others),
    decreases trace.len(),
{
    if trace.len() > 0 {
        lemma_replay_reads_prefix(resident, capacity, trace.drop_last(), slots, others);
    }
}

/// The replay of one more access, for which `slot` was drawn, is one access
/// on the replay so far, and its outcome joins the outcomes so far.
proof fn lemma_replay_next(
    resident: Seq<i32>,
    capacity: nat,
    trace: Seq<i32>,
    slots: Seq<int>,
    n: int,
    slot: int,
)
    requires
        0 <= n < trace.len(),
        slots.len() == n,
    ensures
        replay(resident, capacity, trace.take(n + 1), slots.push(slot)) == access(
            replay(resident, capacity, trace.take(n), slots),
            capacity,
            trace[n],
            slot,
        ),
        outcomes(resident, capacity, trace.take(n + 1), slots.push(slot)) == outcomes(
            resident,
            capacity,
            trace.take(n),
            slots,
        ).push(replay(resident, capacity, trace.take(n), slots).contains(trace[n])),
        count_hits(outcomes(resident, capacity, trace.take(n + 1), slots.push(slot)))
            == count_hits(outcomes(resident, capacity, trace.take(n), slots)) + if replay(
            resident,
            capacity,
            trace.take(n),
            slots,
        ).contains(trace[n]) {
            1int
        } else {
            0int
        },
{
    let more = slots.push(slot);
    assert(trace.take(n + 1).drop_last() =~= trace.take(n));
    lemma_replay_reads_prefix(resident, capacity, trace.take(n), slots, more);
    let longer = outcomes(resident, capacity, trace.take(n + 1), more);
    let shorter = outcomes(resident, capacity, trace.take(n), slots);
    assert forall|k: int| 0 <= k < n implies longer[k] == shorter[k] by {
        assert(trace.take(n + 1).take(k) =~= trace.take(k));
        assert(trace.take(n).take(k) =~= trace.take(k));
        lemma_replay_reads_prefix(resident, capacity, trace.take(k), slots, more);
    }
    assert(trace.take(n + 1).take(n) =~= trace.take(n));
    assert(longer =~= shorter.push(
        replay(resident, capacity, trace.take(n), slots).contains(trace[n]),
    ));
    assert(longer.drop_last() =~= shorter);
}

/// However many accesses are replayed and whichever slots are drawn for
/// them, the cache stays within its capacity and holds no item twice.
pub proof fn lemma_replay_bounded(
    resident: Seq<i32>,
    capacity: nat,
    trace: Seq<i32>,
    slots: Seq<int>,
)
    requires
        bounded(resident, capacity),
        drawn(slots, capacity, trace.len()),
    ensures
        bounded(replay(resident, capacity, trace, slots), capacity),
        replay(resident, capacity, trace, slots).len() <= capacity,
    decreases trace.len(),
{
    if trace.len() > 0 {
        lemma_replay_reads_prefix(
            resident,
            capacity,
            trace.drop_last(),
            slots,
            slots.drop_last(),
        );
        lemma_replay_bounded(resident, capacity, trace.drop_last(), slots.drop_last());
        lemma_access_bounded(
            replay(resident, capacity, trace.drop_last(), slots),
            capacity,
            trace.last(),
            slots[trace.len() - 1],
        );
    }
}

/// An item is resident right after its access, whichever slot was drawn for
/// it, so a second access to it that follows at once is a hit.
pub proof fn lemma_repeat_is_hit(resident: Seq<i32>, capacity: nat, item: i32, slots: Seq<int>)
    requires
        bounded(resident, capacity),
        drawn(slots, capacity, 2),
    ensures
        access(resident, capacity, item, slots[0]).contains(item),
        outcomes(resident, capacity, seq![item, item], slots)[1],
{
    let twice = seq![item, item];
    lemma_access_bounded(resident, capacity, item, slots[0]);
    assert(twice.take(1).drop_last() =~= Seq::<i32>::empty());
    assert(replay(resident, capacity, twice.take(1), slots) == access(
        resident,
        capacity,
        item,
        slots[0],
    )) by {
        assert(replay(resident, capacity, twice.take(1).drop_last(), slots) == resident);
    }
}

/// Accesses to one resident item, however many, are all hits, draw nothing
/// and leave the cache as it is.
pub proof fn lemma_repeated_hits_keep_size(
    resident: Seq<i32>,
    capacity: nat,
    item: i32,
    trace: Seq<i32>,
    slots: Seq<int>,
)
    requires
        bounded(resident, capacity),
        resident.contains(item),
        forall|k: int| 0 <= k < trace.len() ==> trace[k] == item,
    ensures
        replay(resident, capacity, trace, slots).len() == resident.len(),
        replay(resident, capacity, trace, slots) == resident,
        forall|k: int| 0 <= k < trace.len() ==> outcomes(resident, capacity, trace, slots)[k],
    decreases trace.len(),
{
    if trace.len() > 0 {
        lemma_repeated_hits_keep_size(resident, capacity, item, trace.drop_last(), slots);
    }
    assert forall|k: int| 0 <= k < trace.len() implies outcomes(
        resident,
        capacity,
        trace,
        slots,
    )[k] by {
        lemma_repeated_hits_keep_size(resident, capacity, item, trace.take(k), slots);
    }
}

/// The replay of an empty trace changes nothing and counts nothing.
pub proof fn lemma_replay_of_nothing(resident: Seq<i32>, capacity: nat, slots: Seq<int>)
    ensures
        replay(resident, capacity, Seq::<i32>::empty(), slots) == resident,
        count_hits(outcomes(resident, capacity, Seq::<i32>::empty(), slots)) == 0,
        count_misses(outcomes(resident, capacity, Seq::<i32>::empty(), slots)) == 0,
{
}

} // verus!
