//! Hit and miss counts of a replay, and the position of a batch item in the
//! trace that the batches form when laid end to end.

use vstd::prelude::*;

verus! {

/// Number of hits among the outcomes of a replay, where `true` marks a hit.
pub open spec fn count_hits(outcomes: Seq<bool>) -> nat
    decreases outcomes.len(),
{
    if outcomes.len() == 0 {
        0
    } else if outcomes.last() {
        count_hits(outcomes.drop_last()) + 1
    } else {
        count_hits(outcomes.drop_last())
    }
}

/// Number of misses among the outcomes of a replay: every access that is no hit.
pub open spec fn count_misses(outcomes: Seq<bool>) -> nat {
    (outcomes.len() - count_hits(outcomes)) as nat
}

/// Hits never outnumber accesses, so hits and misses add up to the accesses.
pub proof fn lemma_counts_add_up(outcomes: Seq<bool>)
    ensures
        count_hits(outcomes) <= outcomes.len(),
        count_hits(outcomes) + count_misses(outcomes) == outcomes.len(),
    decreases outcomes.len(),
{
    if outcomes.len() > 0 {
        lemma_counts_add_up(outcomes.drop_last());
    }
}

/// Both counts only grow while a replay goes on: a prefix of the outcomes has
/// no more hits and no more misses than the whole.
pub proof fn lemma_counts_of_prefix(outcomes: Seq<bool>, n: int)
    requires
        0 <= n <= outcomes.len(),
    ensures
        count_hits(outcomes.take(n)) <= count_hits(outcomes),
        count_misses(outcomes.take(n)) <= count_misses(outcomes),
    decreases outcomes.len(),
{
    if n == outcomes.len() {
        assert(outcomes.take(n) =~= outcomes);
    } else {
        lemma_counts_of_prefix(outcomes.drop_last(), n);
        assert(outcomes.drop_last().take(n) =~= outcomes.take(n));
        lemma_counts_add_up(outcomes.drop_last());
    }
}

/// One more outcome adds one to the count it belongs to.
pub proof fn lemma_counts_of_next(outcomes: Seq<bool>, n: int)
    requires
        0 <= n < outcomes.len(),
    ensures
        outcomes[n] ==> count_hits(outcomes.take(n + 1)) == count_hits(outcomes.take(n)) + 1
            && count_misses(outcomes.take(n + 1)) == count_misses(outcomes.take(n)),
        !outcomes[n] ==> count_hits(outcomes.take(n + 1)) == count_hits(outcomes.take(n))
            && count_misses(outcomes.take(n + 1)) == count_misses(outcomes.take(n)) + 1,
{
    assert(outcomes.take(n + 1).drop_last() =~= outcomes.take(n));
    lemma_counts_add_up(outcomes.take(n));
}

/// Number of items in the first `b` batches.
pub open spec fn offset(batches: Seq<Seq<i32>>, b: int) -> nat {
    batches.take(b).flatten().len()
}

/// Item `j` of batch `b` stands in the trace after all items of the batches
/// before it and after the first `j` items of its own batch.
pub proof fn lemma_batch_item(batches: Seq<Seq<i32>>, b: int, j: int)
    requires
        0 <= b < batches.len(),
        0 <= j < batches[b].len(),
    ensures
        offset(batches, b) + j < batches.flatten().len(),
        batches.flatten()[offset(batches, b) + j] == batches[b][j],
{
    lemma_batch_end(batches, b);
    let head = batches.take(b + 1);
    let tail = batches.skip(b + 1);
    assert(head + tail =~= batches);
    vstd::seq_lib::lemma_flatten_concat(head, tail);
    assert(head =~= batches.take(b).push(batches[b]));
    batches.take(b).lemma_flatten_push(batches[b]);
}

/// A batch ends where the next one begins.
pub proof fn lemma_batch_end(batches: Seq<Seq<i32>>, b: int)
    requires
        0 <= b < batches.len(),
    ensures
        offset(batches, b + 1) == offset(batches, b) + batches[b].len(),
{
    assert(batches.take(b + 1) =~= batches.take(b).push(batches[b]));
    batches.take(b).lemma_flatten_push(batches[b]);
}

/// The first batch begins the trace and the last one ends it.
pub proof fn lemma_batch_bounds(batches: Seq<Seq<i32>>)
    ensures
        offset(batches, 0) == 0,
        offset(batches, batches.len() as int) == batches.flatten().len(),
{
    assert(batches.take(0) =~= Seq::<Seq<i32>>::empty());
    assert(batches.take(batches.len() as int) =~= batches);
}

/// The first `b` batches hold no more items than all of them.
pub proof fn lemma_offset_bound(batches: Seq<Seq<i32>>, b: int)
    requires
        0 <= b <= batches.len(),
    ensures
        offset(batches, b) <= batches.flatten().len(),
{
    assert(batches.take(b) + batches.skip(b) =~= batches);
    vstd::seq_lib::lemma_flatten_concat(batches.take(b), batches.skip(b));
}

/// Whether the accesses of `ram`, all batches together, are few enough to be
/// counted in an `i32`. If so, both counts of a replay of `ram` fit as well.
pub fn countable(ram: &Vec<Vec<i32>>) -> (fits: bool)
    ensures
        fits == (ram.deep_view().flatten().len() <= i32::MAX),
{
    let ghost batches = ram.deep_view();
    let mut total: usize = 0;
    let mut b: usize = 0;
    proof {
        lemma_batch_bounds(batches);
    }
    while b < ram.len()
        invariant
            b <= ram.len(),
            batches == ram.deep_view(),
            total == offset(batches, b as int),
            total <= i32::MAX,
        decreases ram.len() - b,
    {
        let len = ram[b].len();
        proof {
            lemma_batch_end(batches, b as int);
            lemma_offset_bound(batches, b + 1);
        }
        if len > 0x7fff_ffff - total {
            return false;
        }
        total += len;
        b += 1;
    }
    proof {
        lemma_batch_bounds(batches);
    }
    true
}

} // verus!
