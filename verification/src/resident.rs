//! What all policies share about their resident items: the bound that each
//! keeps, and the search for an item among them.

use std::collections::VecDeque;
use vstd::prelude::*;

verus! {

/// What every policy keeps true of its resident items: the capacity is
/// positive, no more items are resident than the capacity allows, and no item
/// is resident twice.
pub open spec fn bounded(resident: Seq<i32>, capacity: nat) -> bool {
    &&& 0 < capacity
    &&& resident.len() <= capacity
    &&& resident.no_duplicates()
}

/// An item that is resident once is found at its own index.
pub proof fn lemma_index_of_resident(resident: Seq<i32>, i: int)
    requires
        resident.no_duplicates(),
        0 <= i < resident.len(),
    ensures
        resident.index_of(resident[i]) == i,
        resident.contains(resident[i]),
{
}

/// Taking the item at index `i` out of a sequence without duplicates leaves
/// the other items, each still once.
pub proof fn lemma_remove(resident: Seq<i32>, i: int)
    requires
        resident.no_duplicates(),
        0 <= i < resident.len(),
    ensures
        resident.remove(i).no_duplicates(),
        resident.remove(i).len() == resident.len() - 1,
        forall|x: i32|
            resident.remove(i).contains(x) <==> (resident.contains(x) && x != resident[i]),
{
    let rest = resident.remove(i);
    assert forall|x: i32| rest.contains(x) implies resident.contains(x) && x != resident[i] by {
        let k = choose|k: int| 0 <= k < rest.len() && rest[k] == x;
        if k < i {
            assert(resident[k] == x);
        } else {
            assert(resident[k + 1] == x);
        }
    }
    assert forall|x: i32| resident.contains(x) && x != resident[i] implies rest.contains(x) by {
        let k = choose|k: int| 0 <= k < resident.len() && resident[k] == x;
        if k < i {
            assert(rest[k] == x);
        } else {
            assert(rest[k - 1] == x);
        }
    }
}

/// Putting a new item in front of a sequence without duplicates adds that
/// item and no duplicate.
pub proof fn lemma_push_front(resident: Seq<i32>, item: i32)
    requires
        resident.no_duplicates(),
        !resident.contains(item),
    ensures
        (seq![item] + resident).no_duplicates(),
        (seq![item] + resident).len() == resident.len() + 1,
        forall|x: i32| (seq![item] + resident).contains(x) <==> (x == item || resident.contains(x)),
{
    let next = seq![item] + resident;
    assert(next[0] == item);
    assert forall|i: int, j: int| 0 <= i < next.len() && 0 <= j < next.len() && i != j implies next[i]
        != next[j] by {
        if i > 0 {
            assert(next[i] == resident[i - 1]);
        }
        if j > 0 {
            assert(next[j] == resident[j - 1]);
        }
    }
    assert forall|x: i32| next.contains(x) implies x == item || resident.contains(x) by {
        let k = choose|k: int| 0 <= k < next.len() && next[k] == x;
        if k > 0 {
            assert(resident[k - 1] == x);
        }
    }
    assert forall|x: i32| resident.contains(x) implies next.contains(x) by {
        let k = choose|k: int| 0 <= k < resident.len() && resident[k] == x;
        assert(next[k + 1] == x);
    }
}

/// Putting a new item behind a sequence without duplicates adds that item
/// and no duplicate.
pub proof fn lemma_push_back(resident: Seq<i32>, item: i32)
    requires
        resident.no_duplicates(),
        !resident.contains(item),
    ensures
        resident.push(item).no_duplicates(),
        resident.push(item).len() == resident.len() + 1,
        forall|x: i32| resident.push(item).contains(x) <==> (x == item || resident.contains(x)),
{
    let next = resident.push(item);
    assert(next[resident.len() as int] == item);
    assert forall|x: i32| next.contains(x) implies x == item || resident.contains(x) by {
        let k = choose|k: int| 0 <= k < next.len() && next[k] == x;
        if k < resident.len() {
            assert(resident[k] == x);
        }
    }
    assert forall|x: i32| resident.contains(x) implies next.contains(x) by {
        let k = choose|k: int| 0 <= k < resident.len() && resident[k] == x;
        assert(next[k] == x);
    }
}

/// Dropping the last item of a sequence without duplicates leaves the other
/// items, each still once.
pub proof fn lemma_drop_last(resident: Seq<i32>)
    requires
        resident.no_duplicates(),
        resident.len() > 0,
    ensures
        resident.drop_last().no_duplicates(),
        resident.drop_last().len() == resident.len() - 1,
        forall|x: i32|
            resident.drop_last().contains(x) <==> (resident.contains(x) && x != resident.last()),
{
    assert(resident.drop_last() =~= resident.remove(resident.len() - 1));
    lemma_remove(resident, resident.len() - 1);
}

/// Index of the first occurrence of `val` in a queue, if it occurs at all.
pub fn deque_position(cache: &VecDeque<i32>, val: i32) -> (found: Option<usize>)
    ensures
        match found {
            Some(i) => {
                &&& i < cache@.len()
                &&& cache@[i as int] == val
                &&& forall|j: int| 0 <= j < i ==> cache@[j] != val
            },
            None => !cache@.contains(val),
        },
{
    let mut i: usize = 0;
    while i < cache.len()
        invariant
            i <= cache@.len(),
            forall|j: int| 0 <= j < i ==> cache@[j] != val,
        decreases cache@.len() - i,
    {
        if cache[i] == val {
            return Some(i);
        }
        i += 1;
    }
    None
}

/// Index of the first occurrence of `val` in a vector, if it occurs at all.
pub fn vec_position(cache: &Vec<i32>, val: i32) -> (found: Option<usize>)
    ensures
        match found {
            Some(i) => {
                &&& i < cache@.len()
                &&& cache@[i as int] == val
                &&& forall|j: int| 0 <= j < i ==> cache@[j] != val
            },
            None => !cache@.contains(val),
        },
{
    let mut i: usize = 0;
    while i < cache.len()
        invariant
            i <= cache@.len(),
            forall|j: int| 0 <= j < i ==> cache@[j] != val,
        decreases cache@.len() - i,
    {
        if cache[i] == val {
            return Some(i);
        }
        i += 1;
    }
    None
}

} // verus!
