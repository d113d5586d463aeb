use cache_algos::belady::BeladyCache;
use std::collections::VecDeque;

fn future(items: &[i32]) -> VecDeque<i32> {
    items.iter().cloned().collect()
}

#[test]
fn belady_capacity_one() {
    let mut cache = BeladyCache::new(1).unwrap();
    assert_eq!(cache.run(&vec![vec![1, 2, 1]]), (0, 3));
}

#[test]
fn belady_evicts_the_one_needed_last() {
    // When 3 comes, 1 is needed next and 2 after it: 2 leaves.
    let mut cache = BeladyCache::new(2).unwrap();
    assert_eq!(cache.run(&vec![vec![1, 2, 3, 1, 2]]), (1, 4));
}

#[test]
fn belady_longer_traces() {
    let mut cache = BeladyCache::new(2).unwrap();
    assert_eq!(cache.run(&vec![vec![1, 2, 3], vec![2, 1, 3, 1]]), (3, 4));
    let mut cache = BeladyCache::new(3).unwrap();
    assert_eq!(cache.run(&vec![vec![1, 2, 3, 4, 1, 2, 5, 1, 2, 3, 4, 5]]), (5, 7));
}

#[test]
fn belady_prefers_the_one_never_needed() {
    let mut cache = BeladyCache::new(2).unwrap();
    assert!(!cache.hit(&1, &future(&[2, 3, 1, 1])));
    assert!(!cache.hit(&2, &future(&[3, 1, 1])));
    // 2 is never needed again, 1 is: 2 leaves.
    assert!(!cache.hit(&3, &future(&[1, 1])));
    assert!(cache.hit(&1, &future(&[1])));
    assert!(cache.hit(&3, &future(&[])));
    assert!(!cache.hit(&2, &future(&[])));
}

#[test]
fn belady_of_several_never_needed_the_first_leaves() {
    let mut cache = BeladyCache::new(3).unwrap();
    assert!(!cache.hit(&1, &future(&[])));
    assert!(!cache.hit(&2, &future(&[])));
    assert!(!cache.hit(&3, &future(&[])));
    assert!(!cache.hit(&4, &future(&[])));
    assert!(cache.hit(&2, &future(&[])));
    assert!(cache.hit(&3, &future(&[])));
    assert!(cache.hit(&4, &future(&[])));
    assert!(!cache.hit(&1, &future(&[])));
}

#[test]
fn belady_looks_at_the_first_occurrence() {
    // 1 occurs at 0 and again at 3, 2 occurs at 1, 3 at 2: 3 leaves.
    let mut cache = BeladyCache::new(3).unwrap();
    assert!(!cache.hit(&1, &future(&[])));
    assert!(!cache.hit(&2, &future(&[])));
    assert!(!cache.hit(&3, &future(&[])));
    assert!(!cache.hit(&4, &future(&[1, 2, 3, 1])));
    assert!(cache.hit(&1, &future(&[])));
    assert!(cache.hit(&2, &future(&[])));
    assert!(cache.hit(&4, &future(&[])));
    assert!(!cache.hit(&3, &future(&[])));
}

#[test]
fn belady_hit_changes_nothing() {
    let mut cache = BeladyCache::new(2).unwrap();
    assert_eq!(cache.run(&vec![vec![1, 2]]), (0, 2));
    assert_eq!(cache.run(&vec![vec![2, 2, 1, 2, 1, 1]]), (6, 0));
}

#[test]
fn belady_empty_trace() {
    let mut cache = BeladyCache::new(1).unwrap();
    assert_eq!(cache.run(&Vec::new()), (0, 0));
    assert_eq!(cache.run(&vec![vec![], vec![]]), (0, 0));
}
