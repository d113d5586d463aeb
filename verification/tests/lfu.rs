use cache_algos::lfu::LFUCache;

#[test]
fn lfu_evicts_the_least_frequently_used() {
    let mut cache = LFUCache::new(2).unwrap();
    assert_eq!(cache.run(&vec![vec![1, 2, 1, 3]]), (1, 3));
    // 1 was counted twice and stays, 2 was evicted.
    assert!(cache.hit(&1));
    assert!(cache.hit(&3));
    assert!(!cache.hit(&2));
}

#[test]
fn lfu_tie_evicts_the_first() {
    // 1 and 2 both have count 1: 1 stands first and leaves.
    let mut cache = LFUCache::new(2).unwrap();
    assert!(!cache.hit(&1));
    assert!(!cache.hit(&2));
    assert!(!cache.hit(&3));
    assert!(cache.hit(&2));
    assert!(!cache.hit(&1));
}

#[test]
fn lfu_new_item_starts_at_one() {
    // 3 enters with count 1 and is the next to leave, though it came last.
    let mut cache = LFUCache::new(2).unwrap();
    assert_eq!(cache.run(&vec![vec![1, 1, 2, 2, 3]]), (2, 3));
    assert!(!cache.hit(&4));
    assert!(cache.hit(&2));
    assert!(!cache.hit(&3));
}

#[test]
fn lfu_longer_trace() {
    let mut cache = LFUCache::new(2).unwrap();
    assert_eq!(cache.run(&vec![vec![1, 2, 1], vec![3, 1, 2]]), (2, 4));
    let mut cache = LFUCache::new(3).unwrap();
    assert_eq!(cache.run(&vec![vec![1, 1, 2, 2, 3, 4, 3, 1, 2]]), (4, 5));
}

#[test]
fn lfu_repeated_hits() {
    let mut cache = LFUCache::new(2).unwrap();
    assert_eq!(cache.run(&vec![vec![1, 2]]), (0, 2));
    assert_eq!(cache.run(&vec![vec![1, 1, 1, 1, 1]]), (5, 0));
    assert!(cache.hit(&2));
}

#[test]
fn lfu_empty_trace() {
    let mut cache = LFUCache::new(1).unwrap();
    assert_eq!(cache.run(&Vec::new()), (0, 0));
    assert_eq!(cache.run(&vec![vec![], vec![]]), (0, 0));
}
