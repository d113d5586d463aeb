use cache_algos::lru::LRUCache;

#[test]
fn lru_evicts_the_least_recently_used() {
    let mut cache = LRUCache::new(2).unwrap();
    assert_eq!(cache.run(&vec![vec![1, 2, 1, 3]]), (1, 3));
    // 1 and 3 are resident, 2 was evicted.
    assert!(cache.hit(&1));
    assert!(cache.hit(&3));
    assert!(!cache.hit(&2));
}

#[test]
fn lru_hit_reorders() {
    let mut cache = LRUCache::new(2).unwrap();
    assert!(!cache.hit(&1));
    assert!(!cache.hit(&2));
    assert!(cache.hit(&1));
    assert!(!cache.hit(&3));
    assert!(cache.hit(&1));
    assert!(!cache.hit(&2));
    assert!(!cache.hit(&3));
}

#[test]
fn lru_longer_trace() {
    let mut cache = LRUCache::new(3).unwrap();
    assert_eq!(cache.run(&vec![vec![1, 2], vec![3, 1, 4, 1], vec![2]]), (2, 5));
}

#[test]
fn lru_cyclic_trace_never_hits() {
    let mut cache = LRUCache::new(3).unwrap();
    assert_eq!(cache.run(&vec![vec![1, 2, 3, 4], vec![1, 2, 3, 4]]), (0, 8));
}

#[test]
fn lru_repeated_hits() {
    let mut cache = LRUCache::new(3).unwrap();
    assert_eq!(cache.run(&vec![vec![1, 2, 3]]), (0, 3));
    assert_eq!(cache.run(&vec![vec![2, 2, 2, 2]]), (4, 0));
    assert_eq!(cache.run(&vec![vec![1, 3]]), (2, 0));
}

#[test]
fn lru_empty_trace() {
    let mut cache = LRUCache::new(1).unwrap();
    assert_eq!(cache.run(&Vec::new()), (0, 0));
    assert_eq!(cache.run(&vec![vec![]]), (0, 0));
}
