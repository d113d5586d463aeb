use cache_algos::mru::MRUCache;

#[test]
fn mru_evicts_the_most_recently_used() {
    let mut cache = MRUCache::new(2).unwrap();
    assert_eq!(cache.run(&vec![vec![1, 2, 3, 1]]), (1, 3));
    // 2 was the most recently used when 3 came.
    assert!(cache.hit(&3));
    assert!(!cache.hit(&2));
}

#[test]
fn mru_hit_makes_most_recent() {
    let mut cache = MRUCache::new(2).unwrap();
    assert!(!cache.hit(&1));
    assert!(!cache.hit(&2));
    assert!(cache.hit(&1));
    assert!(!cache.hit(&3));
    assert!(cache.hit(&2));
    assert!(!cache.hit(&1));
}

#[test]
fn mru_longer_trace() {
    let mut cache = MRUCache::new(3).unwrap();
    assert_eq!(cache.run(&vec![vec![1, 2, 3, 1], vec![4, 1, 2]]), (2, 5));
}

#[test]
fn mru_cyclic_trace_hits() {
    let mut cache = MRUCache::new(3).unwrap();
    assert_eq!(cache.run(&vec![vec![1, 2, 3, 4], vec![1, 2, 3, 4]]), (3, 5));
}

#[test]
fn mru_repeated_hits() {
    let mut cache = MRUCache::new(3).unwrap();
    assert_eq!(cache.run(&vec![vec![1, 2, 3]]), (0, 3));
    assert_eq!(cache.run(&vec![vec![2, 2, 2, 2]]), (4, 0));
    assert_eq!(cache.run(&vec![vec![1, 3]]), (2, 0));
}

#[test]
fn mru_empty_trace() {
    let mut cache = MRUCache::new(1).unwrap();
    assert_eq!(cache.run(&Vec::new()), (0, 0));
    assert_eq!(cache.run(&vec![vec![]]), (0, 0));
}
