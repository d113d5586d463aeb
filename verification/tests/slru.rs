use cache_algos::slru::SLRUCache;

#[test]
fn slru_trace_of_capacity_four() {
    let mut cache = SLRUCache::new(4).unwrap();
    assert_eq!(cache.run(&vec![vec![1, 2, 3, 4], vec![1, 2, 5, 3, 5, 1, 4]]), (4, 7));
    // Probationary holds 4 and 2, protected holds 1 and 5.
    assert!(cache.hit(&1));
    assert!(cache.hit(&5));
    assert!(!cache.hit(&3));
}

#[test]
fn slru_promotion_shrinks_probationary() {
    // Capacity 2: one protected item at most, and one probationary once it is there.
    let mut cache = SLRUCache::new(2).unwrap();
    assert!(!cache.hit(&1));
    assert!(cache.hit(&1));
    assert!(!cache.hit(&2));
    assert!(!cache.hit(&3));
    assert!(!cache.hit(&2));
    assert!(cache.hit(&1));
}

#[test]
fn slru_trace_of_capacity_two() {
    let mut cache = SLRUCache::new(2).unwrap();
    assert_eq!(cache.run(&vec![vec![1, 1, 2, 2, 1, 3, 2]]), (3, 4));
}

#[test]
fn slru_demoted_item_gets_another_chance() {
    // Capacity 3: when 2 is promoted, 1 goes back to probationary and 3 stays there.
    let mut cache = SLRUCache::new(3).unwrap();
    assert_eq!(cache.run(&vec![vec![1, 2, 3, 1, 2, 3]]), (3, 3));
    assert!(cache.hit(&1));
    assert!(cache.hit(&2));
    assert!(cache.hit(&3));
}

#[test]
fn slru_protected_hit_stays_protected() {
    let mut cache = SLRUCache::new(4).unwrap();
    assert_eq!(cache.run(&vec![vec![1, 1, 1, 2, 3, 4, 5, 1]]), (3, 5));
}

#[test]
fn slru_capacity_one() {
    let mut cache = SLRUCache::new(1).unwrap();
    assert_eq!(cache.run(&vec![vec![7, 7, 7]]), (2, 1));
    assert!(!cache.hit(&8));
    assert!(cache.hit(&8));
    assert!(!cache.hit(&7));
}

#[test]
fn slru_repeated_hits() {
    let mut cache = SLRUCache::new(4).unwrap();
    assert_eq!(cache.run(&vec![vec![1, 2, 3]]), (0, 3));
    assert_eq!(cache.run(&vec![vec![2, 2, 2, 2]]), (4, 0));
    assert_eq!(cache.run(&vec![vec![1, 3, 2]]), (3, 0));
}

#[test]
fn slru_empty_trace() {
    let mut cache = SLRUCache::new(2).unwrap();
    assert_eq!(cache.run(&Vec::new()), (0, 0));
    assert_eq!(cache.run(&vec![vec![], vec![]]), (0, 0));
}
