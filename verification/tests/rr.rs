use cache_algos::rr::RRCache;

#[test]
fn rr_capacity_one_has_no_choice() {
    let mut cache = RRCache::new(1).unwrap();
    assert_eq!(cache.run(&vec![vec![1, 2, 1]]), (0, 3));
    let mut cache = RRCache::new(1).unwrap();
    assert_eq!(cache.run(&vec![vec![1, 1], vec![1, 2, 2]]), (3, 2));
}

#[test]
fn rr_no_eviction_below_capacity() {
    let mut cache = RRCache::new(3).unwrap();
    assert_eq!(cache.run(&vec![vec![1, 2, 3, 1, 2, 3], vec![3, 2, 1]]), (6, 3));
}

#[test]
fn rr_evicts_one_item() {
    let mut rng = rand::thread_rng();
    for _ in 0..50 {
        let mut cache = RRCache::new(3).unwrap();
        assert!(!cache.hit(&1, &mut rng));
        assert!(!cache.hit(&2, &mut rng));
        assert!(!cache.hit(&3, &mut rng));
        assert!(!cache.hit(&4, &mut rng));
        assert!(cache.hit(&4, &mut rng));
        // One of 1, 2 and 3 has left. Hits change nothing, and the search stops at the
        // first miss.
        let all_resident =
            cache.hit(&1, &mut rng) && cache.hit(&2, &mut rng) && cache.hit(&3, &mut rng);
        assert!(!all_resident);
    }
}

#[test]
fn rr_tally_counts_every_access() {
    let ram: Vec<Vec<i32>> = (0..20).map(|b| (0..50).map(|i| (i * 7 + b) % 13).collect()).collect();
    let mut cache = RRCache::new(5).unwrap();
    let (hits, misses) = cache.run(&ram);
    assert_eq!(hits + misses, 1000);
    // Thirteen items for five places: each item misses at least once.
    assert!(misses >= 13);
    assert!(hits >= 0);
}

#[test]
fn rr_immediate_repeat_is_hit() {
    let mut rng = rand::thread_rng();
    let mut cache = RRCache::new(2).unwrap();
    for item in 0..100 {
        assert!(!cache.hit(&item, &mut rng));
        assert!(cache.hit(&item, &mut rng));
    }
}

#[test]
fn rr_replace_evicts_the_slot() {
    let mut rng = rand::thread_rng();
    let mut cache = RRCache::new(3).unwrap();
    assert!(!cache.hit(&1, &mut rng));
    assert!(!cache.hit(&2, &mut rng));
    assert!(!cache.hit(&3, &mut rng));
    cache.replace(1, 4);
    assert!(cache.hit(&1, &mut rng));
    assert!(cache.hit(&3, &mut rng));
    assert!(cache.hit(&4, &mut rng));
    cache.replace(0, 5);
    assert!(cache.hit(&3, &mut rng));
    assert!(cache.hit(&4, &mut rng));
    assert!(cache.hit(&5, &mut rng));
    cache.replace(2, 6);
    assert!(cache.hit(&3, &mut rng));
    assert!(cache.hit(&4, &mut rng));
    assert!(cache.hit(&6, &mut rng));
}

#[test]
fn rr_empty_trace() {
    let mut cache = RRCache::new(2).unwrap();
    assert_eq!(cache.run(&Vec::new()), (0, 0));
    assert_eq!(cache.run(&vec![vec![], vec![]]), (0, 0));
}
