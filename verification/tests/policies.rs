use cache_algos::belady::BeladyCache;
use cache_algos::fifo::FifoCache;
use cache_algos::lfu::LFUCache;
use cache_algos::lru::LRUCache;
use cache_algos::mru::MRUCache;
use cache_algos::rr::RRCache;
use cache_algos::slru::SLRUCache;
use cache_algos::CacheError;
use std::collections::VecDeque;

fn scan() -> Vec<Vec<i32>> {
    vec![vec![1, 2, 3, 4, 5, 6], vec![7, 8, 9, 10, 11, 12]]
}

#[test]
fn every_policy_misses_each_item_of_a_scan() {
    assert_eq!(BeladyCache::new(3).unwrap().run(&scan()), (0, 12));
    assert_eq!(FifoCache::new(3).unwrap().run(&scan()), (0, 12));
    assert_eq!(LFUCache::new(3).unwrap().run(&scan()), (0, 12));
    assert_eq!(LRUCache::new(3).unwrap().run(&scan()), (0, 12));
    assert_eq!(MRUCache::new(3).unwrap().run(&scan()), (0, 12));
    assert_eq!(RRCache::new(3).unwrap().run(&scan()), (0, 12));
    assert_eq!(SLRUCache::new(3).unwrap().run(&scan()), (0, 12));
}

#[test]
fn every_policy_holds_a_trace_that_fits() {
    let ram = vec![vec![1, 2, 3], vec![3, 2, 1], vec![2, 2, 1, 3]];
    assert_eq!(BeladyCache::new(3).unwrap().run(&ram), (7, 3));
    assert_eq!(FifoCache::new(3).unwrap().run(&ram), (7, 3));
    assert_eq!(LFUCache::new(3).unwrap().run(&ram), (7, 3));
    assert_eq!(LRUCache::new(3).unwrap().run(&ram), (7, 3));
    assert_eq!(MRUCache::new(3).unwrap().run(&ram), (7, 3));
    assert_eq!(RRCache::new(3).unwrap().run(&ram), (7, 3));
}

#[test]
fn every_policy_hits_an_immediate_repeat() {
    let ram: Vec<Vec<i32>> = (0..50).map(|item| vec![item, item]).collect();
    assert_eq!(FifoCache::new(2).unwrap().run(&ram), (50, 50));
    assert_eq!(LFUCache::new(2).unwrap().run(&ram), (50, 50));
    assert_eq!(LRUCache::new(2).unwrap().run(&ram), (50, 50));
    assert_eq!(MRUCache::new(2).unwrap().run(&ram), (50, 50));
    assert_eq!(RRCache::new(2).unwrap().run(&ram), (50, 50));
    assert_eq!(SLRUCache::new(2).unwrap().run(&ram), (50, 50));
    assert_eq!(BeladyCache::new(2).unwrap().run(&ram), (50, 50));
}

#[test]
fn every_policy_keeps_its_items_over_repeated_hits() {
    // A full cache is hit many times on one item: the others are still resident after it.
    let fill = vec![vec![1, 2, 3]];
    let again = vec![vec![2; 20]];
    let rest = vec![vec![1, 3, 2]];

    let mut cache = FifoCache::new(3).unwrap();
    assert_eq!(cache.run(&fill), (0, 3));
    assert_eq!(cache.run(&again), (20, 0));
    assert_eq!(cache.run(&rest), (3, 0));

    let mut cache = LFUCache::new(3).unwrap();
    assert_eq!(cache.run(&fill), (0, 3));
    assert_eq!(cache.run(&again), (20, 0));
    assert_eq!(cache.run(&rest), (3, 0));

    let mut cache = LRUCache::new(3).unwrap();
    assert_eq!(cache.run(&fill), (0, 3));
    assert_eq!(cache.run(&again), (20, 0));
    assert_eq!(cache.run(&rest), (3, 0));

    let mut cache = MRUCache::new(3).unwrap();
    assert_eq!(cache.run(&fill), (0, 3));
    assert_eq!(cache.run(&again), (20, 0));
    assert_eq!(cache.run(&rest), (3, 0));

    let mut cache = RRCache::new(3).unwrap();
    assert_eq!(cache.run(&fill), (0, 3));
    assert_eq!(cache.run(&again), (20, 0));
    assert_eq!(cache.run(&rest), (3, 0));

    let mut cache = SLRUCache::new(3).unwrap();
    assert_eq!(cache.run(&fill), (0, 3));
    assert_eq!(cache.run(&again), (20, 0));
    assert_eq!(cache.run(&rest), (3, 0));

    let mut cache = BeladyCache::new(3).unwrap();
    assert_eq!(cache.run(&fill), (0, 3));
    assert_eq!(cache.run(&again), (20, 0));
    assert_eq!(cache.run(&rest), (3, 0));
}

#[test]
fn every_policy_stays_within_its_capacity() {
    // Six items are accessed. Of the six probes that follow, each policy can hit as many as
    // it has places: a probe that misses puts no earlier item back.
    let ram = vec![vec![1, 2, 3, 4, 5, 6]];
    let probes = vec![vec![1, 2, 3, 4, 5, 6]];

    let mut cache = FifoCache::new(4).unwrap();
    cache.run(&ram);
    assert!(cache.run(&probes).0 <= 4);

    let mut cache = LFUCache::new(4).unwrap();
    cache.run(&ram);
    assert!(cache.run(&probes).0 <= 4);

    let mut cache = LRUCache::new(4).unwrap();
    cache.run(&ram);
    assert!(cache.run(&probes).0 <= 4);

    let mut cache = MRUCache::new(4).unwrap();
    cache.run(&ram);
    assert!(cache.run(&probes).0 <= 4);

    let mut cache = RRCache::new(4).unwrap();
    cache.run(&ram);
    assert!(cache.run(&probes).0 <= 4);

    let mut cache = SLRUCache::new(4).unwrap();
    cache.run(&ram);
    assert!(cache.run(&probes).0 <= 4);

    let mut cache = BeladyCache::new(4).unwrap();
    cache.run(&ram);
    assert!(cache.run(&probes).0 <= 4);
}

#[test]
fn every_policy_counts_nothing_on_an_empty_trace() {
    let empty: Vec<Vec<i32>> = Vec::new();
    assert_eq!(BeladyCache::new(5).unwrap().run(&empty), (0, 0));
    assert_eq!(FifoCache::new(5).unwrap().run(&empty), (0, 0));
    assert_eq!(LFUCache::new(5).unwrap().run(&empty), (0, 0));
    assert_eq!(LRUCache::new(5).unwrap().run(&empty), (0, 0));
    assert_eq!(MRUCache::new(5).unwrap().run(&empty), (0, 0));
    assert_eq!(RRCache::new(5).unwrap().run(&empty), (0, 0));
    assert_eq!(SLRUCache::new(5).unwrap().run(&empty), (0, 0));
}

#[test]
fn belady_is_no_worse_than_the_others() {
    let ram = vec![vec![1, 2, 3, 4, 1, 2, 5, 1, 2, 3, 4, 5]];
    let best = BeladyCache::new(3).unwrap().run(&ram).0;
    assert_eq!(best, 5);
    assert!(FifoCache::new(3).unwrap().run(&ram).0 <= best);
    assert!(LFUCache::new(3).unwrap().run(&ram).0 <= best);
    assert!(LRUCache::new(3).unwrap().run(&ram).0 <= best);
    assert!(MRUCache::new(3).unwrap().run(&ram).0 <= best);
    assert!(RRCache::new(3).unwrap().run(&ram).0 <= best);
    assert!(SLRUCache::new(3).unwrap().run(&ram).0 <= best);
}

#[test]
fn belady_hit_with_a_future_of_its_own() {
    let mut cache = BeladyCache::new(1).unwrap();
    let future: VecDeque<i32> = VecDeque::new();
    assert!(!cache.hit(&1, &future));
    assert!(cache.hit(&1, &future));
}

#[test]
fn every_policy_refuses_capacity_zero() {
    assert!(matches!(BeladyCache::new(0), Err(CacheError::ZeroCapacity)));
    assert!(matches!(FifoCache::new(0), Err(CacheError::ZeroCapacity)));
    assert!(matches!(LFUCache::new(0), Err(CacheError::ZeroCapacity)));
    assert!(matches!(LRUCache::new(0), Err(CacheError::ZeroCapacity)));
    assert!(matches!(MRUCache::new(0), Err(CacheError::ZeroCapacity)));
    assert!(matches!(RRCache::new(0), Err(CacheError::ZeroCapacity)));
    assert!(matches!(SLRUCache::new(0), Err(CacheError::ZeroCapacity)));
}

#[test]
fn every_policy_takes_capacity_one() {
    assert!(BeladyCache::new(1).is_ok());
    assert!(FifoCache::new(1).is_ok());
    assert!(LFUCache::new(1).is_ok());
    assert!(LRUCache::new(1).is_ok());
    assert!(MRUCache::new(1).is_ok());
    assert!(RRCache::new(1).is_ok());
    assert!(SLRUCache::new(1).is_ok());
    assert_eq!(format!("{:?}", CacheError::ZeroCapacity), "ZeroCapacity");
}
