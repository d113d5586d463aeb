use cache_algos::fifo::FifoCache;
use cache_algos::memory::RamBuilder;

#[test]
fn check_simple_hit() {
    let ram = create_10_01_batches_with_2_elements();

    let mut fifo_cache = FifoCache::new(2).unwrap();
    assert_eq!(fifo_cache.run(&ram), (18, 2));
}

#[test]
fn check_normal_hit() {
    let ram = create_100_batches_with_100_elements();

    let mut fifo_cache = FifoCache::new(150).unwrap();
    assert_eq!(fifo_cache.run(&ram), (9900, 100));
}

fn create_10_01_batches_with_2_elements() -> Vec<Vec<i32>> {
    RamBuilder::new()
        .with_count_batches(10)
        .with_size_batch(2)
        .with_range_random(0, 1)
        .build()
}

fn create_100_batches_with_100_elements() -> Vec<Vec<i32>> {
    RamBuilder::new()
        .with_count_batches(100)
        .with_size_batch(100)
        .build()
}

#[test]
fn fifo_evicts_the_oldest() {
    let mut cache = FifoCache::new(2).unwrap();
    assert_eq!(cache.run(&vec![vec![1, 2, 3, 1]]), (0, 4));
}

#[test]
fn fifo_hit_does_not_reorder() {
    // 1 is hit in between, and is still the first to leave.
    let mut cache = FifoCache::new(2).unwrap();
    assert!(!cache.hit(&1));
    assert!(!cache.hit(&2));
    assert!(cache.hit(&1));
    assert!(!cache.hit(&3));
    assert!(!cache.hit(&1));
    assert!(cache.hit(&3));
    assert!(!cache.hit(&2));
}

#[test]
fn fifo_longer_trace() {
    let mut cache = FifoCache::new(3).unwrap();
    assert_eq!(cache.run(&vec![vec![1, 2, 3], vec![1, 4], vec![], vec![1, 2]]), (1, 6));
}

#[test]
fn fifo_immediate_repeat_is_hit() {
    let mut cache = FifoCache::new(1).unwrap();
    assert!(!cache.hit(&5));
    assert!(cache.hit(&5));
    assert!(cache.hit(&5));
    assert!(!cache.hit(&6));
    assert!(cache.hit(&6));
    assert!(!cache.hit(&5));
}

#[test]
fn fifo_empty_trace() {
    let mut cache = FifoCache::new(4).unwrap();
    assert_eq!(cache.run(&Vec::new()), (0, 0));
    assert_eq!(cache.run(&vec![vec![], vec![]]), (0, 0));
}

#[test]
fn fifo_run_goes_on_from_what_is_resident() {
    let mut cache = FifoCache::new(2).unwrap();
    assert_eq!(cache.run(&vec![vec![1, 2]]), (0, 2));
    assert_eq!(cache.run(&vec![vec![2, 1, 3, 1]]), (2, 2));
}
