use cache_algos::stats::countable;

#[test]
fn countable_small_traces() {
    assert!(countable(&Vec::new()));
    assert!(countable(&vec![vec![], vec![]]));
    assert!(countable(&vec![vec![1, 2, 3], vec![], vec![4]]));
}

#[test]
fn countable_many_batches() {
    let ram: Vec<Vec<i32>> = (0..1000).map(|b| vec![b; 1000]).collect();
    assert!(countable(&ram));
}
