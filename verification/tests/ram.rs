use cache_algos::memory::RamBuilder;

#[test]
fn ram_direct() {
    let ram = RamBuilder::new().build();

    for batch in ram {
        for elem in batch.iter().enumerate() {
            assert_eq!(elem.0 as i32, elem.1.clone());
        }
    }
}

#[test]
fn ram_with_10_batches() {
    let ram = RamBuilder::new()
        .with_count_batches(10)
        .build();

    assert_eq!(ram.len(), 10);
}

#[test]
fn ram_with_43_batches_4_elements() {
    let ram = RamBuilder::new()
        .with_count_batches(43)
        .with_size_batch(4)
        .build();

    assert_eq!(ram.len(), 43);
    for batch in ram {
        assert_eq!(batch.len(), 4);
    }
}

#[test]
fn ram_default_is_10_batches_of_10() {
    let ram = RamBuilder::new().build();
    assert_eq!(ram.len(), 10);
    for batch in ram {
        assert_eq!(batch, vec![0, 1, 2, 3, 4, 5, 6, 7, 8, 9]);
    }
}

#[test]
fn ram_without_batches_or_elements() {
    assert_eq!(RamBuilder::new().with_count_batches(0).build(), Vec::<Vec<i32>>::new());
    let ram = RamBuilder::new().with_count_batches(3).with_size_batch(0).build();
    assert_eq!(ram, vec![Vec::<i32>::new(), Vec::new(), Vec::new()]);
}

#[test]
fn ram_range_without_random_changes_nothing() {
    let ram = RamBuilder::new()
        .with_count_batches(2)
        .with_size_batch(3)
        .with_range_random(50, 60)
        .build();
    assert_eq!(ram, vec![vec![0, 1, 2], vec![0, 1, 2]]);
}

#[test]
fn ram_all_random_default_range() {
    let ram = RamBuilder::new().with_all_random().build();
    assert_eq!(ram.len(), 10);
    for batch in ram {
        assert_eq!(batch.len(), 10);
        for elem in batch {
            assert!(0 <= elem && elem < 100);
        }
    }
}

#[test]
fn ram_all_random_takes_range_of_batch_size() {
    let ram = RamBuilder::new()
        .with_all_random()
        .with_count_batches(20)
        .with_size_batch(3)
        .build();
    assert_eq!(ram.len(), 20);
    for batch in ram {
        assert_eq!(batch.len(), 3);
        for elem in batch {
            assert!(0 <= elem && elem < 3);
        }
    }
}

#[test]
fn ram_all_random_with_range() {
    let ram = RamBuilder::new()
        .with_all_random()
        .with_range_random(-5, -3)
        .with_count_batches(30)
        .build();
    assert_eq!(ram.len(), 30);
    for batch in ram {
        assert_eq!(batch.len(), 10);
        for elem in batch {
            assert!(elem == -5 || elem == -4);
        }
    }
}

#[test]
fn ram_local_random_ignores_range() {
    let ram = RamBuilder::new()
        .with_local_random()
        .with_size_batch(3)
        .with_count_batches(10)
        .with_range_random(0, 1000)
        .build();
    assert_eq!(ram.len(), 10);
    for batch in ram {
        assert_eq!(batch.len(), 3);
        for elem in batch {
            assert!(0 <= elem && elem < 3);
        }
    }
}

#[test]
fn ram_local_random_range_is_size_of_batch_at_that_time() {
    // The range is taken when random is asked for: ten elements by default.
    let ram = RamBuilder::new().with_local_random().with_count_batches(5).build();
    for batch in ram {
        assert_eq!(batch.len(), 10);
        for elem in batch {
            assert!(0 <= elem && elem < 10);
        }
    }
}

#[test]
fn ram_first_random_wins() {
    // Local random after all random changes nothing: the range stays as set.
    let ram = RamBuilder::new()
        .with_all_random()
        .with_range_random(200, 300)
        .with_local_random()
        .build();
    for batch in ram {
        for elem in batch {
            assert!(200 <= elem && elem < 300);
        }
    }
}

#[test]
fn ram_random_is_not_constant() {
    let ram = RamBuilder::new()
        .with_all_random()
        .with_range_random(0, 1000000)
        .build();
    let first = ram[0][0];
    let mut differs = false;
    for batch in ram {
        for elem in batch {
            assert!(0 <= elem && elem < 1000000);
            if elem != first {
                differs = true;
            }
        }
    }
    assert!(differs);
}

#[test]
fn ram_can_build_without_random() {
    assert!(RamBuilder::new().can_build());
    assert!(RamBuilder::new().with_size_batch(0).can_build());
    assert!(RamBuilder::new().with_range_random(5, 5).can_build());
}

#[test]
fn ram_can_build_with_random_needs_a_range() {
    assert!(RamBuilder::new().with_all_random().can_build());
    assert!(RamBuilder::new().with_all_random().with_range_random(-1, 0).can_build());
    assert!(!RamBuilder::new().with_all_random().with_range_random(5, 5).can_build());
    assert!(!RamBuilder::new().with_all_random().with_range_random(5, 4).can_build());
    assert!(!RamBuilder::new().with_all_random().with_size_batch(0).can_build());
    assert!(!RamBuilder::new().with_size_batch(0).with_local_random().can_build());
    assert!(RamBuilder::new().with_size_batch(1).with_local_random().can_build());
}
