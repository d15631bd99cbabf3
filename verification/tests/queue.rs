use evict_cache::fifo::Kind;
use evict_cache::fifo::Queue;

#[test]
fn fifo_evicts_oldest_first() {
    let mut q: Queue<&str> = Queue::new(2, Kind::FIFO);
    assert_eq!(q.set(1, "a"), true);
    assert_eq!(q.set(2, "b"), true);
    assert_eq!(q.set(3, "c"), true);
    assert_eq!(q.get(1), None);
    assert_eq!(q.get(2), Some(&"b"));
    assert_eq!(q.get(3), Some(&"c"));
}

#[test]
fn lifo_evicts_newest_first() {
    let mut q: Queue<&str> = Queue::new(2, Kind::LIFO);
    assert_eq!(q.set(1, "a"), true);
    assert_eq!(q.set(2, "b"), true);
    assert_eq!(q.set(3, "c"), true);
    assert_eq!(q.get(2), None);
    assert_eq!(q.get(1), Some(&"a"));
    assert_eq!(q.get(3), Some(&"c"));
}

#[test]
fn fifo_sliding_window() {
    let mut q: Queue<u64> = Queue::new(2, Kind::FIFO);
    for k in 1..=6u64 {
        assert_eq!(q.set(k, k * 10), true);
    }
    for k in 1..=4u64 {
        assert_eq!(q.get(k), None);
    }
    assert_eq!(q.get(5), Some(&50));
    assert_eq!(q.get(6), Some(&60));
}

#[test]
fn lifo_first_key_survives() {
    let mut q: Queue<u64> = Queue::new(2, Kind::LIFO);
    for k in 1..=6u64 {
        assert_eq!(q.set(k, k * 10), true);
    }
    assert_eq!(q.get(1), Some(&10));
    assert_eq!(q.get(6), Some(&60));
    for k in 2..=5u64 {
        assert_eq!(q.get(k), None);
    }
}

#[test]
fn queue_capacity_bound() {
    for kind in [Kind::FIFO, Kind::LIFO] {
        let mut q: Queue<u64> = Queue::new(3, kind);
        for k in 0..20u64 {
            assert_eq!(q.set(k, k), true);
            let resident = (0..20u64).filter(|&j| q.get(j).is_some()).count();
            assert!(resident <= 3);
        }
    }
}

#[test]
fn queue_update_does_not_evict() {
    for kind in [Kind::FIFO, Kind::LIFO] {
        let mut q: Queue<&str> = Queue::new(2, kind);
        assert_eq!(q.set(1, "a"), true);
        assert_eq!(q.set(2, "b"), true);
        // at capacity: updating a resident key must not evict anything
        assert_eq!(q.set(1, "a2"), true);
        assert_eq!(q.get(1), Some(&"a2"));
        assert_eq!(q.get(2), Some(&"b"));
    }
}

#[test]
fn queue_get_does_not_mutate() {
    let mut q: Queue<&str> = Queue::new(2, Kind::FIFO);
    assert_eq!(q.set(1, "a"), true);
    assert_eq!(q.set(2, "b"), true);
    for _ in 0..10 {
        assert_eq!(q.get(1), Some(&"a"));
    }
    // repeated gets changed neither values nor the eviction order
    assert_eq!(q.set(3, "c"), true);
    assert_eq!(q.get(1), None);
    assert_eq!(q.get(2), Some(&"b"));
    assert_eq!(q.get(3), Some(&"c"));
}

#[test]
fn queue_capacity_zero_rejects() {
    let mut q: Queue<&str> = Queue::new(0, Kind::FIFO);
    assert_eq!(q.set(1, "a"), false);
    assert_eq!(q.get(1), None);
    let mut q2: Queue<&str> = Queue::new(0, Kind::LIFO);
    assert_eq!(q2.set(1, "a"), false);
    assert_eq!(q2.get(1), None);
}
