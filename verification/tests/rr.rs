use evict_cache::Entry;
use evict_cache::RRCache;

#[test]
fn rr_cache() {
    let mut rr_cache: RRCache<&str> = RRCache::new(3);
    assert_eq!(rr_cache.get(1), None);
    assert_eq!(rr_cache.set(1, "one"), true);
    assert_eq!(rr_cache.get(1), Some(&"one"));

    assert_eq!(rr_cache.set(2, "two"), true);
    assert_eq!(rr_cache.set(3, "three"), true);
    assert_eq!(rr_cache.set(4, "four"), true);
    // the fourth insertion evicted exactly one of the first three keys;
    // the new key is always resident afterwards
    assert_eq!(rr_cache.get(4), Some(&"four"));
    let survivors = [1u64, 2, 3].iter().filter(|&&k| rr_cache.get(k).is_some()).count();
    assert_eq!(survivors, 2);
}

#[test]
fn rr_update_does_not_evict() {
    let mut c: RRCache<&str> = RRCache::new(2);
    assert_eq!(c.set(1, "a"), true);
    assert_eq!(c.set(2, "b"), true);
    // at capacity: updating a resident key must not evict anything
    assert_eq!(c.set(1, "a2"), true);
    assert_eq!(c.get(1), Some(&"a2"));
    assert_eq!(c.get(2), Some(&"b"));
}

#[test]
fn rr_capacity_bound() {
    let mut c: RRCache<u64> = RRCache::new(3);
    for k in 0..20u64 {
        assert_eq!(c.set(k, k * 10), true);
        // the key just inserted is always resident
        assert_eq!(c.get(k), Some(&(k * 10)));
        let resident = (0..20u64).filter(|&j| c.get(j).is_some()).count();
        assert!(resident <= 3);
    }
}

#[test]
fn rr_get_does_not_mutate() {
    let mut c: RRCache<&str> = RRCache::new(2);
    assert_eq!(c.set(1, "a"), true);
    for _ in 0..10 {
        assert_eq!(c.get(1), Some(&"a"));
        assert_eq!(c.get(9), None);
    }
}

#[test]
fn rr_capacity_zero_rejects() {
    let mut c: RRCache<&str> = RRCache::new(0);
    assert_eq!(c.set(1, "a"), false);
    assert_eq!(c.get(1), None);
}

#[test]
fn rr_entry_construction() {
    // a record carries a value and the key's slot in the key list
    let _e: Entry<&str> = Entry::new("v", 7);
    let _f: Entry<u64> = Entry::new(42, 0);
}

#[test]
fn rr_uniform_eviction() {
    // capacity C and C + 1 distinct insertions: each of the first C
    // keys must be evicted with empirical frequency near 1 / C
    let capacity = 4u64;
    let trials = 20000usize;
    let mut evicted_counts = [0usize; 4];
    for _ in 0..trials {
        let mut c: RRCache<u64> = RRCache::new(capacity as usize);
        for k in 1..=capacity {
            assert!(c.set(k, k));
        }
        assert!(c.set(capacity + 1, 0));
        let mut missing = 0u64;
        let mut n_missing = 0usize;
        for k in 1..=capacity {
            if c.get(k).is_none() {
                missing = k;
                n_missing += 1;
            }
        }
        assert_eq!(n_missing, 1);
        evicted_counts[(missing - 1) as usize] += 1;
    }
    for &count in &evicted_counts {
        let freq = count as f64 / trials as f64;
        assert!((freq - 0.25).abs() < 0.05);
    }
}

#[test]
fn rr_long_run_stays_consistent() {
    // many insertions and evictions: the reverse index never corrupts,
    // so every resident key keeps resolving to its own value
    let mut c: RRCache<u64> = RRCache::new(5);
    for round in 0..200u64 {
        let k = (round * 7) % 31;
        assert_eq!(c.set(k, k + 1000), true);
        assert_eq!(c.get(k), Some(&(k + 1000)));
        let mut resident = 0usize;
        for j in 0..31u64 {
            if let Some(v) = c.get(j) {
                assert_eq!(*v, j + 1000);
                resident += 1;
            }
        }
        assert!(resident <= 5);
    }
}
