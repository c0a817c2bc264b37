use rust_2048_solver::bots::mean_max::searcher::cache::PriorityCache;

#[test]
fn priority_cache_put_then_get() {
    let mut cache: PriorityCache<u128, &str, u64> = PriorityCache::new(2);
    cache.put(7, "seven", 1);
    assert_eq!(cache.get(&7), Some(&"seven"));
    assert_eq!(cache.get(&8), None);
}

#[test]
fn priority_cache_drops_the_lowest_priority_first() {
    let mut cache: PriorityCache<u128, u32, u64> = PriorityCache::new(2);
    cache.put(1, 10, 5);
    cache.put(2, 20, 3);
    cache.put(3, 30, 4);
    assert_eq!(cache.get(&1), Some(&10));
    assert_eq!(cache.get(&2), None);
    assert_eq!(cache.get(&3), Some(&30));
}

#[test]
fn priority_cache_ties_go_by_key() {
    let mut cache: PriorityCache<u128, u32, u64> = PriorityCache::new(2);
    cache.put(9, 90, 1);
    cache.put(4, 40, 1);
    cache.put(5, 50, 2);
    assert_eq!(cache.get(&4), None);
    assert_eq!(cache.get(&9), Some(&90));
    assert_eq!(cache.get(&5), Some(&50));
}

#[test]
fn priority_cache_of_capacity_zero_holds_nothing() {
    let mut cache: PriorityCache<u128, u32, u64> = PriorityCache::new(0);
    cache.put(1, 10, 1);
    assert_eq!(cache.get(&1), None);
}

#[test]
fn priority_cache_stale_ranking_drops_the_key() {
    let mut cache: PriorityCache<u128, u32, u64> = PriorityCache::new(2);
    cache.put(1, 10, 1);
    cache.put(1, 11, 9);
    cache.put(2, 20, 5);
    // Two values are held, so the lowest ranking, (1, key 1), is dropped with its key.
    cache.put(3, 30, 6);
    assert_eq!(cache.get(&1), None);
    assert_eq!(cache.get(&2), Some(&20));
    assert_eq!(cache.get(&3), Some(&30));
}

#[test]
fn priority_cache_keeps_the_latest_value() {
    let mut cache: PriorityCache<u128, u32, u64> = PriorityCache::new(3);
    cache.put(1, 10, 1);
    cache.put(2, 20, 2);
    cache.put(1, 11, 3);
    assert_eq!(cache.get(&1), Some(&11));
    assert_eq!(cache.get(&2), Some(&20));
    cache.put(3, 30, 4);
    cache.put(4, 40, 5);
    for key in [1u128, 2, 3] {
        let got = cache.get(&key).copied();
        assert!(got.is_none() || got == Some(key as u32 * 10) || (key == 1 && got == Some(11)));
    }
    assert_eq!(cache.get(&4), Some(&40));
}
