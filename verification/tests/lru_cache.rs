use arena_lru::lru_cache::{CacheError, ManualLRUCache, SimpleVecLRUCache, MISS};

#[test]
fn reference_scenario_capacity_two() {
    let mut cache = SimpleVecLRUCache::new(2).unwrap();
    cache.put(1, 1);
    cache.put(2, 2);
    assert_eq!(cache.get(1), 1);
    cache.put(3, 3);
    assert_eq!(cache.get(2), MISS);
    cache.put(4, 4);
    assert_eq!(cache.get(1), MISS);
    assert_eq!(cache.get(3), 3);
    assert_eq!(cache.get(4), 4);
}

#[test]
fn arena_scenario_capacity_two() {
    let mut cache = ManualLRUCache::new(2).unwrap();
    cache.put(1, 1);
    cache.put(2, 2);
    assert_eq!(cache.get(1), 1);
    cache.put(3, 3);
    assert_eq!(cache.get(2), MISS);
    cache.put(4, 4);
    assert_eq!(cache.get(1), MISS);
    assert_eq!(cache.get(3), 3);
    assert_eq!(cache.get(4), 4);
}

#[test]
fn reference_capacity_one_evicts_at_once() {
    let mut cache = SimpleVecLRUCache::new(1).unwrap();
    cache.put(1, 1);
    cache.put(2, 2);
    assert_eq!(cache.get(1), MISS);
    assert_eq!(cache.get(2), 2);
}

#[test]
fn arena_capacity_one_evicts_at_once() {
    let mut cache = ManualLRUCache::new(1).unwrap();
    cache.put(1, 1);
    cache.put(2, 2);
    assert_eq!(cache.get(1), MISS);
    assert_eq!(cache.get(2), 2);
}

#[test]
fn reference_rejects_capacity_zero() {
    assert_eq!(SimpleVecLRUCache::new(0).err(), Some(CacheError::InvalidArgument));
    assert!(SimpleVecLRUCache::new(1).is_ok());
}

#[test]
fn arena_rejects_capacity_zero() {
    assert_eq!(ManualLRUCache::new(0).err(), Some(CacheError::InvalidArgument));
    assert!(ManualLRUCache::new(1).is_ok());
}

#[test]
fn miss_is_minus_one() {
    assert_eq!(MISS, -1);
    let mut reference = SimpleVecLRUCache::new(3).unwrap();
    let mut arena = ManualLRUCache::new(3).unwrap();
    assert_eq!(reference.get(7), -1);
    assert_eq!(arena.get(7), -1);
}

#[test]
fn lookup_tells_a_stored_minus_one_from_a_miss() {
    let mut reference = SimpleVecLRUCache::new(2).unwrap();
    let mut arena = ManualLRUCache::new(2).unwrap();
    reference.put(5, -1);
    arena.put(5, -1);
    assert_eq!(reference.get(5), -1);
    assert_eq!(arena.get(5), -1);
    assert_eq!(reference.lookup(5), Some(-1));
    assert_eq!(arena.lookup(5), Some(-1));
    assert_eq!(reference.lookup(6), None);
    assert_eq!(arena.lookup(6), None);
}

#[test]
fn reference_never_holds_more_than_its_capacity() {
    let mut cache = SimpleVecLRUCache::new(3).unwrap();
    for key in 0..10 {
        cache.put(key, key * 10);
        let mut resident = 0;
        // Counting from the oldest key keeps the recency order as it is.
        for probe in 0..10 {
            if cache.lookup(probe).is_some() {
                resident += 1;
            }
        }
        assert!(resident <= 3);
        assert_eq!(resident, if key < 3 { key + 1 } else { 3 });
    }
}

#[test]
fn arena_never_holds_more_than_its_capacity() {
    let mut cache = ManualLRUCache::new(3).unwrap();
    for key in 0..10 {
        cache.put(key, key * 10);
        let mut resident = 0;
        for probe in 0..10 {
            if cache.lookup(probe).is_some() {
                resident += 1;
            }
        }
        assert!(resident <= 3);
        assert_eq!(resident, if key < 3 { key + 1 } else { 3 });
    }
}

#[test]
fn reference_evicts_the_least_recently_touched_key() {
    let mut cache = SimpleVecLRUCache::new(3).unwrap();
    cache.put(1, 10);
    cache.put(2, 20);
    cache.put(3, 30);
    assert_eq!(cache.get(1), 10);
    cache.put(2, 21);
    // 3 is now the key that was touched longest ago.
    cache.put(4, 40);
    assert_eq!(cache.lookup(3), None);
    assert_eq!(cache.lookup(1), Some(10));
    assert_eq!(cache.lookup(2), Some(21));
    assert_eq!(cache.lookup(4), Some(40));
}

#[test]
fn arena_evicts_the_least_recently_touched_key() {
    let mut cache = ManualLRUCache::new(3).unwrap();
    cache.put(1, 10);
    cache.put(2, 20);
    cache.put(3, 30);
    assert_eq!(cache.get(1), 10);
    cache.put(2, 21);
    cache.put(4, 40);
    assert_eq!(cache.lookup(3), None);
    assert_eq!(cache.lookup(1), Some(10));
    assert_eq!(cache.lookup(2), Some(21));
    assert_eq!(cache.lookup(4), Some(40));
}

#[test]
fn reference_get_makes_a_key_the_most_recent() {
    let mut cache = SimpleVecLRUCache::new(2).unwrap();
    cache.put(1, 1);
    cache.put(2, 2);
    assert_eq!(cache.get(1), 1);
    cache.put(3, 3);
    assert_eq!(cache.get(1), 1);
    assert_eq!(cache.get(2), MISS);
}

#[test]
fn arena_get_makes_a_key_the_most_recent() {
    let mut cache = ManualLRUCache::new(2).unwrap();
    cache.put(1, 1);
    cache.put(2, 2);
    assert_eq!(cache.get(1), 1);
    cache.put(3, 3);
    assert_eq!(cache.get(1), 1);
    assert_eq!(cache.get(2), MISS);
}

#[test]
fn reference_put_on_a_resident_key_overwrites_and_promotes() {
    let mut cache = SimpleVecLRUCache::new(2).unwrap();
    cache.put(1, 1);
    cache.put(2, 2);
    cache.put(1, 100);
    cache.put(3, 3);
    assert_eq!(cache.get(2), MISS);
    assert_eq!(cache.get(1), 100);
    assert_eq!(cache.get(3), 3);
}

#[test]
fn arena_put_on_a_resident_key_overwrites_and_promotes() {
    let mut cache = ManualLRUCache::new(2).unwrap();
    cache.put(1, 1);
    cache.put(2, 2);
    cache.put(1, 100);
    cache.put(3, 3);
    assert_eq!(cache.get(2), MISS);
    assert_eq!(cache.get(1), 100);
    assert_eq!(cache.get(3), 3);
}

#[test]
fn reference_untouched_key_leaves_after_the_others_were_touched() {
    let mut cache = SimpleVecLRUCache::new(3).unwrap();
    cache.put(7, 70);
    cache.put(8, 80);
    cache.put(9, 90);
    // Every key but 8 is touched again.
    assert_eq!(cache.get(9), 90);
    assert_eq!(cache.get(7), 70);
    cache.put(10, 100);
    assert_eq!(cache.get(8), MISS);
    assert_eq!(cache.get(9), 90);
    assert_eq!(cache.get(7), 70);
    assert_eq!(cache.get(10), 100);
}

#[test]
fn arena_untouched_key_leaves_after_the_others_were_touched() {
    let mut cache = ManualLRUCache::new(3).unwrap();
    cache.put(7, 70);
    cache.put(8, 80);
    cache.put(9, 90);
    assert_eq!(cache.get(9), 90);
    assert_eq!(cache.get(7), 70);
    cache.put(10, 100);
    assert_eq!(cache.get(8), MISS);
    assert_eq!(cache.get(9), 90);
    assert_eq!(cache.get(7), 70);
    assert_eq!(cache.get(10), 100);
}

#[test]
fn reference_repeated_get_changes_nothing_more() {
    let mut once = SimpleVecLRUCache::new(3).unwrap();
    let mut thrice = SimpleVecLRUCache::new(3).unwrap();
    for cache in [&mut once, &mut thrice] {
        cache.put(1, 10);
        cache.put(2, 20);
        cache.put(3, 30);
    }
    assert_eq!(once.get(2), 20);
    assert_eq!(thrice.get(2), 20);
    assert_eq!(thrice.get(2), 20);
    assert_eq!(thrice.get(2), 20);
    // The other keys leave in the same order from both caches.
    for (new_key, gone) in [(4, 1), (5, 3), (6, 2)] {
        once.put(new_key, 0);
        thrice.put(new_key, 0);
        assert_eq!(once.lookup(gone), None);
        assert_eq!(thrice.lookup(gone), None);
    }
}

#[test]
fn arena_repeated_get_changes_nothing_more() {
    let mut once = ManualLRUCache::new(3).unwrap();
    let mut thrice = ManualLRUCache::new(3).unwrap();
    for cache in [&mut once, &mut thrice] {
        cache.put(1, 10);
        cache.put(2, 20);
        cache.put(3, 30);
    }
    assert_eq!(once.get(2), 20);
    assert_eq!(thrice.get(2), 20);
    assert_eq!(thrice.get(2), 20);
    assert_eq!(thrice.get(2), 20);
    for (new_key, gone) in [(4, 1), (5, 3), (6, 2)] {
        once.put(new_key, 0);
        thrice.put(new_key, 0);
        assert_eq!(once.lookup(gone), None);
        assert_eq!(thrice.lookup(gone), None);
    }
}

#[test]
fn get_of_an_absent_key_changes_nothing() {
    let mut reference = SimpleVecLRUCache::new(2).unwrap();
    let mut arena = ManualLRUCache::new(2).unwrap();
    reference.put(1, 1);
    reference.put(2, 2);
    arena.put(1, 1);
    arena.put(2, 2);
    assert_eq!(reference.get(99), MISS);
    assert_eq!(arena.get(99), MISS);
    reference.put(3, 3);
    arena.put(3, 3);
    assert_eq!(reference.lookup(1), None);
    assert_eq!(arena.lookup(1), None);
    assert_eq!(reference.lookup(2), Some(2));
    assert_eq!(arena.lookup(2), Some(2));
}

#[test]
fn arena_reuses_its_slots_over_many_evictions() {
    let mut cache = ManualLRUCache::new(4).unwrap();
    for key in 0..1000 {
        cache.put(key, -key);
        assert_eq!(cache.get(key), -key);
        if key >= 4 {
            assert_eq!(cache.lookup(key - 4), None);
        }
    }
    for key in 996..1000 {
        assert_eq!(cache.lookup(key), Some(-key));
    }
}

#[test]
fn extreme_keys_and_values_are_stored() {
    let mut reference = SimpleVecLRUCache::new(2).unwrap();
    let mut arena = ManualLRUCache::new(2).unwrap();
    reference.put(i32::MIN, i32::MAX);
    reference.put(i32::MAX, i32::MIN);
    arena.put(i32::MIN, i32::MAX);
    arena.put(i32::MAX, i32::MIN);
    assert_eq!(reference.get(i32::MIN), i32::MAX);
    assert_eq!(reference.get(i32::MAX), i32::MIN);
    assert_eq!(arena.get(i32::MIN), i32::MAX);
    assert_eq!(arena.get(i32::MAX), i32::MIN);
}
