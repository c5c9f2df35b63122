use arena_lru::lru_cache::{
    apply, replay, replay_both, LruCache, ManualLRUCache, Op, Outcome, SimpleVecLRUCache,
};

fn scenario() -> Vec<Op> {
    vec![
        Op::Put(1, 1),
        Op::Put(2, 2),
        Op::Get(1),
        Op::Put(3, 3),
        Op::Get(2),
        Op::Put(4, 4),
        Op::Get(1),
        Op::Get(3),
        Op::Get(4),
    ]
}

fn scenario_outcomes() -> Vec<Outcome> {
    vec![
        Outcome::Stored,
        Outcome::Stored,
        Outcome::Hit(1),
        Outcome::Stored,
        Outcome::Miss,
        Outcome::Stored,
        Outcome::Miss,
        Outcome::Hit(3),
        Outcome::Hit(4),
    ]
}

/// A sequence of calls over a few keys, from a linear congruential generator.
fn pseudo_random(seed: u64, len: usize, keys: u64) -> Vec<Op> {
    let mut state = seed;
    let mut ops = Vec::new();
    for _ in 0..len {
        state = state.wrapping_mul(6364136223846793005).wrapping_add(1442695040888963407);
        let key = ((state >> 33) % keys) as i32;
        let value = ((state >> 20) % 1000) as i32 - 500;
        if (state >> 60) % 2 == 0 {
            ops.push(Op::Get(key));
        } else {
            ops.push(Op::Put(key, value));
        }
    }
    ops
}

#[test]
fn apply_reports_each_kind_of_outcome() {
    let mut cache = ManualLRUCache::new(1).unwrap();
    assert_eq!(apply(&mut cache, Op::Get(1)), Outcome::Miss);
    assert_eq!(apply(&mut cache, Op::Put(1, 5)), Outcome::Stored);
    assert_eq!(apply(&mut cache, Op::Get(1)), Outcome::Hit(5));
    assert_eq!(apply(&mut cache, Op::Put(2, -1)), Outcome::Stored);
    assert_eq!(apply(&mut cache, Op::Get(1)), Outcome::Miss);
    assert_eq!(apply(&mut cache, Op::Get(2)), Outcome::Hit(-1));
}

#[test]
fn replay_of_the_scenario_on_the_reference_cache() {
    let mut cache = SimpleVecLRUCache::new(2).unwrap();
    assert_eq!(replay(&mut cache, &scenario()), scenario_outcomes());
}

#[test]
fn replay_of_the_scenario_on_the_arena_cache() {
    let mut cache = ManualLRUCache::new(2).unwrap();
    assert_eq!(replay(&mut cache, &scenario()), scenario_outcomes());
}

#[test]
fn replay_of_nothing_reports_nothing() {
    let mut cache = ManualLRUCache::new(2).unwrap();
    assert_eq!(replay(&mut cache, &[]), Vec::<Outcome>::new());
}

#[test]
fn replay_leaves_the_cache_in_the_state_after_the_calls() {
    let mut cache = SimpleVecLRUCache::new(2).unwrap();
    replay(&mut cache, &[Op::Put(1, 1), Op::Put(2, 2), Op::Get(1), Op::Put(3, 3)]);
    assert_eq!(cache.lookup(2), None);
    assert_eq!(cache.lookup(1), Some(1));
    assert_eq!(cache.lookup(3), Some(3));
}

#[test]
fn both_caches_answer_the_scenario_alike() {
    let mut reference = SimpleVecLRUCache::new(2).unwrap();
    let mut arena = ManualLRUCache::new(2).unwrap();
    let (from_reference, from_arena) = replay_both(&mut reference, &mut arena, &scenario());
    assert_eq!(from_reference, scenario_outcomes());
    assert_eq!(from_arena, scenario_outcomes());
}

#[test]
fn both_caches_answer_long_sequences_alike() {
    for capacity in 1..6usize {
        for seed in 0..20u64 {
            let ops = pseudo_random(seed * 7919 + capacity as u64, 400, 9);
            let mut reference = SimpleVecLRUCache::new(capacity).unwrap();
            let mut arena = ManualLRUCache::new(capacity).unwrap();
            let (from_reference, from_arena) = replay_both(&mut reference, &mut arena, &ops);
            assert_eq!(from_reference.len(), ops.len());
            assert_eq!(from_reference, from_arena);
            // Both caches hold the same entries afterwards.
            for key in 0..9 {
                assert_eq!(reference.lookup(key), arena.lookup(key));
            }
        }
    }
}

#[test]
fn the_trait_serves_both_caches() {
    fn fill<C: LruCache>(cache: &mut C) -> i32 {
        cache.put(1, 11);
        cache.put(2, 22);
        cache.put(3, 33);
        cache.get(1) + cache.get(3) + cache.lookup(2).unwrap_or(0)
    }
    let mut reference = SimpleVecLRUCache::new(2).unwrap();
    let mut arena = ManualLRUCache::new(2).unwrap();
    // Key 1 is evicted by the third put; keys 2 and 3 stay.
    assert_eq!(fill(&mut reference), -1 + 33 + 22);
    assert_eq!(fill(&mut arena), -1 + 33 + 22);
}
