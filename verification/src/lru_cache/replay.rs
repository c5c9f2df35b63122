//! One interface over both caches, and a harness that replays a sequence of
//! calls through any cache behind it.
use super::arena::ManualLRUCache;
use super::reference::SimpleVecLRUCache;
use super::state::{LruState, Op, Outcome, MISS};
use vstd::prelude::*;

verus! {

/// What a least-recently-used cache offers once it is built. The state that
/// a cache shows is its view; every method is specified by what the model
/// says of that state.
pub trait LruCache: View<V = LruState> + Sized {
    /// What the cache keeps true of itself between calls.
    spec fn inv(&self) -> bool;

    /// A cache that keeps its invariant shows a well-formed state: no more
    /// resident keys than its capacity, and none of them twice.
    proof fn lemma_inv(&self)
        requires
            self.inv(),
        ensures
            self@.wf(),
    ;

    /// Looks `key` up; a hit makes it the most recently used key.
    fn lookup(&mut self, key: i32) -> (result: Option<i32>)
        requires
            old(self).inv(),
        ensures
            final(self).inv(),
            final(self)@.wf(),
            final(self)@ == old(self)@.after_get(key),
            result == old(self)@.lookup(key),
    ;

    /// The value stored under `key`, which becomes the most recently used
    /// key, or [`MISS`] if the key is not resident.
    fn get(&mut self, key: i32) -> (result: i32)
        requires
            old(self).inv(),
        ensures
            final(self).inv(),
            final(self)@.wf(),
            final(self)@ == old(self)@.after_get(key),
            result == match old(self)@.lookup(key) {
                Some(value) => value,
                None => MISS,
            },
    ;

    /// Stores `value` under `key` and makes the key the most recently used;
    /// a new key pushes out the least recently used entry if the cache is
    /// full.
    fn put(&mut self, key: i32, value: i32)
        requires
            old(self).inv(),
        ensures
            final(self).inv(),
            final(self)@.wf(),
            final(self)@ == old(self)@.after_put(key, value),
    ;
}

impl LruCache for SimpleVecLRUCache {
    open spec fn inv(&self) -> bool {
        self.wf()
    }

    proof fn lemma_inv(&self) {
        self.lemma_view_wf();
    }

    fn lookup(&mut self, key: i32) -> (result: Option<i32>) {
        SimpleVecLRUCache::lookup(self, key)
    }

    fn get(&mut self, key: i32) -> (result: i32) {
        SimpleVecLRUCache::get(self, key)
    }

    fn put(&mut self, key: i32, value: i32) {
        SimpleVecLRUCache::put(self, key, value)
    }
}

impl LruCache for ManualLRUCache {
    open spec fn inv(&self) -> bool {
        self.wf()
    }

    proof fn lemma_inv(&self) {
        self.lemma_view_wf();
    }

    fn lookup(&mut self, key: i32) -> (result: Option<i32>) {
        ManualLRUCache::lookup(self, key)
    }

    fn get(&mut self, key: i32) -> (result: i32) {
        ManualLRUCache::get(self, key)
    }

    fn put(&mut self, key: i32, value: i32) {
        ManualLRUCache::put(self, key, value)
    }
}

/// Makes one call on a cache and reports what the call showed.
pub fn apply<C: LruCache>(cache: &mut C, op: Op) -> (out: Outcome)
    requires
        old(cache).inv(),
    ensures
        final(cache).inv(),
        final(cache)@.wf(),
        final(cache)@ == old(cache)@.step(op),
        out == old(cache)@.outcome(op),
{
    match op {
        Op::Get(key) => match cache.lookup(key) {
            Some(value) => Outcome::Hit(value),
            None => Outcome::Miss,
        },
        Op::Put(key, value) => {
            cache.put(key, value);
            Outcome::Stored
        },
    }
}

/// Makes the calls of `ops` on a cache, in order, and reports what each
/// call showed.
pub fn replay<C: LruCache>(cache: &mut C, ops: &[Op]) -> (outs: Vec<Outcome>)
    requires
        old(cache).inv(),
    ensures
        final(cache).inv(),
        final(cache)@.wf(),
        final(cache)@ == old(cache)@.run(ops@),
        outs@ == old(cache)@.outcomes(ops@),
{
    let ghost start = cache@;
    let mut outs: Vec<Outcome> = Vec::new();
    assert(ops@.take(0) =~= Seq::empty());
    for i in 0..ops.len()
        invariant
            cache.inv(),
            cache@ == start.run(ops@.take(i as int)),
            outs@.len() == i,
            forall|j: int|
                0 <= j < i ==> #[trigger] outs@[j] == start.run(ops@.take(j)).outcome(ops@[j]),
    {
        proof {
            let next = ops@.take(i + 1);
            assert(next.drop_last() =~= ops@.take(i as int));
            assert(next.last() == ops@[i as int]);
        }
        let out = apply(cache, ops[i]);
        outs.push(out);
    }
    proof {
        cache.lemma_inv();
        assert(ops@.take(ops@.len() as int) =~= ops@);
        assert(outs@ =~= start.outcomes(ops@));
    }
    outs
}

/// Replays `ops` through a reference cache and an arena cache that show the
/// same state. Call by call, both show the same outcome, and they show the
/// same state again at the end.
pub fn replay_both(
    reference: &mut SimpleVecLRUCache,
    arena: &mut ManualLRUCache,
    ops: &[Op],
) -> (outs: (Vec<Outcome>, Vec<Outcome>))
    requires
        old(reference).wf(),
        old(arena).wf(),
        old(reference)@ == old(arena)@,
    ensures
        final(reference).wf(),
        final(arena).wf(),
        final(reference)@ == final(arena)@,
        outs.0@ == outs.1@,
        outs.0@ == old(reference)@.outcomes(ops@),
{
    let from_reference = replay(reference, ops);
    let from_arena = replay(arena, ops);
    (from_reference, from_arena)
}

} // verus!
