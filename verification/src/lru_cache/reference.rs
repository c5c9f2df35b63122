//! The reference cache: a hash index and a list of keys in recency order.
//!
//! Every touch searches the list, so an operation costs time linear in the
//! number of resident keys. The cache is the plainest one that follows the
//! model and serves as the yardstick for the arena cache.
use super::error::CacheError;
use super::order::{lemma_drop_first, lemma_move_to_back, lemma_push_fresh, lemma_remove};
use super::state::{lemma_position_unique, LruState, MISS};
use std::collections::HashMap;
use vstd::prelude::*;

verus! {

broadcast use vstd::std_specs::hash::group_hash_axioms;

/// `order` without its occurrence of `key`, if it has one.
spec fn without(order: Seq<i32>, key: i32) -> Seq<i32> {
    if order.contains(key) {
        order.remove(order.index_of(key))
    } else {
        order
    }
}

/// A least-recently-used cache over a hash index and a recency list.
pub struct SimpleVecLRUCache {
    capacity: usize,
    map: HashMap<i32, i32>,
    order: Vec<i32>,
}

impl View for SimpleVecLRUCache {
    type V = LruState;

    /// The keys of the recency list, each with the value that the index holds
    /// for it.
    closed spec fn view(&self) -> LruState {
        LruState {
            capacity: self.capacity as nat,
            entries: Seq::new(
                self.order@.len(),
                |i: int| (self.order@[i], self.map@[self.order@[i]]),
            ),
        }
    }
}

impl SimpleVecLRUCache {
    /// The recency list names each indexed key once and no other key, and is
    /// no longer than the positive capacity.
    pub closed spec fn wf(&self) -> bool {
        &&& self.capacity >= 1
        &&& self.order@.len() <= self.capacity
        &&& self.order@.no_duplicates()
        &&& self.map@.dom() =~= self.order@.to_set()
    }

    /// A well-formed cache shows a well-formed state.
    pub proof fn lemma_view_wf(&self)
        requires
            self.wf(),
        ensures
            self@.wf(),
    {
    }

    /// The state names exactly the indexed keys, each with its indexed value
    /// and at its place in the recency list.
    proof fn lemma_resident(&self, key: i32)
        requires
            self.wf(),
        ensures
            self@.wf(),
            self@.len() == self.map@.len(),
            self@.len() == self.order@.len(),
            self@.contains(key) <==> self.map@.contains_key(key),
            self.map@.contains_key(key) ==> {
                &&& self.order@.contains(key)
                &&& self@.position(key) == self.order@.index_of(key)
                &&& self@.value(key) == self.map@[key]
            },
    {
        self.order@.unique_seq_to_set();
        if self.map@.contains_key(key) {
            assert(self.order@.to_set().contains(key));
            let i = self.order@.index_of(key);
            assert(self@.entries[i].0 == key);
            lemma_position_unique(self@, i);
        }
        if self@.contains(key) {
            let i = choose|i: int| 0 <= i < self@.entries.len() && self@.entries[i].0 == key;
            assert(self.order@[i] == key);
            assert(self.order@.contains(key));
            assert(self.order@.to_set().contains(key));
        }
    }

    /// What the fields look like once a resident key has been given `value`
    /// and moved to the back of the recency list.
    proof fn lemma_promoted(before: Self, after: Self, key: i32, value: i32)
        requires
            before.wf(),
            before.map@.contains_key(key),
            after.capacity == before.capacity,
            after.map@ == before.map@.insert(key, value),
            after.order@ == without(before.order@, key).push(key),
        ensures
            after.wf(),
            after@ == before@.promote(key, value),
    {
        before.lemma_resident(key);
        let p = before.order@.index_of(key);
        lemma_move_to_back(before.order@, p);
        lemma_remove(before.order@, p);
        assert(before.map@.dom().insert(key) =~= before.map@.dom());
        assert(after@.entries =~= before@.promote(key, value).entries);
    }

    /// Builds an empty cache; a capacity of zero is rejected.
    pub fn new(capacity: usize) -> (res: Result<Self, CacheError>)
        ensures
            res is Err <==> capacity == 0,
            res matches Err(e) ==> e == CacheError::InvalidArgument,
            res matches Ok(cache) ==> {
                &&& cache.wf()
                &&& cache@.wf()
                &&& cache@ == LruState::empty(capacity as nat)
            },
    {
        if capacity < 1 {
            return Err(CacheError::InvalidArgument);
        }
        let cache = Self {
            capacity,
            map: HashMap::with_capacity(capacity),
            order: Vec::with_capacity(capacity),
        };
        assert(cache.map@.dom() =~= cache.order@.to_set());
        assert(cache@.entries =~= Seq::empty());
        Ok(cache)
    }

    /// Moves `key` to the most recently used end of the recency list, or
    /// appends it if the list does not name it.
    fn touch(&mut self, key: i32)
        requires
            old(self).order@.no_duplicates(),
        ensures
            final(self).capacity == old(self).capacity,
            final(self).map == old(self).map,
            final(self).order@ == without(old(self).order@, key).push(key),
    {
        let n = self.order.len();
        let mut pos: usize = 0;
        while pos < n && self.order[pos] != key
            invariant
                pos <= n,
                n == self.order@.len(),
                forall|j: int| 0 <= j < pos ==> self.order@[j] != key,
            decreases n - pos,
        {
            pos += 1;
        }
        if pos < n {
            assert(self.order@.contains(key));
            assert(self.order@.index_of(key) == pos as int);
            self.order.remove(pos);
        } else {
            assert(!self.order@.contains(key));
        }
        self.order.push(key);
    }

    /// Looks `key` up; a hit makes it the most recently used key.
    pub fn lookup(&mut self, key: i32) -> (result: Option<i32>)
        requires
            old(self).wf(),
        ensures
            final(self).wf(),
            final(self)@.wf(),
            final(self)@ == old(self)@.after_get(key),
            result == old(self)@.lookup(key),
    {
        proof {
            self.lemma_resident(key);
        }
        if let Some(found) = self.map.get(&key) {
            let value = *found;
            self.touch(key);
            proof {
                assert(old(self).map@.insert(key, value) =~= old(self).map@);
                Self::lemma_promoted(*old(self), *self, key, value);
            }
            Some(value)
        } else {
            None
        }
    }

    /// The value stored under `key`, which becomes the most recently used
    /// key, or [`MISS`] if the key is not resident.
    pub fn get(&mut self, key: i32) -> (result: i32)
        requires
            old(self).wf(),
        ensures
            final(self).wf(),
            final(self)@.wf(),
            final(self)@ == old(self)@.after_get(key),
            result == match old(self)@.lookup(key) {
                Some(value) => value,
                None => MISS,
            },
    {
        match self.lookup(key) {
            Some(value) => value,
            None => MISS,
        }
    }

    /// Stores `value` under `key` and makes the key the most recently used;
    /// a new key pushes out the least recently used entry if the cache is
    /// full.
    pub fn put(&mut self, key: i32, value: i32)
        requires
            old(self).wf(),
        ensures
            final(self).wf(),
            final(self)@.wf(),
            final(self)@ == old(self)@.after_put(key, value),
    {
        proof {
            self.lemma_resident(key);
        }
        if self.map.contains_key(&key) {
            self.map.insert(key, value);
            self.touch(key);
            proof {
                Self::lemma_promoted(*old(self), *self, key, value);
            }
        } else {
            if self.map.len() == self.capacity {
                let lru = self.order.remove(0);
                self.map.remove(&lru);
                proof {
                    lemma_drop_first(old(self).order@);
                    assert(self.order@ == old(self).order@.drop_first());
                    assert(self.map@.dom() =~= self.order@.to_set());
                }
            }
            self.map.insert(key, value);
            self.order.push(key);
            proof {
                let kept = if old(self)@.len() >= old(self)@.capacity {
                    old(self).order@.drop_first()
                } else {
                    old(self).order@
                };
                assert(!kept.contains(key)) by {
                    if kept.contains(key) {
                        assert(kept.to_set().contains(key));
                    }
                }
                lemma_push_fresh(kept, key);
                assert(self.map@.dom() =~= self.order@.to_set());
                assert(self@.entries =~= old(self)@.after_put(key, value).entries);
            }
        }
    }
}

} // verus!
