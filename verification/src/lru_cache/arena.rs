//! The arena cache: a hash index over a fixed pool of slots.
//!
//! The pool holds `capacity + 2` slots. Slots 0 and 1 are sentinels that
//! bracket a doubly linked chain of the active slots, ordered from the least
//! to the most recently used. The unused slots form a singly linked free
//! list threaded through their `next` field. Every operation rewrites a
//! bounded number of links and allocates nothing.
use super::error::CacheError;
use super::order::{lemma_drop_first, lemma_move_to_back, lemma_push_fresh, lemma_remove};
use super::state::{lemma_position_unique, LruState, MISS};
use std::collections::HashMap;
use vstd::prelude::*;

verus! {

broadcast use vstd::std_specs::hash::group_hash_axioms;

/// The sentinel slot in front of the least recently used entry.
pub const HEAD: usize = 0;

/// The sentinel slot behind the most recently used entry.
pub const TAIL: usize = 1;

/// The link that ends the free list.
pub const NIL: usize = usize::MAX;

/// `slots` once `slot`, which is one of them, has moved to the back.
pub open spec fn moved_to_back(slots: Seq<usize>, slot: usize) -> Seq<usize> {
    slots.remove(slots.index_of(slot)).push(slot)
}

/// One slot of the pool.
#[derive(Clone, Copy)]
struct Node {
    key: i32,
    value: i32,
    prev: usize,
    next: usize,
}

/// Whether `idx` addresses a slot that can hold an entry.
spec fn is_slot(pool: Seq<Node>, idx: usize) -> bool {
    2 <= idx < pool.len()
}

/// The slot in front of position `i` of the chain.
spec fn before(chain: Seq<usize>, i: int) -> usize {
    if i <= 0 {
        HEAD
    } else {
        chain[i - 1]
    }
}

/// The slot behind position `i` of the chain.
spec fn after(chain: Seq<usize>, i: int) -> usize {
    if i + 1 >= chain.len() {
        TAIL
    } else {
        chain[i + 1]
    }
}

/// The slot at position `i` of the chain points at both its neighbours.
spec fn linked(pool: Seq<Node>, chain: Seq<usize>, i: int) -> bool {
    &&& pool[chain[i] as int].prev == before(chain, i)
    &&& pool[chain[i] as int].next == after(chain, i)
}

/// The links of the pool spell out `chain` between the two sentinels, in
/// both directions.
spec fn chain_wf(pool: Seq<Node>, chain: Seq<usize>) -> bool {
    &&& pool.len() >= 2
    &&& chain.no_duplicates()
    &&& forall|i: int| 0 <= i < chain.len() ==> is_slot(pool, #[trigger] chain[i])
    &&& pool[HEAD as int].next == after(chain, -1)
    &&& pool[TAIL as int].prev == before(chain, chain.len() as int)
    &&& forall|i: int| 0 <= i < chain.len() ==> #[trigger] linked(pool, chain, i)
}

/// The slot that the free list visits after position `i`.
spec fn free_after(free: Seq<usize>, i: int) -> usize {
    if i + 1 >= free.len() {
        NIL
    } else {
        free[i + 1]
    }
}

/// The slot at position `i` of the free list points at the next free slot.
spec fn free_linked(pool: Seq<Node>, free: Seq<usize>, i: int) -> bool {
    pool[free[i] as int].next == free_after(free, i)
}

/// The `next` links spell out `free`, starting at `free_head`.
spec fn free_wf(pool: Seq<Node>, free: Seq<usize>, free_head: usize) -> bool {
    &&& free.no_duplicates()
    &&& forall|i: int| 0 <= i < free.len() ==> is_slot(pool, #[trigger] free[i])
    &&& free_head == free_after(free, -1)
    &&& forall|i: int| 0 <= i < free.len() ==> #[trigger] free_linked(pool, free, i)
}

/// The pool once the two neighbours of slot `idx` point at each other: two
/// links are rewritten, and the links of `idx` itself stay as they were.
spec fn unlinked(pool: Seq<Node>, idx: usize) -> Seq<Node> {
    let prev = pool[idx as int].prev;
    let next = pool[idx as int].next;
    let joined = pool.update(prev as int, Node { next, ..pool[prev as int] });
    joined.update(next as int, Node { prev, ..joined[next as int] })
}

/// The pool once slot `idx` stands between the tail sentinel and the slot
/// that stood in front of it: four links are rewritten.
spec fn spliced(pool: Seq<Node>, idx: usize) -> Seq<Node> {
    let prev = pool[TAIL as int].prev;
    let forward = pool.update(prev as int, Node { next: idx, ..pool[prev as int] });
    let own = forward.update(idx as int, Node { prev, next: TAIL, ..forward[idx as int] });
    own.update(TAIL as int, Node { prev: idx, ..own[TAIL as int] })
}

/// The pool once slot `idx` points at `free_head`: the one link that puts
/// the slot in front of the free list.
spec fn released(pool: Seq<Node>, idx: usize, free_head: usize) -> Seq<Node> {
    pool.update(idx as int, Node { next: free_head, ..pool[idx as int] })
}

/// The index names exactly the keys of the active slots, each with its slot.
spec fn index_wf(pool: Seq<Node>, chain: Seq<usize>, map: Map<i32, usize>) -> bool {
    &&& forall|i: int|
        0 <= i < chain.len() ==> {
            &&& map.contains_key(pool[#[trigger] chain[i] as int].key)
            &&& map[pool[chain[i] as int].key] == chain[i]
        }
    &&& forall|k: i32| #[trigger]
        map.contains_key(k) ==> chain.contains(map[k]) && pool[map[k] as int].key == k
}

/// Two pools hold the same key and value in every slot.
spec fn same_payload(a: Seq<Node>, b: Seq<Node>) -> bool {
    &&& a.len() == b.len()
    &&& forall|j: int| 0 <= j < a.len() ==> a[j].key == b[j].key && a[j].value == b[j].value
}

/// Two pools hold the same links in every slot.
spec fn same_links(a: Seq<Node>, b: Seq<Node>) -> bool {
    &&& a.len() == b.len()
    &&& forall|j: int| 0 <= j < a.len() ==> a[j].prev == b[j].prev && a[j].next == b[j].next
}

/// Writing keys and values leaves both lists as they are.
proof fn lemma_same_links(
    a: Seq<Node>,
    b: Seq<Node>,
    chain: Seq<usize>,
    free: Seq<usize>,
    free_head: usize,
)
    requires
        same_links(a, b),
        chain_wf(a, chain),
        free_wf(a, free, free_head),
    ensures
        chain_wf(b, chain),
        free_wf(b, free, free_head),
{
    assert forall|i: int| 0 <= i < chain.len() implies #[trigger] linked(b, chain, i) by {
        assert(linked(a, chain, i));
    }
    assert forall|i: int| 0 <= i < free.len() implies #[trigger] free_linked(b, free, i) by {
        assert(free_linked(a, free, i));
    }
}

/// A least-recently-used cache over a hash index and a fixed pool of slots.
pub struct ManualLRUCache {
    capacity: usize,
    pool: Vec<Node>,
    map: HashMap<i32, usize>,
    free_head: usize,
    /// The active slots, least recently used first.
    chain: Ghost<Seq<usize>>,
    /// The free slots, in the order in which the free list visits them.
    free: Ghost<Seq<usize>>,
}

impl View for ManualLRUCache {
    type V = LruState;

    /// The key and value of each active slot, in the order of the chain.
    closed spec fn view(&self) -> LruState {
        LruState {
            capacity: self.capacity as nat,
            entries: Seq::new(
                self.chain@.len(),
                |i: int| (self.pool@[self.chain@[i] as int].key, self.pool@[self.chain@[i] as int].value),
            ),
        }
    }
}

impl ManualLRUCache {
    /// The chain and the free list are sound and share no slot.
    spec fn lists_wf(&self) -> bool {
        &&& self.pool@.len() == self.capacity + 2
        &&& chain_wf(self.pool@, self.chain@)
        &&& free_wf(self.pool@, self.free@, self.free_head)
        &&& forall|i: int, j: int|
            0 <= i < self.chain@.len() && 0 <= j < self.free@.len() ==> self.chain@[i]
                != self.free@[j]
    }

    /// The chain and the free list are sound, every slot that can hold an
    /// entry is on exactly one of them, and the index names exactly the keys
    /// of the chain.
    pub closed spec fn wf(&self) -> bool {
        &&& self.capacity >= 1
        &&& self.lists_wf()
        &&& self.chain@.len() + self.free@.len() == self.capacity
        &&& forall|s: usize|
            is_slot(self.pool@, s) ==> self.chain@.contains(s) || self.free@.contains(s)
        &&& index_wf(self.pool@, self.chain@, self.map@)
    }

    /// A well-formed cache shows a well-formed state.
    pub proof fn lemma_view_wf(&self)
        requires
            self.wf(),
        ensures
            self@.wf(),
    {
        self.lemma_resident(0);
    }

    /// The number of slots in the pool, the two sentinels included.
    pub closed spec fn slot_count(&self) -> nat {
        self.pool@.len()
    }

    /// The slots that hold an entry, least recently used first.
    pub closed spec fn active_slots(&self) -> Seq<usize> {
        self.chain@
    }

    /// The slots that hold no entry, in the order in which the free list
    /// hands them out.
    pub closed spec fn free_slots(&self) -> Seq<usize> {
        self.free@
    }

    /// The slot that the free list hands out next, or [`NIL`].
    pub closed spec fn first_free(&self) -> usize {
        self.free_head
    }

    /// The hash index: the slot of each resident key.
    pub closed spec fn index(&self) -> Map<i32, usize> {
        self.map@
    }

    /// The key written in `slot`.
    pub closed spec fn slot_key(&self, slot: usize) -> i32 {
        self.pool@[slot as int].key
    }

    /// The value written in `slot`.
    pub closed spec fn slot_value(&self, slot: usize) -> i32 {
        self.pool@[slot as int].value
    }

    /// The backward link of `slot`.
    pub closed spec fn slot_prev(&self, slot: usize) -> usize {
        self.pool@[slot as int].prev
    }

    /// The forward link of `slot`.
    pub closed spec fn slot_next(&self, slot: usize) -> usize {
        self.pool@[slot as int].next
    }

    /// The chain as the links walk it: the head sentinel, the active slots
    /// and the tail sentinel.
    pub open spec fn ring(&self) -> Seq<usize> {
        seq![HEAD] + self.active_slots() + seq![TAIL]
    }

    /// What a well-formed cache keeps true of its pool, its two lists and
    /// its index.
    pub proof fn lemma_invariants(&self)
        requires
            self.wf(),
        ensures
            self@.wf(),
            self.slot_count() == self@.capacity + 2,
            // The index names exactly the keys of the active slots.
            self.index().dom().finite(),
            forall|k: i32| #[trigger]
                self.index().contains_key(k) ==> self.active_slots().contains(self.index()[k])
                    && self.slot_key(self.index()[k]) == k,
            forall|i: int|
                0 <= i < self.active_slots().len() ==> self.index().contains_key(
                    self.slot_key(#[trigger] self.active_slots()[i]),
                ) && self.index()[self.slot_key(self.active_slots()[i])]
                    == self.active_slots()[i],
            // As many slots are active as keys are indexed: no more than the capacity.
            self.active_slots().len() == self.index().len(),
            self.active_slots().len() == self@.len(),
            self.active_slots().len() + self.free_slots().len() == self@.capacity,
            // The forward and the backward links agree along the chain,
            // sentinels included.
            forall|i: int|
                0 <= i < self.ring().len() - 1 ==> self.slot_next(#[trigger] self.ring()[i])
                    == self.ring()[i + 1] && self.slot_prev(self.ring()[i + 1])
                    == self.ring()[i],
            // The free list is threaded through the forward links.
            self.first_free() == if self.free_slots().len() == 0 {
                NIL
            } else {
                self.free_slots()[0]
            },
            forall|i: int|
                0 <= i < self.free_slots().len() ==> self.slot_next(
                    #[trigger] self.free_slots()[i],
                ) == if i + 1 == self.free_slots().len() {
                    NIL
                } else {
                    self.free_slots()[i + 1]
                },
            // Every slot but the sentinels is active or free, never both.
            self.active_slots().no_duplicates(),
            self.free_slots().no_duplicates(),
            forall|s: usize|
                2 <= s < self.slot_count() <==> self.active_slots().contains(s)
                    || self.free_slots().contains(s),
            forall|s: usize| !(self.active_slots().contains(s) && self.free_slots().contains(s)),
            // The state is what the active slots hold, in the order of the chain.
            forall|i: int|
                0 <= i < self@.entries.len() ==> #[trigger] self@.entries[i] == (
                    self.slot_key(self.active_slots()[i]),
                    self.slot_value(self.active_slots()[i]),
                ),
    {
        self.lemma_resident(0);
        let chain = self.chain@;
        let free = self.free@;
        let ring = self.ring();
        assert forall|i: int| 0 <= i < ring.len() - 1 implies self.slot_next(#[trigger] ring[i])
            == ring[i + 1] && self.slot_prev(ring[i + 1]) == ring[i] by {
            if i > 0 {
                assert(linked(self.pool@, chain, i - 1));
            }
            if i < chain.len() {
                assert(linked(self.pool@, chain, i));
            }
        }
        assert forall|i: int| 0 <= i < free.len() implies self.slot_next(#[trigger] free[i])
            == if i + 1 == free.len() {
            NIL
        } else {
            free[i + 1]
        } by {
            assert(free_linked(self.pool@, free, i));
        }
        assert forall|s: usize| chain.contains(s) || free.contains(s) implies 2 <= s
            < self.slot_count() by {
            if chain.contains(s) {
                assert(is_slot(self.pool@, chain[chain.index_of(s)]));
            } else {
                assert(is_slot(self.pool@, free[free.index_of(s)]));
            }
        }
        assert forall|s: usize| !(chain.contains(s) && free.contains(s)) by {
            if chain.contains(s) && free.contains(s) {
                assert(chain[chain.index_of(s)] != free[free.index_of(s)]);
            }
        }
    }

    /// The state names exactly the indexed keys, each with the value of its
    /// slot and at the place of its slot in the chain.
    proof fn lemma_resident(&self, key: i32)
        requires
            self.wf(),
        ensures
            self@.wf(),
            self@.len() == self.map@.len(),
            self@.len() == self.chain@.len(),
            self@.contains(key) <==> self.map@.contains_key(key),
            self.map@.contains_key(key) ==> {
                &&& self.chain@.contains(self.map@[key])
                &&& self@.position(key) == self.chain@.index_of(self.map@[key])
                &&& self@.value(key) == self.pool@[self.map@[key] as int].value
            },
    {
        let pool = self.pool@;
        let chain = self.chain@;
        let map = self.map@;
        let keys = Seq::new(chain.len(), |i: int| pool[chain[i] as int].key);
        assert forall|i: int, j: int| 0 <= i < keys.len() && 0 <= j < keys.len() && i
            != j implies keys[i] != keys[j] by {
            assert(map[pool[chain[i] as int].key] == chain[i]);
            assert(map[pool[chain[j] as int].key] == chain[j]);
        }
        assert forall|k: i32| keys.to_set().contains(k) <==> map.dom().contains(k) by {
            if keys.contains(k) {
                let i = choose|i: int| 0 <= i < keys.len() && keys[i] == k;
                assert(map.contains_key(pool[chain[i] as int].key));
            }
            if map.contains_key(k) {
                let i = chain.index_of(map[k]);
                assert(keys[i] == k);
            }
        }
        assert(keys.to_set() =~= map.dom());
        keys.unique_seq_to_set();
        assert forall|i: int, j: int| 0 <= i < j < self@.entries.len() implies self@.entries[i].0
            != self@.entries[j].0 by {
            assert(keys[i] != keys[j]);
        }
        if map.contains_key(key) {
            let i = chain.index_of(map[key]);
            assert(self@.entries[i].0 == key);
            lemma_position_unique(self@, i);
        }
        if self@.contains(key) {
            let i = choose|i: int| 0 <= i < self@.entries.len() && self@.entries[i].0 == key;
            assert(map.contains_key(pool[chain[i] as int].key));
        }
    }

    /// Builds an empty cache; a capacity of zero is rejected.
    pub fn new(capacity: usize) -> (res: Result<Self, CacheError>)
        requires
            capacity + 2 <= usize::MAX,
        ensures
            res is Err <==> capacity == 0,
            res matches Err(e) ==> e == CacheError::InvalidArgument,
            res matches Ok(cache) ==> {
                &&& cache.wf()
                &&& cache@.wf()
                &&& cache@ == LruState::empty(capacity as nat)
                &&& cache.active_slots() == Seq::<usize>::empty()
                &&& cache.free_slots() == Seq::new(capacity as nat, |j: int| (j + 2) as usize)
            },
    {
        if capacity < 1 {
            return Err(CacheError::InvalidArgument);
        }
        let mut pool = Vec::with_capacity(capacity + 2);
        pool.push(Node { key: 0, value: 0, prev: HEAD, next: TAIL });
        pool.push(Node { key: 0, value: 0, prev: HEAD, next: TAIL });
        for i in 2..capacity + 2
            invariant
                capacity + 2 <= usize::MAX,
                pool@.len() == i,
                pool@[HEAD as int].next == TAIL,
                pool@[TAIL as int].prev == HEAD,
                forall|j: int|
                    2 <= j < i ==> (#[trigger] pool@[j]).next == if j + 1 < capacity + 2 {
                        (j + 1) as usize
                    } else {
                        NIL
                    },
        {
            pool.push(
                Node {
                    key: 0,
                    value: 0,
                    prev: HEAD,
                    next: if i + 1 < capacity + 2 {
                        i + 1
                    } else {
                        NIL
                    },
                },
            );
        }
        let cache = Self {
            capacity,
            pool,
            map: HashMap::with_capacity(capacity),
            free_head: 2,
            chain: Ghost(Seq::empty()),
            free: Ghost(Seq::new(capacity as nat, |j: int| (j + 2) as usize)),
        };
        proof {
            let free = cache.free@;
            assert forall|i: int| 0 <= i < free.len() implies #[trigger] free_linked(
                cache.pool@,
                free,
                i,
            ) by {
                assert(cache.pool@[i + 2].next == free_after(free, i));
            }
            assert forall|s: usize| is_slot(cache.pool@, s) implies free.contains(s) by {
                assert(free[s - 2] == s);
            }
            assert(cache@.entries =~= Seq::empty());
        }
        Ok(cache)
    }

    /// Takes the active slot `idx` out of the chain by joining its two
    /// neighbours.
    fn remove(&mut self, idx: usize)
        requires
            old(self).lists_wf(),
            old(self).chain@.contains(idx),
        ensures
            final(self).lists_wf(),
            final(self).chain@ == old(self).chain@.remove(old(self).chain@.index_of(idx)),
            final(self).free@ == old(self).free@,
            final(self).free_head == old(self).free_head,
            final(self).capacity == old(self).capacity,
            final(self).map == old(self).map,
            final(self).pool@ == unlinked(old(self).pool@, idx),
            same_payload(old(self).pool@, final(self).pool@),
    {
        let ghost p = self.chain@.index_of(idx);
        assert(linked(self.pool@, self.chain@, p));
        let prev = self.pool[idx].prev;
        let next = self.pool[idx].next;
        self.pool[prev].next = next;
        self.pool[next].prev = prev;
        proof {
            let chain = old(self).chain@;
            lemma_remove(chain, p);
            self.chain@ = chain.remove(p);
            let rest = self.chain@;
            assert forall|i: int| 0 <= i < rest.len() implies #[trigger] linked(
                self.pool@,
                rest,
                i,
            ) by {
                if i < p {
                    assert(linked(old(self).pool@, chain, i));
                } else {
                    assert(linked(old(self).pool@, chain, i + 1));
                }
            }
            assert forall|i: int| 0 <= i < self.free@.len() implies #[trigger] free_linked(
                self.pool@,
                self.free@,
                i,
            ) by {
                assert(free_linked(old(self).pool@, self.free@, i));
            }
        }
    }

    /// Links the slot `idx`, which is on neither list, in front of the tail
    /// sentinel: the place of the most recently used entry.
    fn add_before_tail(&mut self, idx: usize)
        requires
            old(self).lists_wf(),
            is_slot(old(self).pool@, idx),
            !old(self).chain@.contains(idx),
            !old(self).free@.contains(idx),
        ensures
            final(self).lists_wf(),
            final(self).chain@ == old(self).chain@.push(idx),
            final(self).free@ == old(self).free@,
            final(self).free_head == old(self).free_head,
            final(self).capacity == old(self).capacity,
            final(self).map == old(self).map,
            final(self).pool@ == spliced(old(self).pool@, idx),
            same_payload(old(self).pool@, final(self).pool@),
    {
        let ghost chain = self.chain@;
        let ghost n = chain.len() as int;
        proof {
            if n > 0 {
                assert(linked(self.pool@, chain, n - 1));
                assert(is_slot(self.pool@, chain[n - 1]));
            }
        }
        let prev = self.pool[TAIL].prev;
        self.pool[prev].next = idx;
        self.pool[idx].prev = prev;
        self.pool[idx].next = TAIL;
        self.pool[TAIL].prev = idx;
        proof {
            lemma_push_fresh(chain, idx);
            self.chain@ = chain.push(idx);
            let grown = self.chain@;
            assert forall|i: int| 0 <= i < grown.len() implies #[trigger] linked(
                self.pool@,
                grown,
                i,
            ) by {
                if i < n {
                    assert(linked(old(self).pool@, chain, i));
                    assert(chain.contains(chain[i]));
                }
            }
            assert forall|i: int| 0 <= i < grown.len() implies is_slot(
                self.pool@,
                #[trigger] grown[i],
            ) by {
                if i < n {
                    assert(is_slot(old(self).pool@, chain[i]));
                }
            }
            assert forall|i: int| 0 <= i < self.free@.len() implies #[trigger] free_linked(
                self.pool@,
                self.free@,
                i,
            ) by {
                assert(free_linked(old(self).pool@, self.free@, i));
                assert(self.free@.contains(self.free@[i]));
            }
            assert forall|i: int, j: int|
                0 <= i < grown.len() && 0 <= j < self.free@.len() implies grown[i]
                != self.free@[j] by {
                assert(self.free@.contains(self.free@[j]));
                if i < n {
                    assert(chain[i] != self.free@[j]);
                }
            }
        }
    }

    /// Takes the first slot off the free list.
    fn alloc_node(&mut self) -> (idx: usize)
        requires
            old(self).lists_wf(),
            old(self).free@.len() > 0,
        ensures
            final(self).lists_wf(),
            idx == old(self).free@[0],
            is_slot(final(self).pool@, idx),
            final(self).free@ == old(self).free@.drop_first(),
            final(self).free_head == old(self).pool@[idx as int].next,
            final(self).chain@ == old(self).chain@,
            final(self).capacity == old(self).capacity,
            final(self).map == old(self).map,
            final(self).pool == old(self).pool,
    {
        let ghost free = self.free@;
        assert(free_linked(self.pool@, free, 0));
        assert(is_slot(self.pool@, free[0]));
        let idx = self.free_head;
        self.free_head = self.pool[idx].next;
        proof {
            lemma_drop_first(free);
            self.free@ = free.drop_first();
            let rest = self.free@;
            assert forall|i: int| 0 <= i < rest.len() implies #[trigger] free_linked(
                self.pool@,
                rest,
                i,
            ) by {
                assert(free_linked(self.pool@, free, i + 1));
            }
            assert forall|i: int| 0 <= i < rest.len() implies is_slot(
                self.pool@,
                #[trigger] rest[i],
            ) by {
                assert(is_slot(self.pool@, free[i + 1]));
            }
            assert forall|i: int, j: int|
                0 <= i < self.chain@.len() && 0 <= j < rest.len() implies self.chain@[i]
                != rest[j] by {
                assert(self.chain@[i] != free[j + 1]);
            }
        }
        idx
    }

    /// Puts the slot `idx`, which is on neither list, at the front of the
    /// free list.
    fn free_node(&mut self, idx: usize)
        requires
            old(self).lists_wf(),
            is_slot(old(self).pool@, idx),
            !old(self).chain@.contains(idx),
            !old(self).free@.contains(idx),
        ensures
            final(self).lists_wf(),
            final(self).free@ == seq![idx] + old(self).free@,
            final(self).free_head == idx,
            final(self).chain@ == old(self).chain@,
            final(self).capacity == old(self).capacity,
            final(self).map == old(self).map,
            final(self).pool@ == released(old(self).pool@, idx, old(self).free_head),
            same_payload(old(self).pool@, final(self).pool@),
    {
        let ghost free = self.free@;
        self.pool[idx].next = self.free_head;
        self.free_head = idx;
        proof {
            self.free@ = seq![idx] + free;
            let grown = self.free@;
            assert forall|i: int, j: int|
                0 <= i < grown.len() && 0 <= j < grown.len() && i != j implies grown[i]
                != grown[j] by {
                if i > 0 {
                    assert(free.contains(free[i - 1]));
                }
                if j > 0 {
                    assert(free.contains(free[j - 1]));
                }
            }
            assert forall|i: int| 0 <= i < grown.len() implies #[trigger] free_linked(
                self.pool@,
                grown,
                i,
            ) by {
                if i > 0 {
                    assert(free_linked(old(self).pool@, free, i - 1));
                    assert(free.contains(free[i - 1]));
                }
            }
            assert forall|i: int| 0 <= i < grown.len() implies is_slot(
                self.pool@,
                #[trigger] grown[i],
            ) by {
                if i > 0 {
                    assert(is_slot(old(self).pool@, free[i - 1]));
                }
            }
            assert forall|i: int| 0 <= i < self.chain@.len() implies #[trigger] linked(
                self.pool@,
                self.chain@,
                i,
            ) by {
                assert(linked(old(self).pool@, self.chain@, i));
                assert(self.chain@.contains(self.chain@[i]));
            }
            assert forall|i: int, j: int|
                0 <= i < self.chain@.len() && 0 <= j < grown.len() implies self.chain@[i]
                != grown[j] by {
                assert(self.chain@.contains(self.chain@[i]));
                if j > 0 {
                    assert(self.chain@[i] != free[j - 1]);
                }
            }
        }
    }

    /// What the cache looks like once the slot of a resident key has been
    /// given `value` and moved to the back of the chain.
    proof fn lemma_promoted(before: Self, after: Self, key: i32, value: i32)
        requires
            before.wf(),
            before.map@.contains_key(key),
            after.lists_wf(),
            after.capacity == before.capacity,
            after.map@ == before.map@,
            after.free@ == before.free@,
            after.chain@ == before.chain@.remove(
                before.chain@.index_of(before.map@[key]),
            ).push(before.map@[key]),
            after.pool@.len() == before.pool@.len(),
            forall|j: int|
                0 <= j < before.pool@.len() ==> (#[trigger] after.pool@[j]).key
                    == before.pool@[j].key,
            forall|j: int|
                0 <= j < before.pool@.len() && j != before.map@[key] ==> (
                #[trigger] after.pool@[j]).value == before.pool@[j].value,
            after.pool@[before.map@[key] as int].value == value,
        ensures
            after.wf(),
            after@ == before@.promote(key, value),
    {
        before.lemma_resident(key);
        let chain = before.chain@;
        let idx = before.map@[key];
        let p = chain.index_of(idx);
        lemma_remove(chain, p);
        lemma_move_to_back(chain, p);
        let moved = after.chain@;
        assert forall|s: usize| is_slot(after.pool@, s) implies moved.contains(s)
            || after.free@.contains(s) by {
            if chain.contains(s) {
                assert(chain.to_set().contains(s));
                assert(moved.to_set().contains(s));
            }
        }
        assert forall|i: int| 0 <= i < moved.len() implies {
            &&& after.map@.contains_key(after.pool@[#[trigger] moved[i] as int].key)
            &&& after.map@[after.pool@[moved[i] as int].key] == moved[i]
        } by {
            assert(moved.to_set().contains(moved[i]));
            assert(chain.to_set().contains(moved[i]));
            let j = chain.index_of(moved[i]);
            assert(before.map@[before.pool@[chain[j] as int].key] == chain[j]);
        }
        assert forall|k: i32| #[trigger] after.map@.contains_key(k) implies moved.contains(
            after.map@[k],
        ) && after.pool@[after.map@[k] as int].key == k by {
            assert(chain.to_set().contains(before.map@[k]));
            assert(moved.to_set().contains(before.map@[k]));
        }
        assert(after@.entries =~= before@.promote(key, value).entries);
    }

    /// Looks `key` up; a hit makes it the most recently used key.
    pub fn lookup(&mut self, key: i32) -> (result: Option<i32>)
        requires
            old(self).wf(),
        ensures
            final(self).wf(),
            final(self)@.wf(),
            final(self)@ == old(self)@.after_get(key),
            result == old(self)@.lookup(key),
            final(self).index() == old(self).index(),
            final(self).free_slots() == old(self).free_slots(),
            final(self).active_slots() == if old(self)@.contains(key) {
                moved_to_back(old(self).active_slots(), old(self).index()[key])
            } else {
                old(self).active_slots()
            },
    {
        proof {
            self.lemma_resident(key);
        }
        if let Some(found) = self.map.get(&key) {
            let idx = *found;
            proof {
                lemma_remove(self.chain@, self.chain@.index_of(idx));
                assert(forall|j: int| 0 <= j < self.free@.len() ==> self.free@[j] != idx);
            }
            self.remove(idx);
            self.add_before_tail(idx);
            proof {
                Self::lemma_promoted(*old(self), *self, key, self.pool@[idx as int].value);
            }
            Some(self.pool[idx].value)
        } else {
            None
        }
    }

    /// The value stored under `key`, which becomes the most recently used
    /// key, or [`MISS`] if the key is not resident.
    pub fn get(&mut self, key: i32) -> (result: i32)
        requires
            old(self).wf(),
        ensures
            final(self).wf(),
            final(self)@.wf(),
            final(self)@ == old(self)@.after_get(key),
            result == match old(self)@.lookup(key) {
                Some(value) => value,
                None => MISS,
            },
            final(self).index() == old(self).index(),
            final(self).free_slots() == old(self).free_slots(),
            final(self).active_slots() == if old(self)@.contains(key) {
                moved_to_back(old(self).active_slots(), old(self).index()[key])
            } else {
                old(self).active_slots()
            },
    {
        match self.lookup(key) {
            Some(value) => value,
            None => MISS,
        }
    }

    /// What the cache looks like once a new key has been written into the
    /// slot `idx` and the slot has been linked at the back of the chain,
    /// after the front of the chain has made room where the cache was full.
    proof fn lemma_inserted(before: Self, after: Self, key: i32, value: i32, idx: usize)
        requires
            before.wf(),
            !before.map@.contains_key(key),
            after.lists_wf(),
            after.capacity == before.capacity,
            after.pool@.len() == before.pool@.len(),
            before.chain@.len() == before.capacity ==> {
                &&& idx == before.chain@[0]
                &&& after.chain@ == before.chain@.drop_first().push(idx)
                &&& after.free@ == before.free@
                &&& after.map@ == before.map@.remove(
                    before.pool@[before.chain@[0] as int].key,
                ).insert(key, idx)
            },
            before.chain@.len() != before.capacity ==> {
                &&& idx == before.free@[0]
                &&& after.chain@ == before.chain@.push(idx)
                &&& after.free@ == before.free@.drop_first()
                &&& after.map@ == before.map@.insert(key, idx)
            },
            forall|j: int|
                0 <= j < before.pool@.len() && j != idx ==> (#[trigger] after.pool@[j]).key
                    == before.pool@[j].key && after.pool@[j].value == before.pool@[j].value,
            after.pool@[idx as int].key == key,
            after.pool@[idx as int].value == value,
        ensures
            after.wf(),
            after@ == before@.after_put(key, value),
    {
        before.lemma_resident(key);
        let chain = before.chain@;
        let free = before.free@;
        let full = chain.len() == before.capacity;
        let kept = if full {
            chain.drop_first()
        } else {
            chain
        };
        let shift = if full {
            1int
        } else {
            0int
        };
        if full {
            lemma_drop_first(chain);
        } else {
            lemma_drop_first(free);
            assert(forall|i: int| 0 <= i < chain.len() ==> chain[i] != free[0]);
        }
        assert(forall|i: int| 0 <= i < kept.len() ==> kept[i] == chain[i + shift]);
        lemma_push_fresh(kept, idx);
        let grown = after.chain@;
        assert forall|s: usize| is_slot(after.pool@, s) implies grown.contains(s)
            || after.free@.contains(s) by {
            assert(grown[grown.len() - 1] == idx);
            if s != idx {
                if chain.contains(s) {
                    let i = chain.index_of(s);
                    assert(grown[i - shift] == s);
                } else {
                    let i = free.index_of(s);
                    assert(after.free@[i - (1 - shift)] == s);
                }
            }
        }
        assert forall|i: int| 0 <= i < grown.len() implies {
            &&& after.map@.contains_key(after.pool@[#[trigger] grown[i] as int].key)
            &&& after.map@[after.pool@[grown[i] as int].key] == grown[i]
        } by {
            if i < kept.len() {
                assert(kept.contains(kept[i]));
                assert(before.map@[before.pool@[chain[i + shift] as int].key] == chain[i + shift]);
                if full {
                    assert(before.map@[before.pool@[chain[0] as int].key] == chain[0]);
                }
            }
        }
        assert forall|k: i32| #[trigger] after.map@.contains_key(k) implies grown.contains(
            after.map@[k],
        ) && after.pool@[after.map@[k] as int].key == k by {
            if k == key {
                assert(grown[grown.len() - 1] == idx);
            } else {
                let i = chain.index_of(before.map@[k]);
                assert(grown[i - shift] == before.map@[k]);
                assert(kept.contains(kept[i - shift]));
            }
        }
        assert(after@.entries =~= before@.after_put(key, value).entries);
    }

    /// Stores `value` under `key` and makes the key the most recently used;
    /// a new key pushes out the least recently used entry if the cache is
    /// full.
    pub fn put(&mut self, key: i32, value: i32)
        requires
            old(self).wf(),
        ensures
            final(self).wf(),
            final(self)@.wf(),
            final(self)@ == old(self)@.after_put(key, value),
            old(self)@.contains(key) ==> {
                &&& final(self).index() == old(self).index()
                &&& final(self).free_slots() == old(self).free_slots()
                &&& final(self).active_slots() == moved_to_back(
                    old(self).active_slots(),
                    old(self).index()[key],
                )
            },
            !old(self)@.contains(key) && old(self)@.len() == old(self)@.capacity ==> {
                &&& final(self).index() == old(self).index().remove(old(self)@.lru_key()).insert(
                    key,
                    old(self).active_slots()[0],
                )
                &&& final(self).free_slots() == old(self).free_slots()
                &&& final(self).active_slots() == old(self).active_slots().drop_first().push(
                    old(self).active_slots()[0],
                )
            },
            !old(self)@.contains(key) && old(self)@.len() < old(self)@.capacity ==> {
                &&& final(self).index() == old(self).index().insert(
                    key,
                    old(self).free_slots()[0],
                )
                &&& final(self).free_slots() == old(self).free_slots().drop_first()
                &&& final(self).active_slots() == old(self).active_slots().push(
                    old(self).free_slots()[0],
                )
            },
    {
        proof {
            self.lemma_resident(key);
        }
        if let Some(found) = self.map.get(&key) {
            let idx = *found;
            proof {
                lemma_remove(self.chain@, self.chain@.index_of(idx));
                assert(forall|j: int| 0 <= j < self.free@.len() ==> self.free@[j] != idx);
            }
            self.pool[idx].value = value;
            proof {
                lemma_same_links(
                    old(self).pool@,
                    self.pool@,
                    self.chain@,
                    self.free@,
                    self.free_head,
                );
            }
            self.remove(idx);
            self.add_before_tail(idx);
            proof {
                Self::lemma_promoted(*old(self), *self, key, value);
            }
        } else {
            if self.map.len() == self.capacity {
                assert(linked(self.pool@, self.chain@, 0));
                let lru = self.pool[HEAD].next;
                proof {
                    lemma_remove(self.chain@, 0);
                    lemma_drop_first(self.chain@);
                    assert(self.chain@.index_of(lru) == 0);
                    assert(forall|j: int| 0 <= j < self.free@.len() ==> self.free@[j] != lru);
                }
                self.remove(lru);
                let evicted = self.pool[lru].key;
                self.map.remove(&evicted);
                self.free_node(lru);
                assert(self.free@.drop_first() =~= old(self).free@);
            }
            let ghost freed = self.free@;
            let idx = self.alloc_node();
            proof {
                lemma_drop_first(freed);
                assert(forall|i: int| 0 <= i < self.chain@.len() ==> self.chain@[i] != freed[0]);
            }
            let ghost blank = self.pool@;
            self.pool[idx].key = key;
            self.pool[idx].value = value;
            proof {
                lemma_same_links(blank, self.pool@, self.chain@, self.free@, self.free_head);
            }
            self.map.insert(key, idx);
            self.add_before_tail(idx);
            proof {
                Self::lemma_inserted(*old(self), *self, key, value, idx);
            }
        }
    }
}

} // verus!
