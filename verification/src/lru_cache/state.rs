//! The mathematical model that both caches are specified against.
use vstd::prelude::*;

verus! {

/// What `get` returns for a key that is not resident.
pub const MISS: i32 = -1;

/// One call on a cache.
#[derive(Debug, Clone, Copy, PartialEq, Eq, Structural)]
pub enum Op {
    /// `get(key)`
    Get(i32),
    /// `put(key, value)`
    Put(i32, i32),
}

/// What one call on a cache shows to the caller.
#[derive(Debug, Clone, Copy, PartialEq, Eq, Structural)]
pub enum Outcome {
    /// A `get` found the key, with this value.
    Hit(i32),
    /// A `get` did not find the key.
    Miss,
    /// A `put` stored its entry.
    Stored,
}

/// A cache as mathematics: its capacity and its entries `(key, value)`,
/// ordered from the least recently used (index 0) to the most recently used
/// (last index).
pub struct LruState {
    pub capacity: nat,
    pub entries: Seq<(i32, i32)>,
}

impl LruState {
    /// The capacity is positive, at most `capacity` entries are resident and
    /// no key is resident twice.
    pub open spec fn wf(self) -> bool {
        &&& 1 <= self.capacity
        &&& self.entries.len() <= self.capacity
        &&& forall|i: int, j: int|
            0 <= i < j < self.entries.len() ==> self.entries[i].0 != self.entries[j].0
    }

    /// The cache of the given capacity that holds nothing.
    pub open spec fn empty(capacity: nat) -> Self {
        LruState { capacity, entries: Seq::empty() }
    }

    /// The number of resident entries.
    pub open spec fn len(self) -> nat {
        self.entries.len()
    }

    /// Whether `key` is resident.
    pub open spec fn contains(self, key: i32) -> bool {
        exists|i: int| 0 <= i < self.entries.len() && self.entries[i].0 == key
    }

    /// Where `key` stands in the recency order (0 is the least recently used).
    pub open spec fn position(self, key: i32) -> int
        recommends
            self.contains(key),
    {
        choose|i: int| 0 <= i < self.entries.len() && self.entries[i].0 == key
    }

    /// The value stored under a resident key.
    pub open spec fn value(self, key: i32) -> i32
        recommends
            self.contains(key),
    {
        self.entries[self.position(key)].1
    }

    /// The value stored under `key`, if it is resident.
    pub open spec fn lookup(self, key: i32) -> Option<i32> {
        if self.contains(key) {
            Some(self.value(key))
        } else {
            None
        }
    }

    /// The key that the next eviction removes.
    pub open spec fn lru_key(self) -> i32
        recommends
            self.len() > 0,
    {
        self.entries[0].0
    }

    /// The key that was touched last.
    pub open spec fn mru_key(self) -> i32
        recommends
            self.len() > 0,
    {
        self.entries.last().0
    }

    /// The state in which the resident `key` has moved to the most recently
    /// used end and holds `value`; every other entry keeps its place relative
    /// to the others.
    pub open spec fn promote(self, key: i32, value: i32) -> Self
        recommends
            self.contains(key),
    {
        LruState {
            capacity: self.capacity,
            entries: self.entries.remove(self.position(key)).push((key, value)),
        }
    }

    /// The state after `get(key)`: a hit promotes the key, a miss changes
    /// nothing.
    pub open spec fn after_get(self, key: i32) -> Self {
        if self.contains(key) {
            self.promote(key, self.value(key))
        } else {
            self
        }
    }

    /// The state after `put(key, value)`: a resident key is overwritten and
    /// promoted; a new key is appended, after the least recently used entry
    /// has been evicted if the cache was full.
    pub open spec fn after_put(self, key: i32, value: i32) -> Self {
        if self.contains(key) {
            self.promote(key, value)
        } else if self.entries.len() >= self.capacity {
            LruState {
                capacity: self.capacity,
                entries: self.entries.drop_first().push((key, value)),
            }
        } else {
            LruState { capacity: self.capacity, entries: self.entries.push((key, value)) }
        }
    }

    /// The state after one call.
    pub open spec fn step(self, op: Op) -> Self {
        match op {
            Op::Get(key) => self.after_get(key),
            Op::Put(key, value) => self.after_put(key, value),
        }
    }

    /// What one call shows to the caller.
    pub open spec fn outcome(self, op: Op) -> Outcome {
        match op {
            Op::Get(key) => match self.lookup(key) {
                Some(value) => Outcome::Hit(value),
                None => Outcome::Miss,
            },
            Op::Put(_, _) => Outcome::Stored,
        }
    }

    /// Whether the call reads or writes `key` in this state: every `put` of
    /// the key does, and every `get` that finds it.
    pub open spec fn touches(self, op: Op, key: i32) -> bool {
        match op {
            Op::Get(k) => k == key && self.contains(key),
            Op::Put(k, _) => k == key,
        }
    }

    /// The state after a sequence of calls.
    pub open spec fn run(self, ops: Seq<Op>) -> Self
        decreases ops.len(),
    {
        if ops.len() == 0 {
            self
        } else {
            self.run(ops.drop_last()).step(ops.last())
        }
    }

    /// The index in `ops` of the last call that touched `key`, counted from
    /// 0, or -1 if no call did.
    pub open spec fn last_touch(self, ops: Seq<Op>, key: i32) -> int
        decreases ops.len(),
    {
        if ops.len() == 0 {
            -1
        } else if self.run(ops.drop_last()).touches(ops.last(), key) {
            ops.len() - 1
        } else {
            self.last_touch(ops.drop_last(), key)
        }
    }

    /// What each call of a sequence shows to the caller.
    pub open spec fn outcomes(self, ops: Seq<Op>) -> Seq<Outcome> {
        Seq::new(ops.len(), |i: int| self.run(ops.take(i)).outcome(ops[i]))
    }
}

/// In a well-formed state a key stands at exactly one index.
pub proof fn lemma_position_unique(s: LruState, i: int)
    requires
        s.wf(),
        0 <= i < s.entries.len(),
    ensures
        s.contains(s.entries[i].0),
        s.position(s.entries[i].0) == i,
        s.value(s.entries[i].0) == s.entries[i].1,
{
    let key = s.entries[i].0;
    let p = s.position(key);
    assert(0 <= p < s.entries.len() && s.entries[p].0 == key);
    if p < i {
        assert(s.entries[p].0 != s.entries[i].0);
    } else if i < p {
        assert(s.entries[i].0 != s.entries[p].0);
    }
}

} // verus!
