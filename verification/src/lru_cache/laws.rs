//! What holds of every cache that follows the model, whatever it is built
//! from.
use super::state::{lemma_position_unique, LruState, Op, Outcome};
use vstd::prelude::*;

verus! {

/// Promoting a resident key puts it at the most recently used end with the
/// given value. Every other key stays resident with its value, and keeps its
/// place relative to every other key: a key that stood behind the promoted
/// one moves up by one place.
pub proof fn lemma_promote(s: LruState, key: i32, value: i32)
    requires
        s.wf(),
        s.contains(key),
    ensures
        s.promote(key, value).wf(),
        s.promote(key, value).len() == s.len(),
        s.promote(key, value).mru_key() == key,
        s.promote(key, value).position(key) == s.len() - 1,
        s.promote(key, value).value(key) == value,
        forall|k: i32| s.promote(key, value).contains(k) <==> s.contains(k),
        forall|k: i32|
            s.contains(k) && k != key ==> {
                &&& s.promote(key, value).value(k) == s.value(k)
                &&& s.promote(key, value).position(k) == if s.position(k) < s.position(key) {
                    s.position(k)
                } else {
                    s.position(k) - 1
                }
            },
{
    let t = s.promote(key, value);
    let p = s.position(key);
    let n = s.entries.len() as int;
    assert forall|i: int, j: int| 0 <= i < j < t.entries.len() implies t.entries[i].0
        != t.entries[j].0 by {
        let si = if i < p { i } else { i + 1 };
        if j < n - 1 {
            let sj = if j < p { j } else { j + 1 };
            assert(s.entries[si].0 != s.entries[sj].0);
        } else {
            assert(t.entries[i] == s.entries[si]);
            if si < p {
                assert(s.entries[si].0 != s.entries[p].0);
            } else {
                assert(s.entries[p].0 != s.entries[si].0);
            }
        }
    }
    assert(t.entries[n - 1].0 == key);
    lemma_position_unique(t, n - 1);
    assert forall|k: i32| t.contains(k) <==> s.contains(k) by {
        if t.contains(k) {
            let i = t.position(k);
            if i < n - 1 {
                let si = if i < p { i } else { i + 1 };
                assert(s.entries[si].0 == k);
            }
        }
        if s.contains(k) {
            let si = s.position(k);
            if si != p {
                let i = if si < p { si } else { si - 1 };
                assert(t.entries[i].0 == k);
            }
        }
    }
    assert forall|k: i32| s.contains(k) && k != key implies {
        &&& t.value(k) == s.value(k)
        &&& t.position(k) == if s.position(k) < p {
            s.position(k)
        } else {
            s.position(k) - 1
        }
    } by {
        let si = s.position(k);
        let i = if si < p { si } else { si - 1 };
        assert(t.entries[i] == s.entries[si]);
        lemma_position_unique(t, i);
    }
}

/// A `get` keeps the state well-formed. A hit makes the key the most
/// recently used one and leaves its value as it was; a miss changes nothing.
pub proof fn lemma_get(s: LruState, key: i32)
    requires
        s.wf(),
    ensures
        s.after_get(key).wf(),
        s.after_get(key).capacity == s.capacity,
        s.after_get(key).len() == s.len(),
        forall|k: i32| s.after_get(key).lookup(k) == s.lookup(k),
        s.contains(key) ==> s.after_get(key).mru_key() == key,
        !s.contains(key) ==> s.after_get(key) == s,
{
    if s.contains(key) {
        lemma_promote(s, key, s.value(key));
    }
}

/// A `put` keeps the state well-formed, stores the value under the key and
/// makes the key the most recently used one.
pub proof fn lemma_put(s: LruState, key: i32, value: i32)
    requires
        s.wf(),
    ensures
        s.after_put(key, value).wf(),
        s.after_put(key, value).capacity == s.capacity,
        s.after_put(key, value).lookup(key) == Some(value),
        s.after_put(key, value).mru_key() == key,
        s.after_put(key, value).len() == if s.contains(key) || s.len() == s.capacity {
            s.len()
        } else {
            s.len() + 1
        },
{
    let t = s.after_put(key, value);
    if s.contains(key) {
        lemma_promote(s, key, value);
    } else {
        let kept = if s.len() >= s.capacity {
            s.entries.drop_first()
        } else {
            s.entries
        };
        let shift = if s.len() >= s.capacity {
            1int
        } else {
            0int
        };
        assert(t.entries =~= kept.push((key, value)));
        assert forall|i: int, j: int| 0 <= i < j < t.entries.len() implies t.entries[i].0
            != t.entries[j].0 by {
            assert(t.entries[i] == s.entries[i + shift]);
            if j < kept.len() {
                assert(t.entries[j] == s.entries[j + shift]);
            }
        }
        assert(t.entries[t.entries.len() - 1].0 == key);
        lemma_position_unique(t, t.entries.len() - 1);
    }
}

/// However many calls are made, and whichever, the number of resident keys
/// never exceeds the capacity and no key is resident twice.
pub proof fn lemma_run_wf(s: LruState, ops: Seq<Op>)
    requires
        s.wf(),
    ensures
        s.run(ops).wf(),
        s.run(ops).capacity == s.capacity,
        s.run(ops).len() <= s.capacity,
    decreases ops.len(),
{
    if ops.len() > 0 {
        lemma_run_wf(s, ops.drop_last());
        let before = s.run(ops.drop_last());
        match ops.last() {
            Op::Get(key) => lemma_get(before, key),
            Op::Put(key, value) => lemma_put(before, key, value),
        }
    }
}

/// A `put` of a new key into a full cache evicts exactly the least recently
/// used key: that key is a miss afterwards, and every other key that was
/// resident still is, with its value and one place nearer to eviction.
pub proof fn lemma_put_evicts_lru(s: LruState, key: i32, value: i32)
    requires
        s.wf(),
        !s.contains(key),
        s.len() == s.capacity,
    ensures
        !s.after_put(key, value).contains(s.lru_key()),
        s.after_put(key, value).lookup(s.lru_key()) == None::<i32>,
        forall|k: i32|
            s.after_put(key, value).contains(k) <==> k == key || (s.contains(k) && k
                != s.lru_key()),
        forall|k: i32|
            s.contains(k) && k != s.lru_key() ==> {
                &&& s.after_put(key, value).value(k) == s.value(k)
                &&& s.after_put(key, value).position(k) == s.position(k) - 1
            },
{
    let t = s.after_put(key, value);
    lemma_put(s, key, value);
    lemma_position_unique(s, 0);
    let n = s.entries.len() as int;
    assert forall|i: int| 0 <= i < n - 1 implies t.entries[i] == s.entries[i + 1] by {}
    assert forall|k: i32| t.contains(k) <==> k == key || (s.contains(k) && k
        != s.lru_key()) by {
        if t.contains(k) {
            let i = t.position(k);
            if i < n - 1 {
                assert(t.entries[i] == s.entries[i + 1]);
                lemma_position_unique(s, i + 1);
            }
        }
        if s.contains(k) && k != s.lru_key() {
            let si = s.position(k);
            assert(t.entries[si - 1] == s.entries[si]);
        }
        if k == key {
            assert(t.entries[n - 1].0 == key);
        }
    }
    assert forall|k: i32| s.contains(k) && k != s.lru_key() implies {
        &&& t.value(k) == s.value(k)
        &&& t.position(k) == s.position(k) - 1
    } by {
        let si = s.position(k);
        assert(t.entries[si - 1] == s.entries[si]);
        lemma_position_unique(t, si - 1);
    }
}

/// A second `get` of the same key returns what the first one returned and
/// changes nothing: the first one has put the key where the second one
/// would. Neither changes the value of another key, nor the order in which
/// any two other keys stand.
pub proof fn lemma_get_idempotent(s: LruState, key: i32)
    requires
        s.wf(),
    ensures
        s.after_get(key).lookup(key) == s.lookup(key),
        s.after_get(key).after_get(key) == s.after_get(key),
        forall|k: i32| k != key ==> s.after_get(key).lookup(k) == s.lookup(k),
        forall|a: i32, b: i32|
            s.contains(a) && s.contains(b) && a != key && b != key ==> (s.after_get(
                key,
            ).position(a) < s.after_get(key).position(b) <==> s.position(a) < s.position(b)),
{
    let t = s.after_get(key);
    if s.contains(key) {
        lemma_promote(s, key, s.value(key));
        let n = s.entries.len() as int;
        assert(t.entries.remove(n - 1).push((key, t.value(key))) =~= t.entries);
    }
}

/// One call moves the key that it touches to the most recently used end
/// and leaves every two other resident keys in the order in which they
/// stood. No key becomes resident but the one that the call touches.
pub proof fn lemma_step_order(s: LruState, op: Op)
    requires
        s.wf(),
    ensures
        s.step(op).wf(),
        forall|k: i32|
            s.touches(op, k) ==> s.step(op).contains(k) && s.step(op).position(k) == s.step(
                op,
            ).len() - 1,
        forall|k: i32| s.step(op).contains(k) && !s.touches(op, k) ==> s.contains(k),
        forall|a: i32, b: i32|
            s.step(op).contains(a) && s.step(op).contains(b) && !s.touches(op, a) && !s.touches(
                op,
                b,
            ) ==> (s.step(op).position(a) < s.step(op).position(b) <==> s.position(a)
                < s.position(b)),
{
    let t = s.step(op);
    match op {
        Op::Get(key) => {
            lemma_get(s, key);
            if s.contains(key) {
                lemma_promote(s, key, s.value(key));
            }
        },
        Op::Put(key, value) => {
            lemma_put(s, key, value);
            let n = t.entries.len() as int;
            assert(t.entries[n - 1].0 == key);
            lemma_position_unique(t, n - 1);
            if s.contains(key) {
                lemma_promote(s, key, value);
            } else if s.len() == s.capacity {
                lemma_put_evicts_lru(s, key, value);
            } else {
                assert forall|k: i32| t.contains(k) && k != key implies s.contains(k)
                    && t.position(k) == s.position(k) by {
                    let i = t.position(k);
                    assert(t.entries[i] == s.entries[i]);
                    lemma_position_unique(s, i);
                }
            }
        },
    }
}

/// The last touch of a key lies within the calls made, if there is one.
pub proof fn lemma_last_touch_bounds(s: LruState, ops: Seq<Op>, key: i32)
    ensures
        -1 <= s.last_touch(ops, key) < ops.len(),
    decreases ops.len(),
{
    if ops.len() > 0 {
        lemma_last_touch_bounds(s, ops.drop_last(), key);
    }
}

/// The recency order is the order of last touches: of two resident keys,
/// the one that was touched later stands nearer to the most recently used
/// end.
pub proof fn lemma_later_touch_stands_behind(s: LruState, ops: Seq<Op>, a: i32, b: i32)
    requires
        s.wf(),
        s.run(ops).contains(a),
        s.run(ops).contains(b),
        s.last_touch(ops, a) < s.last_touch(ops, b),
    ensures
        s.run(ops).position(a) < s.run(ops).position(b),
    decreases ops.len(),
{
    if ops.len() > 0 {
        let earlier = ops.drop_last();
        let before = s.run(earlier);
        let op = ops.last();
        lemma_run_wf(s, earlier);
        lemma_step_order(before, op);
        lemma_last_touch_bounds(s, earlier, a);
        lemma_last_touch_bounds(s, earlier, b);
        if before.touches(op, b) {
            lemma_position_unique(before.step(op), before.step(op).position(a));
        } else {
            lemma_later_touch_stands_behind(s, earlier, a, b);
        }
    }
}

/// Resident keys that no call has touched were resident from the start and
/// stand in the order in which they stood then: among keys that were never
/// touched again, the one that was there first leaves first.
pub proof fn lemma_untouched_keep_their_order(s: LruState, ops: Seq<Op>, a: i32, b: i32)
    requires
        s.wf(),
        s.run(ops).contains(a),
        s.run(ops).contains(b),
        s.last_touch(ops, a) == -1,
        s.last_touch(ops, b) == -1,
    ensures
        s.contains(a),
        s.contains(b),
        s.run(ops).position(a) < s.run(ops).position(b) <==> s.position(a) < s.position(b),
    decreases ops.len(),
{
    if ops.len() > 0 {
        let earlier = ops.drop_last();
        lemma_run_wf(s, earlier);
        lemma_step_order(s.run(earlier), ops.last());
        lemma_untouched_keep_their_order(s, earlier, a, b);
    }
}

/// The key that the next eviction removes is the least recently touched:
/// no resident key was last touched before it.
pub proof fn lemma_lru_is_least_recently_touched(s: LruState, ops: Seq<Op>, k: i32)
    requires
        s.wf(),
        s.run(ops).contains(k),
    ensures
        s.last_touch(ops, s.run(ops).lru_key()) <= s.last_touch(ops, k),
{
    let now = s.run(ops);
    lemma_run_wf(s, ops);
    lemma_position_unique(now, 0);
    if s.last_touch(ops, k) < s.last_touch(ops, now.lru_key()) {
        lemma_later_touch_stands_behind(s, ops, k, now.lru_key());
    }
}

/// A resident key that has not been touched since every other resident key
/// was is the one that a `put` of a new key into the full cache evicts.
pub proof fn lemma_stalest_key_is_evicted(
    s: LruState,
    ops: Seq<Op>,
    stale: i32,
    key: i32,
    value: i32,
)
    requires
        s.wf(),
        s.run(ops).contains(stale),
        s.run(ops).len() == s.capacity,
        !s.run(ops).contains(key),
        forall|k: i32|
            s.run(ops).contains(k) && k != stale ==> s.last_touch(ops, stale) < s.last_touch(
                ops,
                k,
            ),
    ensures
        s.run(ops).lru_key() == stale,
        !s.run(ops).after_put(key, value).contains(stale),
        s.run(ops.push(Op::Put(key, value)).push(Op::Get(stale))) == s.run(ops).after_put(
            key,
            value,
        ),
        s.outcomes(ops.push(Op::Put(key, value)).push(Op::Get(stale))).last() == Outcome::Miss,
{
    let now = s.run(ops);
    lemma_run_wf(s, ops);
    lemma_position_unique(now, 0);
    if now.lru_key() != stale {
        lemma_lru_is_least_recently_touched(s, ops, stale);
    }
    lemma_put_evicts_lru(now, key, value);
    let with_put = ops.push(Op::Put(key, value));
    let with_get = with_put.push(Op::Get(stale));
    assert(with_put.drop_last() =~= ops);
    assert(with_get.drop_last() =~= with_put);
    assert(with_get.take(with_get.len() - 1) =~= with_put);
}

} // verus!
