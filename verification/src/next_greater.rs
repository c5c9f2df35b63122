//! The next greater element of each element of a sequence, four ways.
//!
//! For an index `i`, the next greater element is the first element to the
//! right of `i` that is greater than the element at `i`. All four functions
//! compute the same table in linear time with a stack; they differ in the
//! direction of the scan and in the stack they use.
use vstd::prelude::*;

verus! {

/// What the table holds where no greater element follows.
pub const NO_GREATER: i32 = -1;

/// Whether `j` is the first index to the right of `i` whose element is
/// greater than the element at `i`.
pub open spec fn is_next_greater(s: Seq<i32>, i: int, j: int) -> bool {
    &&& 0 <= i < j < s.len()
    &&& s[j] > s[i]
    &&& forall|k: int| i < k < j ==> s[k] <= s[i]
}

/// Whether no element to the right of `i` is greater than the element at
/// `i`.
pub open spec fn none_greater(s: Seq<i32>, i: int) -> bool {
    forall|j: int| i < j < s.len() ==> s[j] <= s[i]
}

/// The next greater element of index `i`, or [`NO_GREATER`] if there is
/// none.
pub open spec fn next_greater_at(s: Seq<i32>, i: int) -> i32 {
    if exists|j: int| is_next_greater(s, i, j) {
        s[choose|j: int| is_next_greater(s, i, j)]
    } else {
        NO_GREATER
    }
}

/// The table of the next greater elements of `s`.
pub open spec fn next_greater(s: Seq<i32>) -> Seq<i32> {
    Seq::new(s.len(), |i: int| next_greater_at(s, i))
}

/// The first greater element to the right is the next greater element.
pub proof fn lemma_found(s: Seq<i32>, i: int, j: int)
    requires
        is_next_greater(s, i, j),
    ensures
        next_greater_at(s, i) == s[j],
{
    let c = choose|c: int| is_next_greater(s, i, c);
    assert(is_next_greater(s, i, c));
    if c < j {
        assert(s[c] <= s[i]);
    } else if j < c {
        assert(s[j] <= s[i]);
    }
}

/// Where nothing greater follows, the table holds [`NO_GREATER`].
pub proof fn lemma_none(s: Seq<i32>, i: int)
    requires
        none_greater(s, i),
    ensures
        next_greater_at(s, i) == NO_GREATER,
{
    if exists|j: int| is_next_greater(s, i, j) {
        let j = choose|j: int| is_next_greater(s, i, j);
        assert(s[j] <= s[i]);
    }
}

/// The entry at position `t` of a stack of indices has the entry below it
/// as its next greater element; the bottom entry has none.
spec fn rung(s: Seq<i32>, at: Seq<int>, t: int) -> bool {
    if t == 0 {
        none_greater(s, at[0])
    } else {
        is_next_greater(s, at[t], at[t - 1])
    }
}

/// `stack` holds the elements at the indices `at`, none of them left of
/// `lo`, and each entry is the next greater element of the one above it.
spec fn ladder(s: Seq<i32>, stack: Seq<i32>, at: Seq<int>, lo: int) -> bool {
    &&& at.len() == stack.len()
    &&& forall|t: int|
        0 <= t < at.len() ==> lo <= #[trigger] at[t] < s.len() && stack[t] == s[at[t]]
    &&& forall|t: int| 0 <= t < at.len() ==> #[trigger] rung(s, at, t)
}

/// No element strictly between `i` and the index on top of the stack is
/// greater than the element at `i`.
spec fn cleared(s: Seq<i32>, at: Seq<int>, i: int) -> bool {
    forall|k: int|
        i < k < (if at.len() > 0 {
            at.last()
        } else {
            s.len() as int
        }) ==> s[k] <= s[i]
}

/// Scans from the right with a stack of values: the elements to the right
/// that are greater than everything between them and the current index.
pub fn next_greater_right_to_left(nums: &[i32]) -> (result: Vec<i32>)
    ensures
        result@ == next_greater(nums@),
{
    let n = nums.len();
    let mut result = vec![NO_GREATER; n];
    let mut stack: Vec<i32> = Vec::new();
    let ghost mut at: Seq<int> = Seq::empty();
    let mut i = n;
    while i > 0
        invariant
            i <= n,
            n == nums@.len(),
            result@.len() == n,
            forall|k: int| 0 <= k < i ==> result@[k] == NO_GREATER,
            forall|k: int| i <= k < n ==> result@[k] == next_greater_at(nums@, k),
            ladder(nums@, stack@, at, i as int),
            i < n ==> at.len() > 0 && at.last() == i,
        decreases i,
    {
        i -= 1;
        while stack.len() > 0 && stack[stack.len() - 1] <= nums[i]
            invariant
                i < n,
                n == nums@.len(),
                ladder(nums@, stack@, at, i + 1),
                cleared(nums@, at, i as int),
            decreases stack.len(),
        {
            proof {
                let m = at.len() as int;
                assert(rung(nums@, at, m - 1));
                assert forall|t: int| 0 <= t < m - 1 implies #[trigger] rung(
                    nums@,
                    at.drop_last(),
                    t,
                ) by {
                    assert(rung(nums@, at, t));
                }
                at = at.drop_last();
            }
            stack.pop();
        }
        if stack.len() > 0 {
            result[i] = stack[stack.len() - 1];
            proof {
                assert(is_next_greater(nums@, i as int, at.last()));
                lemma_found(nums@, i as int, at.last());
            }
        } else {
            proof {
                lemma_none(nums@, i as int);
            }
        }
        proof {
            assert forall|t: int| 0 <= t < at.len() + 1 implies #[trigger] rung(
                nums@,
                at.push(i as int),
                t,
            ) by {
                if t < at.len() {
                    assert(rung(nums@, at, t));
                }
            }
            at = at.push(i as int);
        }
        stack.push(nums[i]);
    }
    assert(result@ =~= next_greater(nums@));
    result
}

/// The index `k` still waits for its next greater element: nothing between
/// it and `i` is greater, and the table holds no answer for it.
spec fn waiting(s: Seq<i32>, table: Seq<i32>, k: int, i: int) -> bool {
    &&& 0 <= k < i
    &&& table[k] == NO_GREATER
    &&& forall|j: int| k < j < i ==> s[j] <= s[k]
}

/// The state of a scan from the left that has seen the indices below `i`:
/// `pending` holds, in rising order, the indices that still wait; every
/// other index below `i` has its answer in the table.
spec fn scanned(s: Seq<i32>, table: Seq<i32>, pending: Seq<int>, i: int) -> bool {
    &&& table.len() == s.len()
    &&& 0 <= i <= s.len()
    &&& forall|k: int| i <= k < s.len() ==> table[k] == NO_GREATER
    &&& forall|t: int| 0 <= t < pending.len() ==> waiting(s, table, #[trigger] pending[t], i)
    &&& forall|t: int, u: int| 0 <= t < u < pending.len() ==> pending[t] < pending[u]
    &&& forall|k: int|
        0 <= k < i ==> pending.contains(k) || #[trigger] table[k] == next_greater_at(s, k)
}

/// Popping the top index `k` of the pending stack and writing the element
/// at `i`, which is greater than the one at `k`, into the table at `k`.
proof fn lemma_answer(s: Seq<i32>, table: Seq<i32>, pending: Seq<int>, i: int)
    requires
        scanned(s, table, pending, i),
        i < s.len(),
        pending.len() > 0,
        s[pending.last()] < s[i],
    ensures
        scanned(s, table.update(pending.last(), s[i]), pending.drop_last(), i),
{
    let k = pending.last();
    let rest = pending.drop_last();
    let answered = table.update(k, s[i]);
    assert(waiting(s, table, pending[pending.len() - 1], i));
    assert(is_next_greater(s, k, i));
    lemma_found(s, k, i);
    assert forall|t: int| 0 <= t < rest.len() implies waiting(
        s,
        answered,
        #[trigger] rest[t],
        i,
    ) by {
        assert(waiting(s, table, pending[t], i));
        assert(pending[t] < pending[pending.len() - 1]);
    }
    assert forall|j: int| 0 <= j < i implies rest.contains(j) || #[trigger] answered[j]
        == next_greater_at(s, j) by {
        if j != k {
            assert(pending.contains(j) || table[j] == next_greater_at(s, j));
            if pending.contains(j) {
                let t = pending.index_of(j);
                assert(rest[t] == j);
            }
        }
    }
}

/// Pushing `i` on the pending stack once no index on it has a smaller
/// element than the one at `i`.
proof fn lemma_defer(s: Seq<i32>, table: Seq<i32>, pending: Seq<int>, i: int)
    requires
        scanned(s, table, pending, i),
        i < s.len(),
        pending.len() > 0 ==> s[pending.last()] >= s[i],
    ensures
        scanned(s, table, pending.push(i), i + 1),
{
    let grown = pending.push(i);
    assert forall|t: int| 0 <= t < grown.len() implies waiting(
        s,
        table,
        #[trigger] grown[t],
        i + 1,
    ) by {
        if t < pending.len() {
            assert(waiting(s, table, pending[t], i));
            assert(waiting(s, table, pending[pending.len() - 1], i));
            if t < pending.len() - 1 {
                assert(pending[t] < pending[pending.len() - 1]);
            }
        }
    }
    assert forall|t: int, u: int| 0 <= t < u < grown.len() implies grown[t] < grown[u] by {
        assert(waiting(s, table, pending[t], i));
    }
    assert forall|k: int| 0 <= k < i + 1 implies grown.contains(k) || #[trigger] table[k]
        == next_greater_at(s, k) by {
        if k < i {
            if pending.contains(k) {
                let t = pending.index_of(k);
                assert(grown[t] == k);
            }
        } else {
            assert(grown[pending.len() as int] == k);
        }
    }
}

/// Once the scan has seen every index, the table is complete: the indices
/// that still wait have no greater element to their right.
proof fn lemma_finished(s: Seq<i32>, table: Seq<i32>, pending: Seq<int>)
    requires
        scanned(s, table, pending, s.len() as int),
    ensures
        table == next_greater(s),
{
    assert forall|k: int| 0 <= k < s.len() implies table[k] == next_greater_at(s, k) by {
        if pending.contains(k) {
            let t = pending.index_of(k);
            assert(waiting(s, table, pending[t], s.len() as int));
            lemma_none(s, k);
        }
    }
    assert(table =~= next_greater(s));
}

/// Scans from the left with a stack of indices: the indices whose next
/// greater element has not been seen yet.
pub fn next_greater_left_to_right(nums: &[i32]) -> (result: Vec<i32>)
    ensures
        result@ == next_greater(nums@),
{
    let n = nums.len();
    let mut result = vec![NO_GREATER; n];
    let mut stack: Vec<usize> = Vec::new();
    for i in 0..n
        invariant
            n == nums@.len(),
            forall|t: int| 0 <= t < stack@.len() ==> #[trigger] stack@[t] < n,
            scanned(nums@, result@, stack@.map_values(|v: usize| v as int), i as int),
    {
        while stack.len() > 0 && nums[stack[stack.len() - 1]] < nums[i]
            invariant
                i < n,
                n == nums@.len(),
                forall|t: int| 0 <= t < stack@.len() ==> #[trigger] stack@[t] < n,
                scanned(nums@, result@, stack@.map_values(|v: usize| v as int), i as int),
            decreases stack.len(),
        {
            let ghost pending = stack@.map_values(|v: usize| v as int);
            proof {
                assert(waiting(nums@, result@, pending[pending.len() - 1], i as int));
                lemma_answer(nums@, result@, pending, i as int);
            }
            let top_idx = stack[stack.len() - 1];
            stack.pop();
            result[top_idx] = nums[i];
            assert(stack@.map_values(|v: usize| v as int) =~= pending.drop_last());
        }
        proof {
            let pending = stack@.map_values(|v: usize| v as int);
            lemma_defer(nums@, result@, pending, i as int);
            assert(stack@.push(i).map_values(|v: usize| v as int) =~= pending.push(i as int));
        }
        stack.push(i);
    }
    proof {
        lemma_finished(nums@, result@, stack@.map_values(|v: usize| v as int));
    }
    result
}

/// A stack of fixed capacity over a buffer that is allocated once.
struct ArrayStack {
    data: Vec<i32>,
    top: isize,
}

impl View for ArrayStack {
    type V = Seq<i32>;

    /// The elements from the bottom of the stack to its top.
    closed spec fn view(&self) -> Seq<i32> {
        self.data@.take(self.top + 1)
    }
}

impl ArrayStack {
    /// `top` is the index of the top element in the buffer, or -1.
    spec fn wf(&self) -> bool {
        &&& -1 <= self.top < self.data@.len()
        &&& self.data@.len() <= isize::MAX
    }

    /// How many elements the stack can hold.
    spec fn capacity(&self) -> nat {
        self.data@.len()
    }

    /// An empty stack that can hold `capacity` elements.
    fn new(capacity: usize) -> (stack: Self)
        requires
            capacity <= isize::MAX,
        ensures
            stack.wf(),
            stack@ == Seq::<i32>::empty(),
            stack.capacity() == capacity,
    {
        Self { data: vec![0; capacity], top: -1 }
    }

    /// Puts `value` on top of a stack that is not full.
    fn push(&mut self, value: i32)
        requires
            old(self).wf(),
            old(self)@.len() < old(self).capacity(),
        ensures
            final(self).wf(),
            final(self).capacity() == old(self).capacity(),
            final(self)@ == old(self)@.push(value),
    {
        self.top += 1;
        self.data[self.top as usize] = value;
        assert(self@ =~= old(self)@.push(value));
    }

    /// Takes the top element off a stack that is not empty.
    fn pop(&mut self) -> (value: i32)
        requires
            old(self).wf(),
            old(self)@.len() > 0,
        ensures
            final(self).wf(),
            final(self).capacity() == old(self).capacity(),
            final(self)@ == old(self)@.drop_last(),
            value == old(self)@.last(),
    {
        let value = self.data[self.top as usize];
        self.top -= 1;
        assert(self@ =~= old(self)@.drop_last());
        value
    }

    /// The top element of a stack that is not empty.
    fn peek(&self) -> (value: i32)
        requires
            self.wf(),
            self@.len() > 0,
        ensures
            value == self@.last(),
    {
        self.data[self.top as usize]
    }

    /// Whether the stack holds nothing.
    fn is_empty(&self) -> (empty: bool)
        requires
            self.wf(),
        ensures
            empty == (self@.len() == 0),
    {
        self.top == -1
    }
}

/// Scans from the right as [`next_greater_right_to_left`] does, with a
/// stack of values in a buffer as long as the input.
pub fn next_greater_right_to_left_manual(nums: &[i32]) -> (result: Vec<i32>)
    requires
        nums@.len() <= isize::MAX,
    ensures
        result@ == next_greater(nums@),
{
    let n = nums.len();
    let mut result = vec![NO_GREATER; n];
    let mut stack = ArrayStack::new(n);
    let ghost mut at: Seq<int> = Seq::empty();
    let mut i = n;
    while i > 0
        invariant
            i <= n,
            n == nums@.len(),
            result@.len() == n,
            forall|k: int| 0 <= k < i ==> result@[k] == NO_GREATER,
            forall|k: int| i <= k < n ==> result@[k] == next_greater_at(nums@, k),
            stack.wf(),
            stack.capacity() == n,
            ladder(nums@, stack@, at, i as int),
            forall|t: int| 0 <= t < at.len() ==> #[trigger] at[t] + t < n,
            i < n ==> at.len() > 0 && at.last() == i,
        decreases i,
    {
        i -= 1;
        while !stack.is_empty() && stack.peek() <= nums[i]
            invariant
                i < n,
                n == nums@.len(),
                stack.wf(),
                stack.capacity() == n,
                ladder(nums@, stack@, at, i + 1),
                forall|t: int| 0 <= t < at.len() ==> #[trigger] at[t] + t < n,
                cleared(nums@, at, i as int),
            decreases stack@.len(),
        {
            proof {
                let m = at.len() as int;
                assert(rung(nums@, at, m - 1));
                assert forall|t: int| 0 <= t < m - 1 implies #[trigger] rung(
                    nums@,
                    at.drop_last(),
                    t,
                ) by {
                    assert(rung(nums@, at, t));
                }
                at = at.drop_last();
            }
            stack.pop();
        }
        if !stack.is_empty() {
            result[i] = stack.peek();
            proof {
                assert(is_next_greater(nums@, i as int, at.last()));
                lemma_found(nums@, i as int, at.last());
            }
        } else {
            proof {
                lemma_none(nums@, i as int);
            }
        }
        proof {
            if at.len() > 0 {
                assert(at[at.len() - 1] + (at.len() - 1) < n);
            }
            assert forall|t: int| 0 <= t < at.len() + 1 implies #[trigger] rung(
                nums@,
                at.push(i as int),
                t,
            ) by {
                if t < at.len() {
                    assert(rung(nums@, at, t));
                }
            }
            at = at.push(i as int);
        }
        stack.push(nums[i]);
    }
    assert(result@ =~= next_greater(nums@));
    result
}

/// Scans from the left as [`next_greater_left_to_right`] does, with a stack
/// of indices in a buffer as long as the input.
pub fn next_greater_left_to_right_manual(nums: &[i32]) -> (result: Vec<i32>)
    requires
        nums@.len() <= i32::MAX,
    ensures
        result@ == next_greater(nums@),
{
    let n = nums.len();
    let mut result = vec![NO_GREATER; n];
    let mut stack = ArrayStack::new(n);
    for i in 0..n
        invariant
            n == nums@.len(),
            n <= i32::MAX,
            stack.wf(),
            stack.capacity() == n,
            forall|t: int| 0 <= t < stack@.len() ==> t <= #[trigger] stack@[t] < i,
            scanned(nums@, result@, stack@.map_values(|v: i32| v as int), i as int),
    {
        while !stack.is_empty() && nums[stack.peek() as usize] < nums[i]
            invariant
                i < n,
                n == nums@.len(),
                stack.wf(),
                stack.capacity() == n,
                forall|t: int| 0 <= t < stack@.len() ==> t <= #[trigger] stack@[t] < i,
                scanned(nums@, result@, stack@.map_values(|v: i32| v as int), i as int),
            decreases stack@.len(),
        {
            let ghost pending = stack@.map_values(|v: i32| v as int);
            proof {
                assert(0 <= stack@[stack@.len() - 1] < i);
                lemma_answer(nums@, result@, pending, i as int);
            }
            let idx = stack.pop();
            result[idx as usize] = nums[i];
            assert(stack@.map_values(|v: i32| v as int) =~= pending.drop_last());
        }
        proof {
            let pending = stack@.map_values(|v: i32| v as int);
            if stack@.len() > 0 {
                assert(stack@.len() - 1 <= stack@[stack@.len() - 1] < i);
            }
            lemma_defer(nums@, result@, pending, i as int);
            assert(stack@.push(i as i32).map_values(|v: i32| v as int) =~= pending.push(i as int));
        }
        stack.push(i as i32);
    }
    proof {
        lemma_finished(nums@, result@, stack@.map_values(|v: i32| v as int));
    }
    result
}

} // verus!
