//! Facts about sequences without duplicates, as both caches keep them.
use vstd::prelude::*;

verus! {

/// Taking the element at `p` out of a duplicate-free sequence leaves a
/// duplicate-free sequence that holds every other element and not that one.
pub proof fn lemma_remove<A>(s: Seq<A>, p: int)
    requires
        s.no_duplicates(),
        0 <= p < s.len(),
    ensures
        s.remove(p).len() == s.len() - 1,
        s.remove(p).no_duplicates(),
        !s.remove(p).contains(s[p]),
        s.remove(p).to_set() == s.to_set().remove(s[p]),
        forall|i: int| 0 <= i < p ==> s.remove(p)[i] == s[i],
        forall|i: int| p <= i < s.len() - 1 ==> s.remove(p)[i] == s[i + 1],
{
    let r = s.remove(p);
    assert forall|i: int, j: int| 0 <= i < r.len() && 0 <= j < r.len() && i != j implies r[i]
        != r[j] by {
        let si = if i < p { i } else { i + 1 };
        let sj = if j < p { j } else { j + 1 };
        assert(r[i] == s[si] && r[j] == s[sj]);
    }
    assert forall|i: int| 0 <= i < r.len() implies r[i] != s[p] by {
        let si = if i < p { i } else { i + 1 };
        assert(r[i] == s[si]);
    }
    assert forall|a: A| r.to_set().contains(a) <==> s.to_set().remove(s[p]).contains(a) by {
        if r.contains(a) {
            let i = choose|i: int| 0 <= i < r.len() && r[i] == a;
            let si = if i < p { i } else { i + 1 };
            assert(s[si] == a);
        }
        if s.contains(a) && a != s[p] {
            let si = choose|i: int| 0 <= i < s.len() && s[i] == a;
            let i = if si < p { si } else { si - 1 };
            assert(r[i] == a);
        }
    }
    assert(r.to_set() =~= s.to_set().remove(s[p]));
}

/// Appending an element that a duplicate-free sequence does not hold keeps
/// it duplicate-free.
pub proof fn lemma_push_fresh<A>(s: Seq<A>, a: A)
    requires
        s.no_duplicates(),
        !s.contains(a),
    ensures
        s.push(a).no_duplicates(),
        s.push(a).to_set() == s.to_set().insert(a),
{
    let r = s.push(a);
    assert forall|i: int, j: int| 0 <= i < r.len() && 0 <= j < r.len() && i != j implies r[i]
        != r[j] by {
        if i < s.len() {
            assert(s[i] == r[i]);
            assert(s.contains(r[i]));
        }
        if j < s.len() {
            assert(s[j] == r[j]);
            assert(s.contains(r[j]));
        }
    }
    assert forall|x: A| r.to_set().contains(x) <==> s.to_set().insert(a).contains(x) by {
        if r.contains(x) {
            let i = choose|i: int| 0 <= i < r.len() && r[i] == x;
            if i < s.len() {
                assert(s[i] == x);
            }
        }
        if s.contains(x) {
            let i = choose|i: int| 0 <= i < s.len() && s[i] == x;
            assert(r[i] == x);
        }
        assert(r[s.len() as int] == a);
    }
    assert(r.to_set() =~= s.to_set().insert(a));
}

/// Moving the element at `p` of a duplicate-free sequence to the back
/// changes neither what the sequence holds nor that it is duplicate-free.
pub proof fn lemma_move_to_back<A>(s: Seq<A>, p: int)
    requires
        s.no_duplicates(),
        0 <= p < s.len(),
    ensures
        s.remove(p).push(s[p]).len() == s.len(),
        s.remove(p).push(s[p]).no_duplicates(),
        s.remove(p).push(s[p]).to_set() == s.to_set(),
{
    lemma_remove(s, p);
    lemma_push_fresh(s.remove(p), s[p]);
    assert(s.contains(s[p]));
    assert(s.to_set().remove(s[p]).insert(s[p]) =~= s.to_set());
}

/// Dropping the first element of a duplicate-free sequence leaves a
/// duplicate-free sequence that holds every other element and not that one.
pub proof fn lemma_drop_first<A>(s: Seq<A>)
    requires
        s.no_duplicates(),
        s.len() > 0,
    ensures
        s.drop_first() == s.remove(0),
        s.drop_first().no_duplicates(),
        !s.drop_first().contains(s[0]),
        s.drop_first().to_set() == s.to_set().remove(s[0]),
{
    lemma_remove(s, 0);
    assert(s.drop_first() =~= s.remove(0));
}

} // verus!
