//! Document order.
//!
//! The elements of a document are numbered from zero in the order in which
//! they are met. A query result is a set of such numbers; what a caller sees
//! is that set listed in ascending order. This module defines the listing and
//! proves that it is the only ascending one.

use vstd::prelude::*;

verus! {

/// The members of `s` below `n`, in ascending order.
pub open spec fn ordered(n: nat, s: Set<int>) -> Seq<int>
    decreases n,
{
    if n == 0 {
        Seq::empty()
    } else if s.contains(n - 1) {
        ordered((n - 1) as nat, s).push(n - 1)
    } else {
        ordered((n - 1) as nat, s)
    }
}

/// Whether each item of `idx` is smaller than all that follow it.
pub open spec fn increasing(idx: Seq<int>) -> bool {
    forall|i: int, j: int| 0 <= i < j < idx.len() ==> idx[i] < idx[j]
}

/// Whether `idx` lists exactly the members of `s` below `n`, in ascending
/// order.
pub open spec fn lists(idx: Seq<int>, n: nat, s: Set<int>) -> bool {
    &&& increasing(idx)
    &&& forall|j: int| 0 <= j < idx.len() ==> 0 <= #[trigger] idx[j] < n && s.contains(idx[j])
    &&& forall|i: int| 0 <= i < n && s.contains(i) ==> #[trigger] idx.contains(i)
}

/// The ascending listing lists what it should.
pub proof fn lemma_ordered_lists(n: nat, s: Set<int>)
    ensures
        lists(ordered(n, s), n, s),
    decreases n,
{
    if n > 0 {
        let m = (n - 1) as nat;
        lemma_ordered_lists(m, s);
        let prev = ordered(m, s);
        let cur = ordered(n, s);
        if s.contains(n - 1) {
            assert(cur == prev.push(n - 1));
            assert forall|i: int| 0 <= i < n && s.contains(i) implies #[trigger] cur.contains(
                i,
            ) by {
                if i == n - 1 {
                    assert(cur[prev.len() as int] == i);
                } else {
                    assert(prev.contains(i));
                    let j = choose|j: int| 0 <= j < prev.len() && prev[j] == i;
                    assert(cur[j] == i);
                }
            }
        } else {
            assert(cur == prev);
        }
    }
}

/// There is one ascending listing only.
pub proof fn lemma_lists_is_ordered(idx: Seq<int>, n: nat, s: Set<int>)
    requires
        lists(idx, n, s),
    ensures
        idx == ordered(n, s),
    decreases n,
{
    if n == 0 {
        if idx.len() > 0 {
            assert(0 <= idx[0] < n);
        }
        assert(idx =~= Seq::empty());
    } else {
        let m = (n - 1) as nat;
        if s.contains(n - 1) {
            assert(idx.contains(n - 1));
            let j = choose|j: int| 0 <= j < idx.len() && idx[j] == n - 1;
            if j < idx.len() - 1 {
                assert(idx[j] < idx[idx.len() - 1]);
                assert(idx[idx.len() - 1] < n);
            }
            let front = idx.drop_last();
            assert forall|i: int| 0 <= i < m && s.contains(i) implies #[trigger] front.contains(
                i,
            ) by {
                assert(idx.contains(i));
                let k = choose|k: int| 0 <= k < idx.len() && idx[k] == i;
                assert(front[k] == i);
            }
            assert forall|k: int| 0 <= k < front.len() implies 0 <= #[trigger] front[k] < m
                && s.contains(front[k]) by {
                assert(front[k] == idx[k]);
                assert(idx[k] < idx[j]);
            }
            assert(lists(front, m, s));
            lemma_lists_is_ordered(front, m, s);
            assert(idx =~= front.push(n - 1));
        } else {
            assert forall|k: int| 0 <= k < idx.len() implies 0 <= #[trigger] idx[k] < m
                && s.contains(idx[k]) by {
                assert(0 <= idx[k] < n && s.contains(idx[k]));
            }
            assert(lists(idx, m, s));
            lemma_lists_is_ordered(idx, m, s);
        }
    }
}

/// The listing looks at the members below `n` only.
pub proof fn lemma_ordered_agrees(n: nat, s: Set<int>, t: Set<int>)
    requires
        forall|i: int| 0 <= i < n ==> (s.contains(i) <==> t.contains(i)),
    ensures
        ordered(n, s) == ordered(n, t),
    decreases n,
{
    if n > 0 {
        lemma_ordered_agrees((n - 1) as nat, s, t);
    }
}

/// An item of the listing is a member below `n`, and every such member is an
/// item of it.
pub proof fn lemma_ordered_members(n: nat, s: Set<int>, i: int)
    ensures
        ordered(n, s).contains(i) <==> 0 <= i < n && s.contains(i),
{
    lemma_ordered_lists(n, s);
    let idx = ordered(n, s);
    if idx.contains(i) {
        let j = choose|j: int| 0 <= j < idx.len() && idx[j] == i;
        assert(0 <= idx[j] < n && s.contains(idx[j]));
    }
}

/// The listing does not grow over a stretch that holds no member.
pub proof fn lemma_ordered_skip(lo: nat, hi: nat, s: Set<int>)
    requires
        lo <= hi,
        forall|x: int| lo <= x < hi ==> !s.contains(x),
    ensures
        ordered(hi, s) == ordered(lo, s),
    decreases hi,
{
    if lo < hi {
        lemma_ordered_skip(lo, (hi - 1) as nat, s);
    }
}

/// The document index up to which the first `c` items of a listing reach:
/// the item that follows them, and `n` where none does.
pub open spec fn reach(idx: Seq<int>, c: int, n: nat) -> nat {
    if 0 <= c < idx.len() {
        idx[c] as nat
    } else {
        n
    }
}

/// Below the first item of the listing of `s`, a part of `s` has no member.
pub proof fn lemma_filter_start(idx: Seq<int>, n: nat, s: Set<int>, t: Set<int>)
    requires
        lists(idx, n, s),
        forall|x: int| 0 <= x < n && t.contains(x) ==> s.contains(x),
    ensures
        ordered(reach(idx, 0, n), t) == Seq::<int>::empty(),
        reach(idx, 0, n) <= n,
{
    let top = reach(idx, 0, n);
    if idx.len() > 0 {
        assert(0 <= idx[0] < n);
    }
    assert forall|x: int| 0 <= x < top implies !t.contains(x) by {
        if t.contains(x) {
            assert(idx.contains(x));
            let j = choose|j: int| 0 <= j < idx.len() && idx[j] == x;
            if j > 0 {
                assert(idx[0] < idx[j]);
            }
        }
    }
    lemma_ordered_skip(0, top, t);
}

/// Going one item further in the listing of `s`, the listing of a part of
/// `s` gains that item where it is a member of the part, and nothing else.
pub proof fn lemma_filter_step(idx: Seq<int>, n: nat, s: Set<int>, t: Set<int>, c: int)
    requires
        lists(idx, n, s),
        forall|x: int| 0 <= x < n && t.contains(x) ==> s.contains(x),
        0 <= c < idx.len(),
    ensures
        ordered(reach(idx, c + 1, n), t) == if t.contains(idx[c]) {
            ordered(reach(idx, c, n), t).push(idx[c])
        } else {
            ordered(reach(idx, c, n), t)
        },
        reach(idx, c + 1, n) <= n,
{
    let here = idx[c];
    let next = reach(idx, c + 1, n);
    assert(0 <= idx[c] < n);
    if c + 1 < idx.len() {
        assert(idx[c] < idx[c + 1]);
        assert(0 <= idx[c + 1] < n);
    }
    assert forall|x: int| here + 1 <= x < next implies !t.contains(x) by {
        if t.contains(x) {
            assert(idx.contains(x));
            let j = choose|j: int| 0 <= j < idx.len() && idx[j] == x;
            if j < c {
                assert(idx[j] < idx[c]);
            } else if j > c + 1 {
                assert(idx[c + 1] < idx[j]);
            }
        }
    }
    lemma_ordered_skip((here + 1) as nat, next, t);
}

} // verus!
