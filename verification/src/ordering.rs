//! Sorting with proved results.

use vstd::prelude::*;
use vstd::relations::*;
use vstd::seq_lib::*;

verus! {

/// The ascending order of the integers of `s`.
pub open spec fn ascending(s: Seq<u64>) -> Seq<u64> {
    s.sort_by(|a: u64, b: u64| a <= b)
}

/// Whether `p` lists each of `0..n` once.
pub open spec fn is_permutation(p: Seq<int>, n: nat) -> bool {
    &&& p.len() == n
    &&& forall|i: int| 0 <= i < n ==> 0 <= #[trigger] p[i] < n
    &&& forall|i: int, j: int| 0 <= i < j < n ==> #[trigger] p[i] != #[trigger] p[j]
}

/// `s` with the element at `from` taken out and put back at `to`.
pub open spec fn moved<A>(s: Seq<A>, from: int, to: int) -> Seq<A> {
    s.remove(from).insert(to, s[from])
}

/// What stands at position `k` after the element at `from` has moved down to `to`.
pub open spec fn moved_source(from: int, to: int, k: int) -> int {
    if k == to {
        from
    } else if to < k <= from {
        k - 1
    } else {
        k
    }
}

/// An element moved down leaves every other in its order.
pub proof fn lemma_moved<A>(s: Seq<A>, from: int, to: int)
    requires
        0 <= to <= from < s.len(),
    ensures
        moved(s, from, to).len() == s.len(),
        forall|k: int|
            0 <= k < s.len() ==> #[trigger] moved(s, from, to)[k] == s[moved_source(from, to, k)],
{
}

proof fn lemma_moved_multiset(s: Seq<u64>, from: int, to: int)
    requires
        0 <= to <= from < s.len(),
    ensures
        moved(s, from, to).to_multiset() == s.to_multiset(),
{
    broadcast use group_to_multiset_ensures;

    let out = s.remove(from);
    let back = moved(s, from, to);
    assert(back.remove(to) =~= out);
    assert(back[to] == s[from]);
    assert(back.to_multiset().remove(s[from]) =~= out.to_multiset());
    assert(s.to_multiset().remove(s[from]) =~= out.to_multiset());
    assert(back.contains(back[to]));
    assert(s.contains(s[from]));
    assert(back.to_multiset().count(s[from]) > 0);
    assert(s.to_multiset().count(s[from]) > 0);
    assert(back.to_multiset() =~= out.to_multiset().insert(s[from]));
    assert(s.to_multiset() =~= out.to_multiset().insert(s[from]));
}

/// Sorts integers into ascending order.
pub fn sort_ascending(v: Vec<u64>) -> (r: Vec<u64>)
    ensures
        r@ == ascending(v@),
        r@.len() == v@.len(),
        forall|i: int, j: int| 0 <= i <= j < r@.len() ==> r@[i] <= r@[j],
{
    let mut r = v;
    let n: usize = r.len();
    let mut i: usize = 0;
    while i < n
        invariant
            i <= n,
            n == r@.len(),
            r@.to_multiset() == v@.to_multiset(),
            forall|a: int, b: int| 0 <= a <= b < i ==> r@[a] <= r@[b],
        decreases n - i,
    {
        let mut j: usize = i;
        while j > 0 && r[j - 1] > r[i]
            invariant
                j <= i < n,
                n == r@.len(),
                forall|a: int| j <= a < i ==> r@[a] > r@[i as int],
            decreases j,
        {
            j = j - 1;
        }
        proof {
            lemma_moved_multiset(r@, i as int, j as int);
            lemma_moved(r@, i as int, j as int);
        }
        let ghost before = r@;
        let x: u64 = r.remove(i);
        r.insert(j, x);
        assert(r@ == moved(before, i as int, j as int));
        assert forall|a: int, b: int| 0 <= a <= b < i + 1 implies r@[a] <= r@[b] by {
            assert(r@[a] == before[moved_source(i as int, j as int, a)]);
            assert(r@[b] == before[moved_source(i as int, j as int, b)]);
        }
        i = i + 1;
    }
    proof {
        broadcast use group_to_multiset_ensures;

        let leq = |a: u64, b: u64| a <= b;
        assert(total_ordering(leq));
        v@.lemma_sort_by_ensures(leq);
        assert(sorted_by(r@, leq));
        lemma_sorted_unique(r@, v@.sort_by(leq), leq);
        assert(r@.to_multiset().len() == r@.len());
    }
    r
}

} // verus!
