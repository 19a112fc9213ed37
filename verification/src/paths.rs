//! Walks, reachability and cycles of a node list, and the lemmas the
//! two algorithms rest on.

use vstd::prelude::*;
use vstd::set_lib::lemma_len_subset;
use vstd::set_lib::lemma_int_range;
use vstd::set_lib::set_int_range;
use crate::graph::Item;

verus! {

/// There is a dependency edge from node `a` to node `b`.
pub open spec fn dep_edge(items: Seq<Item>, a: int, b: int) -> bool {
    &&& 0 <= a < items.len()
    &&& exists|j: int|
        0 <= j < items[a].deps@.len() && (#[trigger] items[a].deps@[j]) as int == b
}

/// `p` is a walk: at least one node, every node in range, and a
/// dependency edge between each consecutive pair.
pub open spec fn is_walk(items: Seq<Item>, p: Seq<int>) -> bool {
    &&& p.len() >= 1
    &&& forall|i: int| 0 <= i < p.len() ==> 0 <= #[trigger] p[i] < items.len()
    &&& forall|i: int| 0 <= i < p.len() - 1 ==> dep_edge(items, #[trigger] p[i], p[i + 1])
}

/// Some walk leads from `a` to `b`.
pub open spec fn reaches(items: Seq<Item>, a: int, b: int) -> bool {
    exists|p: Seq<int>| is_walk(items, p) && p.first() == a && p.last() == b
}

/// Some walk of at least one edge leads from `v` back to `v`.
pub open spec fn on_cycle(items: Seq<Item>, v: int) -> bool {
    exists|p: Seq<int>| is_walk(items, p) && p.len() >= 2 && p.first() == v && p.last() == v
}

/// The graph holds a circular dependency.
pub open spec fn has_cycle(items: Seq<Item>) -> bool {
    exists|v: int| on_cycle(items, v)
}

/// Nothing reachable from `v` lies on a cycle.
#[verifier::opaque]
pub open spec fn safe(items: Seq<Item>, v: int) -> bool {
    forall|w: int| #[trigger] reaches(items, v, w) ==> !on_cycle(items, w)
}

/// Every node reaches itself by the walk of one node.
pub proof fn lemma_self_reach(items: Seq<Item>, v: int)
    requires
        0 <= v < items.len(),
    ensures
        reaches(items, v, v),
{
    let p = seq![v];
    assert(p.first() == v);
    assert(p.last() == v);
    assert(is_walk(items, p));
}

/// A contiguous piece of a walk is a walk between its own ends.
pub proof fn lemma_walk_sub(items: Seq<Item>, p: Seq<int>, i: int, j: int)
    requires
        is_walk(items, p),
        0 <= i <= j < p.len(),
    ensures
        is_walk(items, p.subrange(i, j + 1)),
        p.subrange(i, j + 1).first() == p[i],
        p.subrange(i, j + 1).last() == p[j],
        p.subrange(i, j + 1).len() == j + 1 - i,
{
    let q = p.subrange(i, j + 1);
    assert forall|k: int| 0 <= k < q.len() - 1 implies dep_edge(items, #[trigger] q[k], q[k + 1]) by {
        assert(q[k] == p[i + k]);
        assert(q[k + 1] == p[i + k + 1]);
        assert(dep_edge(items, p[i + k], p[i + k + 1]));
    }
}

/// A piece of a walk witnesses reachability between its ends.
pub proof fn lemma_walk_reaches(items: Seq<Item>, p: Seq<int>, i: int, j: int)
    requires
        is_walk(items, p),
        0 <= i <= j < p.len(),
    ensures
        reaches(items, p[i], p[j]),
{
    lemma_walk_sub(items, p, i, j);
}

/// A node all of whose direct dependencies are safe is itself safe.
pub proof fn lemma_deps_safe(items: Seq<Item>, v: int)
    requires
        0 <= v < items.len(),
        forall|j: int|
            0 <= j < items[v].deps@.len() ==> safe(
                items,
                (#[trigger] items[v].deps@[j]) as int,
            ),
    ensures
        safe(items, v),
{
    reveal(safe);
    assert forall|w: int| #[trigger] reaches(items, v, w) implies !on_cycle(items, w) by {
        let p = choose|p: Seq<int>| is_walk(items, p) && p.first() == v && p.last() == w;
        if p.len() == 1 {
            // w is v itself: a cycle at v would start with a dependency
            // of v that reaches back to v.
            assert(w == v);
            if on_cycle(items, v) {
                let q = choose|q: Seq<int>|
                    is_walk(items, q) && q.len() >= 2 && q.first() == v && q.last() == v;
                assert(dep_edge(items, q[0], q[1]));
                let j = choose|j: int|
                    0 <= j < items[v].deps@.len() && (#[trigger] items[v].deps@[j]) as int
                        == q[1];
                assert(safe(items, q[1]));
                lemma_walk_reaches(items, q, 1, q.len() - 1);
                assert(reaches(items, q[1], v));
                assert(!on_cycle(items, v));
            }
        } else {
            // the walk's second node is a dependency of v and reaches w
            assert(dep_edge(items, p[0], p[1]));
            let j = choose|j: int|
                0 <= j < items[v].deps@.len() && (#[trigger] items[v].deps@[j]) as int == p[1];
            assert(safe(items, p[1]));
            lemma_walk_reaches(items, p, 1, p.len() - 1);
            assert(reaches(items, p[1], w));
        }
    }
}

/// When every node is safe, the graph holds no cycle.
pub proof fn lemma_all_safe_acyclic(items: Seq<Item>)
    requires
        forall|v: int| 0 <= v < items.len() ==> safe(items, v),
    ensures
        !has_cycle(items),
{
    reveal(safe);
    if has_cycle(items) {
        let v = choose|v: int| on_cycle(items, v);
        let p = choose|p: Seq<int>|
            is_walk(items, p) && p.len() >= 2 && p.first() == v && p.last() == v;
        assert(p[0] == v);
        assert(0 <= v < items.len());
        assert(safe(items, v));
        lemma_self_reach(items, v);
        assert(!on_cycle(items, v));
    }
}

/// A set where every member has a dependency inside the set.
pub open spec fn stuck_set(items: Seq<Item>, s: Set<int>) -> bool {
    &&& forall|u: int| s.contains(u) ==> 0 <= u < items.len()
    &&& forall|u: int| #[trigger] s.contains(u) ==> exists|j: int|
        0 <= j < items[u].deps@.len() && s.contains((#[trigger] items[u].deps@[j]) as int)
}

/// From any member of a stuck set a walk of any requested length runs
/// inside the set.
pub proof fn lemma_stuck_walk(items: Seq<Item>, s: Set<int>, v: int, m: nat)
    requires
        stuck_set(items, s),
        s.contains(v),
    ensures
        exists|p: Seq<int>|
            is_walk(items, p) && p.len() == m + 1 && p.first() == v && forall|i: int|
                0 <= i < p.len() ==> s.contains(#[trigger] p[i]),
    decreases m,
{
    if m == 0 {
        let p = seq![v];
        assert(is_walk(items, p));
        assert(forall|i: int| 0 <= i < p.len() ==> s.contains(#[trigger] p[i]));
    } else {
        let j = choose|j: int|
            0 <= j < items[v].deps@.len() && s.contains((#[trigger] items[v].deps@[j]) as int);
        let d = items[v].deps@[j] as int;
        lemma_stuck_walk(items, s, d, (m - 1) as nat);
        let q = choose|q: Seq<int>|
            is_walk(items, q) && q.len() == m && q.first() == d && forall|i: int|
                0 <= i < q.len() ==> s.contains(#[trigger] q[i]);
        let p = seq![v] + q;
        assert(p[0] == v);
        assert forall|i: int| 0 <= i < p.len() - 1 implies dep_edge(
            items,
            #[trigger] p[i],
            p[i + 1],
        ) by {
            if i == 0 {
                assert(p[1] == q[0]);
                assert(dep_edge(items, v, d));
            } else {
                assert(p[i] == q[i - 1]);
                assert(p[i + 1] == q[i]);
                assert(dep_edge(items, q[i - 1], q[i]));
            }
        }
        assert(is_walk(items, p));
        assert(p.first() == v);
        assert(p.len() == m + 1);
        assert(forall|i: int| 1 <= i < p.len() ==> p[i] == q[i - 1]);
        assert(forall|i: int| 0 <= i < p.len() ==> s.contains(#[trigger] p[i]));
    }
}

/// A nonempty stuck set forces a cycle: a walk longer than the node
/// count must repeat a node, and the repeated stretch closes a cycle.
pub proof fn lemma_stuck_cycle(items: Seq<Item>, s: Set<int>, v: int)
    requires
        stuck_set(items, s),
        s.contains(v),
    ensures
        has_cycle(items),
{
    let n = items.len() as int;
    lemma_stuck_walk(items, s, v, n as nat);
    let p = choose|p: Seq<int>|
        is_walk(items, p) && p.len() == n + 1 && p.first() == v && forall|i: int|
            0 <= i < p.len() ==> s.contains(#[trigger] p[i]);
    // pigeonhole: n + 1 values all within 0 .. n must repeat
    if p.no_duplicates() {
        p.unique_seq_to_set();
        assert(p.to_set().len() == n + 1);
        assert forall|x: int| p.to_set().contains(x) implies set_int_range(0, n).contains(x) by {
            let i = choose|i: int| 0 <= i < p.len() && p[i] == x;
        }
        lemma_int_range(0, n);
        lemma_len_subset(p.to_set(), set_int_range(0, n));
        assert(false);
    }
    let (i, j) = choose|i: int, j: int| 0 <= i < j < p.len() && p[i] == p[j];
    lemma_walk_sub(items, p, i, j);
    let q = p.subrange(i, j + 1);
    assert(q.len() >= 2);
    assert(on_cycle(items, p[i]));
}

} // verus!
