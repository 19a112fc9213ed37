//! Cycle detection: an explicit-stack depth-first search over the node
//! list, returning the first edge found to close a cycle.

use vstd::prelude::*;
use crate::graph::{Item, valid_graph};
use crate::paths::{dep_edge, reaches, has_cycle, safe, is_walk, on_cycle};
use crate::paths::{lemma_deps_safe, lemma_all_safe_acyclic};

verus! {

/// One suspended visit: a node, the position in its dependency row at
/// which to resume, and the node that pushed the visit.
pub struct Frame {
    pub node: usize,
    pub cursor: usize,
    pub parent: Option<usize>,
}

/// Number of frames at the bottom of the stack that are already open
/// (their node sits on the exploration path). At most the top frame is
/// still pending, recognisable by its zero cursor.
pub open spec fn open_len(s: Seq<Frame>) -> int {
    if s.len() > 0 && s.last().cursor == 0 {
        s.len() - 1
    } else {
        s.len() as int
    }
}

/// An open frame points at a node and a cursor position inside that
/// node's dependency row.
pub open spec fn open_ok(items: Seq<Item>, f: Frame) -> bool {
    &&& (f.node as int) < items.len()
    &&& 1 <= f.cursor <= items[f.node as int].deps@.len()
}

/// The edge the frame at `i` has just passed leads to the node of the
/// frame above it.
pub open spec fn chain_at(items: Seq<Item>, s: Seq<Frame>, i: int) -> bool {
    items[s[i].node as int].deps@[s[i].cursor - 1] as int == s[i + 1].node as int
}

/// The invariant of the search loop, over the stack, the two node
/// marks, and the root of the current traversal.
#[verifier::opaque]
pub open spec fn dfs_inv(
    items: Seq<Item>,
    s: Seq<Frame>,
    path: Seq<bool>,
    visited: Seq<bool>,
    root: int,
) -> bool {
    let t = open_len(s);
    &&& path.len() == items.len()
    &&& visited.len() == items.len()
    &&& 0 <= root < items.len()
    &&& forall|i: int| 0 <= i < t ==> open_ok(items, #[trigger] s[i])
    // consecutive open frames are joined by the edge the cursor has
    // just passed
    &&& forall|i: int| 0 <= i < t - 1 ==> #[trigger] chain_at(items, s, i)
    // no node is open twice
    &&& forall|i: int, j: int| 0 <= i < j < t ==> (#[trigger] s[i]).node != (#[trigger] s[j]).node
    // the path mark holds exactly the open nodes
    &&& forall|v: int|
        0 <= v < path.len() ==> ((#[trigger] path[v]) <==> exists|i: int|
            0 <= i < t && (#[trigger] s[i]).node as int == v)
    // open nodes are visited
    &&& forall|v: int| 0 <= v < path.len() && #[trigger] path[v] ==> visited[v]
    // a visited node no longer on the path has a fully explored,
    // cycle-free subtree
    &&& forall|v: int|
        0 <= v < visited.len() && #[trigger] visited[v] && !path[v] ==> safe(items, v)
    // children already explored from a non-top open frame are safe, but
    // for the one the next open frame is exploring
    &&& forall|i: int, j: int|
        0 <= i < t - 1 && 0 <= j < s[i].cursor - 1 ==> safe(
            items,
            (#[trigger] items[(#[trigger] s[i]).node as int].deps@[j]) as int,
        )
    // the same for the top open frame; when no pending child sits above
    // it, even its current child is done
    &&& (t >= 1 ==> forall|j: int|
        0 <= j < (if t == s.len() {
            s[t - 1].cursor as int
        } else {
            s[t - 1].cursor - 1
        }) ==> safe(items, (#[trigger] items[s[t - 1].node as int].deps@[j]) as int))
    // a pending frame is the current child of the top open frame, or
    // the untouched root frame
    &&& (t < s.len() ==> {
        let m = s.last();
        &&& (m.node as int) < items.len()
        &&& (t >= 1 ==> m.parent == Some(s[t - 1].node) && items[s[t - 1].node as int].deps@[s[t
            - 1].cursor - 1] as int == m.node as int)
        &&& (t == 0 ==> s.len() == 1 && m.node as int == root && m.parent is None)
    })
    // once the root frame has been taken up, the root stays visited
    &&& (visited[root] || (s.len() == 1 && s[0].cursor == 0 && s[0].node as int == root))
}

/// When a pending node is found already on the path, the open frames
/// from its earlier occurrence up to the top, plus the closing edge,
/// witness a cycle.
proof fn lemma_cycle_witness(
    items: Seq<Item>,
    s: Seq<Frame>,
    path: Seq<bool>,
    visited: Seq<bool>,
    root: int,
)
    requires
        dfs_inv(items, s, path, visited, root),
        open_len(s) < s.len(),
        (s.last().node as int) < path.len(),
        path[s.last().node as int],
    ensures
        open_len(s) >= 1,
        s.last().parent == Some(s[open_len(s) - 1].node),
        dep_edge(items, s[open_len(s) - 1].node as int, s.last().node as int),
        reaches(items, s.last().node as int, s[open_len(s) - 1].node as int),
        has_cycle(items),
{
    reveal(dfs_inv);
    let t = open_len(s);
    let m = s.last();
    let i = choose|i: int| 0 <= i < t && (#[trigger] s[i]).node as int == m.node as int;
    assert(t >= 1);
    let top = s[t - 1];
    assert(open_ok(items, top));
    assert(items[top.node as int].deps@[top.cursor - 1] as int == m.node as int);
    assert(dep_edge(items, top.node as int, m.node as int));
    // the open nodes from i up form a walk from m.node to the top node
    let w = Seq::new((t - i) as nat, |k: int| s[i + k].node as int);
    assert forall|k: int| 0 <= k < w.len() - 1 implies dep_edge(items, #[trigger] w[k], w[k + 1]) by {
        assert(open_ok(items, s[i + k]));
        assert(chain_at(items, s, i + k));
        assert(items[s[i + k].node as int].deps@[s[i + k].cursor - 1] as int == s[i + k
            + 1].node as int);
    }
    assert forall|k: int| 0 <= k < w.len() implies 0 <= #[trigger] w[k] < items.len() by {
        assert(open_ok(items, s[i + k]));
    }
    assert(is_walk(items, w));
    assert(w.first() == m.node as int);
    assert(w.last() == top.node as int);
    assert(reaches(items, m.node as int, top.node as int));
    // closing the walk with the detected edge yields a cycle
    let q = w.push(m.node as int);
    assert forall|k: int| 0 <= k < q.len() - 1 implies dep_edge(items, #[trigger] q[k], q[k + 1]) by {
        if k < w.len() - 1 {
            assert(q[k] == w[k]);
            assert(q[k + 1] == w[k + 1]);
        } else {
            assert(q[k] == top.node as int);
            assert(q[k + 1] == m.node as int);
        }
    }
    assert(is_walk(items, q));
    assert(q.len() >= 2);
    assert(q.first() == m.node as int);
    assert(q.last() == m.node as int);
    assert(on_cycle(items, m.node as int));
}

/// Popping a pending node whose subtree was already explored leaves
/// the invariant standing: the node is safe, so the top frame's
/// current child is accounted for.
proof fn lemma_step_skip(
    items: Seq<Item>,
    s0: Seq<Frame>,
    p0: Seq<bool>,
    v0: Seq<bool>,
    root: int,
)
    requires
        dfs_inv(items, s0, p0, v0, root),
        s0.len() > 0,
        s0.last().cursor == 0,
        !p0[s0.last().node as int],
        v0[s0.last().node as int],
    ensures
        dfs_inv(items, s0.drop_last(), p0, v0, root),
{
    reveal(dfs_inv);
    let t = open_len(s0);
    let m = s0.last().node as int;
    let s1 = s0.drop_last();
    assert(t == s0.len() - 1);
    assert(forall|i: int| 0 <= i < t ==> s1[i] == s0[i]);
    assert(open_len(s1) == t);
    assert forall|i: int| 0 <= i < open_len(s1) - 1 implies #[trigger] chain_at(
        items,
        s1,
        i,
    ) by {
        assert(chain_at(items, s0, i));
        assert(s1[i] == s0[i]);
        assert(s1[i + 1] == s0[i + 1]);
    }
    assert(safe(items, m));
    if t >= 1 {
        assert(items[s0[t - 1].node as int].deps@[s0[t - 1].cursor - 1] as int == m);
        assert forall|j: int| 0 <= j < s1[t - 1].cursor implies safe(
            items,
            (#[trigger] items[s1[t - 1].node as int].deps@[j]) as int,
        ) by {
            if j < s0[t - 1].cursor - 1 {
            } else {
                assert(items[s0[t - 1].node as int].deps@[j] as int == m);
            }
        }
    }
    assert forall|v: int| 0 <= v < p0.len() implies ((#[trigger] p0[v]) <==> exists|i: int|
        0 <= i < open_len(s1) && (#[trigger] s1[i]).node as int == v) by {
        if p0[v] {
            let i = choose|i: int| 0 <= i < t && (#[trigger] s0[i]).node as int == v;
            assert(s1[i].node as int == v);
        }
    }
    assert(v0[root]);
}

/// Closing a fully explored node: all its children are safe, so the
/// node is, and the frame below sees its current child completed.
proof fn lemma_step_close(
    items: Seq<Item>,
    s0: Seq<Frame>,
    p0: Seq<bool>,
    v0: Seq<bool>,
    root: int,
)
    requires
        dfs_inv(items, s0, p0, v0, root),
        s0.len() > 0,
        s0.last().cursor >= 1,
        s0.last().cursor == items[s0.last().node as int].deps@.len(),
    ensures
        dfs_inv(
            items,
            s0.drop_last(),
            p0.update(s0.last().node as int, false),
            v0,
            root,
        ),
        safe(items, s0.last().node as int),
{
    reveal(dfs_inv);
    let t = open_len(s0);
    let f = s0.last();
    let m = f.node as int;
    let s1 = s0.drop_last();
    let p1 = p0.update(m, false);
    assert(t == s0.len());
    assert(open_ok(items, f));
    assert(forall|i: int| 0 <= i < t - 1 ==> s1[i] == s0[i]);
    assert(open_len(s1) == t - 1);
    // every child of the closing node is safe, hence so is the node
    assert forall|j: int| 0 <= j < items[m].deps@.len() implies safe(
        items,
        (#[trigger] items[m].deps@[j]) as int,
    ) by {
        assert(0 <= j < s0[t - 1].cursor as int);
    }
    lemma_deps_safe(items, m);
    assert(p0[m]) by {
        assert(s0[t - 1].node as int == m);
    }
    assert(v0[m]);
    assert forall|i: int| 0 <= i < open_len(s1) - 1 implies #[trigger] chain_at(
        items,
        s1,
        i,
    ) by {
        assert(chain_at(items, s0, i));
        assert(s1[i] == s0[i]);
        assert(s1[i + 1] == s0[i + 1]);
    }
    if t >= 2 {
        assert(s0[t - 1] == s0.last());
        assert(chain_at(items, s0, t - 2));
        assert(items[s0[t - 2].node as int].deps@[s0[t - 2].cursor - 1] as int == m);
        assert forall|j: int| 0 <= j < s1[t - 2].cursor implies safe(
            items,
            (#[trigger] items[s1[t - 2].node as int].deps@[j]) as int,
        ) by {
            if j < s0[t - 2].cursor - 1 {
            } else {
                assert(items[s0[t - 2].node as int].deps@[j] as int == m);
            }
        }
    }
    assert forall|v: int| 0 <= v < p1.len() implies ((#[trigger] p1[v]) <==> exists|i: int|
        0 <= i < open_len(s1) && (#[trigger] s1[i]).node as int == v) by {
        if v == m {
            assert(!p1[v]);
            if exists|i: int| 0 <= i < t - 1 && (#[trigger] s1[i]).node as int == v {
                let i = choose|i: int| 0 <= i < t - 1 && (#[trigger] s1[i]).node as int == v;
                assert(s0[i].node == s0[t - 1].node);
                assert(false);
            }
        } else if p1[v] {
            let i = choose|i: int| 0 <= i < t && (#[trigger] s0[i]).node as int == v;
            assert(i != t - 1);
            assert(s1[i].node as int == v);
        }
    }
    assert(v0[root]);
}

/// Advancing an open frame's cursor and pushing the next child keeps
/// the chain intact.
#[verifier::rlimit(100)]
proof fn lemma_step_advance(
    items: Seq<Item>,
    s0: Seq<Frame>,
    p0: Seq<bool>,
    v0: Seq<bool>,
    root: int,
)
    requires
        dfs_inv(items, s0, p0, v0, root),
        s0.len() > 0,
        s0.last().cursor >= 1,
        (s0.last().cursor as int) < items[s0.last().node as int].deps@.len(),
        items[s0.last().node as int].deps@.len() <= usize::MAX,
        (items[s0.last().node as int].deps@[s0.last().cursor as int] as int) < items.len(),
    ensures
        dfs_inv(
            items,
            s0.update(
                s0.len() - 1,
                Frame {
                    node: s0.last().node,
                    cursor: (s0.last().cursor + 1) as usize,
                    parent: s0.last().parent,
                },
            ).push(
                Frame {
                    node: items[s0.last().node as int].deps@[s0.last().cursor as int],
                    cursor: 0,
                    parent: Some(s0.last().node),
                },
            ),
            p0,
            v0,
            root,
        ),
{
    reveal(dfs_inv);
    let t = open_len(s0);
    let f = s0.last();
    let m = f.node as int;
    let g1 = Frame { node: f.node, cursor: (f.cursor + 1) as usize, parent: f.parent };
    let g2 = Frame {
        node: items[m].deps@[f.cursor as int],
        cursor: 0,
        parent: Some(f.node),
    };
    let s1 = s0.update(t - 1, g1).push(g2);
    assert(t == s0.len());
    assert(open_ok(items, f));
    assert(s1.len() == s0.len() + 1);
    assert(s1.last() == g2);
    assert(open_len(s1) == t);
    assert(s1[t - 1] == g1);
    assert(f.cursor + 1 <= usize::MAX);
    assert(g1.cursor as int == f.cursor + 1);
    assert(open_ok(items, g1));
    assert((g2.node as int) < items.len());
    assert forall|i: int| 0 <= i < open_len(s1) - 1 implies #[trigger] chain_at(
        items,
        s1,
        i,
    ) by {
        assert(chain_at(items, s0, i));
        assert(s1[i] == s0[i]);
        if i < t - 2 {
            assert(s1[i + 1] == s0[i + 1]);
        } else {
            assert(s0[t - 1] == s0.last());
            assert(s1[i + 1] == g1);
        }
    }
    assert forall|j: int| 0 <= j < s1[t - 1].cursor - 1 implies safe(
        items,
        (#[trigger] items[s1[t - 1].node as int].deps@[j]) as int,
    ) by {
        assert(0 <= j < s0[t - 1].cursor as int);
    }
    assert forall|v: int| 0 <= v < p0.len() implies ((#[trigger] p0[v]) <==> exists|i: int|
        0 <= i < open_len(s1) && (#[trigger] s1[i]).node as int == v) by {
        if p0[v] {
            let i = choose|i: int| 0 <= i < t && (#[trigger] s0[i]).node as int == v;
            assert(s1[i].node as int == v);
        } else {
            if exists|i: int| 0 <= i < t && (#[trigger] s1[i]).node as int == v {
                let i = choose|i: int| 0 <= i < t && (#[trigger] s1[i]).node as int == v;
                assert(s0[i].node as int == v);
                assert(false);
            }
        }
    }
    assert(v0[root]);
}

/// Opening a pending node with at least one dependency: the node joins
/// the path and its first child becomes the new pending frame.
proof fn lemma_step_open(
    items: Seq<Item>,
    s0: Seq<Frame>,
    p0: Seq<bool>,
    v0: Seq<bool>,
    root: int,
)
    requires
        dfs_inv(items, s0, p0, v0, root),
        valid_graph(items),
        s0.len() > 0,
        s0.last().cursor == 0,
        !p0[s0.last().node as int],
        items[s0.last().node as int].deps@.len() >= 1,
    ensures
        dfs_inv(
            items,
            s0.drop_last().push(
                Frame { node: s0.last().node, cursor: 1, parent: s0.last().parent },
            ).push(
                Frame {
                    node: items[s0.last().node as int].deps@[0],
                    cursor: 0,
                    parent: Some(s0.last().node),
                },
            ),
            p0.update(s0.last().node as int, true),
            v0.update(s0.last().node as int, true),
            root,
        ),
{
    reveal(dfs_inv);
    let t = open_len(s0);
    let f = s0.last();
    let m = f.node as int;
    let g1 = Frame { node: f.node, cursor: 1, parent: f.parent };
    let g2 = Frame { node: items[m].deps@[0], cursor: 0, parent: Some(f.node) };
    let s1 = s0.drop_last().push(g1).push(g2);
    let p1 = p0.update(m, true);
    let v1 = v0.update(m, true);
    assert(t == s0.len() - 1);
    assert(s1.len() == s0.len() + 1);
    assert(s1.last() == g2);
    assert(open_len(s1) == t + 1);
    assert(forall|i: int| 0 <= i < t ==> s1[i] == s0[i]);
    assert(s1[t] == g1);
    assert(open_ok(items, g1));
    assert((g2.node as int) < items.len());
    assert forall|i: int| 0 <= i < open_len(s1) - 1 implies #[trigger] chain_at(
        items,
        s1,
        i,
    ) by {
        assert(s1[i] == s0[i]);
        if i < t - 1 {
            assert(chain_at(items, s0, i));
            assert(s1[i + 1] == s0[i + 1]);
        } else {
            // the link from the old top to the newly opened node is the
            // pending frame's own edge
            assert(s1[i + 1] == g1);
        }
    }
    // the opened node is on no open frame below it
    assert forall|i: int| 0 <= i < t implies (#[trigger] s1[i]).node != g1.node by {
        if s1[i].node == g1.node {
            assert(s0[i].node as int == m);
            assert(p0[m]);
        }
    }
    assert forall|v: int| 0 <= v < p1.len() implies ((#[trigger] p1[v]) <==> exists|i: int|
        0 <= i < open_len(s1) && (#[trigger] s1[i]).node as int == v) by {
        if v == m {
            assert(s1[t].node as int == v);
        } else if p1[v] {
            let i = choose|i: int| 0 <= i < t && (#[trigger] s0[i]).node as int == v;
            assert(s1[i].node as int == v);
        } else {
            if exists|i: int| 0 <= i < t + 1 && (#[trigger] s1[i]).node as int == v {
                let i = choose|i: int| 0 <= i < t + 1 && (#[trigger] s1[i]).node as int == v;
                assert(i < t);
                assert(s0[i].node as int == v);
                assert(false);
            }
        }
    }
    assert forall|v: int|
        0 <= v < v1.len() && #[trigger] v1[v] && !p1[v] implies safe(items, v) by {
        assert(v != m);
        assert(v0[v] && !p0[v]);
    }
    assert(v1[root] || (s1.len() == 1 && s1[0].cursor == 0 && s1[0].node as int == root)) by {
        if t == 0 {
            assert(m == root);
            assert(v1[root]);
        } else {
            assert(s0.len() >= 2);
            assert(v0[root]);
        }
    }
}

/// Opening a pending node without dependencies: it is visited, found
/// safe at once, and leaves the path as it was.
proof fn lemma_step_open_empty(
    items: Seq<Item>,
    s0: Seq<Frame>,
    p0: Seq<bool>,
    v0: Seq<bool>,
    root: int,
)
    requires
        dfs_inv(items, s0, p0, v0, root),
        s0.len() > 0,
        s0.last().cursor == 0,
        !p0[s0.last().node as int],
        items[s0.last().node as int].deps@.len() == 0,
    ensures
        dfs_inv(
            items,
            s0.drop_last(),
            p0,
            v0.update(s0.last().node as int, true),
            root,
        ),
{
    reveal(dfs_inv);
    let t = open_len(s0);
    let f = s0.last();
    let m = f.node as int;
    let s1 = s0.drop_last();
    let v1 = v0.update(m, true);
    assert(t == s0.len() - 1);
    assert(forall|i: int| 0 <= i < t ==> s1[i] == s0[i]);
    assert(open_len(s1) == t);
    assert forall|i: int| 0 <= i < open_len(s1) - 1 implies #[trigger] chain_at(
        items,
        s1,
        i,
    ) by {
        assert(chain_at(items, s0, i));
        assert(s1[i] == s0[i]);
        assert(s1[i + 1] == s0[i + 1]);
    }
    lemma_deps_safe(items, m);
    if t >= 1 {
        assert(items[s0[t - 1].node as int].deps@[s0[t - 1].cursor - 1] as int == m);
        assert forall|j: int| 0 <= j < s1[t - 1].cursor implies safe(
            items,
            (#[trigger] items[s1[t - 1].node as int].deps@[j]) as int,
        ) by {
            if j < s0[t - 1].cursor - 1 {
            } else {
                assert(items[s0[t - 1].node as int].deps@[j] as int == m);
            }
        }
    }
    assert forall|v: int| 0 <= v < p0.len() implies ((#[trigger] p0[v]) <==> exists|i: int|
        0 <= i < open_len(s1) && (#[trigger] s1[i]).node as int == v) by {
        if p0[v] {
            let i = choose|i: int| 0 <= i < t && (#[trigger] s0[i]).node as int == v;
            assert(s1[i].node as int == v);
        }
    }
    assert forall|v: int| 0 <= v < p0.len() && #[trigger] p0[v] implies v1[v] by {
        assert(v0[v]);
    }
    assert forall|v: int|
        0 <= v < v1.len() && #[trigger] v1[v] && !p0[v] implies safe(items, v) by {
        if v != m {
            assert(v0[v] && !p0[v]);
        }
    }
    assert(v1[root] || (s1.len() == 1 && s1[0].cursor == 0 && s1[0].node as int == root)) by {
        if t == 0 {
            assert(m == root);
        } else {
            assert(s0.len() >= 2);
            assert(v0[root]);
        }
    }
}

/// The invariant holds when a traversal starts: one untouched root
/// frame, an empty path, and only safe nodes visited so far.
proof fn lemma_inv_init(
    items: Seq<Item>,
    s: Seq<Frame>,
    p: Seq<bool>,
    v: Seq<bool>,
    root: int,
)
    requires
        s.len() == 1,
        s[0].cursor == 0,
        s[0].node as int == root,
        s[0].parent is None,
        0 <= root < items.len(),
        p.len() == items.len(),
        v.len() == items.len(),
        forall|i: int| 0 <= i < p.len() ==> !p[i],
        forall|i: int| 0 <= i < v.len() && #[trigger] v[i] ==> safe(items, i),
    ensures
        dfs_inv(items, s, p, v, root),
{
    reveal(dfs_inv);
    assert(open_len(s) == 0);
}

/// Bounds that every loop iteration needs before it can index the
/// node rows.
proof fn lemma_inv_facts(
    items: Seq<Item>,
    s: Seq<Frame>,
    p: Seq<bool>,
    v: Seq<bool>,
    root: int,
)
    requires
        dfs_inv(items, s, p, v, root),
    ensures
        p.len() == items.len(),
        v.len() == items.len(),
        0 <= root < items.len(),
        s.len() > 0 ==> (s.last().node as int) < items.len(),
        s.len() > 0 && s.last().cursor >= 1 ==> open_ok(items, s.last()),
{
    reveal(dfs_inv);
    if s.len() > 0 && s.last().cursor >= 1 {
        assert(open_len(s) == s.len());
        assert(open_ok(items, s[s.len() - 1]));
    }
}

/// When the stack has drained, every visited node is safe and the
/// root has been visited.
proof fn lemma_inv_exit(
    items: Seq<Item>,
    s: Seq<Frame>,
    p: Seq<bool>,
    v: Seq<bool>,
    root: int,
)
    requires
        dfs_inv(items, s, p, v, root),
        s.len() == 0,
    ensures
        p.len() == items.len(),
        v.len() == items.len(),
        forall|x: int| 0 <= x < v.len() && #[trigger] v[x] ==> safe(items, x),
        0 <= root < v.len() && v[root],
{
    reveal(dfs_inv);
    assert(open_len(s) == 0);
    assert forall|x: int| 0 <= x < v.len() && #[trigger] v[x] implies safe(items, x) by {
        assert(0 <= x < p.len());
        assert(!p[x]);
    }
}

/// Number of cleared marks in a row: the nodes still to be visited.
pub open spec fn count_false(s: Seq<bool>) -> nat
    decreases s.len(),
{
    if s.len() == 0 {
        0
    } else {
        count_false(s.drop_last()) + if s.last() {
            0nat
        } else {
            1nat
        }
    }
}

proof fn lemma_count_false_update(s: Seq<bool>, k: int)
    requires
        0 <= k < s.len(),
        !s[k],
    ensures
        count_false(s.update(k, true)) < count_false(s),
    decreases s.len(),
{
    let u = s.update(k, true);
    if k == s.len() - 1 {
        assert(u.drop_last() =~= s.drop_last());
    } else {
        assert(u.drop_last() =~= s.drop_last().update(k, true));
        assert(u.last() == s.last());
        lemma_count_false_update(s.drop_last(), k);
    }
}

/// Work left in one frame: a pending frame is one step; an open frame
/// pays one step per remaining child and its own closing.
pub open spec fn frame_cost(items: Seq<Item>, f: Frame) -> nat {
    if f.cursor == 0 {
        1
    } else if open_ok(items, f) {
        1 + 2 * (items[f.node as int].deps@.len() - f.cursor) as nat
    } else {
        1
    }
}

/// Work left on the whole stack.
pub open spec fn stack_cost(items: Seq<Item>, s: Seq<Frame>) -> nat
    decreases s.len(),
{
    if s.len() == 0 {
        0
    } else {
        stack_cost(items, s.drop_last()) + frame_cost(items, s.last())
    }
}

/// A row of `n` cleared marks.
fn bool_row(n: usize) -> (r: Vec<bool>)
    ensures
        r@.len() == n,
        forall|i: int| 0 <= i < n ==> !r@[i],
{
    let mut r: Vec<bool> = Vec::new();
    while r.len() < n
        invariant
            r@.len() <= n,
            forall|i: int| 0 <= i < r@.len() ==> !r@[i],
        decreases n - r@.len(),
    {
        r.push(false);
    }
    r
}

/// Depth-first search for a circular dependency. Returns `None` exactly
/// when the graph is acyclic; otherwise the returned pair `(a, b)`
/// names the edge `b -> a` that was found to re-enter the current
/// exploration path, so that `a` reaches `b` and the edge closes the
/// cycle. A self-loop is reported as `(a, a)`.
#[verifier::rlimit(100)]
pub fn detect_cycle(items: &Vec<Item>) -> (r: Option<(usize, usize)>)
    requires
        valid_graph(items@),
    ensures
        match r {
            Some(w) => {
                &&& (w.0 as int) < items@.len()
                &&& (w.1 as int) < items@.len()
                &&& dep_edge(items@, w.1 as int, w.0 as int)
                &&& reaches(items@, w.0 as int, w.1 as int)
                &&& has_cycle(items@)
            },
            None => !has_cycle(items@),
        },
{
    let n = items.len();
    let mut visited = bool_row(n);
    let mut start: usize = 0;
    while start < n
        invariant
            n == items@.len(),
            valid_graph(items@),
            visited@.len() == n,
            start <= n,
            forall|i: int| 0 <= i < start ==> visited@[i],
            forall|v: int| 0 <= v < n && #[trigger] visited@[v] ==> safe(items@, v),
        decreases n - start,
    {
        if !visited[start] {
            let mut stack: Vec<Frame> = Vec::new();
            stack.push(Frame { node: start, cursor: 0, parent: None });
            let mut path = bool_row(n);
            proof {
                lemma_inv_init(items@, stack@, path@, visited@, start as int);
            }
            while stack.len() > 0
                invariant
                    n == items@.len(),
                    valid_graph(items@),
                    start < n,
                    dfs_inv(items@, stack@, path@, visited@, start as int),
                    forall|i: int| 0 <= i < start ==> visited@[i],
                decreases count_false(visited@), stack_cost(items@, stack@),
            {
                let ghost s0 = stack@;
                let ghost p0 = path@;
                let ghost v0 = visited@;
                let f = match stack.pop() {
                    Some(f) => f,
                    None => {
                        proof {
                            assert(false);
                        }
                        return None;
                    },
                };
                proof {
                    lemma_inv_facts(items@, s0, p0, v0, start as int);
                    assert(f == s0.last());
                    assert(stack@ == s0.drop_last());
                    assert(stack_cost(items@, s0) == stack_cost(items@, stack@) + frame_cost(
                        items@,
                        f,
                    ));
                    assert(frame_cost(items@, f) >= 1);
                }
                if f.cursor == 0 {
                    proof {
                        assert(open_len(s0) == s0.len() - 1);
                        assert((f.node as int) < items@.len());
                    }
                    if path[f.node] {
                        proof {
                            lemma_cycle_witness(items@, s0, path@, visited@, start as int);
                        }
                        match f.parent {
                            Some(p) => {
                                return Some((f.node, p));
                            },
                            None => {
                                proof {
                                    assert(false);
                                }
                                return None;
                            },
                        }
                    }
                    if visited[f.node] {
                        // the node's whole subtree was explored earlier,
                        // so nothing new can come of entering it again
                        proof {
                            lemma_step_skip(items@, s0, p0, v0, start as int);
                        }
                        continue;
                    }
                    path[f.node] = true;
                    visited[f.node] = true;
                    proof {
                        lemma_count_false_update(v0, f.node as int);
                    }
                }
                if f.cursor < items[f.node].deps.len() {
                    stack.push(Frame { node: f.node, cursor: f.cursor + 1, parent: f.parent });
                    let next = items[f.node].deps[f.cursor];
                    stack.push(Frame { node: next, cursor: 0, parent: Some(f.node) });
                    proof {
                        let g1 = Frame {
                            node: f.node,
                            cursor: (f.cursor + 1) as usize,
                            parent: f.parent,
                        };
                        let g2 = Frame { node: next, cursor: 0, parent: Some(f.node) };
                        let s1 = s0.drop_last().push(g1);
                        assert(s1.drop_last() =~= s0.drop_last());
                        assert(stack@.drop_last() =~= s1);
                        if f.cursor >= 1 {
                            assert(open_ok(items@, f));
                            assert(open_ok(items@, g1));
                        }
                        assert(stack@.last() == g2);
                        assert(stack@.drop_last() == s1);
                        assert(stack_cost(items@, stack@) == stack_cost(items@, s1) + frame_cost(
                            items@,
                            g2,
                        ));
                        assert(stack_cost(items@, s1) == stack_cost(items@, s0.drop_last())
                            + frame_cost(items@, g1));
                        if f.cursor == 0 {
                            lemma_step_open(items@, s0, p0, v0, start as int);
                            assert(stack@ =~= s0.drop_last().push(
                                Frame { node: s0.last().node, cursor: 1, parent: s0.last().parent },
                            ).push(
                                Frame {
                                    node: items@[s0.last().node as int].deps@[0],
                                    cursor: 0,
                                    parent: Some(s0.last().node),
                                },
                            ));
                        } else {
                            lemma_step_advance(items@, s0, p0, v0, start as int);
                            assert(stack@ =~= s0.update(
                                s0.len() - 1,
                                Frame {
                                    node: s0.last().node,
                                    cursor: (s0.last().cursor + 1) as usize,
                                    parent: s0.last().parent,
                                },
                            ).push(
                                Frame {
                                    node: items@[s0.last().node as int].deps@[s0.last().cursor as int],
                                    cursor: 0,
                                    parent: Some(s0.last().node),
                                },
                            ));
                        }
                    }
                } else {
                    path[f.node] = false;
                    proof {
                        if f.cursor == 0 {
                            lemma_step_open_empty(items@, s0, p0, v0, start as int);
                            assert(path@ =~= p0);
                        } else {
                            lemma_step_close(items@, s0, p0, v0, start as int);
                        }
                    }
                }
            }
            proof {
                lemma_inv_exit(items@, stack@, path@, visited@, start as int);
            }
        }
        start = start + 1;
    }
    proof {
        assert forall|v: int| 0 <= v < items@.len() implies safe(items@, v) by {
            assert(visited@[v]);
        }
        lemma_all_safe_acyclic(items@);
    }
    None
}

} // verus!
