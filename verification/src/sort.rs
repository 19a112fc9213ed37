//! Topological ordering of an acyclic node list by in-degree-driven
//! layering: nodes whose dependencies are all placed enter a FIFO
//! queue, and the queue order is the output order.

use vstd::prelude::*;
use vstd::set_lib::lemma_len_subset;
use vstd::set_lib::lemma_int_range;
use vstd::set_lib::set_int_range;
use crate::graph::{Item, valid_graph};
use crate::paths::{has_cycle, stuck_set, lemma_stuck_cycle};

verus! {

/// Occurrences of `x` in `s`.
pub open spec fn occ(s: Seq<usize>, x: usize) -> nat
    decreases s.len(),
{
    if s.len() == 0 {
        0
    } else {
        occ(s.drop_last(), x) + if s.last() == x {
            1nat
        } else {
            0nat
        }
    }
}

/// How many positions of a dependency row point at a node outside
/// `done`: the still-unsatisfied dependencies.
pub open spec fn pending_count(deps: Seq<usize>, done: Set<usize>) -> nat
    decreases deps.len(),
{
    if deps.len() == 0 {
        0
    } else {
        pending_count(deps.drop_last(), done) + if done.contains(deps.last()) {
            0nat
        } else {
            1nat
        }
    }
}

/// `ord` is a dependency-respecting arrangement of every node index
/// exactly once: dependencies sort before dependents.
pub open spec fn is_topo_order(items: Seq<Item>, ord: Seq<usize>) -> bool {
    &&& ord.len() == items.len()
    &&& ord.no_duplicates()
    &&& forall|k: int| 0 <= k < ord.len() ==> ((#[trigger] ord[k]) as int) < items.len()
    &&& forall|x: usize| (x as int) < items.len() ==> ord.contains(x)
    &&& forall|p: int, j: int|
        0 <= p < ord.len() && 0 <= j < items[ord[p] as int].deps@.len() ==> exists|q: int|
            0 <= q < p && ord[q] == (#[trigger] items[ord[p] as int].deps@[j])
}

proof fn lemma_occ_take(s: Seq<usize>, t: int, x: usize)
    requires
        0 <= t < s.len(),
    ensures
        occ(s.subrange(0, t + 1), x) == occ(s.subrange(0, t), x) + if s[t] == x {
            1nat
        } else {
            0nat
        },
{
    assert(s.subrange(0, t + 1).drop_last() =~= s.subrange(0, t));
    assert(s.subrange(0, t + 1).last() == s[t]);
}

proof fn lemma_occ_prefix_le(s: Seq<usize>, t: int, x: usize)
    requires
        0 <= t <= s.len(),
    ensures
        occ(s.subrange(0, t), x) <= occ(s, x),
    decreases s.len() - t,
{
    if t == s.len() {
        assert(s.subrange(0, t) =~= s);
    } else {
        lemma_occ_take(s, t, x);
        lemma_occ_prefix_le(s, t + 1, x);
    }
}

proof fn lemma_pending_zero(deps: Seq<usize>, done: Set<usize>)
    ensures
        (pending_count(deps, done) == 0) <==> (forall|j: int|
            0 <= j < deps.len() ==> done.contains(#[trigger] deps[j])),
    decreases deps.len(),
{
    if deps.len() > 0 {
        lemma_pending_zero(deps.drop_last(), done);
        assert(forall|j: int| 0 <= j < deps.len() - 1 ==> deps.drop_last()[j] == deps[j]);
        if pending_count(deps, done) == 0 {
            assert forall|j: int| 0 <= j < deps.len() implies done.contains(
                #[trigger] deps[j],
            ) by {
                if j < deps.len() - 1 {
                    assert(done.contains(deps.drop_last()[j]));
                } else {
                    assert(done.contains(deps.last()));
                }
            }
        } else {
            if forall|j: int| 0 <= j < deps.len() ==> done.contains(#[trigger] deps[j]) {
                assert forall|j: int| 0 <= j < deps.len() - 1 implies done.contains(
                    #[trigger] deps.drop_last()[j],
                ) by {
                    assert(deps.drop_last()[j] == deps[j]);
                }
                assert(done.contains(deps.last()));
                assert(false);
            }
        }
    }
}

proof fn lemma_pending_insert(deps: Seq<usize>, done: Set<usize>, v: usize)
    requires
        !done.contains(v),
    ensures
        pending_count(deps, done) == pending_count(deps, done.insert(v)) + occ(deps, v),
    decreases deps.len(),
{
    if deps.len() > 0 {
        lemma_pending_insert(deps.drop_last(), done, v);
    }
}

proof fn lemma_pending_empty(deps: Seq<usize>, done: Set<usize>)
    requires
        forall|x: usize| !done.contains(x),
    ensures
        pending_count(deps, done) == deps.len(),
    decreases deps.len(),
{
    if deps.len() > 0 {
        lemma_pending_empty(deps.drop_last(), done);
    }
}

/// A duplicate-free row of indices below `n` cannot be longer than `n`.
proof fn lemma_bounded_no_dup_len(s: Seq<usize>, n: int)
    requires
        s.no_duplicates(),
        forall|k: int| 0 <= k < s.len() ==> ((#[trigger] s[k]) as int) < n,
        n >= 0,
    ensures
        s.len() <= n,
{
    let si = Seq::new(s.len(), |k: int| s[k] as int);
    assert(si.no_duplicates());
    si.unique_seq_to_set();
    assert forall|x: int| si.to_set().contains(x) implies set_int_range(0, n).contains(x) by {
        let k = choose|k: int| 0 <= k < si.len() && si[k] == x;
        assert(s[k] as int == x);
    }
    lemma_int_range(0, n);
    lemma_len_subset(si.to_set(), set_int_range(0, n));
}

/// A duplicate-free row of indices below `n` that holds every index
/// below `n` has length exactly `n`.
proof fn lemma_complete_no_dup_len(s: Seq<usize>, n: int)
    requires
        s.no_duplicates(),
        forall|k: int| 0 <= k < s.len() ==> ((#[trigger] s[k]) as int) < n,
        forall|x: usize| (x as int) < n ==> s.contains(x),
        n >= 0,
        n <= usize::MAX,
    ensures
        s.len() == n,
{
    let si = Seq::new(s.len(), |k: int| s[k] as int);
    assert(si.no_duplicates());
    si.unique_seq_to_set();
    assert forall|x: int| si.to_set().contains(x) <==> set_int_range(0, n).contains(x) by {
        if si.to_set().contains(x) {
            let k = choose|k: int| 0 <= k < si.len() && si[k] == x;
            assert(s[k] as int == x);
        }
        if set_int_range(0, n).contains(x) {
            assert(s.contains(x as usize));
            let k = choose|k: int| 0 <= k < s.len() && s[k] == x as usize;
            assert(si[k] == x);
            assert(si.to_set().contains(x));
        }
    }
    assert(si.to_set() =~= set_int_range(0, n));
    lemma_int_range(0, n);
}

/// The order in which Kahn's algorithm places the nodes of an acyclic
/// graph: every index exactly once, dependencies first. Ties among
/// nodes that become free together are broken by ascending index and
/// first-in-first-out queueing.
#[verifier::rlimit(100)]
pub fn sort_indices(items: &Vec<Item>) -> (order: Vec<usize>)
    requires
        valid_graph(items@),
        !has_cycle(items@),
    ensures
        is_topo_order(items@, order@),
{
    let n = items.len();
    // reverse adjacency: rev[d] lists, once per edge, each node that
    // depends on d; in_degree[u] counts u's dependency entries
    let mut rev: Vec<Vec<usize>> = Vec::new();
    let mut in_degree: Vec<usize> = Vec::new();
    while rev.len() < n
        invariant
            rev@.len() <= n,
            forall|d: int| 0 <= d < rev@.len() ==> (#[trigger] rev@[d])@.len() == 0,
        decreases n - rev@.len(),
    {
        rev.push(Vec::new());
    }
    while in_degree.len() < n
        invariant
            in_degree@.len() <= n,
            forall|u: int| 0 <= u < in_degree@.len() ==> (#[trigger] in_degree@[u]) == 0,
        decreases n - in_degree@.len(),
    {
        in_degree.push(0);
    }
    let mut u: usize = 0;
    while u < n
        invariant
            n == items@.len(),
            valid_graph(items@),
            u <= n,
            rev@.len() == n,
            in_degree@.len() == n,
            forall|w: int| 0 <= w < u ==> (#[trigger] in_degree@[w]) as int == items@[w].deps@.len(),
            forall|w: int| u <= w < n ==> (#[trigger] in_degree@[w]) == 0,
            forall|d: int, k: int|
                0 <= d < n && 0 <= k < rev@[d]@.len() ==> ((#[trigger] rev@[d]@[k]) as int) < u,
            forall|d: usize, w: usize|
                (d as int) < n && (w as int) < n ==> #[trigger] occ(rev@[d as int]@, w) == if (
                w as int) < u {
                    occ(items@[w as int].deps@, d)
                } else {
                    0nat
                },
        decreases n - u,
    {
        let row_len = items[u].deps.len();
        let mut j: usize = 0;
        while j < row_len
            invariant
                n == items@.len(),
                valid_graph(items@),
                u < n,
                row_len == items@[u as int].deps@.len(),
                j <= row_len,
                rev@.len() == n,
                in_degree@.len() == n,
                forall|w: int|
                    0 <= w < u ==> (#[trigger] in_degree@[w]) as int == items@[w].deps@.len(),
                in_degree@[u as int] as int == j,
                forall|w: int| u < w < n ==> (#[trigger] in_degree@[w]) == 0,
                forall|d: int, k: int|
                    0 <= d < n && 0 <= k < rev@[d]@.len() ==> ((#[trigger] rev@[d]@[k]) as int)
                        <= u as int,
                forall|d: usize, w: usize|
                    (d as int) < n && (w as int) < n ==> #[trigger] occ(rev@[d as int]@, w) == if (
                    w as int) < u {
                        occ(items@[w as int].deps@, d)
                    } else if w == u {
                        occ(items@[u as int].deps@.subrange(0, j as int), d)
                    } else {
                        0nat
                    },
            decreases row_len - j,
        {
            let ghost rev0 = rev@;
            let d = items[u].deps[j];
            rev[d].push(u);
            in_degree[u] = in_degree[u] + 1;
            proof {
                assert forall|dd: usize, w: usize|
                    (dd as int) < n && (w as int) < n implies #[trigger] occ(
                    rev@[dd as int]@,
                    w,
                ) == (if (w as int) < u as int {
                    occ(items@[w as int].deps@, dd)
                } else if w == u {
                    occ(items@[u as int].deps@.subrange(0, j + 1), dd)
                } else {
                    0nat
                }) by {
                    lemma_occ_take(items@[u as int].deps@, j as int, dd);
                    if dd == d {
                        assert(rev@[dd as int]@ =~= rev0[dd as int]@.push(u));
                        assert(rev@[dd as int]@.drop_last() =~= rev0[dd as int]@);
                        assert(occ(rev@[dd as int]@, w) == occ(rev0[dd as int]@, w) + if u == w {
                            1nat
                        } else {
                            0nat
                        });
                    } else {
                        assert(rev@[dd as int]@ =~= rev0[dd as int]@);
                    }
                }
            }
            j = j + 1;
        }
        proof {
            assert(items@[u as int].deps@.subrange(0, row_len as int) =~= items@[u as int].deps@);
        }
        u = u + 1;
    }
    // seed the queue with every node that has no dependencies, in
    // ascending index order
    let mut queue: Vec<usize> = Vec::new();
    let mut w: usize = 0;
    while w < n
        invariant
            n == items@.len(),
            in_degree@.len() == n,
            w <= n,
            forall|k: int| 0 <= k < queue@.len() ==> ((#[trigger] queue@[k]) as int) < w as int,
            queue@.no_duplicates(),
            forall|k: int| 0 <= k < queue@.len() ==> in_degree@[(#[trigger] queue@[k]) as int] == 0,
            forall|x: int| 0 <= x < w && in_degree@[x] == 0 ==> queue@.contains(x as usize),
        decreases n - w,
    {
        if in_degree[w] == 0 {
            let ghost q0 = queue@;
            queue.push(w);
            proof {
                assert forall|i: int, k: int| 0 <= i < k < queue@.len() implies queue@[i]
                    != queue@[k] by {
                    if k == queue@.len() - 1 {
                        assert((q0[i] as int) < w as int);
                    }
                }
                assert forall|x: int|
                    0 <= x < w + 1 && in_degree@[x] == 0 implies queue@.contains(x as usize) by {
                    if x < w as int {
                        let k = choose|k: int| 0 <= k < q0.len() && q0[k] == x as usize;
                        assert(queue@[k] == x as usize);
                    } else {
                        assert(queue@[queue@.len() - 1] == x as usize);
                    }
                }
            }
        }
        w = w + 1;
    }
    let mut order: Vec<usize> = Vec::new();
    let mut qh: usize = 0;
    proof {
        lemma_bounded_no_dup_len(queue@, n as int);
        assert(order@ =~= queue@.subrange(0, 0));
        assert forall|uu: usize| (uu as int) < n implies (#[trigger] in_degree@[uu as int]) as nat
            == pending_count(items@[uu as int].deps@, order@.to_set()) by {
            assert(forall|x: usize| !order@.to_set().contains(x));
            lemma_pending_empty(items@[uu as int].deps@, order@.to_set());
        }
    }
    while qh < queue.len()
        invariant
            n == items@.len(),
            valid_graph(items@),
            rev@.len() == n,
            in_degree@.len() == n,
            qh <= queue@.len(),
            queue@.len() <= n,
            order@ == queue@.subrange(0, qh as int),
            queue@.no_duplicates(),
            forall|k: int| 0 <= k < queue@.len() ==> ((#[trigger] queue@[k]) as int) < n,
            forall|k: int| 0 <= k < queue@.len() ==> in_degree@[(#[trigger] queue@[k]) as int] == 0,
            forall|x: int| 0 <= x < n && in_degree@[x] == 0 ==> queue@.contains(x as usize),
            forall|uu: usize|
                (uu as int) < n ==> (#[trigger] in_degree@[uu as int]) as nat == pending_count(
                    items@[uu as int].deps@,
                    order@.to_set(),
                ),
            forall|d: usize, ww: usize|
                (d as int) < n && (ww as int) < n ==> #[trigger] occ(rev@[d as int]@, ww) == occ(
                    items@[ww as int].deps@,
                    d,
                ),
            forall|d: int, k: int|
                0 <= d < n && 0 <= k < rev@[d]@.len() ==> ((#[trigger] rev@[d]@[k]) as int) < n,
            forall|p: int, j: int|
                0 <= p < order@.len() && 0 <= j < items@[order@[p] as int].deps@.len()
                    ==> exists|q: int|
                    0 <= q < p && order@[q] == (#[trigger] items@[order@[p] as int].deps@[j]),
        decreases n - qh,
    {
        let ghost queue0 = queue@;
        let ghost order0 = order@;
        let v = queue[qh];
        qh = qh + 1;
        order.push(v);
        proof {
            assert(order@ =~= queue@.subrange(0, qh as int));
            // v was not yet placed, so its pending count is its degree
            assert(!order0.contains(v)) by {
                if order0.contains(v) {
                    let q = choose|q: int| 0 <= q < order0.len() && order0[q] == v;
                    assert(queue0[q] == queue0[qh as int - 1]);
                }
            }
            assert(!order0.to_set().contains(v));
            // the new element's dependencies all sit before it
            lemma_pending_zero(items@[v as int].deps@, order0.to_set());
            assert forall|p: int, j: int|
                0 <= p < order@.len() && 0 <= j < items@[order@[p] as int].deps@.len()
                    implies exists|q: int|
                    0 <= q < p && order@[q] == (#[trigger] items@[order@[p] as int].deps@[j]) by {
                if p < order@.len() - 1 {
                    assert(order0[p] == order@[p]);
                    let q = choose|q: int|
                        0 <= q < p && order0[q] == items@[order0[p] as int].deps@[j];
                    assert(order@[q] == items@[order@[p] as int].deps@[j]);
                } else {
                    assert(order@[p] == v);
                    assert(order0.to_set().contains(items@[v as int].deps@[j]));
                    let q = choose|q: int|
                        0 <= q < order0.len() && order0[q] == items@[v as int].deps@[j];
                    assert(order@[q] == items@[order@[p] as int].deps@[j]);
                }
            }
        }
        let ghost done0 = order0.to_set();
        let ghost done1 = order@.to_set();
        proof {
            assert(order@.subrange(0, qh - 1) =~= order0);
            assert(done1 =~= done0.insert(v)) by {
                assert forall|x: usize| done1.contains(x) <==> done0.insert(v).contains(x) by {
                    if done1.contains(x) {
                        let q = choose|q: int| 0 <= q < order@.len() && order@[q] == x;
                        if q < order@.len() - 1 {
                            assert(order0[q] == x);
                        }
                    }
                    if done0.insert(v).contains(x) {
                        if x == v {
                            assert(order@[order@.len() - 1] == x);
                        } else {
                            let q = choose|q: int| 0 <= q < order0.len() && order0[q] == x;
                            assert(order@[q] == x);
                        }
                    }
                }
            }
        }
        let row_len = rev[v].len();
        let mut t: usize = 0;
        while t < row_len
            invariant
                n == items@.len(),
                valid_graph(items@),
                rev@.len() == n,
                in_degree@.len() == n,
                (v as int) < n,
                row_len == rev@[v as int]@.len(),
                t <= row_len,
                qh <= queue@.len(),
                queue@.len() <= n,
                order@ == queue@.subrange(0, qh as int),
                order@.len() == qh as int,
                order@[qh - 1] == v,
                !done0.contains(v),
                done1 == done0.insert(v),
                done0 == order@.subrange(0, qh - 1).to_set(),
                done1 == order@.to_set(),
                queue@.no_duplicates(),
                forall|k: int| 0 <= k < queue@.len() ==> ((#[trigger] queue@[k]) as int) < n,
                forall|k: int|
                    0 <= k < queue@.len() ==> in_degree@[(#[trigger] queue@[k]) as int] == 0,
                forall|x: int| 0 <= x < n && in_degree@[x] == 0 ==> queue@.contains(x as usize),
                forall|d: usize, ww: usize|
                    (d as int) < n && (ww as int) < n ==> #[trigger] occ(rev@[d as int]@, ww)
                        == occ(items@[ww as int].deps@, d),
                forall|d: int, k: int|
                    0 <= d < n && 0 <= k < rev@[d]@.len() ==> ((#[trigger] rev@[d]@[k]) as int) < n,
                forall|uu: usize|
                    (uu as int) < n ==> (#[trigger] in_degree@[uu as int]) as nat + occ(
                        rev@[v as int]@.subrange(0, t as int),
                        uu,
                    ) == pending_count(items@[uu as int].deps@, done0),
                forall|p: int, j: int|
                    0 <= p < order@.len() && 0 <= j < items@[order@[p] as int].deps@.len()
                        ==> exists|q: int|
                        0 <= q < p && order@[q] == (#[trigger] items@[order@[p] as int].deps@[j]),
            decreases row_len - t,
        {
            let ghost q1 = queue@;
            let ghost deg1 = in_degree@;
            let uu = rev[v][t];
            proof {
                lemma_occ_take(rev@[v as int]@, t as int, uu);
                lemma_occ_prefix_le(rev@[v as int]@, t as int + 1, uu);
                assert(occ(rev@[v as int]@, uu) == occ(items@[uu as int].deps@, v));
                lemma_pending_insert(items@[uu as int].deps@, done0, v);
                assert(in_degree@[uu as int] as nat >= 1);
            }
            in_degree[uu] = in_degree[uu] - 1;
            if in_degree[uu] == 0 {
                queue.push(uu);
                proof {
                    // uu was not queued: queued nodes had degree zero
                    // while uu still had a dependency outstanding
                    assert forall|i: int, k: int| 0 <= i < k < queue@.len() implies queue@[i]
                        != queue@[k] by {
                        if k == queue@.len() - 1 {
                            if q1[i] == uu {
                                assert(deg1[q1[i] as int] == 0);
                            }
                        }
                    }
                    lemma_bounded_no_dup_len(queue@, n as int);
                    assert(order@ =~= queue@.subrange(0, qh as int));
                    assert forall|x: int|
                        0 <= x < n && in_degree@[x] == 0 implies queue@.contains(x as usize) by {
                        if x == uu as int {
                            assert(queue@[queue@.len() - 1] == uu);
                        } else {
                            assert(deg1[x] == 0);
                            assert(q1.contains(x as usize));
                            let k = choose|k: int| 0 <= k < q1.len() && q1[k] == x as usize;
                            assert(queue@[k] == x as usize);
                        }
                    }
                }
            }
            proof {
                assert forall|xx: usize|
                    (xx as int) < n implies (#[trigger] in_degree@[xx as int]) as nat + occ(
                    rev@[v as int]@.subrange(0, t + 1),
                    xx,
                ) == pending_count(items@[xx as int].deps@, done0) by {
                    lemma_occ_take(rev@[v as int]@, t as int, xx);
                    if xx != uu {
                        assert(in_degree@[xx as int] == deg1[xx as int]);
                    }
                }
            }
            t = t + 1;
        }
        proof {
            // with the whole reverse row walked, every count matches
            // the new done set
            assert forall|uu: usize|
                (uu as int) < n implies (#[trigger] in_degree@[uu as int]) as nat == pending_count(
                items@[uu as int].deps@,
                done1,
            ) by {
                assert(rev@[v as int]@.subrange(0, row_len as int) =~= rev@[v as int]@);
                assert(occ(rev@[v as int]@, uu) == occ(items@[uu as int].deps@, v));
                lemma_pending_insert(items@[uu as int].deps@, done0, v);
            }
        }
    }
    // the queue drained: were any node missing from the order, the
    // missing nodes would all wait on one another, which the acyclic
    // precondition rules out
    proof {
        let missing = Set::new(
            |x: int| 0 <= x < items@.len() && !order@.contains(x as usize),
        );
        if exists|x: int| missing.contains(x) {
            let x0 = choose|x: int| missing.contains(x);
            assert forall|y: int| #[trigger] missing.contains(y) implies exists|j: int|
                0 <= j < items@[y].deps@.len() && missing.contains(
                    (#[trigger] items@[y].deps@[j]) as int,
                ) by {
                assert(in_degree@[y] != 0) by {
                    if in_degree@[y] == 0 {
                        assert(queue@.contains(y as usize));
                        let k = choose|k: int| 0 <= k < queue@.len() && queue@[k] == y as usize;
                        assert(order@[k] == y as usize);
                        assert(order@.contains(y as usize));
                    }
                }
                lemma_pending_zero(items@[y].deps@, order@.to_set());
                let j = choose|j: int|
                    0 <= j < items@[y].deps@.len() && !order@.to_set().contains(
                        #[trigger] items@[y].deps@[j],
                    );
                assert(missing.contains(items@[y].deps@[j] as int));
            }
            lemma_stuck_cycle(items@, missing, x0);
            assert(false);
        }
        assert forall|x: usize| (x as int) < items@.len() implies order@.contains(x) by {
            assert(!missing.contains(x as int));
        }
        assert(order@ =~= queue@);
        lemma_complete_no_dup_len(order@, n as int);
    }
    order
}

/// A helper copy of an index row.
fn copy_indices(v: &Vec<usize>) -> (r: Vec<usize>)
    ensures
        r@ == v@,
{
    let mut r: Vec<usize> = Vec::new();
    let mut i: usize = 0;
    while i < v.len()
        invariant
            i <= v@.len(),
            r@ == v@.subrange(0, i as int),
        decreases v@.len() - i,
    {
        r.push(v[i]);
        proof {
            assert(r@ =~= v@.subrange(0, i + 1));
        }
        i = i + 1;
    }
    proof {
        assert(v@.subrange(0, v@.len() as int) =~= v@);
    }
    r
}

/// The nodes of an acyclic graph, copied into a dependency-respecting
/// order: each output position holds a copy of the node that the
/// underlying index order puts there.
pub fn sort_items(items: &Vec<Item>) -> (r: Vec<Item>)
    requires
        valid_graph(items@),
        !has_cycle(items@),
    ensures
        r@.len() == items@.len(),
        exists|ord: Seq<usize>|
            is_topo_order(items@, ord) && (forall|k: int|
                0 <= k < r@.len() ==> (#[trigger] r@[k]).data@ == items@[ord[k] as int].data@
                    && r@[k].deps@ == items@[ord[k] as int].deps@),
{
    let order = sort_indices(items);
    let mut r: Vec<Item> = Vec::new();
    let mut i: usize = 0;
    while i < order.len()
        invariant
            is_topo_order(items@, order@),
            valid_graph(items@),
            order@.len() == items@.len(),
            i <= order@.len(),
            r@.len() == i,
            forall|k: int|
                0 <= k < i ==> (#[trigger] r@[k]).data@ == items@[order@[k] as int].data@
                    && r@[k].deps@ == items@[order@[k] as int].deps@,
        decreases order@.len() - i,
    {
        let idx = order[i];
        let it = Item { data: items[idx].data.clone(), deps: copy_indices(&items[idx].deps) };
        r.push(it);
        i = i + 1;
    }
    proof {
        let ord = order@;
        assert(is_topo_order(items@, ord) && (forall|k: int|
            0 <= k < r@.len() ==> (#[trigger] r@[k]).data@ == items@[ord[k] as int].data@
                && r@[k].deps@ == items@[ord[k] as int].deps@));
    }
    r
}

} // verus!
