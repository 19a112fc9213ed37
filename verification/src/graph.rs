//! Graph builder: turns a flat list of edge statements into an indexed
//! node list, assigning each distinct label a dense index in first-seen
//! order.

use vstd::prelude::*;

verus! {

/// A graph node: a label and, by index, the nodes it depends on.
pub struct Item {
    pub data: String,
    pub deps: Vec<usize>,
}

/// One endpoint of an edge statement, as the front end hands it over.
pub enum Endpoint {
    Node(String),
    Subgraph,
}

/// One statement of a graph description. Only a plain directed edge
/// between two named endpoints contributes to the graph; every other
/// form is a construction error.
pub enum Statement {
    Edge(Endpoint, Endpoint),
    Chain,
    Other,
}

/// The single construction error: an element of the input that is not
/// a clean two-endpoint directed edge.
pub enum BuildError {
    MalformedInput,
}

/// The label pair of a clean edge statement, if the statement is one.
pub open spec fn stmt_pair(s: Statement) -> Option<(Seq<char>, Seq<char>)> {
    match s {
        Statement::Edge(Endpoint::Node(a), Endpoint::Node(b)) => Some((a@, b@)),
        _ => None,
    }
}

/// Every statement is a clean two-endpoint directed edge.
pub open spec fn all_edges_clean(stmts: Seq<Statement>) -> bool {
    forall|i: int| 0 <= i < stmts.len() ==> (#[trigger] stmt_pair(stmts[i])) is Some
}

/// The label pairs of a statement list that is entirely clean.
pub open spec fn pairs_of(stmts: Seq<Statement>) -> Seq<(Seq<char>, Seq<char>)> {
    stmts.map_values(|s: Statement| stmt_pair(s)->Some_0)
}

/// Mathematical image of a node list: the labels in index order and the
/// adjacency, one row of dependency indices per node.
#[verifier::ext_equal]
pub struct GraphModel {
    pub labels: Seq<Seq<char>>,
    pub deps: Seq<Seq<int>>,
}

/// The model that a concrete node list denotes.
pub open spec fn model_of(items: Seq<Item>) -> GraphModel {
    GraphModel {
        labels: items.map_values(|it: Item| it.data@),
        deps: items.map_values(|it: Item| it.deps@.map_values(|d: usize| d as int)),
    }
}

/// Index of the first occurrence of `l` among `labels`; the length of
/// `labels` if `l` does not occur.
pub open spec fn label_index(labels: Seq<Seq<char>>, l: Seq<char>) -> int
    decreases labels.len(),
{
    if labels.len() == 0 {
        0
    } else if labels[0] == l {
        0
    } else {
        1 + label_index(labels.drop_first(), l)
    }
}

/// Ensure `l` has an index: a known label leaves the model unchanged, a
/// new one is appended with an empty dependency row.
pub open spec fn add_label(m: GraphModel, l: Seq<char>) -> GraphModel {
    if label_index(m.labels, l) < m.labels.len() {
        m
    } else {
        GraphModel { labels: m.labels.push(l), deps: m.deps.push(Seq::empty()) }
    }
}

/// One builder step: give both labels of the pair an index, then append
/// the target's index to the source's dependency row.
pub open spec fn add_pair(m: GraphModel, p: (Seq<char>, Seq<char>)) -> GraphModel {
    let m2 = add_label(add_label(m, p.0), p.1);
    let ia = label_index(m2.labels, p.0);
    let ib = label_index(m2.labels, p.1);
    GraphModel { labels: m2.labels, deps: m2.deps.update(ia, m2.deps[ia].push(ib)) }
}

/// The model the builder produces from a list of label pairs, folding
/// `add_pair` over the list from the front.
pub open spec fn built_model(ps: Seq<(Seq<char>, Seq<char>)>) -> GraphModel
    decreases ps.len(),
{
    if ps.len() == 0 {
        GraphModel { labels: Seq::empty(), deps: Seq::empty() }
    } else {
        add_pair(built_model(ps.drop_last()), ps.last())
    }
}

/// Well-formedness of a model: one dependency row per label, every
/// dependency index in range, and no label twice.
pub open spec fn model_wf(m: GraphModel) -> bool {
    &&& m.deps.len() == m.labels.len()
    &&& forall|i: int, j: int|
        0 <= i < m.deps.len() && 0 <= j < m.deps[i].len() ==> 0 <= #[trigger] m.deps[i][j]
            < m.labels.len()
    &&& forall|i: int, j: int| 0 <= i < j < m.labels.len() ==> m.labels[i] != m.labels[j]
}

/// Well-formedness of a node list: every dependency index is the index
/// of some node.
pub open spec fn valid_graph(items: Seq<Item>) -> bool {
    forall|i: int, j: int|
        0 <= i < items.len() && 0 <= j < items[i].deps@.len() ==> (#[trigger] items[i].deps@[j])
            < items.len()
}

/// No two nodes carry the same label.
pub open spec fn distinct_labels(items: Seq<Item>) -> bool {
    forall|i: int, j: int| 0 <= i < j < items.len() ==> items[i].data@ != items[j].data@
}

pub proof fn lemma_label_index(labels: Seq<Seq<char>>, l: Seq<char>)
    ensures
        0 <= label_index(labels, l) <= labels.len(),
        label_index(labels, l) < labels.len() ==> labels[label_index(labels, l)] == l,
        forall|k: int| 0 <= k < label_index(labels, l) ==> labels[k] != l,
    decreases labels.len(),
{
    if labels.len() == 0 {
    } else if labels[0] == l {
    } else {
        lemma_label_index(labels.drop_first(), l);
        assert forall|k: int| 0 <= k < label_index(labels, l) implies labels[k] != l by {
            if k > 0 {
                assert(labels.drop_first()[k - 1] == labels[k]);
            }
        }
    }
}

/// `label_index` names the first occurrence, so any position carrying
/// `l` with none before it is the index.
pub proof fn lemma_index_of_first(labels: Seq<Seq<char>>, l: Seq<char>, i: int)
    requires
        0 <= i < labels.len(),
        labels[i] == l,
        forall|k: int| 0 <= k < i ==> labels[k] != l,
    ensures
        label_index(labels, l) == i,
{
    lemma_label_index(labels, l);
    let li = label_index(labels, l);
    if li < i {
        assert(labels[li] == l);
    } else if li > i {
        assert(labels[i] != l);
    }
}

/// A new label lands at the end; a known one keeps the model as it is.
fn find_or_insert(items: &mut Vec<Item>, label: String) -> (idx: usize)
    ensures
        model_of(final(items)@) == add_label(model_of(old(items)@), label@),
        idx as int == label_index(model_of(final(items)@).labels, label@),
        (idx as int) < final(items)@.len(),
        final(items)@[idx as int].data@ == label@,
        old(items)@.len() <= final(items)@.len(),
        forall|i: int| 0 <= i < old(items)@.len() ==> final(items)@[i] == old(items)@[i],
{
    let ghost m0 = model_of(items@);
    let n = items.len();
    let mut i: usize = 0;
    while i < n
        invariant
            n == items@.len(),
            i <= n,
            m0 == model_of(items@),
            forall|k: int| 0 <= k < i ==> items@[k].data@ != label@,
        decreases n - i,
    {
        if items[i].data == label {
            proof {
                assert(m0.labels[i as int] == items@[i as int].data@);
                assert forall|k: int| 0 <= k < i implies m0.labels[k] != label@ by {
                    assert(m0.labels[k] == items@[k].data@);
                }
                lemma_index_of_first(m0.labels, label@, i as int);
                assert(label_index(m0.labels, label@) < m0.labels.len());
                assert(add_label(m0, label@) == m0);
            }
            return i;
        }
        i = i + 1;
    }
    proof {
        assert forall|k: int| 0 <= k < m0.labels.len() implies m0.labels[k] != label@ by {
            assert(m0.labels[k] == items@[k].data@);
        }
        lemma_label_index(m0.labels, label@);
        assert(label_index(m0.labels, label@) == m0.labels.len());
    }
    items.push(Item { data: label, deps: Vec::new() });
    proof {
        let m1 = model_of(items@);
        assert(m1.labels =~~= m0.labels.push(items@[n as int].data@));
        assert(m1.deps =~~= m0.deps.push(Seq::empty()));
        assert(m1 =~~= add_label(m0, items@[n as int].data@));
        assert forall|k: int| 0 <= k < n implies m1.labels[k] != items@[n as int].data@ by {
            assert(m1.labels[k] == m0.labels[k]);
        }
        lemma_index_of_first(m1.labels, items@[n as int].data@, n as int);
    }
    n
}

/// Construction succeeds exactly on a list of clean two-endpoint
/// edges, and then denotes the fold of `add_pair` over the label
/// pairs; any other element aborts with the malformed-input error.
pub fn build(stmts: &Vec<Statement>) -> (r: Result<Vec<Item>, BuildError>)
    ensures
        match r {
            Ok(items) => {
                &&& all_edges_clean(stmts@)
                &&& model_of(items@) == built_model(pairs_of(stmts@))
                &&& valid_graph(items@)
                &&& distinct_labels(items@)
            },
            Err(e) => !all_edges_clean(stmts@) && e == BuildError::MalformedInput,
        },
{
    let ghost ps = pairs_of(stmts@);
    let mut items: Vec<Item> = Vec::new();
    let n = stmts.len();
    let mut k: usize = 0;
    proof {
        assert(model_of(items@).labels =~= Seq::<Seq<char>>::empty());
        assert(model_of(items@).deps =~= Seq::<Seq<int>>::empty());
        assert(model_of(items@) =~= built_model(ps.subrange(0, 0)));
    }
    while k < n
        invariant
            n == stmts@.len(),
            k <= n,
            ps == pairs_of(stmts@),
            forall|i: int| 0 <= i < k ==> (#[trigger] stmt_pair(stmts@[i])) is Some,
            model_of(items@) == built_model(ps.subrange(0, k as int)),
        decreases n - k,
    {
        let ghost m0 = model_of(items@);
        match &stmts[k] {
            Statement::Edge(Endpoint::Node(a), Endpoint::Node(b)) => {
                let ghost p = ps[k as int];
                proof {
                    assert(stmt_pair(stmts@[k as int]) == Some((a@, b@)));
                    assert(p == (a@, b@));
                }
                let ia = find_or_insert(&mut items, a.clone());
                let ghost m1 = model_of(items@);
                let ib = find_or_insert(&mut items, b.clone());
                let ghost m2 = model_of(items@);
                proof {
                    // the source's index survives the second insertion
                    lemma_label_index(m1.labels, a@);
                    assert(m2.labels.len() >= m1.labels.len());
                    assert(forall|i: int| 0 <= i < m1.labels.len() ==> m2.labels[i] == m1.labels[i]);
                    assert forall|i: int| 0 <= i < ia as int implies m2.labels[i] != a@ by {
                        assert(m2.labels[i] == m1.labels[i]);
                    }
                    assert(m2.labels[ia as int] == a@);
                    lemma_index_of_first(m2.labels, a@, ia as int);
                    assert((ia as int) < m2.deps.len());
                    assert((ib as int) < m2.deps.len());
                }
                let ghost row0 = items@[ia as int].deps@;
                items[ia].deps.push(ib);
                proof {
                    let m3 = model_of(items@);
                    assert(m3.labels =~= m2.labels);
                    assert forall|i: int| 0 <= i < m3.deps.len() implies m3.deps[i]
                        == m2.deps.update(
                        ia as int,
                        m2.deps[ia as int].push(ib as int),
                    )[i] by {
                        if i == ia as int {
                            assert(items@[i].deps@ =~= row0.push(ib));
                            assert(m3.deps[i] =~= m2.deps[ia as int].push(ib as int));
                        } else {
                            assert(m3.deps[i] =~= m2.deps[i]);
                        }
                    }
                    assert(m3.deps =~= m2.deps.update(ia as int, m2.deps[ia as int].push(ib as int)));
                    assert(m3 =~= add_pair(m0, p));
                    assert(ps.subrange(0, k + 1).drop_last() =~= ps.subrange(0, k as int));
                    assert(ps.subrange(0, k + 1).last() == p);
                    assert(m3 == built_model(ps.subrange(0, k + 1)));
                }
            },
            _ => {
                proof {
                    assert(stmt_pair(stmts@[k as int]) is None);
                }
                return Err(BuildError::MalformedInput);
            },
        }
        k = k + 1;
    }
    proof {
        assert(ps.subrange(0, n as int) =~= ps);
        lemma_built_model_wf(ps);
        let m = model_of(items@);
        assert forall|i: int, j: int|
            0 <= i < items@.len() && 0 <= j < items@[i].deps@.len() implies (
        #[trigger] items@[i].deps@[j]) < items@.len() by {
            assert(m.deps[i][j] == items@[i].deps@[j] as int);
        }
        assert forall|i: int, j: int| 0 <= i < j < items@.len() implies items@[i].data@
            != items@[j].data@ by {
            assert(m.labels[i] == items@[i].data@);
            assert(m.labels[j] == items@[j].data@);
        }
    }
    Ok(items)
}

/// The builder's fold only ever produces well-formed models.
pub proof fn lemma_built_model_wf(ps: Seq<(Seq<char>, Seq<char>)>)
    ensures
        model_wf(built_model(ps)),
    decreases ps.len(),
{
    if ps.len() == 0 {
    } else {
        lemma_built_model_wf(ps.drop_last());
        let m = built_model(ps.drop_last());
        let p = ps.last();
        lemma_add_label_wf(m, p.0);
        let ma = add_label(m, p.0);
        lemma_add_label_wf(ma, p.1);
        let m2 = add_label(ma, p.1);
        lemma_label_index(m2.labels, p.0);
        lemma_label_index(m2.labels, p.1);
        assert(label_index(m2.labels, p.0) < m2.labels.len()) by {
            lemma_add_label_finds(m, p.0);
            lemma_label_index(ma.labels, p.0);
            if ma.labels.len() < m2.labels.len() {
                assert(m2.labels =~= ma.labels.push(p.1));
                assert forall|i: int| 0 <= i < label_index(ma.labels, p.0) implies m2.labels[i]
                    != p.0 by {
                    assert(m2.labels[i] == ma.labels[i]);
                }
                lemma_index_of_first(m2.labels, p.0, label_index(ma.labels, p.0));
            }
        }
        assert(label_index(m2.labels, p.1) < m2.labels.len()) by {
            lemma_add_label_finds(ma, p.1);
        }
    }
}

/// After `add_label`, the label is present.
proof fn lemma_add_label_finds(m: GraphModel, l: Seq<char>)
    ensures
        label_index(add_label(m, l).labels, l) < add_label(m, l).labels.len(),
        add_label(m, l).labels[label_index(add_label(m, l).labels, l)] == l,
{
    lemma_label_index(m.labels, l);
    let m1 = add_label(m, l);
    if label_index(m.labels, l) < m.labels.len() {
    } else {
        assert(m1.labels =~= m.labels.push(l));
        assert(m1.labels[m.labels.len() as int] == l);
        assert forall|k: int| 0 <= k < m.labels.len() implies m1.labels[k] != l by {
            assert(m1.labels[k] == m.labels[k]);
        }
        lemma_index_of_first(m1.labels, l, m.labels.len() as int);
    }
    lemma_label_index(m1.labels, l);
}

/// The labels that occur as an endpoint of some pair.
pub open spec fn pair_label_set(ps: Seq<(Seq<char>, Seq<char>)>) -> Set<Seq<char>> {
    Set::new(
        |l: Seq<char>|
            exists|p: (Seq<char>, Seq<char>)| #[trigger] ps.contains(p) && (p.0 == l || p.1 == l),
    )
}

/// The adjacency of a model read back as directed label pairs.
pub open spec fn edge_label_set(m: GraphModel) -> Set<(Seq<char>, Seq<char>)> {
    Set::new(
        |p: (Seq<char>, Seq<char>)|
            exists|i: int, j: int|
                0 <= i < m.deps.len() && 0 <= j < m.deps[i].len() && 0 <= #[trigger] m.deps[i][j]
                    < m.labels.len() && m.labels[i] == p.0 && m.labels[m.deps[i][j]] == p.1,
    )
}

/// `add_label` adds exactly the one label to the label set.
proof fn lemma_add_label_set(m: GraphModel, l: Seq<char>)
    ensures
        add_label(m, l).labels.to_set() == m.labels.to_set().insert(l),
{
    lemma_label_index(m.labels, l);
    let m1 = add_label(m, l);
    if label_index(m.labels, l) < m.labels.len() {
        assert(m.labels.contains(l));
        assert(m1.labels.to_set() =~= m.labels.to_set().insert(l));
    } else {
        assert forall|x: Seq<char>|
            m1.labels.to_set().contains(x) <==> m.labels.to_set().insert(l).contains(x) by {
            if m1.labels.to_set().contains(x) {
                let k = choose|k: int| 0 <= k < m1.labels.len() && m1.labels[k] == x;
                if k < m.labels.len() {
                    assert(m.labels[k] == x);
                }
            }
            if m.labels.contains(x) {
                let k = choose|k: int| 0 <= k < m.labels.len() && m.labels[k] == x;
                assert(m1.labels[k] == x);
            }
            if x == l {
                assert(m1.labels[m.labels.len() as int] == l);
            }
        }
        assert(m1.labels.to_set() =~= m.labels.to_set().insert(l));
    }
}

/// Each builder step adds exactly its pair's endpoints to the label
/// set.
proof fn lemma_built_labels(ps: Seq<(Seq<char>, Seq<char>)>)
    ensures
        built_model(ps).labels.to_set() == pair_label_set(ps),
    decreases ps.len(),
{
    if ps.len() == 0 {
        assert forall|l: Seq<char>|
            built_model(ps).labels.to_set().contains(l) <==> pair_label_set(ps).contains(l) by {
            if pair_label_set(ps).contains(l) {
                let p = choose|p: (Seq<char>, Seq<char>)|
                    #[trigger] ps.contains(p) && (p.0 == l || p.1 == l);
            }
        }
        assert(built_model(ps).labels.to_set() =~= pair_label_set(ps));
    } else {
        let dl = ps.drop_last();
        let p = ps.last();
        lemma_built_labels(dl);
        let m = built_model(dl);
        lemma_add_label_set(m, p.0);
        lemma_add_label_set(add_label(m, p.0), p.1);
        let m2 = add_label(add_label(m, p.0), p.1);
        assert(built_model(ps).labels == m2.labels);
        assert(m2.labels.to_set() == pair_label_set(dl).insert(p.0).insert(p.1));
        assert forall|l: Seq<char>|
            pair_label_set(ps).contains(l) <==> pair_label_set(dl).insert(p.0).insert(p.1).contains(
                l,
            ) by {
            if pair_label_set(ps).contains(l) {
                let q = choose|q: (Seq<char>, Seq<char>)|
                    #[trigger] ps.contains(q) && (q.0 == l || q.1 == l);
                let i = choose|i: int| 0 <= i < ps.len() && ps[i] == q;
                if i < ps.len() - 1 {
                    assert(dl[i] == q);
                    assert(dl.contains(q));
                } else {
                    assert(q == p);
                }
            }
            if pair_label_set(dl).contains(l) {
                let q = choose|q: (Seq<char>, Seq<char>)|
                    #[trigger] dl.contains(q) && (q.0 == l || q.1 == l);
                let i = choose|i: int| 0 <= i < dl.len() && dl[i] == q;
                assert(ps[i] == q);
                assert(ps.contains(q));
            }
            if l == p.0 || l == p.1 {
                assert(ps[ps.len() - 1] == p);
                assert(ps.contains(p));
            }
        }
        assert(pair_label_set(ps) =~= pair_label_set(dl).insert(p.0).insert(p.1));
    }
}

/// One builder step adds exactly its own pair to the adjacency, read
/// as label pairs.
proof fn lemma_add_pair_edges(m: GraphModel, p: (Seq<char>, Seq<char>))
    requires
        model_wf(m),
    ensures
        edge_label_set(add_pair(m, p)) == edge_label_set(m).insert(p),
{
    let ma = add_label(m, p.0);
    let m2 = add_label(ma, p.1);
    lemma_add_label_wf(m, p.0);
    lemma_add_label_wf(ma, p.1);
    lemma_add_label_finds(m, p.0);
    lemma_add_label_finds(ma, p.1);
    let ia = label_index(m2.labels, p.0);
    let ib = label_index(m2.labels, p.1);
    assert(0 <= ia < m2.labels.len() && m2.labels[ia] == p.0) by {
        lemma_label_index(ma.labels, p.0);
        if ma.labels.len() < m2.labels.len() {
            assert(m2.labels =~= ma.labels.push(p.1));
            assert forall|i: int| 0 <= i < label_index(ma.labels, p.0) implies m2.labels[i]
                != p.0 by {
                assert(m2.labels[i] == ma.labels[i]);
            }
            lemma_index_of_first(m2.labels, p.0, label_index(ma.labels, p.0));
        }
        lemma_label_index(m2.labels, p.0);
    }
    assert(0 <= ib < m2.labels.len() && m2.labels[ib] == p.1) by {
        lemma_label_index(m2.labels, p.1);
    }
    let mp = add_pair(m, p);
    let row = m2.deps[ia];
    assert(mp.deps == m2.deps.update(ia, row.push(ib)));
    assert forall|q: (Seq<char>, Seq<char>)|
        edge_label_set(mp).contains(q) <==> edge_label_set(m).insert(p).contains(q) by {
        if edge_label_set(mp).contains(q) {
            let (i, j) = choose|i: int, j: int|
                0 <= i < mp.deps.len() && 0 <= j < mp.deps[i].len() && 0 <= #[trigger] mp.deps[i][j]
                    < mp.labels.len() && mp.labels[i] == q.0 && mp.labels[mp.deps[i][j]] == q.1;
            if i == ia && j == row.len() {
                assert(mp.deps[i][j] == ib);
                assert(q == p);
            } else {
                assert(m2.deps[i][j] == mp.deps[i][j]);
                let e = m2.deps[i][j];
                if i < m.deps.len() {
                    assert(m2.deps[i] == m.deps[i]);
                    assert(0 <= m.deps[i][j] < m.labels.len());
                    assert(m.labels[i] == m2.labels[i]);
                    assert(m.labels[e] == m2.labels[e]);
                    assert(edge_label_set(m).contains(q));
                } else {
                    assert(m2.deps[i].len() == 0);
                    assert(false);
                }
            }
        }
        if edge_label_set(m).contains(q) {
            let (i, j) = choose|i: int, j: int|
                0 <= i < m.deps.len() && 0 <= j < m.deps[i].len() && 0 <= #[trigger] m.deps[i][j]
                    < m.labels.len() && m.labels[i] == q.0 && m.labels[m.deps[i][j]] == q.1;
            assert(m2.deps[i] == m.deps[i]);
            let e = m.deps[i][j];
            assert(m2.labels[i] == m.labels[i]);
            assert(m2.labels[e] == m.labels[e]);
            assert(mp.deps[i][j] == e) by {
                if i == ia {
                    assert(mp.deps[i] == row.push(ib));
                }
            }
            assert(0 <= mp.deps[i][j] < mp.labels.len());
            assert(edge_label_set(mp).contains(q));
        }
        if q == p {
            assert(mp.deps[ia][row.len() as int] == ib);
            assert(mp.labels[ia] == p.0);
            assert(mp.labels[ib] == p.1);
            assert(edge_label_set(mp).contains(q));
        }
    }
    assert(edge_label_set(mp) =~= edge_label_set(m).insert(p));
}

/// The built adjacency, read as label pairs, is exactly the set of
/// input pairs.
proof fn lemma_built_edges(ps: Seq<(Seq<char>, Seq<char>)>)
    ensures
        edge_label_set(built_model(ps)) == Set::new(
            |p: (Seq<char>, Seq<char>)| ps.contains(p),
        ),
    decreases ps.len(),
{
    if ps.len() == 0 {
        assert forall|q: (Seq<char>, Seq<char>)|
            !edge_label_set(built_model(ps)).contains(q) && !ps.contains(q) by {}
        assert(edge_label_set(built_model(ps)) =~= Set::new(
            |p: (Seq<char>, Seq<char>)| ps.contains(p),
        ));
    } else {
        let dl = ps.drop_last();
        let p = ps.last();
        lemma_built_edges(dl);
        lemma_built_model_wf(dl);
        lemma_add_pair_edges(built_model(dl), p);
        assert forall|q: (Seq<char>, Seq<char>)|
            ps.contains(q) <==> (dl.contains(q) || q == p) by {
            if ps.contains(q) {
                let i = choose|i: int| 0 <= i < ps.len() && ps[i] == q;
                if i < ps.len() - 1 {
                    assert(dl[i] == q);
                }
            }
            if dl.contains(q) {
                let i = choose|i: int| 0 <= i < dl.len() && dl[i] == q;
                assert(ps[i] == q);
            }
            if q == p {
                assert(ps[ps.len() - 1] == q);
            }
        }
        assert(edge_label_set(built_model(ps)) =~= Set::new(
            |q: (Seq<char>, Seq<char>)| ps.contains(q),
        ));
    }
}

/// Order independence of construction: edge lists that are
/// permutations of one another build graphs with the same label set
/// and the same adjacency read as label-pair sets.
pub proof fn lemma_build_order_independence(
    s1: Seq<(Seq<char>, Seq<char>)>,
    s2: Seq<(Seq<char>, Seq<char>)>,
)
    requires
        s1.to_multiset() == s2.to_multiset(),
    ensures
        built_model(s1).labels.to_set() == built_model(s2).labels.to_set(),
        edge_label_set(built_model(s1)) == edge_label_set(built_model(s2)),
{
    s1.to_multiset_ensures();
    s2.to_multiset_ensures();
    assert forall|q: (Seq<char>, Seq<char>)| s1.contains(q) <==> s2.contains(q) by {
        assert(s1.contains(q) <==> s1.to_multiset().count(q) > 0);
        assert(s2.contains(q) <==> s2.to_multiset().count(q) > 0);
    }
    lemma_built_labels(s1);
    lemma_built_labels(s2);
    assert(pair_label_set(s1) =~= pair_label_set(s2));
    lemma_built_edges(s1);
    lemma_built_edges(s2);
    assert(Set::new(|p: (Seq<char>, Seq<char>)| s1.contains(p)) =~= Set::new(
        |p: (Seq<char>, Seq<char>)| s2.contains(p),
    ));
}

/// `add_label` keeps a model well formed.
proof fn lemma_add_label_wf(m: GraphModel, l: Seq<char>)
    requires
        model_wf(m),
    ensures
        model_wf(add_label(m, l)),
        m.labels.len() <= add_label(m, l).labels.len(),
        forall|i: int| 0 <= i < m.labels.len() ==> add_label(m, l).labels[i] == m.labels[i],
        forall|i: int| 0 <= i < m.deps.len() ==> add_label(m, l).deps[i] == m.deps[i],
{
    lemma_label_index(m.labels, l);
    let m1 = add_label(m, l);
    if label_index(m.labels, l) < m.labels.len() {
    } else {
        assert forall|i: int, j: int| 0 <= i < j < m1.labels.len() implies m1.labels[i]
            != m1.labels[j] by {
            if j == m1.labels.len() - 1 {
                assert(m1.labels[j] == l);
                assert(m.labels[i] != l);
            }
        }
    }
}

} // verus!
