use depsort::graph::{build, BuildError, Endpoint, Item, Statement};
use depsort::cycle::detect_cycle;
use depsort::sort::{sort_indices, sort_items};

fn edge(a: &str, b: &str) -> Statement {
    Statement::Edge(
        Endpoint::Node(a.to_string()),
        Endpoint::Node(b.to_string()),
    )
}

fn labels(items: &[Item]) -> Vec<String> {
    items.iter().map(|it| it.data.clone()).collect()
}

fn build_ok(stmts: Vec<Statement>) -> Vec<Item> {
    match build(&stmts) {
        Ok(items) => items,
        Err(_) => panic!("expected a clean edge list"),
    }
}

#[test]
fn chain_sorts_dependencies_first() {
    let items = build_ok(vec![edge("a", "b"), edge("b", "c")]);
    assert_eq!(labels(&items), vec!["a", "b", "c"]);
    assert_eq!(detect_cycle(&items), None);
    let sorted = sort_items(&items);
    assert_eq!(labels(&sorted), vec!["c", "b", "a"]);
}

#[test]
fn two_cycle_is_detected() {
    let items = build_ok(vec![edge("a", "b"), edge("b", "a")]);
    let witness = detect_cycle(&items);
    let (x, p) = witness.expect("a two-node cycle must be found");
    let w1 = items[x].data.clone();
    let w2 = items[p].data.clone();
    assert!(w1 == "a" || w1 == "b");
    assert!(w2 == "a" || w2 == "b");
    assert_ne!(w1, w2);
}

#[test]
fn self_loop_is_a_cycle_with_equal_witness() {
    let items = build_ok(vec![edge("a", "a")]);
    let witness = detect_cycle(&items);
    let (x, p) = witness.expect("a self-loop must be found");
    assert_eq!(x, p);
    assert_eq!(items[x].data, "a");
}

#[test]
fn diamond_is_acyclic_and_sorts_validly() {
    let items = build_ok(vec![
        edge("a", "b"),
        edge("a", "c"),
        edge("b", "d"),
        edge("c", "d"),
    ]);
    assert_eq!(detect_cycle(&items), None);
    let order = sort_indices(&items);
    assert_eq!(order.len(), 4);
    let pos = |label: &str| {
        order
            .iter()
            .position(|&k| items[k].data == label)
            .expect("every node appears")
    };
    assert!(pos("d") < pos("b"));
    assert!(pos("d") < pos("c"));
    assert!(pos("b") < pos("a"));
    assert!(pos("c") < pos("a"));
}

#[test]
fn empty_input_builds_an_empty_graph() {
    let items = build_ok(vec![]);
    assert!(items.is_empty());
    assert_eq!(detect_cycle(&items), None);
    assert!(sort_items(&items).is_empty());
}

#[test]
fn subgraph_endpoint_is_malformed() {
    let stmts = vec![Statement::Edge(
        Endpoint::Node("a".to_string()),
        Endpoint::Subgraph,
    )];
    assert!(matches!(build(&stmts), Err(BuildError::MalformedInput)));
}

#[test]
fn chain_statement_is_malformed() {
    let stmts = vec![edge("a", "b"), Statement::Chain];
    assert!(matches!(build(&stmts), Err(BuildError::MalformedInput)));
}

#[test]
fn non_edge_statement_is_malformed() {
    let stmts = vec![Statement::Other];
    assert!(matches!(build(&stmts), Err(BuildError::MalformedInput)));
}

#[test]
fn duplicate_edges_are_kept() {
    let items = build_ok(vec![edge("a", "b"), edge("a", "b")]);
    assert_eq!(items[0].deps, vec![1, 1]);
    assert_eq!(detect_cycle(&items), None);
    let sorted = sort_items(&items);
    assert_eq!(labels(&sorted), vec!["b", "a"]);
}

#[test]
fn pipeline_is_deterministic() {
    let stmts = || {
        vec![
            edge("x", "y"),
            edge("x", "z"),
            edge("y", "w"),
            edge("z", "w"),
        ]
    };
    let items1 = build_ok(stmts());
    let items2 = build_ok(stmts());
    assert_eq!(labels(&items1), labels(&items2));
    assert_eq!(detect_cycle(&items1), detect_cycle(&items2));
    assert_eq!(labels(&sort_items(&items1)), labels(&sort_items(&items2)));
}

#[test]
fn reordered_edges_keep_labels_and_adjacency_as_sets() {
    let items1 = build_ok(vec![edge("a", "b"), edge("c", "d"), edge("a", "d")]);
    let items2 = build_ok(vec![edge("c", "d"), edge("a", "d"), edge("a", "b")]);
    let mut l1 = labels(&items1);
    let mut l2 = labels(&items2);
    l1.sort();
    l2.sort();
    assert_eq!(l1, l2);
    let pair_set = |items: &[Item]| {
        let mut pairs: Vec<(String, String)> = Vec::new();
        for it in items.iter() {
            for &d in it.deps.iter() {
                pairs.push((it.data.clone(), items[d].data.clone()));
            }
        }
        pairs.sort();
        pairs.dedup();
        pairs
    };
    assert_eq!(pair_set(&items1), pair_set(&items2));
}

#[test]
fn longer_cycle_behind_a_chain_is_found() {
    let items = build_ok(vec![
        edge("a", "b"),
        edge("b", "c"),
        edge("c", "d"),
        edge("d", "b"),
    ]);
    let witness = detect_cycle(&items);
    let (x, p) = witness.expect("the three-node loop must be found");
    let on_loop = ["b", "c", "d"];
    assert!(on_loop.contains(&items[x].data.as_str()));
    assert!(on_loop.contains(&items[p].data.as_str()));
}

#[test]
fn sort_output_holds_every_node_once() {
    let items = build_ok(vec![
        edge("m", "n"),
        edge("n", "o"),
        edge("p", "o"),
        edge("m", "p"),
    ]);
    let order = sort_indices(&items);
    let mut seen = order.clone();
    seen.sort();
    assert_eq!(seen, vec![0, 1, 2, 3]);
}
