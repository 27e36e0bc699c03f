use std::collections::HashSet;

use depgraph::graph::{is_reachable, transitive_reduction};

fn edge_set(pairs: &[(&str, &str)]) -> HashSet<(String, String)> {
    pairs
        .iter()
        .map(|(a, b)| (a.to_string(), b.to_string()))
        .collect()
}

fn edge_list(pairs: &[(&str, &str)]) -> Vec<(String, String)> {
    pairs
        .iter()
        .map(|(a, b)| (a.to_string(), b.to_string()))
        .collect()
}

fn as_set(edges: Vec<(String, String)>) -> HashSet<(String, String)> {
    edges.into_iter().collect()
}

#[test]
fn transitive_reduction_drops_direct_shortcut() {
    // A -> C is redundant because A -> B -> C already reaches C.
    let edges = edge_list(&[("A", "B"), ("B", "C"), ("A", "C")]);
    let reduced = transitive_reduction(&edges);
    assert_eq!(as_set(reduced), edge_set(&[("A", "B"), ("B", "C")]));
}

#[test]
fn transitive_reduction_drops_diamond_shortcut() {
    // A -> D is redundant: A can already reach D via B or via C.
    let edges = edge_list(&[("A", "B"), ("A", "C"), ("B", "D"), ("C", "D"), ("A", "D")]);
    let reduced = transitive_reduction(&edges);
    assert_eq!(
        as_set(reduced),
        edge_set(&[("A", "B"), ("A", "C"), ("B", "D"), ("C", "D")])
    );
}

#[test]
fn transitive_reduction_keeps_minimal_cycle() {
    // A lone bidirectional pair has no alternate path in either
    // direction, so both edges must be kept.
    let edges = edge_list(&[("A", "B"), ("B", "A")]);
    let reduced = transitive_reduction(&edges);
    assert_eq!(as_set(reduced), edge_set(&[("A", "B"), ("B", "A")]));
}

#[test]
fn transitive_reduction_preserves_reachability_with_shortcut_into_cycle() {
    // A -> B is redundant here: A can already reach B via A -> C -> B.
    let edges = edge_list(&[("A", "B"), ("B", "A"), ("A", "C"), ("C", "B")]);
    let reduced = transitive_reduction(&edges);
    assert!(is_reachable(&reduced, "A", "B"));
    assert!(is_reachable(&reduced, "B", "A"));
    assert!(!reduced.contains(&("A".to_string(), "B".to_string())));
}

#[test]
fn transitive_reduction_output_is_sorted_and_deduplicated() {
    let edges = edge_list(&[("b", "c"), ("a", "b"), ("b", "c")]);
    let reduced = transitive_reduction(&edges);
    assert_eq!(reduced, edge_list(&[("a", "b"), ("b", "c")]));
}

#[test]
fn transitive_reduction_of_nothing_is_nothing() {
    assert!(transitive_reduction(&Vec::new()).is_empty());
}

#[test]
fn reachability_needs_at_least_one_edge() {
    let edges = edge_list(&[("A", "B"), ("B", "C")]);
    assert!(is_reachable(&edges, "A", "C"));
    assert!(!is_reachable(&edges, "C", "A"));
    assert!(!is_reachable(&edges, "A", "A"));
    assert!(!is_reachable(&edges, "X", "A"));
    let cyclic = edge_list(&[("A", "B"), ("B", "A")]);
    assert!(is_reachable(&cyclic, "A", "A"));
}

#[test]
fn reduction_keeps_reachability_of_a_larger_graph() {
    let edges = edge_list(&[
        ("a", "b"),
        ("b", "c"),
        ("c", "d"),
        ("a", "d"),
        ("d", "b"),
        ("a", "c"),
        ("e", "a"),
    ]);
    let reduced = transitive_reduction(&edges);
    let nodes = ["a", "b", "c", "d", "e"];
    for x in nodes {
        for y in nodes {
            assert_eq!(is_reachable(&reduced, x, y), is_reachable(&edges, x, y));
        }
    }
    for e in &reduced {
        assert!(edges.contains(e));
        let others: Vec<(String, String)> = reduced.iter().filter(|f| *f != e).cloned().collect();
        assert!(!is_reachable(&others, &e.0, &e.1));
    }
}

#[test]
fn reduction_of_acyclic_graph_keeps_exactly_irreplaceable_edges() {
    let edges = edge_list(&[
        ("a", "b"),
        ("b", "c"),
        ("a", "c"),
        ("c", "d"),
        ("a", "d"),
        ("b", "d"),
        ("e", "d"),
    ]);
    let reduced = transitive_reduction(&edges);
    for e in &edges {
        let others: Vec<(String, String)> = edges.iter().filter(|f| *f != e).cloned().collect();
        let irreplaceable = !is_reachable(&others, &e.0, &e.1);
        assert_eq!(reduced.contains(e), irreplaceable);
    }
    assert_eq!(
        as_set(reduced),
        edge_set(&[("a", "b"), ("b", "c"), ("c", "d"), ("e", "d")])
    );
    let mut shuffled = edges.clone();
    shuffled.reverse();
    assert_eq!(transitive_reduction(&shuffled), transitive_reduction(&edges));
}
