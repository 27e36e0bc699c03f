use depgraph::edges::{
    common_ancestor_scope, edges_from_pairs, hierarchical_edge, insert_edge, top_level_name,
    EdgeMode,
};
use depgraph::tree::FolderNode;

fn leaf(name: &str, path_id: &str) -> FolderNode {
    FolderNode {
        name: name.to_string(),
        path_id: path_id.to_string(),
        children: Vec::new(),
    }
}

fn sample_tree() -> Vec<FolderNode> {
    vec![
        FolderNode {
            name: "moduleA".to_string(),
            path_id: "moduleA".to_string(),
            children: vec![
                leaf("subA1", "moduleA/subA1"),
                leaf("subA2", "moduleA/subA2"),
            ],
        },
        leaf("moduleB", "moduleB"),
    ]
}

#[test]
fn hierarchical_edge_diverges_at_top_level() {
    let target_chain = vec!["A".to_string(), "A/sub1".to_string()];
    let prereq_chain = vec!["B".to_string(), "B/sub2".to_string()];
    assert_eq!(
        hierarchical_edge(&target_chain, &prereq_chain),
        Some(("A".to_string(), "B".to_string()))
    );
}

#[test]
fn hierarchical_edge_diverges_inside_shared_ancestor() {
    let target_chain = vec!["A".to_string(), "A/subA1".to_string()];
    let prereq_chain = vec!["A".to_string(), "A/subA2".to_string()];
    assert_eq!(
        hierarchical_edge(&target_chain, &prereq_chain),
        Some(("A/subA1".to_string(), "A/subA2".to_string()))
    );
}

#[test]
fn hierarchical_edge_none_for_identical_chains() {
    let chain = vec!["A".to_string(), "A/sub1".to_string()];
    assert_eq!(hierarchical_edge(&chain, &chain), None);
}

#[test]
fn hierarchical_edge_none_when_one_chain_prefixes_the_other() {
    let short = vec!["A".to_string()];
    let long = vec!["A".to_string(), "A/sub1".to_string()];
    assert_eq!(hierarchical_edge(&short, &long), None);
}

#[test]
fn common_ancestor_scope_finds_shared_prefix() {
    assert_eq!(
        common_ancestor_scope("A/subA1", "A/subA2"),
        Some("A".to_string())
    );
    assert_eq!(common_ancestor_scope("A", "B"), None);
}

#[test]
fn common_ancestor_scope_of_deep_ids() {
    assert_eq!(
        common_ancestor_scope("A/b/c/d", "A/b/c/e"),
        Some("A/b/c".to_string())
    );
    assert_eq!(common_ancestor_scope("A/b", "A/b"), Some("A/b".to_string()));
}

#[test]
fn top_level_name_is_first_component() {
    assert_eq!(top_level_name("moduleA/subA1"), "moduleA");
    assert_eq!(top_level_name("moduleA"), "moduleA");
    assert_eq!(top_level_name(""), "");
}

#[test]
fn edges_from_pairs_flat_mode_connects_deepest_nodes() {
    let tree = sample_tree();
    let pairs = vec![(
        "$(ROOT)/moduleA/subA1/a.o".to_string(),
        "$(ROOT)/moduleB/b.h".to_string(),
    )];
    let edges = edges_from_pairs(&pairs, &tree, EdgeMode::Flat);
    assert!(edges.contains(&("moduleA/subA1".to_string(), "moduleB".to_string())));
}

#[test]
fn edges_from_pairs_hierarchical_mode_connects_top_level() {
    let tree = sample_tree();
    let pairs = vec![(
        "$(ROOT)/moduleA/subA1/a.o".to_string(),
        "$(ROOT)/moduleB/b.h".to_string(),
    )];
    let edges = edges_from_pairs(&pairs, &tree, EdgeMode::Hierarchical);
    assert!(edges.contains(&("moduleA".to_string(), "moduleB".to_string())));
}

#[test]
fn edges_from_pairs_hierarchical_mode_connects_siblings() {
    let tree = sample_tree();
    let pairs = vec![(
        "$(ROOT)/moduleA/subA1/a.o".to_string(),
        "$(ROOT)/moduleA/subA2/b.h".to_string(),
    )];
    let edges = edges_from_pairs(&pairs, &tree, EdgeMode::Hierarchical);
    assert!(edges.contains(&(
        "moduleA/subA1".to_string(),
        "moduleA/subA2".to_string()
    )));
}

#[test]
fn edges_from_pairs_drops_same_folder_and_unmatched_pairs() {
    let tree = vec![leaf("moduleA", "moduleA"), leaf("moduleB", "moduleB")];
    let pairs = vec![
        (
            "$(ROOT)/moduleA/foo.o".to_string(),
            "$(ROOT)/moduleB/bar.h".to_string(),
        ),
        (
            // same folder on both sides: not an edge
            "$(ROOT)/moduleA/foo.o".to_string(),
            "$(ROOT)/moduleA/foo.c".to_string(),
        ),
        (
            // prerequisite outside the tree: not an edge
            "$(ROOT)/moduleA/foo.o".to_string(),
            "/usr/include/stdio.h".to_string(),
        ),
    ];

    let edges = edges_from_pairs(&pairs, &tree, EdgeMode::Flat);
    assert_eq!(edges.len(), 1);
    assert!(edges.contains(&("moduleA".to_string(), "moduleB".to_string())));
}

#[test]
fn edges_from_pairs_gives_each_edge_once() {
    let tree = vec![leaf("moduleA", "moduleA"), leaf("moduleB", "moduleB")];
    let pairs = vec![
        ("$(ROOT)/moduleA/x.o".to_string(), "$(ROOT)/moduleB/y.h".to_string()),
        ("$(ROOT)/moduleA/z.o".to_string(), "$(ROOT)/moduleB/w.h".to_string()),
    ];
    let edges = edges_from_pairs(&pairs, &tree, EdgeMode::Flat);
    assert_eq!(edges, vec![("moduleA".to_string(), "moduleB".to_string())]);
}

#[test]
fn hierarchical_mode_drops_dependency_inside_one_cluster_child() {
    let tree = sample_tree();
    let pairs = vec![(
        "$(ROOT)/moduleA/subA1/a.o".to_string(),
        "$(ROOT)/moduleA/subA1/b.h".to_string(),
    )];
    assert!(edges_from_pairs(&pairs, &tree, EdgeMode::Hierarchical).is_empty());
    assert!(edges_from_pairs(&pairs, &tree, EdgeMode::Flat).is_empty());
}

#[test]
fn insert_edge_reports_new_edges() {
    let mut edges: Vec<(String, String)> = Vec::new();
    assert!(insert_edge(&mut edges, ("A".to_string(), "B".to_string())));
    assert!(!insert_edge(&mut edges, ("A".to_string(), "B".to_string())));
    assert!(insert_edge(&mut edges, ("B".to_string(), "A".to_string())));
    assert_eq!(edges.len(), 2);
}

fn parent_id(id: &str) -> Option<String> {
    id.rfind('/').map(|p| id[..p].to_string())
}

#[test]
fn hierarchical_edge_ends_are_siblings_under_their_scope() {
    let tree = vec![
        FolderNode {
            name: "A".to_string(),
            path_id: "A".to_string(),
            children: vec![
                FolderNode {
                    name: "x".to_string(),
                    path_id: "A/x".to_string(),
                    children: vec![leaf("p", "A/x/p"), leaf("q", "A/x/q")],
                },
                leaf("y", "A/y"),
            ],
        },
        leaf("B", "B"),
    ];
    let pairs = vec![
        ("r/A/x/p/f.o".to_string(), "r/A/x/q/g.h".to_string()),
        ("r/A/x/p/f.o".to_string(), "r/A/y/h.h".to_string()),
        ("r/A/y/f.o".to_string(), "r/B/h.h".to_string()),
        ("r/B/f.o".to_string(), "r/A/x/q/h.h".to_string()),
    ];
    let edges = edges_from_pairs(&pairs, &tree, EdgeMode::Hierarchical);
    let mut sorted = edges.clone();
    sorted.sort();
    assert_eq!(
        sorted,
        vec![
            ("A".to_string(), "B".to_string()),
            ("A/x".to_string(), "A/y".to_string()),
            ("A/x/p".to_string(), "A/x/q".to_string()),
            ("B".to_string(), "A".to_string()),
        ]
    );
    for (a, b) in &edges {
        let scope = common_ancestor_scope(a, b);
        assert_eq!(scope, parent_id(a));
        assert_eq!(scope, parent_id(b));
    }
}
