use depgraph::edges::{edges_from_pairs, EdgeMode};
use depgraph::render::{
    cross_cluster_attrs, escape, group_edges_by_scope, is_exploded_top_level, render_dot,
    render_edges, sanitize_id,
};
use depgraph::tree::FolderNode;

fn leaf(name: &str, path_id: &str) -> FolderNode {
    FolderNode {
        name: name.to_string(),
        path_id: path_id.to_string(),
        children: Vec::new(),
    }
}

fn sample_tree() -> Vec<FolderNode> {
    vec![
        FolderNode {
            name: "moduleA".to_string(),
            path_id: "moduleA".to_string(),
            children: vec![
                leaf("subA1", "moduleA/subA1"),
                leaf("subA2", "moduleA/subA2"),
            ],
        },
        leaf("moduleB", "moduleB"),
    ]
}

fn edge(a: &str, b: &str) -> (String, String) {
    (a.to_string(), b.to_string())
}

#[test]
fn global_settings_include_compound_and_nodesep() {
    let tree = vec![leaf("A", "A")];
    let edges = Vec::new();
    let dot = render_dot(&tree, &edges, EdgeMode::Flat);
    assert!(dot.contains("compound=true;"));
    assert!(dot.contains("nodesep=.55;"));
}

#[test]
fn plain_top_level_edge_gets_no_cross_cluster_attrs() {
    // Neither A nor B is exploded into a cluster, so there's no
    // boundary to clip the edge to.
    let tree = vec![leaf("A", "A"), leaf("B", "B")];
    assert_eq!(cross_cluster_attrs("A", "B", &tree), None);
}

#[test]
fn edge_into_exploded_folder_gets_lhead_only() {
    // "moduleB" is a plain leaf (no ltail possible); "moduleA" is
    // exploded, so only lhead is added, alongside minlen=0.
    let tree = sample_tree();
    let attrs = cross_cluster_attrs("moduleB", "moduleA/subA1", &tree).unwrap();
    assert!(attrs.contains(&"minlen=0".to_string()));
    assert!(attrs.contains(&"lhead=\"cluster_moduleA\"".to_string()));
    assert!(!attrs.iter().any(|a| a.starts_with("ltail")));
}

#[test]
fn edge_between_two_exploded_folders_gets_both_ltail_and_lhead() {
    let mut tree = sample_tree();
    tree.push(FolderNode {
        name: "moduleC".to_string(),
        path_id: "moduleC".to_string(),
        children: vec![leaf("subC1", "moduleC/subC1")],
    });
    let attrs = cross_cluster_attrs("moduleC/subC1", "moduleA/subA2", &tree).unwrap();
    assert!(attrs.contains(&"minlen=0".to_string()));
    assert!(attrs.contains(&"ltail=\"cluster_moduleC\"".to_string()));
    assert!(attrs.contains(&"lhead=\"cluster_moduleA\"".to_string()));
}

#[test]
fn edge_inside_same_top_level_folder_gets_no_cross_cluster_attrs() {
    let tree = sample_tree();
    assert_eq!(
        cross_cluster_attrs("moduleA/subA1", "moduleA/subA2", &tree),
        None
    );
}

#[test]
fn bidirectional_pair_rendered_red_once() {
    let tree = vec![leaf("A", "A"), leaf("B", "B")];
    let edges = vec![edge("A", "B"), edge("B", "A")];

    let dot = render_dot(&tree, &edges, EdgeMode::Flat);
    assert_eq!(dot.matches("color=red").count(), 1);
    assert_eq!(dot.matches("->").count(), 1);
}

#[test]
fn one_directional_pair_rendered_black() {
    let tree = vec![leaf("A", "A"), leaf("B", "B")];
    let edges = vec![edge("A", "B")];

    let dot = render_dot(&tree, &edges, EdgeMode::Flat);
    assert_eq!(dot.matches("color=red").count(), 0);
    assert!(dot.contains("\"A\" -> \"B\";"));
}

#[test]
fn exploded_folder_renders_as_cluster() {
    let tree = sample_tree();
    let edges = Vec::new();
    let dot = render_dot(&tree, &edges, EdgeMode::Flat);
    assert!(dot.contains("subgraph cluster_moduleA"));
    assert!(dot.contains("\"moduleA/subA1\" [label=\"subA1\"];"));
    assert!(dot.contains("\"moduleA/subA2\" [label=\"subA2\"];"));
    // moduleB is a leaf: no cluster for it, and its label is its own
    // (unshortened) name since it isn't nested inside anything.
    assert!(!dot.contains("subgraph cluster_moduleB"));
    assert!(dot.contains("\"moduleB\" [label=\"moduleB\"];"));
}

#[test]
fn hierarchical_mode_nests_sibling_edge_inside_cluster() {
    let tree = sample_tree();
    let edges = vec![edge("moduleA/subA1", "moduleA/subA2")];

    let dot = render_dot(&tree, &edges, EdgeMode::Hierarchical);
    let cluster_start = dot.find("subgraph cluster_moduleA").unwrap();
    let cluster_end = dot[cluster_start..].find('}').unwrap() + cluster_start;
    let edge_pos = dot
        .find("\"moduleA/subA1\" -> \"moduleA/subA2\";")
        .unwrap();
    assert!(
        edge_pos > cluster_start && edge_pos < cluster_end,
        "expected the sibling edge to be nested inside cluster_moduleA"
    );
}

#[test]
fn whole_file_for_a_small_graph() {
    let tree = sample_tree();
    let edges = vec![
        edge("moduleA/subA1", "moduleB"),
        edge("moduleB", "moduleA/subA1"),
        edge("moduleA/subA2", "moduleA/subA1"),
    ];
    let dot = render_dot(&tree, &edges, EdgeMode::Flat);
    let expected = "digraph dependencies {\n    rankdir=TB;\n    compound=true;\n    nodesep=.55;\n    node [shape=ellipse];\n\n    subgraph cluster_moduleA {\n        label=\"moduleA\";\n        \"moduleA/subA1\" [label=\"subA1\"];\n        \"moduleA/subA2\" [label=\"subA2\"];\n    }\n    \"moduleB\" [label=\"moduleB\"];\n    \"moduleA/subA1\" -> \"moduleB\" [color=red, dir=both, minlen=0, ltail=\"cluster_moduleA\"];\n    \"moduleA/subA2\" -> \"moduleA/subA1\";\n}\n";
    assert_eq!(dot, expected);
}

#[test]
fn escape_doubles_backslashes_and_escapes_quotes() {
    assert_eq!(escape(r#"a\b"c"#), r#"a\\b\"c"#);
    assert_eq!(escape("plain"), "plain");
}

#[test]
fn sanitize_id_keeps_only_ascii_alphanumerics() {
    assert_eq!(sanitize_id("module-A/sub.1"), "module_A_sub_1");
    assert_eq!(sanitize_id("é"), "_");
}

#[test]
fn exploded_top_level_needs_children() {
    let tree = sample_tree();
    assert!(is_exploded_top_level("moduleA", &tree));
    assert!(!is_exploded_top_level("moduleB", &tree));
    assert!(!is_exploded_top_level("moduleZ", &tree));
}

#[test]
fn groups_edges_by_common_ancestor() {
    let edges = vec![
        edge("A/x", "A/y"),
        edge("A", "B"),
        edge("A/y", "A/x"),
    ];
    let groups = group_edges_by_scope(&edges, EdgeMode::Hierarchical);
    assert_eq!(groups.len(), 2);
    let in_a = groups.iter().find(|g| g.0 == Some("A".to_string())).unwrap();
    assert_eq!(in_a.1.len(), 2);
    let top = groups.iter().find(|g| g.0.is_none()).unwrap();
    assert_eq!(top.1, vec![edge("A", "B")]);
    let flat = group_edges_by_scope(&edges, EdgeMode::Flat);
    assert_eq!(flat.len(), 1);
    assert_eq!(flat[0].1.len(), 3);
}

#[test]
fn each_pair_is_written_once_and_merged_pairs_are_red() {
    let tree = vec![leaf("A", "A"), leaf("B", "B"), leaf("C", "C")];
    let all = vec![edge("B", "A"), edge("A", "B"), edge("A", "C"), edge("C", "B")];
    let mut drawn = Vec::new();
    let mut dot = String::new();
    render_edges(&all, &all, &tree, &mut drawn, &mut dot, 1);
    assert_eq!(
        dot,
        "    \"A\" -> \"B\" [color=red, dir=both];\n    \"A\" -> \"C\";\n    \"C\" -> \"B\";\n"
    );
    assert_eq!(drawn.len(), 4);
}

#[test]
fn a_pair_drawn_before_is_not_written_again() {
    let tree = vec![leaf("A", "A"), leaf("B", "B")];
    let all = vec![edge("A", "B"), edge("B", "A")];
    let mut drawn = vec![edge("B", "A")];
    let mut dot = String::new();
    render_edges(&all, &all, &tree, &mut drawn, &mut dot, 1);
    assert_eq!(dot, "");
    assert_eq!(drawn, vec![edge("B", "A")]);
}

#[test]
fn flat_file_declares_each_connected_pair_once() {
    let tree = vec![leaf("A", "A"), leaf("B", "B"), leaf("C", "C")];
    let edges = vec![edge("C", "A"), edge("B", "A"), edge("B", "C"), edge("A", "B")];
    let dot = render_dot(&tree, &edges, EdgeMode::Flat);
    let expected = "digraph dependencies {\n    rankdir=TB;\n    compound=true;\n    nodesep=.55;\n    node [shape=ellipse];\n\n    \"A\" [label=\"A\"];\n    \"B\" [label=\"B\"];\n    \"C\" [label=\"C\"];\n    \"A\" -> \"B\" [color=red, dir=both];\n    \"B\" -> \"C\";\n    \"C\" -> \"A\";\n}\n";
    assert_eq!(dot, expected);
}

#[test]
fn hierarchical_file_declares_each_pair_once_inside_its_scope() {
    let tree = vec![
        FolderNode {
            name: "A".to_string(),
            path_id: "A".to_string(),
            children: vec![
                FolderNode {
                    name: "x".to_string(),
                    path_id: "A/x".to_string(),
                    children: vec![leaf("p", "A/x/p"), leaf("q", "A/x/q")],
                },
                leaf("y", "A/y"),
            ],
        },
        leaf("B", "B"),
    ];
    let pairs = vec![
        ("r/A/x/p/f.o".to_string(), "r/A/x/q/g.h".to_string()),
        ("r/A/x/p/f.o".to_string(), "r/A/y/h.h".to_string()),
        ("r/A/y/f.o".to_string(), "r/B/h.h".to_string()),
        ("r/B/f.o".to_string(), "r/A/x/q/h.h".to_string()),
    ];
    let edges = edges_from_pairs(&pairs, &tree, EdgeMode::Hierarchical);
    let dot = render_dot(&tree, &edges, EdgeMode::Hierarchical);
    let expected = "digraph dependencies {\n    rankdir=TB;\n    compound=true;\n    nodesep=.55;\n    node [shape=ellipse];\n\n    subgraph cluster_A {\n        label=\"A\";\n        subgraph cluster_A_x {\n            label=\"x\";\n            \"A/x/p\" [label=\"p\"];\n            \"A/x/q\" [label=\"q\"];\n            \"A/x/p\" -> \"A/x/q\";\n        }\n        \"A/y\" [label=\"y\"];\n        \"A/x\" -> \"A/y\";\n    }\n    \"B\" [label=\"B\"];\n    \"A\" -> \"B\" [color=red, dir=both, minlen=0, ltail=\"cluster_A\"];\n}\n";
    assert_eq!(dot, expected);
    assert_eq!(dot.matches(" -> ").count(), 3);
}

#[test]
fn grouping_lists_each_edge_once_and_makes_no_empty_group() {
    let empty: Vec<(String, String)> = Vec::new();
    assert!(group_edges_by_scope(&empty, EdgeMode::Flat).is_empty());
    assert!(group_edges_by_scope(&empty, EdgeMode::Hierarchical).is_empty());
    let edges = vec![
        edge("A/x/p", "A/x/q"),
        edge("A/x", "A/y"),
        edge("A", "B"),
        edge("B", "A"),
        edge("A/x/q", "A/x/p"),
    ];
    let groups = group_edges_by_scope(&edges, EdgeMode::Hierarchical);
    assert_eq!(groups.len(), 3);
    let mut total = 0;
    for (scope, list) in &groups {
        assert!(!list.is_empty());
        for e in list {
            assert_eq!(&depgraph::edges::common_ancestor_scope(&e.0, &e.1), scope);
        }
        total += list.len();
    }
    assert_eq!(total, edges.len());
    for e in &edges {
        let count: usize = groups
            .iter()
            .map(|g| g.1.iter().filter(|f| *f == e).count())
            .sum();
        assert_eq!(count, 1);
    }
}
