use depgraph::tree::{build_folder_tree, classify_chain, count_leaf_nodes, DirListing, FolderNode};

fn leaf(name: &str, path_id: &str) -> FolderNode {
    FolderNode {
        name: name.to_string(),
        path_id: path_id.to_string(),
        children: Vec::new(),
    }
}

/// A small two-level fixture:
///   moduleA/ (exploded: subA1, subA2)
///   moduleB/ (leaf: no subdirectories)
fn sample_tree() -> Vec<FolderNode> {
    vec![
        FolderNode {
            name: "moduleA".to_string(),
            path_id: "moduleA".to_string(),
            children: vec![
                leaf("subA1", "moduleA/subA1"),
                leaf("subA2", "moduleA/subA2"),
            ],
        },
        leaf("moduleB", "moduleB"),
    ]
}

fn dir(name: &str, subdirs: Vec<DirListing>) -> DirListing {
    DirListing {
        name: name.to_string(),
        subdirs,
    }
}

#[test]
fn classify_chain_leaf_folder_at_level_1() {
    let tree = sample_tree();
    assert_eq!(
        classify_chain("$(ROOT)/moduleB/inc/b.h", &tree),
        Some(vec!["moduleB".to_string()])
    );
}

#[test]
fn classify_chain_descends_into_exploded_folder() {
    let tree = sample_tree();
    assert_eq!(
        classify_chain("$(ROOT)/moduleA/subA1/src/a.c", &tree),
        Some(vec!["moduleA".to_string(), "moduleA/subA1".to_string()])
    );
}

#[test]
fn classify_chain_drops_loose_file_in_exploded_folder() {
    // moduleA is exploded (has children), but this file sits directly
    // in moduleA, not in subA1 or subA2.
    let tree = sample_tree();
    assert_eq!(classify_chain("$(ROOT)/moduleA/loose.c", &tree), None);
}

#[test]
fn classify_chain_ignores_paths_with_no_known_folder() {
    let tree = sample_tree();
    assert_eq!(classify_chain("/usr/include/stdio.h", &tree), None);
}

#[test]
fn classify_chain_finds_folder_at_arbitrary_ancestor_depth() {
    // $(ROOT) can be several levels above the scanned folder; the
    // folder name just needs to appear somewhere among the components.
    let tree = sample_tree();
    assert_eq!(
        classify_chain("$(ROOT)/some/ancestor/moduleB/x.h", &tree),
        Some(vec!["moduleB".to_string()])
    );
}

#[test]
fn classify_chain_ignores_bare_file_names_and_folder_as_file() {
    let tree = sample_tree();
    assert_eq!(classify_chain("moduleB", &tree), None);
    // The last component is the file itself, never a folder.
    assert_eq!(classify_chain("$(ROOT)/x/moduleB", &tree), None);
}

#[test]
fn classify_chain_accepts_backslashes_and_repeated_separators() {
    let tree = sample_tree();
    assert_eq!(
        classify_chain("C:\\root\\\\moduleA\\subA2\\f.c", &tree),
        Some(vec!["moduleA".to_string(), "moduleA/subA2".to_string()])
    );
}

#[test]
fn build_folder_tree_respects_level() {
    let listing = vec![
        dir("moduleA", vec![dir("subA1", Vec::new())]),
        dir("moduleB", Vec::new()),
    ];

    let level1 = build_folder_tree(&listing, 1);
    assert_eq!(level1.len(), 2);
    assert!(level1.iter().all(|n| n.children.is_empty()));

    let level2 = build_folder_tree(&listing, 2);
    let module_a = level2.iter().find(|n| n.name == "moduleA").unwrap();
    assert_eq!(module_a.children.len(), 1);
    assert_eq!(module_a.children[0].path_id, "moduleA/subA1");
    let module_b = level2.iter().find(|n| n.name == "moduleB").unwrap();
    assert!(module_b.children.is_empty());
}

#[test]
fn build_folder_tree_sorts_by_name_and_nests_ids() {
    let listing = vec![
        dir("zeta", Vec::new()),
        dir("alpha", vec![dir("y", vec![dir("deep", Vec::new())]), dir("x", Vec::new())]),
        dir("Beta", Vec::new()),
    ];
    let tree = build_folder_tree(&listing, 3);
    let names: Vec<&str> = tree.iter().map(|n| n.name.as_str()).collect();
    assert_eq!(names, vec!["Beta", "alpha", "zeta"]);
    let alpha = &tree[1];
    assert_eq!(alpha.children[0].path_id, "alpha/x");
    assert_eq!(alpha.children[1].path_id, "alpha/y");
    assert_eq!(alpha.children[1].children[0].path_id, "alpha/y/deep");
    assert!(alpha.children[1].children[0].children.is_empty());
}

#[test]
fn counts_leaves_of_clusters() {
    let tree = sample_tree();
    assert_eq!(count_leaf_nodes(&tree), 3);
    assert_eq!(count_leaf_nodes(&[]), 0);
}
