//! The tree of folders that become graph nodes and clusters, and the
//! classification of a dependency path into it.

use vstd::prelude::*;

use crate::order::strictly_sorted;
use crate::text::{
    chars_less, chars_lt, chars_of, lemma_chars_lt_total, lemma_chars_lt_transitive, push_char,
    split_chars, split_on, string_of, string_views, views, Sep,
};

verus! {

/// A folder in the tree being turned into graph nodes and clusters.
///
/// `children` is non-empty only when this folder has subdirectories and the
/// level allows descending further; such a folder is rendered as a cluster
/// holding its children instead of as a plain node.
#[derive(Debug)]
pub struct FolderNode {
    pub name: String,
    pub path_id: String,
    pub children: Vec<FolderNode>,
}

/// A directory as read from disk: its name and its subdirectories, read as
/// deep as the level needs.
#[derive(Debug)]
pub struct DirListing {
    pub name: String,
    pub subdirs: Vec<DirListing>,
}

/// The id of folder `name` inside the folder whose id is `prefix` (the empty
/// prefix stands for the scanned root).
pub open spec fn child_id(prefix: Seq<char>, name: Seq<char>) -> Seq<char> {
    if prefix.len() == 0 {
        name
    } else {
        prefix + seq!['/'] + name
    }
}

/// The names of the listed directories.
pub open spec fn listing_names(es: Seq<DirListing>) -> Seq<Seq<char>> {
    es.map_values(|e: DirListing| e.name@)
}

/// Index `i` comes before index `j` when sorting `names`: by name, and by
/// position among equal names (a stable sort).
pub open spec fn index_before(names: Seq<Seq<char>>, i: int, j: int) -> bool {
    chars_lt(names[i], names[j]) || (names[i] == names[j] && i < j)
}

/// `o` lists the positions of `names` once each, sorted stably by name.
pub open spec fn is_name_order(o: Seq<usize>, names: Seq<Seq<char>>) -> bool {
    &&& o.len() == names.len()
    &&& forall|m: int| 0 <= m < o.len() ==> #[trigger] o[m] < names.len()
    &&& strictly_sorted(o, |i: usize, j: usize| index_before(names, i as int, j as int))
}

/// The positions of `names`, sorted stably by name.
fn name_order(names: &Vec<Vec<char>>) -> (o: Vec<usize>)
    ensures
        is_name_order(o@, views(names@)),
{
    let ghost nv = views(names@);
    let n = names.len();
    let mut o: Vec<usize> = Vec::new();
    for i in 0..n
        invariant
            n == names@.len(),
            nv == views(names@),
            o@.len() == i,
            forall|m: int| 0 <= m < o@.len() ==> #[trigger] o@[m] < i,
            strictly_sorted(o@, |a: usize, b: usize| index_before(nv, a as int, b as int)),
    {
        let mut p: usize = 0;
        while p < o.len() && !chars_less(&names[i], &names[o[p]])
            invariant
                n == names@.len(),
                nv == views(names@),
                i < n,
                p <= o@.len(),
                forall|m: int| 0 <= m < o@.len() ==> #[trigger] o@[m] < i,
                forall|q: int| 0 <= q < p ==> !chars_lt(nv[i as int], nv[#[trigger] o@[q] as int]),
            decreases o@.len() - p,
        {
            p = p + 1;
        }
        let ghost old_o = o@;
        o.insert(p, i);
        assert(o@ == old_o.insert(p as int, i));
        assert forall|a: int, b: int| 0 <= a < b < o@.len() implies index_before(
            nv,
            #[trigger] o@[a] as int,
            #[trigger] o@[b] as int,
        ) by {
            if b < p {
                assert(o@[a] == old_o[a] && o@[b] == old_o[b]);
            } else if b == p {
                assert(o@[a] == old_o[a]);
                lemma_chars_lt_total(nv[i as int], nv[old_o[a] as int]);
            } else if a < p {
                assert(o@[a] == old_o[a] && o@[b] == old_o[b - 1]);
            } else if a == p {
                assert(o@[b] == old_o[b - 1]);
                assert(chars_lt(nv[i as int], nv[old_o[p as int] as int]));
                if b - 1 > p {
                    assert(index_before(nv, old_o[p as int] as int, old_o[b - 1] as int));
                    if chars_lt(nv[old_o[p as int] as int], nv[old_o[b - 1] as int]) {
                        lemma_chars_lt_transitive(
                            nv[i as int],
                            nv[old_o[p as int] as int],
                            nv[old_o[b - 1] as int],
                        );
                    }
                }
            } else {
                assert(o@[a] == old_o[a - 1] && o@[b] == old_o[b - 1]);
            }
        }
    }
    o
}

/// `node` is the folder built from directory `e` inside the folder with id
/// `prefix`, with `depth` levels still to break out.
pub open spec fn node_built(node: FolderNode, e: DirListing, prefix: Seq<char>, depth: nat) -> bool
    decreases depth, 0nat,
{
    &&& node.name@ == e.name@
    &&& node.path_id@ == child_id(prefix, e.name@)
    &&& if depth > 1 {
        level_built(node.children@, e.subdirs@, node.path_id@, (depth - 1) as nat)
    } else {
        node.children@.len() == 0
    }
}

/// `nodes` are the folders built from the directories `es`, sorted by name.
pub open spec fn level_built(
    nodes: Seq<FolderNode>,
    es: Seq<DirListing>,
    prefix: Seq<char>,
    depth: nat,
) -> bool
    decreases depth, 1nat,
{
    &&& nodes.len() == es.len()
    &&& exists|o: Seq<usize>|
        #![trigger is_name_order(o, listing_names(es))]
        is_name_order(o, listing_names(es)) && forall|m: int|
            0 <= m < nodes.len() ==> node_built(#[trigger] nodes[m], es[o[m] as int], prefix, depth)
}


/// The id of a folder named `name` inside the folder with id `prefix`.
fn make_child_id(prefix: &String, name: &String) -> (r: String)
    ensures
        r@ == child_id(prefix@, name@),
{
    if prefix.as_str().is_empty() {
        name.clone()
    } else {
        let mut id = prefix.clone();
        push_char(&mut id, '/');
        id.append(name.as_str());
        id
    }
}

/// Builds the folders for the directories `listing` inside the folder with
/// id `path_prefix`, sorted by name, descending while `remaining_depth`
/// allows it. A folder becomes a leaf either because it has no
/// subdirectories or because the depth allows no further descent.
pub fn build_level(listing: &Vec<DirListing>, path_prefix: &String, remaining_depth: usize) -> (r:
    Vec<FolderNode>)
    ensures
        level_built(r@, listing@, path_prefix@, remaining_depth as nat),
    decreases remaining_depth,
{
    let n = listing.len();
    let mut names: Vec<Vec<char>> = Vec::new();
    for i in 0..n
        invariant
            n == listing@.len(),
            views(names@) == listing_names(listing@).take(i as int),
    {
        let ghost old_names = views(names@);
        let cs = chars_of(listing[i].name.as_str());
        let ghost cv = cs@;
        names.push(cs);
        assert(views(names@) =~= old_names.push(cv));
        assert(listing_names(listing@).take(i + 1) =~= listing_names(listing@).take(i as int).push(
            listing@[i as int].name@,
        ));
    }
    assert(listing_names(listing@).take(n as int) =~= listing_names(listing@));
    let order = name_order(&names);
    let mut result: Vec<FolderNode> = Vec::new();
    for m in 0..n
        invariant
            n == listing@.len(),
            is_name_order(order@, listing_names(listing@)),
            result@.len() == m,
            forall|k: int|
                0 <= k < m ==> node_built(
                    #[trigger] result@[k],
                    listing@[order@[k] as int],
                    path_prefix@,
                    remaining_depth as nat,
                ),
    {
        let e = &listing[order[m]];
        let path_id = make_child_id(path_prefix, &e.name);
        let children = if remaining_depth > 1 {
            build_level(&e.subdirs, &path_id, remaining_depth - 1)
        } else {
            Vec::new()
        };
        let node = FolderNode { name: e.name.clone(), path_id, children };
        assert(node_built(node, listing@[order@[m as int] as int], path_prefix@, remaining_depth as nat));
        result.push(node);
    }
    assert(is_name_order(order@, listing_names(listing@)));
    result
}

/// Builds the folder tree used for graph nodes and clusters from the
/// directories found under the scanned root, breaking out `level` folder
/// levels.
pub fn build_folder_tree(listing: &Vec<DirListing>, level: usize) -> (r: Vec<FolderNode>)
    ensures
        level_built(r@, listing@, Seq::empty(), level as nat),
        max_height(r@) < if level == 0 {
            1
        } else {
            level
        },
{
    let root = String::new();
    let r = build_level(listing, &root, level);
    proof {
        built_tree_respects_level(r@, listing@, level as nat);
    }
    r
}

/// The number of leaves (plain, unclustered folders) under `nodes`.
pub open spec fn leaf_count(nodes: Seq<FolderNode>) -> nat
    decreases nodes,
{
    if nodes.len() == 0 {
        0
    } else {
        let last = nodes.last();
        leaf_count(nodes.drop_last()) + if last.children@.len() == 0 {
            1
        } else {
            leaf_count(last.children@)
        }
    }
}


/// What one folder adds to the leaf count.
pub open spec fn node_leaves(node: FolderNode) -> nat {
    if node.children@.len() == 0 {
        1
    } else {
        leaf_count(node.children@)
    }
}

proof fn lemma_leaf_count_prefix(nodes: Seq<FolderNode>, i: int)
    requires
        0 <= i < nodes.len(),
    ensures
        leaf_count(nodes.take(i + 1)) == leaf_count(nodes.take(i)) + node_leaves(nodes[i]),
        leaf_count(nodes.take(i + 1)) <= leaf_count(nodes),
    decreases nodes.len(),
{
    assert(nodes.take(i + 1).drop_last() == nodes.take(i));
    if i + 1 < nodes.len() {
        lemma_leaf_count_prefix(nodes.drop_last(), i);
        assert(nodes.drop_last().take(i + 1) == nodes.take(i + 1));
    } else {
        assert(nodes.take(i + 1) == nodes);
    }
}

/// The number of leaf folders in `tree`: a folder with children counts its
/// leaves, a folder without counts one.
pub fn count_leaf_nodes(tree: &[FolderNode]) -> (r: usize)
    requires
        leaf_count(tree@) <= usize::MAX,
    ensures
        r == leaf_count(tree@),
    decreases tree@,
{
    let n = tree.len();
    let mut total: usize = 0;
    assert(tree@.take(0) == Seq::<FolderNode>::empty());
    for i in 0..n
        invariant
            n == tree@.len(),
            leaf_count(tree@) <= usize::MAX,
            total == leaf_count(tree@.take(i as int)),
    {
        let node = &tree[i];
        proof {
            lemma_leaf_count_prefix(tree@, i as int);
        }
        let c = if node.children.len() == 0 {
            1
        } else {
            assert(decreases_to!(tree@ => tree@[i as int].children@));
            count_leaf_nodes(node.children.as_slice())
        };
        total = total + c;
    }
    assert(tree@.take(n as int) == tree@);
    total
}


/// The non-empty pieces of `ps`, in order.
pub open spec fn nonempty_pieces(ps: Seq<Seq<char>>) -> Seq<Seq<char>>
    decreases ps.len(),
{
    if ps.len() == 0 {
        Seq::empty()
    } else {
        let r = nonempty_pieces(ps.drop_last());
        if ps.last().len() > 0 {
            r.push(ps.last())
        } else {
            r
        }
    }
}

/// The components of a path, split at `'/'` and `'\\'`, empty ones dropped.
pub open spec fn path_components(raw: Seq<char>) -> Seq<Seq<char>> {
    nonempty_pieces(split_on(raw, Sep::PathSep))
}

/// The first position at or after `i` of a folder named `name`.
pub open spec fn first_named_from(nodes: Seq<FolderNode>, name: Seq<char>, i: int) -> Option<int>
    decreases nodes.len() - i,
{
    if i < 0 || i >= nodes.len() {
        None
    } else if nodes[i].name@ == name {
        Some(i)
    } else {
        first_named_from(nodes, name, i + 1)
    }
}

/// The position of the first folder named `name`.
pub open spec fn first_named(nodes: Seq<FolderNode>, name: Seq<char>) -> Option<int> {
    first_named_from(nodes, name, 0)
}

/// The first named folder is named so, and none before it is.
pub proof fn lemma_first_named_from_pub(nodes: Seq<FolderNode>, name: Seq<char>, i: int)
    requires
        0 <= i <= nodes.len(),
    ensures
        match first_named_from(nodes, name, i) {
            Some(k) => i <= k < nodes.len() && nodes[k].name@ == name,
            None => forall|k: int| i <= k < nodes.len() ==> nodes[k].name@ != name,
        },
{
    lemma_first_named_from(nodes, name, i);
}

/// The start that `root_start` finds is a directory component naming a
/// top-level folder.
pub proof fn lemma_root_start(dir: Seq<Seq<char>>, tree: Seq<FolderNode>, i: int)
    requires
        0 <= i,
    ensures
        root_start(dir, tree, i) matches Some((a, j)) ==> i <= a < dir.len() && first_named(tree, dir[a])
            == Some(j),
    decreases dir.len() - i,
{
    if i < dir.len() {
        match first_named(tree, dir[i]) {
            Some(j) => {},
            None => lemma_root_start(dir, tree, i + 1),
        }
    }
}

proof fn lemma_first_named_from(nodes: Seq<FolderNode>, name: Seq<char>, i: int)
    requires
        0 <= i <= nodes.len(),
    ensures
        match first_named_from(nodes, name, i) {
            Some(k) => i <= k < nodes.len() && nodes[k].name@ == name,
            None => forall|k: int| i <= k < nodes.len() ==> nodes[k].name@ != name,
        },
    decreases nodes.len() - i,
{
    if i < nodes.len() && nodes[i].name@ != name {
        lemma_first_named_from(nodes, name, i + 1);
    }
}

/// The first directory component at or after `i` that names a top-level
/// folder, with the position of that folder.
pub open spec fn root_start(dir: Seq<Seq<char>>, tree: Seq<FolderNode>, i: int) -> Option<
    (int, int),
>
    decreases dir.len() - i,
{
    if i < 0 || i >= dir.len() {
        None
    } else {
        match first_named(tree, dir[i]) {
            Some(j) => Some((i, j)),
            None => root_start(dir, tree, i + 1),
        }
    }
}

/// The chain of folder ids from `node` down to a leaf, following the
/// directory components from position `next` on; `None` when a component
/// names no child of a clustered folder, or when the components run out
/// before a leaf.
pub open spec fn descend(node: FolderNode, dir: Seq<Seq<char>>, next: int) -> Option<
    Seq<Seq<char>>,
>
    decreases dir.len() - next,
{
    if node.children@.len() == 0 {
        Some(seq![node.path_id@])
    } else if next < 0 || next >= dir.len() {
        None
    } else {
        match first_named(node.children@, dir[next]) {
            Some(j) => match descend(node.children@[j], dir, next + 1) {
                Some(c) => Some(seq![node.path_id@] + c),
                None => None,
            },
            None => None,
        }
    }
}

/// The ancestor chain of known folders that `raw` belongs to: found from
/// the left-most directory component that names a top-level folder, then
/// descending by name. `None` for a bare file name, a path naming no known
/// folder, or a file lying directly in a clustered folder.
pub open spec fn classify(raw: Seq<char>, tree: Seq<FolderNode>) -> Option<Seq<Seq<char>>> {
    let comps = path_components(raw);
    if comps.len() < 2 {
        None
    } else {
        let dir = comps.take(comps.len() - 1);
        match root_start(dir, tree, 0) {
            Some((i, j)) => descend(tree[j], dir, i + 1),
            None => None,
        }
    }
}

/// Some folder among `nodes`, or below them, has id `p` and is drawn as a
/// cluster (it has children).
pub open spec fn has_cluster(nodes: Seq<FolderNode>, p: Seq<char>) -> bool
    decreases nodes,
{
    if nodes.len() == 0 {
        false
    } else {
        has_cluster(nodes.drop_last(), p) || node_has_cluster(nodes.last(), p)
    }
}

/// `node`, or some folder below it, has id `p` and is drawn as a cluster.
pub open spec fn node_has_cluster(node: FolderNode, p: Seq<char>) -> bool
    decreases node,
{
    node.children@.len() > 0 && (node.path_id@ == p || has_cluster(node.children@, p))
}

/// A cluster of one folder of `nodes` is a cluster of `nodes`.
pub proof fn lemma_has_cluster_member(nodes: Seq<FolderNode>, j: int, p: Seq<char>)
    requires
        0 <= j < nodes.len(),
        node_has_cluster(nodes[j], p),
    ensures
        has_cluster(nodes, p),
    decreases nodes.len(),
{
    if j < nodes.len() - 1 {
        assert(nodes.drop_last()[j] == nodes[j]);
        lemma_has_cluster_member(nodes.drop_last(), j, p);
    }
}

/// Every folder of a chain but the last is a cluster below the folder the
/// chain starts from.
pub proof fn lemma_descend_clusters(node: FolderNode, dir: Seq<Seq<char>>, next: int)
    ensures
        descend(node, dir, next) matches Some(c) ==> forall|k: int|
            0 <= k < c.len() - 1 ==> node_has_cluster(node, #[trigger] c[k]),
    decreases dir.len() - next,
{
    if node.children@.len() > 0 && 0 <= next < dir.len() {
        match first_named(node.children@, dir[next]) {
            Some(j) => {
                lemma_first_named_from_pub(node.children@, dir[next], 0);
                let child = node.children@[j];
                lemma_descend_clusters(child, dir, next + 1);
                match descend(child, dir, next + 1) {
                    Some(rest) => {
                        let c = seq![node.path_id@] + rest;
                        assert forall|k: int| 0 <= k < c.len() - 1 implies node_has_cluster(
                            node,
                            #[trigger] c[k],
                        ) by {
                            if k > 0 {
                                assert(c[k] == rest[k - 1]);
                                assert(node_has_cluster(child, rest[k - 1]));
                                lemma_has_cluster_member(node.children@, j, rest[k - 1]);
                            }
                        }
                    },
                    None => {},
                }
            },
            None => {},
        }
    }
}

/// The first folder at or after `b` named `name` is the one at `j` when
/// none between is so named.
proof fn lemma_first_named_at(nodes: Seq<FolderNode>, name: Seq<char>, b: int, j: int)
    requires
        0 <= b <= j < nodes.len(),
        nodes[j].name@ == name,
        forall|m: int| b <= m < j ==> #[trigger] nodes[m].name@ != name,
    ensures
        first_named_from(nodes, name, b) == Some(j),
    decreases j - b,
{
    if b < j {
        lemma_first_named_at(nodes, name, b + 1, j);
    }
}

proof fn lemma_root_start_at(dir: Seq<Seq<char>>, tree: Seq<FolderNode>, k: int, i: int, j: int)
    requires
        0 <= k <= i < dir.len(),
        0 <= j < tree.len(),
        tree[j].name@ == dir[i],
        forall|a: int, b: int| 0 <= a < i && 0 <= b < tree.len() ==> #[trigger] tree[b].name@ != #[trigger] dir[a],
        forall|b: int| 0 <= b < j ==> #[trigger] tree[b].name@ != dir[i],
    ensures
        root_start(dir, tree, k) == Some((i, j)),
    decreases i - k,
{
    if k == i {
        lemma_first_named_at(tree, dir[i], 0, j);
    } else {
        lemma_first_named_from(tree, dir[k], 0);
        if let Some(m) = first_named(tree, dir[k]) {
            assert(tree[m].name@ != dir[k]);
        }
        lemma_root_start_at(dir, tree, k + 1, i, j);
    }
}

/// A dependency path is placed by the left-most of its directory
/// components (all components but the file name) that names a top-level
/// folder: its chain starts with that folder, and when the folder is a leaf
/// the chain is that folder alone, whatever follows in the path.
pub proof fn classify_starts_at_leftmost_known_folder(raw: Seq<char>, tree: Seq<FolderNode>, i: int, j: int)
    requires
        0 <= i < path_components(raw).len() - 1,
        0 <= j < tree.len(),
        tree[j].name@ == path_components(raw)[i],
        forall|a: int, b: int|
            0 <= a < i && 0 <= b < tree.len() ==> #[trigger] tree[b].name@ != #[trigger] path_components(
                raw,
            )[a],
        forall|b: int| 0 <= b < j ==> #[trigger] tree[b].name@ != path_components(raw)[i],
    ensures
        classify(raw, tree) matches Some(c) ==> c.len() > 0 && c[0] == tree[j].path_id@,
        tree[j].children@.len() == 0 ==> classify(raw, tree) == Some(seq![tree[j].path_id@]),
{
    let comps = path_components(raw);
    let dir = comps.take(comps.len() - 1);
    assert forall|a: int, b: int| 0 <= a < i && 0 <= b < tree.len() implies #[trigger] tree[b].name@
        != #[trigger] dir[a] by {
        assert(dir[a] == comps[a]);
        assert(tree[b].name@ != comps[a]);
    }
    assert(dir[i] == comps[i]);
    lemma_root_start_at(dir, tree, 0, i, j);
    assert(classify(raw, tree) == descend(tree[j], dir, i + 1));
}

/// A path with no directory component naming a top-level folder (a bare
/// file name among them) belongs to no folder.
pub proof fn classify_needs_a_known_folder(raw: Seq<char>, tree: Seq<FolderNode>)
    requires
        forall|a: int, b: int|
            0 <= a < path_components(raw).len() - 1 && 0 <= b < tree.len() ==> #[trigger] tree[b].name@
                != #[trigger] path_components(raw)[a],
    ensures
        classify(raw, tree) is None,
{
    let comps = path_components(raw);
    if comps.len() >= 2 {
        let dir = comps.take(comps.len() - 1);
        lemma_root_start(dir, tree, 0);
        if let Some((i, j)) = root_start(dir, tree, 0) {
            lemma_first_named_from(tree, dir[i], 0);
            assert(dir[i] == comps[i]);
            assert(tree[j].name@ != comps[i]);
        }
    }
}

/// Leaves add up over the parts of a forest.
pub proof fn leaf_count_adds_up(a: Seq<FolderNode>, b: Seq<FolderNode>)
    ensures
        leaf_count(a + b) == leaf_count(a) + leaf_count(b),
    decreases b.len(),
{
    if b.len() == 0 {
        assert(a + b =~= a);
    } else {
        leaf_count_adds_up(a, b.drop_last());
        assert((a + b).drop_last() =~= a + b.drop_last());
        assert((a + b).last() == b.last());
    }
}

/// A folder without children is one leaf; a cluster counts every leaf
/// below it, at any depth, and nothing for itself.
pub proof fn leaf_count_of_one_folder(n: FolderNode)
    ensures
        n.children@.len() == 0 ==> leaf_count(seq![n]) == 1,
        n.children@.len() > 0 ==> leaf_count(seq![n]) == leaf_count(n.children@),
{
    let one = seq![n];
    assert(one.len() == 1 && one.last() == n);
    assert(one.drop_last() =~= Seq::<FolderNode>::empty());
    assert(leaf_count(one.drop_last()) == 0);
}

/// `o` with `pre` put in front of the chain it holds.
pub open spec fn prepend_chain(pre: Seq<Seq<char>>, o: Option<Seq<Seq<char>>>) -> Option<
    Seq<Seq<char>>,
> {
    match o {
        Some(c) => Some(pre + c),
        None => None,
    }
}

/// The non-empty components of `raw`, split at `'/'` and `'\\'`.
fn path_components_of(raw: &str) -> (r: Vec<String>)
    ensures
        string_views(r@) == path_components(raw@),
{
    let cs = chars_of(raw);
    let pieces = split_chars(&cs, &Sep::PathSep);
    let mut out: Vec<String> = Vec::new();
    let n = pieces.len();
    assert(views(pieces@).take(0) =~= Seq::<Seq<char>>::empty());
    assert(string_views(out@) =~= Seq::<Seq<char>>::empty());
    for i in 0..n
        invariant
            n == pieces@.len(),
            views(pieces@) == split_on(raw@, Sep::PathSep),
            string_views(out@) == nonempty_pieces(views(pieces@).take(i as int)),
    {
        let ghost t = views(pieces@).take(i + 1);
        assert(t.drop_last() =~= views(pieces@).take(i as int));
        assert(t.last() == pieces@[i as int]@);
        if pieces[i].len() > 0 {
            let s = string_of(&pieces[i]);
            let ghost old_out = string_views(out@);
            let ghost sv = s@;
            out.push(s);
            assert(string_views(out@) =~= old_out.push(sv));
        }
    }
    assert(views(pieces@).take(n as int) =~= views(pieces@));
    out
}

/// The position of the first folder in `nodes` named `name`.
fn find_named(nodes: &[FolderNode], name: &String) -> (r: Option<usize>)
    ensures
        match r {
            Some(k) => first_named(nodes@, name@) == Some(k as int),
            None => first_named(nodes@, name@) is None,
        },
{
    let n = nodes.len();
    let mut i: usize = 0;
    while i < n
        invariant
            n == nodes@.len(),
            i <= n,
            first_named(nodes@, name@) == first_named_from(nodes@, name@, i as int),
        decreases n - i,
    {
        if nodes[i].name == *name {
            return Some(i);
        }
        i = i + 1;
    }
    None
}

/// Determines the ancestor chain of known folders that the dependency path
/// `raw_path` belongs to, e.g. `["moduleA", "moduleA/sub1"]`.
///
/// Rather than resolving the path, which may still hold an unexpanded build
/// variable such as `$(ROOT)`, this looks for a known folder name among the
/// path's directory components, then keeps descending into that folder's
/// children for as long as they match.
pub fn classify_chain(raw_path: &str, tree: &[FolderNode]) -> (r: Option<Vec<String>>)
    ensures
        match r {
            Some(c) => classify(raw_path@, tree@) == Some(string_views(c@)),
            None => classify(raw_path@, tree@) is None,
        },
{
    let comps = path_components_of(raw_path);
    if comps.len() < 2 {
        return None;
    }
    let nd = comps.len() - 1;
    let ghost dir = string_views(comps@).take(nd as int);
    let mut i: usize = 0;
    let mut found: Option<(usize, usize)> = None;
    while i < nd
        invariant_except_break
            found is None,
        invariant
            nd + 1 == comps@.len(),
            dir == string_views(comps@).take(nd as int),
            i <= nd,
            root_start(dir, tree@, 0) == root_start(dir, tree@, i as int),
        ensures
            match found {
                Some((a, b)) => root_start(dir, tree@, 0) == Some((a as int, b as int)) && a < nd
                    && first_named(tree@, dir[a as int]) == Some(b as int),
                None => root_start(dir, tree@, 0) is None,
            },
        decreases nd - i,
    {
        assert(dir[i as int] == comps@[i as int]@);
        match find_named(tree, &comps[i]) {
            Some(j) => {
                found = Some((i, j));
                break ;
            },
            None => {
                i = i + 1;
            },
        }
    }
    let (start, j) = match found {
        Some(f) => f,
        None => {
            return None;
        },
    };
    proof {
        lemma_first_named_from(tree@, dir[start as int], 0);
    }
    let mut current: &FolderNode = &tree[j];
    let mut chain: Vec<String> = Vec::new();
    chain.push(current.path_id.clone());
    let mut next = start + 1;
    assert(string_views(chain@).drop_last() =~= Seq::<Seq<char>>::empty());
    loop
        invariant
            nd + 1 == comps@.len(),
            dir == string_views(comps@).take(nd as int),
            next <= nd,
            chain@.len() > 0,
            string_views(chain@).last() == current.path_id@,
            classify(raw_path@, tree@) == prepend_chain(
                string_views(chain@).drop_last(),
                descend(*current, dir, next as int),
            ),
        decreases nd - next,
    {
        if current.children.len() == 0 {
            assert(string_views(chain@) =~= string_views(chain@).drop_last() + seq![
                current.path_id@,
            ]);
            return Some(chain);
        }
        if next >= nd {
            return None;
        }
        assert(dir[next as int] == comps@[next as int]@);
        match find_named(current.children.as_slice(), &comps[next]) {
            Some(c) => {
                proof {
                    lemma_first_named_from(current.children@, dir[next as int], 0);
                }
                let ghost prev = string_views(chain@);
                let ghost prev_node = *current;
                current = &current.children[c];
                let id = current.path_id.clone();
                chain.push(id);
                assert(string_views(chain@) =~= prev.push(current.path_id@));
                assert(string_views(chain@).drop_last() =~= prev);
                assert(prev =~= prev.drop_last() + seq![prev_node.path_id@]);
                proof {
                    match descend(*current, dir, next + 1) {
                        Some(rest) => {
                            assert(prev.drop_last() + (seq![prev_node.path_id@] + rest) =~= prev
                                + rest);
                        },
                        None => {},
                    }
                }
                next = next + 1;
            },
            None => {
                return None;
            },
        }
    }
}

/// How many levels of clusters `node` holds: zero for a leaf.
pub open spec fn height(node: FolderNode) -> nat
    decreases node,
{
    if node.children@.len() == 0 {
        0
    } else {
        1 + max_height(node.children@)
    }
}

/// The greatest height among `nodes`, zero when there are none.
pub open spec fn max_height(nodes: Seq<FolderNode>) -> nat
    decreases nodes,
{
    if nodes.len() == 0 {
        0
    } else {
        let a = max_height(nodes.drop_last());
        let b = height(nodes.last());
        if a >= b {
            a
        } else {
            b
        }
    }
}

pub proof fn lemma_max_height(nodes: Seq<FolderNode>, i: int)
    requires
        0 <= i < nodes.len(),
    ensures
        height(nodes[i]) <= max_height(nodes),
    decreases nodes.len(),
{
    if i < nodes.len() - 1 {
        lemma_max_height(nodes.drop_last(), i);
    }
}

/// A height below `bound` for every one of `nodes` bounds their greatest
/// height too.
proof fn lemma_max_height_below(nodes: Seq<FolderNode>, bound: nat)
    requires
        forall|i: int| 0 <= i < nodes.len() ==> #[trigger] height(nodes[i]) < bound,
        bound > 0,
    ensures
        max_height(nodes) < bound,
    decreases nodes.len(),
{
    if nodes.len() > 0 {
        assert forall|i: int| 0 <= i < nodes.drop_last().len() implies #[trigger] height(
            nodes.drop_last()[i],
        ) < bound by {
            assert(nodes.drop_last()[i] == nodes[i]);
        }
        lemma_max_height_below(nodes.drop_last(), bound);
        assert(height(nodes[nodes.len() - 1]) < bound);
    }
}

proof fn lemma_node_built_height(node: FolderNode, e: DirListing, prefix: Seq<char>, depth: nat)
    requires
        node_built(node, e, prefix, depth),
    ensures
        height(node) < if depth == 0 {
            1
        } else {
            depth
        },
    decreases depth, 0nat,
{
    if depth > 1 && node.children@.len() > 0 {
        lemma_level_built_height(node.children@, e.subdirs@, node.path_id@, (depth - 1) as nat);
    }
}

proof fn lemma_level_built_height(
    nodes: Seq<FolderNode>,
    es: Seq<DirListing>,
    prefix: Seq<char>,
    depth: nat,
)
    requires
        level_built(nodes, es, prefix, depth),
    ensures
        max_height(nodes) < if depth == 0 {
            1
        } else {
            depth
        },
    decreases depth, 1nat,
{
    let o = choose|o: Seq<usize>|
        #![trigger is_name_order(o, listing_names(es))]
        is_name_order(o, listing_names(es)) && forall|m: int|
            0 <= m < nodes.len() ==> node_built(#[trigger] nodes[m], es[o[m] as int], prefix, depth);
    let bound: nat = if depth == 0 {
        1
    } else {
        depth
    };
    assert forall|i: int| 0 <= i < nodes.len() implies #[trigger] height(nodes[i]) < bound by {
        lemma_node_built_height(nodes[i], es[o[i] as int], prefix, depth);
    }
    lemma_max_height_below(nodes, bound);
}

/// A tree built to break out `level` folder levels holds fewer than
/// `level` levels of clusters (none at all for a level of 0 or 1).
pub proof fn built_tree_respects_level(nodes: Seq<FolderNode>, es: Seq<DirListing>, level: nat)
    requires
        level_built(nodes, es, Seq::empty(), level),
    ensures
        max_height(nodes) < if level == 0 {
            1
        } else {
            level
        },
{
    lemma_level_built_height(nodes, es, Seq::empty(), level);
}


/// `n` can name a folder: it is not empty and holds no `'/'`.
pub open spec fn is_folder_name(n: Seq<char>) -> bool {
    n.len() > 0 && forall|i: int| 0 <= i < n.len() ==> #[trigger] n[i] != '/'
}

/// `node` lies in the folder with id `prefix`: its name is a folder name,
/// its id is `prefix`, a slash and its name (its name alone at the top), and
/// so on all the way down.
pub open spec fn well_formed_node(node: FolderNode, prefix: Seq<char>) -> bool
    decreases node,
{
    &&& is_folder_name(node.name@)
    &&& node.path_id@ == child_id(prefix, node.name@)
    &&& forall|i: int|
        0 <= i < node.children@.len() ==> well_formed_node(
            #[trigger] node.children@[i],
            node.path_id@,
        )
}

/// Every top-level folder of `tree` is well formed.
pub open spec fn well_formed_tree(tree: Seq<FolderNode>) -> bool {
    forall|i: int| 0 <= i < tree.len() ==> well_formed_node(#[trigger] tree[i], Seq::empty())
}

/// The directory `e` and all below it have folder names.
pub open spec fn good_dir(e: DirListing) -> bool
    decreases e,
{
    &&& is_folder_name(e.name@)
    &&& forall|i: int| 0 <= i < e.subdirs@.len() ==> good_dir(#[trigger] e.subdirs@[i])
}

proof fn lemma_node_built_well_formed(node: FolderNode, e: DirListing, prefix: Seq<char>, depth: nat)
    requires
        node_built(node, e, prefix, depth),
        good_dir(e),
    ensures
        well_formed_node(node, prefix),
    decreases depth, 0nat,
{
    if depth > 1 {
        lemma_level_built_well_formed(node.children@, e.subdirs@, node.path_id@, (depth - 1) as nat);
    }
}

proof fn lemma_level_built_well_formed(
    nodes: Seq<FolderNode>,
    es: Seq<DirListing>,
    prefix: Seq<char>,
    depth: nat,
)
    requires
        level_built(nodes, es, prefix, depth),
        forall|i: int| 0 <= i < es.len() ==> good_dir(#[trigger] es[i]),
    ensures
        forall|i: int| 0 <= i < nodes.len() ==> well_formed_node(#[trigger] nodes[i], prefix),
    decreases depth, 1nat,
{
    let o = choose|o: Seq<usize>|
        #![trigger is_name_order(o, listing_names(es))]
        is_name_order(o, listing_names(es)) && forall|m: int|
            0 <= m < nodes.len() ==> node_built(#[trigger] nodes[m], es[o[m] as int], prefix, depth);
    assert forall|i: int| 0 <= i < nodes.len() implies well_formed_node(#[trigger] nodes[i], prefix) by {
        assert(node_built(nodes[i], es[o[i] as int], prefix, depth));
        assert(o[i] < es.len());
        lemma_node_built_well_formed(nodes[i], es[o[i] as int], prefix, depth);
    }
}

/// Built from directories with proper folder names, the tree is well
/// formed: each folder's id is its parent's id, a slash and its name.
pub proof fn built_tree_is_well_formed(nodes: Seq<FolderNode>, es: Seq<DirListing>, level: nat)
    requires
        level_built(nodes, es, Seq::empty(), level),
        forall|i: int| 0 <= i < es.len() ==> good_dir(#[trigger] es[i]),
    ensures
        well_formed_tree(nodes),
{
    lemma_level_built_well_formed(nodes, es, Seq::empty(), level);
}

} // verus!
