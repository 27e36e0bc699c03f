//! Folder-to-folder edges: how a dependency becomes an edge, and the edge
//! sets that the graph is made of.

use vstd::prelude::*;
use vstd::string::StrSliceExecFns;

use crate::order::{lemma_sorted_unique, strict_total_on, strictly_sorted};
use crate::text::{
    chars_less, chars_lt, lemma_chars_lt_irreflexive, lemma_chars_lt_total, lemma_chars_lt_transitive,
    chars_equal, chars_of, is_sep, pair_views, split_chars, split_on, string_of, string_views, views,
    Sep,
};
use crate::tree::{
    child_id, classify, classify_chain, descend, first_named, has_cluster, is_folder_name,
    lemma_descend_clusters, lemma_has_cluster_member, path_components, root_start,
    well_formed_node, well_formed_tree, FolderNode,
};

verus! {

/// How a cross-folder dependency is placed once folders are broken into
/// several levels.
#[derive(Debug, Clone, Copy, PartialEq, Eq, Structural)]
pub enum EdgeMode {
    /// The edge connects the deepest known folder on each side directly.
    Flat,
    /// The edge is drawn between the two folders where their paths first
    /// diverge.
    Hierarchical,
}

/// The number of leading positions at which `a` and `b` agree.
pub open spec fn common_prefix_len<T>(a: Seq<T>, b: Seq<T>) -> nat
    decreases a.len(),
{
    if a.len() == 0 || b.len() == 0 || a[0] != b[0] {
        0
    } else {
        1 + common_prefix_len(a.drop_first(), b.drop_first())
    }
}

/// The first `common_prefix_len(a, b)` positions agree, and the next one,
/// where both have it, differs.
pub proof fn lemma_common_prefix_len<T>(a: Seq<T>, b: Seq<T>)
    ensures
        common_prefix_len(a, b) <= a.len(),
        common_prefix_len(a, b) <= b.len(),
        forall|k: int| 0 <= k < common_prefix_len(a, b) ==> a[k] == b[k],
        common_prefix_len(a, b) < a.len() && common_prefix_len(a, b) < b.len() ==> a[common_prefix_len(
            a,
            b,
        ) as int] != b[common_prefix_len(a, b) as int],
    decreases a.len(),
{
    if a.len() > 0 && b.len() > 0 && a[0] == b[0] {
        lemma_common_prefix_len(a.drop_first(), b.drop_first());
        assert forall|k: int| 0 <= k < common_prefix_len(a, b) implies a[k] == b[k] by {
            if k > 0 {
                assert(a[k] == a.drop_first()[k - 1]);
                assert(b[k] == b.drop_first()[k - 1]);
            }
        }
    }
}

/// Where two ancestor chains first diverge: the two differing folders under
/// their closest common ancestor, or `None` when one chain is a prefix of the
/// other (the same folder on both sides included).
pub open spec fn diverging_pair(a: Seq<Seq<char>>, b: Seq<Seq<char>>) -> Option<
    (Seq<char>, Seq<char>),
> {
    let i = common_prefix_len(a, b) as int;
    if i < a.len() && i < b.len() {
        Some((a[i], b[i]))
    } else {
        None
    }
}

/// Given the full ancestor chains of a target and a prerequisite, finds
/// where they first diverge and returns the pair of folders at that point:
/// the closest common ancestor's two differing children.
pub fn hierarchical_edge(target_chain: &[String], prereq_chain: &[String]) -> (r: Option<
    (String, String),
>)
    ensures
        match r {
            Some(e) => diverging_pair(
                string_views(target_chain@),
                string_views(prereq_chain@),
            ) == Some((e.0@, e.1@)),
            None => diverging_pair(
                string_views(target_chain@),
                string_views(prereq_chain@),
            ) is None,
        },
{
    let ghost a = string_views(target_chain@);
    let ghost b = string_views(prereq_chain@);
    let mut i: usize = 0;
    assert(a.skip(0) == a && b.skip(0) == b);
    while i < target_chain.len() && i < prereq_chain.len() && target_chain[i] == prereq_chain[i]
        invariant
            i <= a.len() == target_chain@.len(),
            i <= b.len() == prereq_chain@.len(),
            a == string_views(target_chain@),
            b == string_views(prereq_chain@),
            common_prefix_len(a, b) == i + common_prefix_len(a.skip(i as int), b.skip(i as int)),
        decreases a.len() - i,
    {
        assert(a.skip(i as int).drop_first() == a.skip(i + 1));
        assert(b.skip(i as int).drop_first() == b.skip(i + 1));
        assert(a.skip(i as int)[0] == a[i as int]);
        assert(b.skip(i as int)[0] == b[i as int]);
        i = i + 1;
    }
    if i < target_chain.len() && i < prereq_chain.len() {
        assert(a.skip(i as int)[0] == a[i as int]);
        assert(b.skip(i as int)[0] == b[i as int]);
        let x = target_chain[i].clone();
        let y = prereq_chain[i].clone();
        return Some((x, y));
    }
    None
}

/// The pieces of `parts` joined with `sep` between them.
pub open spec fn join_with(parts: Seq<Seq<char>>, sep: char) -> Seq<char>
    decreases parts.len(),
{
    if parts.len() == 0 {
        Seq::empty()
    } else if parts.len() == 1 {
        parts[0]
    } else {
        join_with(parts.drop_last(), sep) + seq![sep] + parts.last()
    }
}

/// The folder that encloses an edge between the folders with ids `a` and `b`
/// in the rendered graph: their deepest common ancestor, `None` for the top
/// level when they share none.
pub open spec fn scope_of(a: Seq<char>, b: Seq<char>) -> Option<Seq<char>> {
    let pa = split_on(a, Sep::Slash);
    let pb = split_on(b, Sep::Slash);
    let k = common_prefix_len(pa, pb);
    if k == 0 {
        None
    } else {
        Some(join_with(pa.take(k as int), '/'))
    }
}

/// The deepest common ancestor of the two folder ids, `None` when they
/// share no leading component.
pub fn common_ancestor_scope(a: &str, b: &str) -> (r: Option<String>)
    ensures
        match r {
            Some(s) => scope_of(a@, b@) == Some(s@),
            None => scope_of(a@, b@) is None,
        },
{
    let ac = chars_of(a);
    let bc = chars_of(b);
    let pa = split_chars(&ac, &Sep::Slash);
    let pb = split_chars(&bc, &Sep::Slash);
    let ghost va = views(pa@);
    let ghost vb = views(pb@);
    let mut k: usize = 0;
    assert(va.skip(0) == va && vb.skip(0) == vb);
    while k < pa.len() && k < pb.len() && chars_equal(&pa[k], &pb[k])
        invariant
            va == views(pa@),
            vb == views(pb@),
            k <= va.len(),
            k <= vb.len(),
            common_prefix_len(va, vb) == k + common_prefix_len(va.skip(k as int), vb.skip(k as int)),
        decreases va.len() - k,
    {
        assert(va.skip(k as int).drop_first() == va.skip(k + 1));
        assert(vb.skip(k as int).drop_first() == vb.skip(k + 1));
        assert(va.skip(k as int)[0] == va[k as int]);
        assert(vb.skip(k as int)[0] == vb[k as int]);
        k = k + 1;
    }
    proof {
        if k < va.len() && k < vb.len() {
            assert(va.skip(k as int)[0] == va[k as int]);
            assert(vb.skip(k as int)[0] == vb[k as int]);
        }
    }
    if k == 0 {
        return None;
    }
    let mut joined: Vec<char> = Vec::new();
    let mut i: usize = 0;
    while i < k
        invariant
            va == views(pa@),
            k <= va.len(),
            i <= k,
            i == 0 ==> joined@ == Seq::<char>::empty(),
            i > 0 ==> joined@ == join_with(va.take(i as int), '/'),
        decreases k - i,
    {
        let ghost t = va.take(i + 1);
        assert(t.drop_last() == va.take(i as int));
        assert(t.last() == va[i as int]);
        if i > 0 {
            joined.push('/');
        } else {
            assert(t.len() == 1);
        }
        let ghost before = joined@;
        let n = pa[i].len();
        for c in 0..n
            invariant
                va == views(pa@),
                i < k <= va.len(),
                n == va[i as int].len(),
                joined@ == before + va[i as int].take(c as int),
        {
            joined.push(pa[i][c]);
            assert(va[i as int].take(c + 1) == va[i as int].take(c as int).push(va[i as int][c as int]));
        }
        assert(va[i as int].take(n as int) == va[i as int]);
        i = i + 1;
    }
    Some(string_of(&joined))
}

/// The first piece of `s` before a `'/'`: the top-level folder of a folder id.
pub open spec fn top_name(s: Seq<char>) -> Seq<char> {
    split_on(s, Sep::Slash)[0]
}

proof fn lemma_split_first_piece(s: Seq<char>, k: int, m: int)
    requires
        0 <= k <= s.len(),
        forall|j: int| 0 <= j < k ==> s[j] != '/',
        k == s.len() || s[k] == '/',
        0 <= m <= s.len(),
    ensures
        crate::text::split_on(s.take(m), Sep::Slash).len() >= 1,
        m <= k ==> crate::text::split_on(s.take(m), Sep::Slash) == seq![s.take(m)],
        crate::text::split_on(s.take(m), Sep::Slash)[0] == s.take(if m <= k {
            m
        } else {
            k
        }),
    decreases m,
{
    crate::text::lemma_split_on_nonempty(s.take(m), Sep::Slash);
    if m > 0 {
        lemma_split_first_piece(s, k, m - 1);
        let t = s.take(m);
        assert(t.drop_last() == s.take(m - 1));
        assert(t.last() == s[m - 1]);
        let r = split_on(s.take(m - 1), Sep::Slash);
        if m <= k {
            assert(s.take(m - 1).push(s[m - 1]) == s.take(m));
            assert(split_on(t, Sep::Slash) =~= seq![s.take(m)]);
        } else if m == k + 1 {
            assert(r == seq![s.take(k)]);
            assert(split_on(t, Sep::Slash)[0] == r[0]);
        } else {
            assert(split_on(t, Sep::Slash)[0] == r[0]) by {
                if is_sep(Sep::Slash, t.last()) {
                } else {
                    crate::text::lemma_split_on_nonempty(s.take(m - 1), Sep::Slash);
                    assert(r.len() >= 2) by {
                        lemma_split_len_grows(s, k, m - 1);
                    }
                }
            }
        }
    } else {
        assert(s.take(0) == Seq::<char>::empty());
        assert(split_on(s.take(0), Sep::Slash) == seq![Seq::<char>::empty()]);
    }
}

proof fn lemma_split_len_grows(s: Seq<char>, k: int, m: int)
    requires
        0 <= k < m <= s.len(),
        s[k] == '/',
    ensures
        split_on(s.take(m), Sep::Slash).len() >= 2,
    decreases m,
{
    let t = s.take(m);
    assert(t.drop_last() == s.take(m - 1));
    crate::text::lemma_split_on_nonempty(s.take(m - 1), Sep::Slash);
    if m - 1 > k {
        lemma_split_len_grows(s, k, m - 1);
    } else {
        assert(t.last() == s[k]);
    }
}

/// The first path component of a folder id, e.g. `"moduleA"` for both
/// `"moduleA"` and `"moduleA/subA1"`.
pub fn top_level_name(node_id: &str) -> (r: &str)
    ensures
        r@ == top_name(node_id@),
{
    let cs = chars_of(node_id);
    let n = cs.len();
    let mut k: usize = 0;
    while k < n && cs[k] != '/'
        invariant
            n == cs@.len(),
            cs@ == node_id@,
            k <= n,
            forall|j: int| 0 <= j < k ==> cs@[j] != '/',
        decreases n - k,
    {
        k = k + 1;
    }
    proof {
        lemma_split_first_piece(node_id@, k as int, node_id@.len() as int);
        assert(node_id@.take(node_id@.len() as int) == node_id@);
    }
    node_id.substring_char(0, k)
}


/// The set of edges held by `v`.
pub open spec fn edge_set(v: Seq<(String, String)>) -> Set<(Seq<char>, Seq<char>)> {
    pair_views(v).to_set()
}

/// Whether `edges` holds the edge `a -> b`.
pub fn contains_edge(edges: &Vec<(String, String)>, a: &String, b: &String) -> (r: bool)
    ensures
        r == edge_set(edges@).contains((a@, b@)),
{
    let n = edges.len();
    for i in 0..n
        invariant
            n == edges@.len(),
            forall|k: int| 0 <= k < i ==> pair_views(edges@)[k] != (a@, b@),
    {
        if edges[i].0 == *a && edges[i].1 == *b {
            assert(pair_views(edges@)[i as int] == (a@, b@));
            return true;
        }
    }
    false
}

/// Adds the edge `e` to the edge set `edges`, and tells whether it was new.
pub fn insert_edge(edges: &mut Vec<(String, String)>, e: (String, String)) -> (is_new: bool)
    requires
        pair_views(old(edges)@).no_duplicates(),
    ensures
        pair_views(final(edges)@).no_duplicates(),
        edge_set(final(edges)@) == edge_set(old(edges)@).insert((e.0@, e.1@)),
        is_new == !edge_set(old(edges)@).contains((e.0@, e.1@)),
{
    if contains_edge(edges, &e.0, &e.1) {
        assert(edge_set(edges@).insert((e.0@, e.1@)) =~= edge_set(edges@));
        return false;
    }
    let ghost old_v = pair_views(edges@);
    let ghost ev = (e.0@, e.1@);
    edges.push(e);
    assert(pair_views(edges@) =~= old_v.push(ev));
    assert(old_v.push(ev).to_set() =~= old_v.to_set().insert(ev)) by {
        old_v.lemma_push_to_set_commute(ev);
    }
    true
}

/// A found ancestor chain is never empty.
pub proof fn lemma_descend_nonempty(node: FolderNode, dir: Seq<Seq<char>>, next: int)
    ensures
        descend(node, dir, next) matches Some(c) ==> c.len() >= 1 && c[0] == node.path_id@,
    decreases dir.len() - next,
{
    if node.children@.len() > 0 && 0 <= next < dir.len() {
        match crate::tree::first_named(node.children@, dir[next]) {
            Some(j) => {
                lemma_descend_nonempty(node.children@[j], dir, next + 1);
            },
            None => {},
        }
    }
}

/// A classified path has a non-empty chain.
pub proof fn lemma_classify_nonempty(raw: Seq<char>, tree: Seq<FolderNode>)
    ensures
        classify(raw, tree) matches Some(c) ==> c.len() >= 1,
{
    let comps = crate::tree::path_components(raw);
    if comps.len() >= 2 {
        let dir = comps.take(comps.len() - 1);
        match crate::tree::root_start(dir, tree, 0) {
            Some((i, j)) => lemma_descend_nonempty(tree[j], dir, i + 1),
            None => {},
        }
    }
}

/// The edge that the dependency of `t` on `p` gives, if any: between the
/// deepest known folders on each side (`Flat`), or where their chains
/// diverge (`Hierarchical`). None when either path is outside the tree or
/// both lie in the same folder.
pub open spec fn pair_edge(t: Seq<char>, p: Seq<char>, tree: Seq<FolderNode>, mode: EdgeMode) -> Option<
    (Seq<char>, Seq<char>),
> {
    match (classify(t, tree), classify(p, tree)) {
        (Some(tc), Some(pc)) => match mode {
            EdgeMode::Flat => if tc.last() != pc.last() {
                Some((tc.last(), pc.last()))
            } else {
                None
            },
            EdgeMode::Hierarchical => diverging_pair(tc, pc),
        },
        _ => None,
    }
}

/// Every edge that some pair of `pairs` gives.
pub open spec fn pairs_edge_set(
    pairs: Seq<(Seq<char>, Seq<char>)>,
    tree: Seq<FolderNode>,
    mode: EdgeMode,
) -> Set<(Seq<char>, Seq<char>)> {
    Set::new(
        |e: (Seq<char>, Seq<char>)|
            exists|i: int|
                0 <= i < pairs.len() && #[trigger] pair_edge(pairs[i].0, pairs[i].1, tree, mode)
                    == Some(e),
    )
}

/// The edge given by one (target, prerequisite) pair.
fn edge_of_pair(t: &String, p: &String, tree: &[FolderNode], mode: EdgeMode) -> (r: Option<
    (String, String),
>)
    ensures
        match r {
            Some(e) => pair_edge(t@, p@, tree@, mode) == Some((e.0@, e.1@)),
            None => pair_edge(t@, p@, tree@, mode) is None,
        },
{
    let tc = classify_chain(t.as_str(), tree);
    let pc = classify_chain(p.as_str(), tree);
    match (tc, pc) {
        (Some(tc), Some(pc)) => {
            proof {
                lemma_classify_nonempty(t@, tree@);
                lemma_classify_nonempty(p@, tree@);
            }
            match mode {
                EdgeMode::Flat => {
                    let tf = &tc[tc.len() - 1];
                    let pf = &pc[pc.len() - 1];
                    assert(string_views(tc@).last() == tf@);
                    assert(string_views(pc@).last() == pf@);
                    if *tf != *pf {
                        Some((tf.clone(), pf.clone()))
                    } else {
                        None
                    }
                },
                EdgeMode::Hierarchical => hierarchical_edge(tc.as_slice(), pc.as_slice()),
            }
        },
        _ => None,
    }
}

/// No dependency gives an edge from a folder to itself: a dependency whose
/// two sides fall in the same folder is ignored.
pub proof fn pair_edge_never_loops(t: Seq<char>, p: Seq<char>, tree: Seq<FolderNode>, mode: EdgeMode)
    ensures
        pair_edge(t, p, tree, mode) matches Some(e) ==> e.0 != e.1,
{
    match (classify(t, tree), classify(p, tree)) {
        (Some(tc), Some(pc)) => {
            lemma_common_prefix_len(tc, pc);
        },
        _ => {},
    }
}

/// Turns the (target, prerequisite) pairs of one `.d` file into the set of
/// edges they give under `mode`.
pub fn edges_from_pairs(pairs: &[(String, String)], tree: &[FolderNode], mode: EdgeMode) -> (r: Vec<
    (String, String),
>)
    ensures
        pair_views(r@).no_duplicates(),
        edge_set(r@) == pairs_edge_set(pair_views(pairs@), tree@, mode),
        forall|e: (Seq<char>, Seq<char>)| #[trigger] edge_set(r@).contains(e) ==> e.0 != e.1,
{
    let mut edges: Vec<(String, String)> = Vec::new();
    let n = pairs.len();
    let ghost pv = pair_views(pairs@);
    assert(edge_set(edges@) =~= pairs_edge_set(pv.take(0), tree@, mode));
    for i in 0..n
        invariant
            n == pairs@.len(),
            pv == pair_views(pairs@),
            pair_views(edges@).no_duplicates(),
            edge_set(edges@) == pairs_edge_set(pv.take(i as int), tree@, mode),
    {
        let ghost before = edge_set(edges@);
        let e = edge_of_pair(&pairs[i].0, &pairs[i].1, tree, mode);
        let ghost t = pv.take(i + 1);
        assert(t[i as int] == pv[i as int]);
        match e {
            Some(e) => {
                let ghost ev = (e.0@, e.1@);
                insert_edge(&mut edges, e);
                assert(edge_set(edges@) =~= pairs_edge_set(t, tree@, mode)) by {
                    assert forall|x: (Seq<char>, Seq<char>)|
                        pairs_edge_set(t, tree@, mode).contains(x) implies before.insert(ev).contains(x) by {
                        let k = choose|k: int|
                            0 <= k < t.len() && #[trigger] pair_edge(t[k].0, t[k].1, tree@, mode)
                                == Some(x);
                        if k < i {
                            assert(pv.take(i as int)[k] == t[k]);
                        }
                    }
                    assert forall|x: (Seq<char>, Seq<char>)|
                        before.insert(ev).contains(x) implies pairs_edge_set(t, tree@, mode).contains(x) by {
                        if x == ev {
                            assert(pair_edge(t[i as int].0, t[i as int].1, tree@, mode) == Some(x));
                        } else {
                            let k = choose|k: int|
                                0 <= k < i && #[trigger] pair_edge(pv.take(i as int)[k].0, pv.take(i as int)[k].1, tree@, mode)
                                    == Some(x);
                            assert(pv.take(i as int)[k] == t[k]);
                        }
                    }
                }
            },
            None => {
                assert(edge_set(edges@) =~= pairs_edge_set(t, tree@, mode)) by {
                    assert forall|x: (Seq<char>, Seq<char>)|
                        pairs_edge_set(t, tree@, mode).contains(x) implies before.contains(x) by {
                        let k = choose|k: int|
                            0 <= k < t.len() && #[trigger] pair_edge(t[k].0, t[k].1, tree@, mode)
                                == Some(x);
                        assert(k < i);
                        assert(pv.take(i as int)[k] == t[k]);
                    }
                    assert forall|x: (Seq<char>, Seq<char>)|
                        before.contains(x) implies pairs_edge_set(t, tree@, mode).contains(x) by {
                        let k = choose|k: int|
                            0 <= k < i && #[trigger] pair_edge(pv.take(i as int)[k].0, pv.take(i as int)[k].1, tree@, mode)
                                == Some(x);
                        assert(pv.take(i as int)[k] == t[k]);
                    }
                }
            },
        }
    }
    assert(pv.take(n as int) =~= pv);
    assert forall|e: (Seq<char>, Seq<char>)| #[trigger] edge_set(edges@).contains(e) implies e.0
        != e.1 by {
        let k = choose|k: int|
            0 <= k < pv.len() && #[trigger] pair_edge(pv[k].0, pv[k].1, tree@, mode) == Some(e);
        pair_edge_never_loops(pv[k].0, pv[k].1, tree@, mode);
    }
    edges
}


/// Edge `x` comes strictly before edge `y`: by source folder, then by
/// target folder, each in the order of `String`.
pub open spec fn edge_lt(x: (Seq<char>, Seq<char>), y: (Seq<char>, Seq<char>)) -> bool {
    chars_lt(x.0, y.0) || (x.0 == y.0 && chars_lt(x.1, y.1))
}

/// Every edge of `q` comes strictly before every later one.
pub open spec fn edges_sorted(q: Seq<(Seq<char>, Seq<char>)>) -> bool {
    forall|i: int, j: int| 0 <= i < j < q.len() ==> edge_lt(#[trigger] q[i], #[trigger] q[j])
}

/// The order of edges is a strict total order.
pub proof fn lemma_edge_lt_total(s: Set<(Seq<char>, Seq<char>)>)
    ensures
        strict_total_on(|x: (Seq<char>, Seq<char>), y: (Seq<char>, Seq<char>)| edge_lt(x, y), s),
{
    let lt = |x: (Seq<char>, Seq<char>), y: (Seq<char>, Seq<char>)| edge_lt(x, y);
    assert forall|a: (Seq<char>, Seq<char>)| s.contains(a) implies !lt(a, a) by {
        lemma_chars_lt_irreflexive(a.0);
        lemma_chars_lt_irreflexive(a.1);
    }
    assert forall|a: (Seq<char>, Seq<char>), b: (Seq<char>, Seq<char>), c: (Seq<char>, Seq<char>)|
        s.contains(a) && s.contains(b) && s.contains(c) && #[trigger] lt(a, b) && #[trigger] lt(
            b,
            c,
        ) implies lt(a, c) by {
        lemma_edge_lt_transitive(a, b, c);
    }
    assert forall|a: (Seq<char>, Seq<char>), b: (Seq<char>, Seq<char>)|
        s.contains(a) && s.contains(b) && a != b implies lt(a, b) || lt(b, a) by {
        lemma_chars_lt_total(a.0, b.0);
        lemma_chars_lt_total(a.1, b.1);
    }
}

/// The order of edges is transitive.
pub proof fn lemma_edge_lt_transitive(
    a: (Seq<char>, Seq<char>),
    b: (Seq<char>, Seq<char>),
    c: (Seq<char>, Seq<char>),
)
    requires
        edge_lt(a, b),
        edge_lt(b, c),
    ensures
        edge_lt(a, c),
{
    if chars_lt(a.0, b.0) && chars_lt(b.0, c.0) {
        lemma_chars_lt_transitive(a.0, b.0, c.0);
    }
    if a.0 == b.0 && b.0 == c.0 {
        lemma_chars_lt_irreflexive(a.0);
        lemma_chars_lt_transitive(a.1, b.1, c.1);
    }
}

/// The edges of the finite set `s` in sorted order.
pub open spec fn sorted_edges_of(s: Set<(Seq<char>, Seq<char>)>) -> Seq<(Seq<char>, Seq<char>)> {
    choose|q: Seq<(Seq<char>, Seq<char>)>| edges_sorted(q) && q.to_set() == s
}

/// A sorted sequence of the edges of `s` is the one that `sorted_edges_of`
/// names.
pub proof fn lemma_sorted_edges_of(q: Seq<(Seq<char>, Seq<char>)>, s: Set<(Seq<char>, Seq<char>)>)
    requires
        edges_sorted(q),
        q.to_set() == s,
    ensures
        sorted_edges_of(s) == q,
{
    let p = sorted_edges_of(s);
    assert(edges_sorted(p) && p.to_set() == s);
    let lt = |x: (Seq<char>, Seq<char>), y: (Seq<char>, Seq<char>)| edge_lt(x, y);
    lemma_edge_lt_total(p.to_set());
    assert(strictly_sorted(p, lt));
    assert(strictly_sorted(q, lt));
    lemma_sorted_unique(p, q, lt);
}

/// `q` with `x` put in its place in the order of edges.
pub open spec fn insert_sorted(q: Seq<(Seq<char>, Seq<char>)>, x: (Seq<char>, Seq<char>)) -> Seq<
    (Seq<char>, Seq<char>),
>
    decreases q.len(),
{
    if q.len() == 0 {
        seq![x]
    } else if edge_lt(x, q[0]) {
        seq![x] + q
    } else {
        seq![q[0]] + insert_sorted(q.drop_first(), x)
    }
}

proof fn lemma_insert_sorted(q: Seq<(Seq<char>, Seq<char>)>, x: (Seq<char>, Seq<char>))
    requires
        edges_sorted(q),
        !q.contains(x),
    ensures
        edges_sorted(insert_sorted(q, x)),
        insert_sorted(q, x).to_set() == q.to_set().insert(x),
    decreases q.len(),
{
    let r = insert_sorted(q, x);
    if q.len() == 0 {
        assert(r.to_set() =~= Set::empty().insert(x)) by {
            assert(r[0] == x);
        }
        assert(q.to_set() =~= Set::empty());
    } else if edge_lt(x, q[0]) {
        assert forall|i: int, j: int| 0 <= i < j < r.len() implies edge_lt(#[trigger] r[i], #[trigger] r[j]) by {
            if i == 0 {
                assert(r[j] == q[j - 1]);
                if j - 1 > 0 {
                    assert(edge_lt(q[0], q[j - 1]));
                    lemma_edge_lt_transitive(x, q[0], q[j - 1]);
                }
            } else {
                assert(r[i] == q[i - 1] && r[j] == q[j - 1]);
            }
        }
        assert(r.to_set() =~= q.to_set().insert(x)) by {
            assert forall|y| r.to_set().contains(y) implies q.to_set().insert(x).contains(y) by {
                let i = choose|i: int| 0 <= i < r.len() && r[i] == y;
                if i > 0 {
                    assert(q[i - 1] == y);
                }
            }
            assert forall|y| q.to_set().insert(x).contains(y) implies r.to_set().contains(y) by {
                if y == x {
                    assert(r[0] == x);
                } else {
                    let i = choose|i: int| 0 <= i < q.len() && q[i] == y;
                    assert(r[i + 1] == y);
                }
            }
        }
    } else {
        let q1 = q.drop_first();
        assert(!q1.contains(x)) by {
            if q1.contains(x) {
                let i = choose|i: int| 0 <= i < q1.len() && q1[i] == x;
                assert(q[i + 1] == x);
            }
        }
        assert(edges_sorted(q1)) by {
            assert forall|i: int, j: int| 0 <= i < j < q1.len() implies edge_lt(#[trigger] q1[i], #[trigger] q1[j]) by {
                assert(q1[i] == q[i + 1] && q1[j] == q[j + 1]);
            }
        }
        lemma_insert_sorted(q1, x);
        let r1 = insert_sorted(q1, x);
        assert(q[0] != x) by {
            if q[0] == x {
                assert(q.contains(x));
            }
        }
        assert(edge_lt(q[0], x)) by {
            lemma_chars_lt_total(x.0, q[0].0);
            lemma_chars_lt_total(x.1, q[0].1);
        }
        assert forall|i: int, j: int| 0 <= i < j < r.len() implies edge_lt(#[trigger] r[i], #[trigger] r[j]) by {
            if i == 0 {
                assert(r[j] == r1[j - 1]);
                assert(r1.to_set().contains(r1[j - 1]));
                if r1[j - 1] != x {
                    assert(q1.to_set().contains(r1[j - 1]));
                    let k = choose|k: int| 0 <= k < q1.len() && q1[k] == r1[j - 1];
                    assert(q[k + 1] == r1[j - 1]);
                }
            } else {
                assert(r[i] == r1[i - 1] && r[j] == r1[j - 1]);
            }
        }
        assert(r.to_set() =~= q.to_set().insert(x)) by {
            assert forall|y| r.to_set().contains(y) implies q.to_set().insert(x).contains(y) by {
                let i = choose|i: int| 0 <= i < r.len() && r[i] == y;
                if i > 0 {
                    assert(r1[i - 1] == y);
                    assert(r1.to_set().contains(y));
                    if y != x {
                        let k = choose|k: int| 0 <= k < q1.len() && q1[k] == y;
                        assert(q[k + 1] == y);
                    }
                } else {
                    assert(q[0] == y);
                }
            }
            assert forall|y| q.to_set().insert(x).contains(y) implies r.to_set().contains(y) by {
                if y == q[0] {
                    assert(r[0] == y);
                } else {
                    if y != x {
                        let k = choose|k: int| 0 <= k < q.len() && q[k] == y;
                        assert(k > 0);
                        assert(q1[k - 1] == y);
                        assert(q1.to_set().contains(y));
                    }
                    assert(r1.to_set().contains(y));
                    let i = choose|i: int| 0 <= i < r1.len() && r1[i] == y;
                    assert(r[i + 1] == y);
                }
            }
        }
    }
}

/// Every finite set of edges has a sorted enumeration.
pub proof fn lemma_sorted_edges_exist(s: Set<(Seq<char>, Seq<char>)>)
    requires
        s.finite(),
    ensures
        edges_sorted(sorted_edges_of(s)),
        sorted_edges_of(s).to_set() == s,
    decreases s.len(),
{
    if s.len() == 0 {
        let q = Seq::<(Seq<char>, Seq<char>)>::empty();
        assert(s =~= Set::empty());
        assert(q.to_set() =~= s);
        assert(edges_sorted(q));
    } else {
        let x = s.choose();
        let rest = s.remove(x);
        lemma_sorted_edges_exist(rest);
        let q1 = sorted_edges_of(rest);
        assert(!q1.contains(x)) by {
            if q1.contains(x) {
                assert(q1.to_set().contains(x));
            }
        }
        lemma_insert_sorted(q1, x);
        let q = insert_sorted(q1, x);
        assert(q.to_set() =~= s);
        assert(edges_sorted(q) && q.to_set() == s);
    }
}

/// A sorted sequence of edges holds each edge once.
pub proof fn lemma_sorted_no_duplicates(q: Seq<(Seq<char>, Seq<char>)>)
    requires
        edges_sorted(q),
    ensures
        q.no_duplicates(),
{
    assert forall|i: int, j: int| 0 <= i < q.len() && 0 <= j < q.len() && i != j implies q[i]
        != q[j] by {
        lemma_chars_lt_irreflexive(q[i].0);
        lemma_chars_lt_irreflexive(q[i].1);
        if i < j {
            assert(edge_lt(q[i], q[j]));
        } else {
            assert(edge_lt(q[j], q[i]));
        }
    }
}

/// Whether edge `x` comes strictly before edge `y`.
fn edge_less(x: &(String, String), y: &(String, String)) -> (r: bool)
    ensures
        r == edge_lt((x.0@, x.1@), (y.0@, y.1@)),
{
    let x0 = chars_of(x.0.as_str());
    let y0 = chars_of(y.0.as_str());
    if chars_less(&x0, &y0) {
        return true;
    }
    if x.0 != y.0 {
        return false;
    }
    let x1 = chars_of(x.1.as_str());
    let y1 = chars_of(y.1.as_str());
    chars_less(&x1, &y1)
}

/// The distinct edges of `edges`, sorted.
pub fn sort_edge_set(edges: &Vec<(String, String)>) -> (r: Vec<(String, String)>)
    ensures
        edges_sorted(pair_views(r@)),
        edge_set(r@) == edge_set(edges@),
{
    let mut out: Vec<(String, String)> = Vec::new();
    let n = edges.len();
    let ghost ev = pair_views(edges@);
    assert(edge_set(out@) =~= ev.take(0).to_set());
    for i in 0..n
        invariant
            n == edges@.len(),
            ev == pair_views(edges@),
            edges_sorted(pair_views(out@)),
            edge_set(out@) == ev.take(i as int).to_set(),
    {
        let e = &edges[i];
        let ghost e_v = (e.0@, e.1@);
        let ghost ov = pair_views(out@);
        let mut p: usize = 0;
        while p < out.len() && edge_less(&out[p], e)
            invariant
                ov == pair_views(out@),
                e_v == (e.0@, e.1@),
                p <= out@.len(),
                forall|q: int| 0 <= q < p ==> edge_lt(#[trigger] ov[q], e_v),
            decreases out@.len() - p,
        {
            p = p + 1;
        }
        assert(ev.take(i + 1) =~= ev.take(i as int).push(e_v));
        proof {
            ev.take(i as int).lemma_push_to_set_commute(e_v);
        }
        if p < out.len() && out[p].0 == e.0 && out[p].1 == e.1 {
            assert(ov[p as int] == e_v);
            assert(edge_set(out@).insert(e_v) =~= edge_set(out@));
        } else {
            proof {
                if p < ov.len() {
                    lemma_chars_lt_total(e_v.0, ov[p as int].0);
                    lemma_chars_lt_total(e_v.1, ov[p as int].1);
                    assert(edge_lt(e_v, ov[p as int]));
                }
            }
            let item = (e.0.clone(), e.1.clone());
            out.insert(p, item);
            let ghost nv = pair_views(out@);
            assert(nv =~= ov.insert(p as int, e_v));
            assert forall|a: int, b: int| 0 <= a < b < nv.len() implies edge_lt(
                #[trigger] nv[a],
                #[trigger] nv[b],
            ) by {
                if b < p {
                } else if b == p {
                } else if a < p {
                    assert(nv[b] == ov[b - 1]);
                } else if a == p {
                    assert(nv[b] == ov[b - 1]);
                    if b - 1 > p {
                        lemma_edge_lt_transitive(e_v, ov[p as int], ov[b - 1]);
                    }
                } else {
                    assert(nv[a] == ov[a - 1] && nv[b] == ov[b - 1]);
                }
            }
            assert(nv.to_set() =~= ov.to_set().insert(e_v)) by {
                assert forall|x| nv.to_set().contains(x) implies ov.to_set().insert(e_v).contains(x) by {
                    let k = choose|k: int| 0 <= k < nv.len() && nv[k] == x;
                    if k < p {
                        assert(ov[k] == x);
                    } else if k > p {
                        assert(ov[k - 1] == x);
                    }
                }
                assert forall|x| ov.to_set().insert(e_v).contains(x) implies nv.to_set().contains(x) by {
                    if x == e_v {
                        assert(nv[p as int] == x);
                    } else {
                        let k = choose|k: int| 0 <= k < ov.len() && ov[k] == x;
                        if k < p {
                            assert(nv[k] == x);
                        } else {
                            assert(nv[k + 1] == x);
                        }
                    }
                }
            }
        }
    }
    assert(ev.take(n as int) =~= ev);
    out
}


/// Splitting at a slash splits the two sides apart.
pub proof fn lemma_split_concat(x: Seq<char>, y: Seq<char>)
    ensures
        split_on(x + seq!['/'] + y, Sep::Slash) == split_on(x, Sep::Slash) + split_on(y, Sep::Slash),
{
    crate::text::lemma_split_on_concat(x, '/', y, Sep::Slash);
}

/// A text without slashes is one piece.
pub proof fn lemma_split_no_slash(n: Seq<char>)
    requires
        forall|i: int| 0 <= i < n.len() ==> #[trigger] n[i] != '/',
    ensures
        split_on(n, Sep::Slash) == seq![n],
    decreases n.len(),
{
    if n.len() > 0 {
        lemma_split_no_slash(n.drop_last());
        assert(n.last() == n[n.len() - 1]);
        assert(n.drop_last().push(n.last()) == n);
    } else {
        assert(n == Seq::<char>::empty());
    }
}

/// Joining the pieces of a split with slashes gives the text back.
pub proof fn lemma_join_split(s: Seq<char>)
    ensures
        join_with(split_on(s, Sep::Slash), '/') == s,
    decreases s.len(),
{
    if s.len() > 0 {
        let s1 = s.drop_last();
        lemma_join_split(s1);
        crate::text::lemma_split_on_nonempty(s1, Sep::Slash);
        let r = split_on(s1, Sep::Slash);
        if is_sep(Sep::Slash, s.last()) {
            let r2 = r.push(Seq::<char>::empty());
            assert(r2.drop_last() == r);
            assert(r2.last() == Seq::<char>::empty());
            assert(s1 + seq!['/'] + Seq::<char>::empty() =~= s);
        } else {
            let r2 = r.update(r.len() - 1, r.last().push(s.last()));
            if r.len() == 1 {
                assert(r2[0] == r[0].push(s.last()));
                assert(join_with(r, '/') == r[0]);
                assert(r[0].push(s.last()) =~= s);
            } else {
                assert(r2.drop_last() == r.drop_last());
                assert(r2.last() == r.last().push(s.last()));
                assert(join_with(r2.drop_last(), '/') + seq!['/'] + r2.last() =~= (join_with(
                    r.drop_last(),
                    '/',
                ) + seq!['/'] + r.last()).push(s.last()));
                assert(s1.push(s.last()) =~= s);
            }
        }
    }
}

/// The pieces of a folder id whose parent has id `prefix`.
pub open spec fn id_pieces(prefix: Seq<char>) -> Seq<Seq<char>> {
    if prefix.len() == 0 {
        Seq::empty()
    } else {
        split_on(prefix, Sep::Slash)
    }
}

proof fn lemma_child_id_pieces(prefix: Seq<char>, name: Seq<char>)
    requires
        is_folder_name(name),
    ensures
        split_on(child_id(prefix, name), Sep::Slash) == id_pieces(prefix) + seq![name],
{
    lemma_split_no_slash(name);
    if prefix.len() > 0 {
        lemma_split_concat(prefix, name);
    } else {
        assert(Seq::<Seq<char>>::empty() + seq![name] =~= seq![name]);
    }
}

proof fn lemma_descend_pieces(node: FolderNode, dir: Seq<Seq<char>>, next: int, prefix: Seq<char>)
    requires
        well_formed_node(node, prefix),
        1 <= next <= dir.len(),
        node.name@ == dir[next - 1],
    ensures
        descend(node, dir, next) matches Some(c) ==> {
            &&& next + c.len() <= dir.len() + 1
            &&& forall|k: int|
                0 <= k < c.len() ==> split_on(#[trigger] c[k], Sep::Slash) == id_pieces(prefix)
                    + dir.subrange(next - 1, next + k)
        },
    decreases dir.len() - next,
{
    lemma_child_id_pieces(prefix, node.name@);
    assert(dir.subrange(next - 1, next) =~= seq![node.name@]);
    if node.children@.len() == 0 {
        let c = seq![node.path_id@];
        assert(descend(node, dir, next) == Some(c));
        assert forall|k: int| 0 <= k < c.len() implies split_on(#[trigger] c[k], Sep::Slash)
            == id_pieces(prefix) + dir.subrange(next - 1, next + k) by {
            assert(k == 0);
        }
    } else if next < dir.len() {
        match first_named(node.children@, dir[next]) {
            Some(j) => {
                crate::tree::lemma_first_named_from_pub(node.children@, dir[next], 0);
                let child = node.children@[j];
                assert(well_formed_node(child, node.path_id@));
                lemma_descend_pieces(child, dir, next + 1, node.path_id@);
                assert(id_pieces(node.path_id@) == split_on(node.path_id@, Sep::Slash)) by {
                    if node.path_id@.len() == 0 {
                        assert(child_id(prefix, node.name@).len() > 0) by {
                            if prefix.len() > 0 {
                                assert((prefix + seq!['/'] + node.name@).len() > 0);
                            }
                        }
                    }
                }
                match descend(child, dir, next + 1) {
                    Some(rest) => {
                        let c = seq![node.path_id@] + rest;
                        assert(descend(node, dir, next) == Some(c));
                        assert forall|k: int| 0 <= k < c.len() implies split_on(
                            #[trigger] c[k],
                            Sep::Slash,
                        ) == id_pieces(prefix) + dir.subrange(next - 1, next + k) by {
                            if k == 0 {
                                assert(c[0] == node.path_id@);
                            } else {
                                assert(c[k] == rest[k - 1]);
                                assert(split_on(rest[k - 1], Sep::Slash) == id_pieces(node.path_id@)
                                    + dir.subrange(next, next + 1 + (k - 1)));
                                assert(id_pieces(prefix) + dir.subrange(next - 1, next) + dir.subrange(
                                    next,
                                    next + k,
                                ) =~= id_pieces(prefix) + dir.subrange(next - 1, next + k));
                            }
                        }
                    },
                    None => {},
                }
            },
            None => {},
        }
    }
}

/// The `k`-th folder id of chain `c` splits into the components
/// `comps[st..st + k + 1]`.
pub open spec fn chain_from(c: Seq<Seq<char>>, comps: Seq<Seq<char>>, st: int) -> bool {
    &&& 0 <= st
    &&& st + c.len() <= comps.len() - 1
    &&& forall|k: int|
        0 <= k < c.len() ==> split_on(#[trigger] c[k], Sep::Slash) == comps.subrange(st, st + k + 1)
}

/// The pieces of the `k`-th folder id of a classified chain are the
/// directory components from where the chain starts.
proof fn lemma_classify_pieces(raw: Seq<char>, tree: Seq<FolderNode>)
    requires
        well_formed_tree(tree),
    ensures
        classify(raw, tree) matches Some(c) ==> exists|st: int| #[trigger] chain_from(c, path_components(raw), st),
{
    let comps = path_components(raw);
    if comps.len() >= 2 {
        let dir = comps.take(comps.len() - 1);
        match root_start(dir, tree, 0) {
            Some((i, j)) => {
                crate::tree::lemma_root_start(dir, tree, 0);
                crate::tree::lemma_first_named_from_pub(tree, dir[i], 0);
                lemma_descend_pieces(tree[j], dir, i + 1, Seq::empty());
                match descend(tree[j], dir, i + 1) {
                    Some(c) => {
                        assert forall|k: int| 0 <= k < c.len() implies split_on(
                            #[trigger] c[k],
                            Sep::Slash,
                        ) == comps.subrange(i, i + k + 1) by {
                            assert(split_on(c[k], Sep::Slash) == id_pieces(Seq::empty()) + dir.subrange(
                                i,
                                i + 1 + k,
                            ));
                            assert(Seq::<Seq<char>>::empty() + dir.subrange(i, i + 1 + k) =~= comps.subrange(
                                i,
                                i + k + 1,
                            ));
                        }
                        assert(chain_from(c, comps, i));
                    },
                    None => {},
                }
            },
            None => {},
        }
    }
}

/// The folder that directly holds the folder with id `x`, if any.
pub open spec fn parent_of(x: Seq<char>) -> Option<Seq<char>> {
    let s = split_on(x, Sep::Slash);
    if s.len() <= 1 {
        None
    } else {
        Some(join_with(s.drop_last(), '/'))
    }
}

proof fn lemma_common_prefix_exact<T>(x: Seq<T>, y: Seq<T>, i: int)
    requires
        0 <= i < x.len(),
        i < y.len(),
        x.take(i) == y.take(i),
        x[i] != y[i],
    ensures
        common_prefix_len(x, y) == i,
    decreases i,
{
    if i > 0 {
        assert(x[0] == x.take(i)[0]);
        assert(y[0] == y.take(i)[0]);
        assert(x.drop_first().take(i - 1) =~= y.drop_first().take(i - 1)) by {
            assert forall|k: int| 0 <= k < i - 1 implies #[trigger] x.drop_first().take(i - 1)[k]
                == y.drop_first().take(i - 1)[k] by {
                assert(x.take(i)[k + 1] == y.take(i)[k + 1]);
                assert(x.take(i)[k + 1] == x[k + 1]);
                assert(y.take(i)[k + 1] == y[k + 1]);
                assert(x.drop_first().take(i - 1)[k] == x[k + 1]);
                assert(y.drop_first().take(i - 1)[k] == y[k + 1]);
            }
        }
        lemma_common_prefix_exact(x.drop_first(), y.drop_first(), i - 1);
    }
}

/// In `Hierarchical` mode, on a well-formed tree, the two ends of an edge
/// are siblings directly under the scope that encloses the edge: the scope
/// is the parent of each end (the top level when they are top-level
/// folders).
pub proof fn hierarchical_edge_ends_are_siblings(t: Seq<char>, p: Seq<char>, tree: Seq<FolderNode>)
    requires
        well_formed_tree(tree),
    ensures
        pair_edge(t, p, tree, EdgeMode::Hierarchical) matches Some(e) ==> scope_of(e.0, e.1)
            == parent_of(e.0) && scope_of(e.0, e.1) == parent_of(e.1),
{
    match (classify(t, tree), classify(p, tree)) {
        (Some(tc), Some(pc)) => {
            lemma_common_prefix_len(tc, pc);
            let i = common_prefix_len(tc, pc) as int;
            if i < tc.len() && i < pc.len() {
                lemma_classify_pieces(t, tree);
                lemma_classify_pieces(p, tree);
                let ct = path_components(t);
                let cp = path_components(p);
                let st = choose|st: int| #[trigger] chain_from(tc, ct, st);
                let sp = choose|sp: int| #[trigger] chain_from(pc, cp, sp);
                let a = tc[i];
                let b = pc[i];
                let sa = split_on(a, Sep::Slash);
                let sb = split_on(b, Sep::Slash);
                assert(sa == ct.subrange(st, st + i + 1));
                assert(sb == cp.subrange(sp, sp + i + 1));
                assert(sa.take(i) == sb.take(i)) by {
                    if i > 0 {
                        assert(tc[i - 1] == pc[i - 1]);
                        assert(split_on(tc[i - 1], Sep::Slash) == ct.subrange(st, st + i));
                        assert(split_on(pc[i - 1], Sep::Slash) == cp.subrange(sp, sp + i));
                        assert(sa.take(i) =~= ct.subrange(st, st + i));
                        assert(sb.take(i) =~= cp.subrange(sp, sp + i));
                    } else {
                        assert(sa.take(0) =~= sb.take(0));
                    }
                }
                assert(sa[i] != sb[i]) by {
                    if sa[i] == sb[i] {
                        assert(sa =~= sb) by {
                            assert forall|k: int| 0 <= k < sa.len() implies sa[k] == sb[k] by {
                                if k < i {
                                    assert(sa.take(i)[k] == sb.take(i)[k]);
                                }
                            }
                        }
                        lemma_join_split(a);
                        lemma_join_split(b);
                    }
                }
                lemma_common_prefix_exact(sa, sb, i);
                assert(sa.drop_last() =~= sa.take(i));
                assert(sb.drop_last() =~= sb.take(i));
            }
        },
        _ => {},
    }
}

/// Every folder of a classified chain but the last is a cluster of the tree.
proof fn lemma_classify_clusters(raw: Seq<char>, tree: Seq<FolderNode>)
    ensures
        classify(raw, tree) matches Some(c) ==> forall|k: int|
            0 <= k < c.len() - 1 ==> has_cluster(tree, #[trigger] c[k]),
{
    let comps = path_components(raw);
    if comps.len() >= 2 {
        let dir = comps.take(comps.len() - 1);
        match root_start(dir, tree, 0) {
            Some((i, j)) => {
                crate::tree::lemma_root_start(dir, tree, 0);
                crate::tree::lemma_first_named_from_pub(tree, dir[i], 0);
                lemma_descend_clusters(tree[j], dir, i + 1);
                match descend(tree[j], dir, i + 1) {
                    Some(c) => {
                        assert forall|k: int| 0 <= k < c.len() - 1 implies has_cluster(
                            tree,
                            #[trigger] c[k],
                        ) by {
                            lemma_has_cluster_member(tree, j, c[k]);
                        }
                    },
                    None => {},
                }
            },
            None => {},
        }
    }
}

/// In `Hierarchical` mode, on a well-formed tree, the scope that encloses an
/// edge is the top level or a folder of the tree drawn as a cluster, so the
/// edge has a place in the rendered file.
pub proof fn hierarchical_scopes_are_clusters(t: Seq<char>, p: Seq<char>, tree: Seq<FolderNode>)
    requires
        well_formed_tree(tree),
    ensures
        pair_edge(t, p, tree, EdgeMode::Hierarchical) matches Some(e) ==> (scope_of(e.0, e.1) matches Some(
            s,
        ) ==> has_cluster(tree, s)),
{
    hierarchical_edge_ends_are_siblings(t, p, tree);
    match (classify(t, tree), classify(p, tree)) {
        (Some(tc), Some(pc)) => {
            lemma_common_prefix_len(tc, pc);
            let i = common_prefix_len(tc, pc) as int;
            if i < tc.len() && i < pc.len() && tc[i] != pc[i] {
                let e = (tc[i], pc[i]);
                assert(pair_edge(t, p, tree, EdgeMode::Hierarchical) == Some(e));
                match scope_of(e.0, e.1) {
                    Some(s) => {
                        lemma_classify_pieces(t, tree);
                        lemma_classify_clusters(t, tree);
                        let ct = path_components(t);
                        let st = choose|st: int| #[trigger] chain_from(tc, ct, st);
                        let sa = split_on(tc[i], Sep::Slash);
                        assert(sa == ct.subrange(st, st + i + 1));
                        assert(parent_of(tc[i]) == Some(s));
                        assert(sa.len() > 1);
                        assert(i >= 1);
                        assert(split_on(tc[i - 1], Sep::Slash) == ct.subrange(st, st + (i - 1) + 1));
                        assert(sa.drop_last() =~= split_on(tc[i - 1], Sep::Slash));
                        lemma_join_split(tc[i - 1]);
                        assert(s == tc[i - 1]);
                        assert(has_cluster(tree, tc[i - 1]));
                    },
                    None => {},
                }
            }
        },
        _ => {},
    }
}

/// In `Flat` mode a dependency joins the deepest known folders of its two
/// ends directly, whatever their place in the tree, and only when those
/// folders differ; a dependency with an end in no known folder gives no
/// edge in either mode.
pub proof fn flat_edge_joins_deepest_folders(t: Seq<char>, p: Seq<char>, tree: Seq<FolderNode>)
    ensures
        match (classify(t, tree), classify(p, tree)) {
            (Some(tc), Some(pc)) => {
                &&& tc.last() != pc.last() ==> pair_edge(t, p, tree, EdgeMode::Flat) == Some(
                    (tc.last(), pc.last()),
                )
                &&& tc.last() == pc.last() ==> pair_edge(t, p, tree, EdgeMode::Flat) is None
            },
            _ => pair_edge(t, p, tree, EdgeMode::Flat) is None && pair_edge(
                t,
                p,
                tree,
                EdgeMode::Hierarchical,
            ) is None,
        },
{
}

/// In `Flat` mode the edges that the pairs give are exactly the pairs of
/// distinct deepest folders of their two ends.
pub proof fn flat_edges_of_pairs(pairs: Seq<(Seq<char>, Seq<char>)>, tree: Seq<FolderNode>, i: int)
    requires
        0 <= i < pairs.len(),
    ensures
        match (classify(pairs[i].0, tree), classify(pairs[i].1, tree)) {
            (Some(tc), Some(pc)) => tc.last() != pc.last() ==> pairs_edge_set(
                pairs,
                tree,
                EdgeMode::Flat,
            ).contains((tc.last(), pc.last())),
            _ => true,
        },
{
    flat_edge_joins_deepest_folders(pairs[i].0, pairs[i].1, tree);
}

} // verus!
