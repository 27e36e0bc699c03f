//! Reachability over edge sets and the transitive reduction of the graph.

use vstd::prelude::*;

use crate::edges::{
    edge_set, edges_sorted, lemma_sorted_edges_of, lemma_sorted_no_duplicates, sort_edge_set,
    sorted_edges_of,
};
use crate::text::pair_views;

verus! {

/// A walk of at least one edge through `g`, given by the folders it visits.
pub open spec fn is_walk(g: Set<(Seq<char>, Seq<char>)>, p: Seq<Seq<char>>) -> bool {
    &&& p.len() >= 2
    &&& forall|i: int| 0 <= i < p.len() - 1 ==> #[trigger] g.contains((p[i], p[i + 1]))
}

/// `y` is reachable from `x` through at least one edge of `g`.
pub open spec fn reaches(g: Set<(Seq<char>, Seq<char>)>, x: Seq<char>, y: Seq<char>) -> bool {
    exists|p: Seq<Seq<char>>| #[trigger] is_walk(g, p) && p[0] == x && p.last() == y
}

/// An edge of `g` is a walk.
pub proof fn lemma_edge_reaches(g: Set<(Seq<char>, Seq<char>)>, x: Seq<char>, y: Seq<char>)
    requires
        g.contains((x, y)),
    ensures
        reaches(g, x, y),
{
    let p = seq![x, y];
    assert(is_walk(g, p));
}

/// Walks compose.
pub proof fn lemma_reaches_transitive(
    g: Set<(Seq<char>, Seq<char>)>,
    x: Seq<char>,
    y: Seq<char>,
    z: Seq<char>,
)
    requires
        reaches(g, x, y),
        reaches(g, y, z),
    ensures
        reaches(g, x, z),
{
    let p = choose|p: Seq<Seq<char>>| #[trigger] is_walk(g, p) && p[0] == x && p.last() == y;
    let q = choose|q: Seq<Seq<char>>| #[trigger] is_walk(g, q) && q[0] == y && q.last() == z;
    let w = p + q.drop_first();
    assert forall|i: int| 0 <= i < w.len() - 1 implies #[trigger] g.contains((w[i], w[i + 1])) by {
        if i < p.len() - 1 {
            assert(w[i] == p[i] && w[i + 1] == p[i + 1]);
        } else if i == p.len() - 1 {
            assert(w[i] == q[0]);
            assert(w[i + 1] == q[1]);
            assert(g.contains((q[0], q[1])));
        } else {
            let j = i - p.len() + 1;
            assert(w[i] == q[j] && w[i + 1] == q[j + 1]);
        }
    }
    assert(is_walk(g, w));
    assert(w.last() == q.last());
}

/// Adding edges keeps every walk.
pub proof fn lemma_reaches_monotone(
    g1: Set<(Seq<char>, Seq<char>)>,
    g2: Set<(Seq<char>, Seq<char>)>,
    x: Seq<char>,
    y: Seq<char>,
)
    requires
        g1.subset_of(g2),
        reaches(g1, x, y),
    ensures
        reaches(g2, x, y),
{
    let p = choose|p: Seq<Seq<char>>| #[trigger] is_walk(g1, p) && p[0] == x && p.last() == y;
    assert forall|i: int| 0 <= i < p.len() - 1 implies #[trigger] g2.contains((p[i], p[i + 1])) by {
        assert(g1.contains((p[i], p[i + 1])));
    }
    assert(is_walk(g2, p));
}

/// Removing an edge `u -> v` whose target is still reachable from its source
/// through the other edges keeps every walk: each use of the edge can be
/// replaced by that other route.
pub proof fn lemma_remove_redundant_edge(
    g: Set<(Seq<char>, Seq<char>)>,
    e: (Seq<char>, Seq<char>),
    x: Seq<char>,
    y: Seq<char>,
)
    requires
        reaches(g.remove(e), e.0, e.1),
        reaches(g, x, y),
    ensures
        reaches(g.remove(e), x, y),
{
    let g2 = g.remove(e);
    let p = choose|p: Seq<Seq<char>>| #[trigger] is_walk(g, p) && p[0] == x && p.last() == y;
    assert forall|i: int| 1 <= i < p.len() implies reaches(g2, p[0], #[trigger] p[i]) by {
        lemma_walk_prefix_reroute(g, e, p, i);
    }
}

proof fn lemma_walk_prefix_reroute(
    g: Set<(Seq<char>, Seq<char>)>,
    e: (Seq<char>, Seq<char>),
    p: Seq<Seq<char>>,
    i: int,
)
    requires
        reaches(g.remove(e), e.0, e.1),
        is_walk(g, p),
        1 <= i < p.len(),
    ensures
        reaches(g.remove(e), p[0], p[i]),
    decreases i,
{
    let g2 = g.remove(e);
    let j = i - 1;
    assert(g.contains((p[j], p[j + 1])));
    assert(j + 1 == i);
    if (p[i - 1], p[i]) == e {
        if i > 1 {
            lemma_walk_prefix_reroute(g, e, p, i - 1);
            lemma_reaches_transitive(g2, p[0], p[i - 1], p[i]);
        }
    } else {
        lemma_edge_reaches(g2, p[i - 1], p[i]);
        if i > 1 {
            lemma_walk_prefix_reroute(g, e, p, i - 1);
            lemma_reaches_transitive(g2, p[0], p[i - 1], p[i]);
        }
    }
}

/// The greedy reduction: edges are examined in the order `order`, and each
/// is dropped when its target is still reachable from its source through
/// the remaining edges, and kept otherwise.
pub open spec fn reduce_steps(
    order: Seq<(Seq<char>, Seq<char>)>,
    g: Set<(Seq<char>, Seq<char>)>,
) -> Set<(Seq<char>, Seq<char>)>
    decreases order.len(),
{
    if order.len() == 0 {
        g
    } else {
        let e = order[0];
        let without = g.remove(e);
        reduce_steps(
            order.drop_first(),
            if reaches(without, e.0, e.1) {
                without
            } else {
                without.insert(e)
            },
        )
    }
}

/// The transitive reduction of the finite edge set `g`, with the edges
/// examined in sorted order.
pub open spec fn reduced(g: Set<(Seq<char>, Seq<char>)>) -> Set<(Seq<char>, Seq<char>)> {
    reduce_steps(sorted_edges_of(g), g)
}


/// An edge that is not examined survives the reduction.
pub proof fn lemma_reduce_keeps_unexamined(
    order: Seq<(Seq<char>, Seq<char>)>,
    g: Set<(Seq<char>, Seq<char>)>,
    e: (Seq<char>, Seq<char>),
)
    requires
        g.contains(e),
        !order.contains(e),
    ensures
        reduce_steps(order, g).contains(e),
    decreases order.len(),
{
    if order.len() > 0 {
        let f = order[0];
        assert(f != e);
        assert(!order.drop_first().contains(e)) by {
            if order.drop_first().contains(e) {
                let k = choose|k: int| 0 <= k < order.drop_first().len() && order.drop_first()[k] == e;
                assert(order[k + 1] == e);
            }
        }
        let without = g.remove(f);
        let next = if reaches(without, f.0, f.1) {
            without
        } else {
            without.insert(f)
        };
        lemma_reduce_keeps_unexamined(order.drop_first(), next, e);
    }
}

/// The examined edges of a duplicate-free order that lie in `g` still lie
/// in `g` once the first of them is dropped.
proof fn lemma_rest_in_graph(order: Seq<(Seq<char>, Seq<char>)>, g: Set<(Seq<char>, Seq<char>)>)
    requires
        order.len() > 0,
        order.no_duplicates(),
        forall|k: int| 0 <= k < order.len() ==> g.contains(#[trigger] order[k]),
    ensures
        order.drop_first().no_duplicates(),
        forall|k: int|
            0 <= k < order.drop_first().len() ==> g.remove(order[0]).contains(
                #[trigger] order.drop_first()[k],
            ),
        !order.drop_first().contains(order[0]),
{
    let rest = order.drop_first();
    assert forall|k: int| 0 <= k < rest.len() implies g.remove(order[0]).contains(#[trigger] rest[k]) by {
        assert(rest[k] == order[k + 1]);
        assert(order[k + 1] != order[0]);
    }
    assert forall|i: int, j: int| 0 <= i < rest.len() && 0 <= j < rest.len() && i != j implies rest[i]
        != rest[j] by {
        assert(rest[i] == order[i + 1] && rest[j] == order[j + 1]);
    }
    if rest.contains(order[0]) {
        let k = choose|k: int| 0 <= k < rest.len() && rest[k] == order[0];
        assert(order[k + 1] == order[0]);
    }
}

/// The reduction keeps only edges of `g`.
pub proof fn lemma_reduce_subset(order: Seq<(Seq<char>, Seq<char>)>, g: Set<(Seq<char>, Seq<char>)>)
    requires
        order.no_duplicates(),
        forall|k: int| 0 <= k < order.len() ==> g.contains(#[trigger] order[k]),
    ensures
        reduce_steps(order, g).subset_of(g),
    decreases order.len(),
{
    if order.len() > 0 {
        let e = order[0];
        lemma_rest_in_graph(order, g);
        let without = g.remove(e);
        if reaches(without, e.0, e.1) {
            lemma_reduce_subset(order.drop_first(), without);
        } else {
            assert(without.insert(e) =~= g);
            assert forall|k: int| 0 <= k < order.drop_first().len() implies g.contains(
                #[trigger] order.drop_first()[k],
            ) by {
                assert(without.contains(order.drop_first()[k]));
            }
            lemma_reduce_subset(order.drop_first(), g);
        }
    }
}

/// The reduction keeps reachability: `y` is reachable from `x` through the
/// reduced edges exactly when it is through the edges of `g`.
pub proof fn lemma_reduce_reachability(
    order: Seq<(Seq<char>, Seq<char>)>,
    g: Set<(Seq<char>, Seq<char>)>,
    x: Seq<char>,
    y: Seq<char>,
)
    requires
        order.no_duplicates(),
        forall|k: int| 0 <= k < order.len() ==> g.contains(#[trigger] order[k]),
    ensures
        reaches(reduce_steps(order, g), x, y) == reaches(g, x, y),
    decreases order.len(),
{
    if order.len() > 0 {
        let e = order[0];
        lemma_rest_in_graph(order, g);
        let without = g.remove(e);
        if reaches(without, e.0, e.1) {
            lemma_reduce_reachability(order.drop_first(), without, x, y);
            if reaches(g, x, y) {
                lemma_remove_redundant_edge(g, e, x, y);
            }
            if reaches(without, x, y) {
                lemma_reaches_monotone(without, g, x, y);
            }
        } else {
            assert(without.insert(e) =~= g);
            assert forall|k: int| 0 <= k < order.drop_first().len() implies g.contains(
                #[trigger] order.drop_first()[k],
            ) by {
                assert(without.contains(order.drop_first()[k]));
            }
            lemma_reduce_reachability(order.drop_first(), g, x, y);
        }
    }
}

/// Every edge that the reduction keeps and that was examined is needed:
/// without it, its target is no longer reachable from its source.
pub proof fn lemma_reduce_examined_edges_needed(
    order: Seq<(Seq<char>, Seq<char>)>,
    g: Set<(Seq<char>, Seq<char>)>,
    e: (Seq<char>, Seq<char>),
)
    requires
        order.no_duplicates(),
        forall|k: int| 0 <= k < order.len() ==> g.contains(#[trigger] order[k]),
        order.contains(e),
        reduce_steps(order, g).contains(e),
    ensures
        !reaches(reduce_steps(order, g).remove(e), e.0, e.1),
    decreases order.len(),
{
    let f = order[0];
    let rest = order.drop_first();
    lemma_rest_in_graph(order, g);
    let without = g.remove(f);
    let r = reduce_steps(order, g);
    if reaches(without, f.0, f.1) {
        if e == f {
            lemma_reduce_subset(rest, without);
            assert(!without.contains(e));
        } else {
            let k = choose|k: int| 0 <= k < order.len() && order[k] == e;
            assert(rest[k - 1] == e);
            lemma_reduce_examined_edges_needed(rest, without, e);
        }
    } else {
        assert(without.insert(f) =~= g);
        assert forall|k: int| 0 <= k < rest.len() implies g.contains(#[trigger] rest[k]) by {
            assert(without.contains(rest[k]));
        }
        if e == f {
            lemma_reduce_subset(rest, g);
            assert(r.remove(e).subset_of(without));
            if reaches(r.remove(e), e.0, e.1) {
                lemma_reaches_monotone(r.remove(e), without, e.0, e.1);
            }
        } else {
            let k = choose|k: int| 0 <= k < order.len() && order[k] == e;
            assert(rest[k - 1] == e);
            lemma_reduce_examined_edges_needed(rest, g, e);
        }
    }
}


/// The reduction keeps reachability: through the edges it keeps, a folder
/// reaches exactly the folders it reached through all the edges, whatever
/// order the edges are examined in.
pub proof fn reduction_keeps_reachability(
    order: Seq<(Seq<char>, Seq<char>)>,
    x: Seq<char>,
    y: Seq<char>,
)
    requires
        order.no_duplicates(),
    ensures
        reaches(reduce_steps(order, order.to_set()), x, y) == reaches(order.to_set(), x, y),
{
    lemma_reduce_reachability(order, order.to_set(), x, y);
}

/// The reduction only drops edges: it never adds one.
pub proof fn reduction_only_drops(order: Seq<(Seq<char>, Seq<char>)>)
    requires
        order.no_duplicates(),
    ensures
        reduce_steps(order, order.to_set()).subset_of(order.to_set()),
{
    lemma_reduce_subset(order, order.to_set());
}

/// The reduction leaves no redundant edge: dropping any edge it kept would
/// break reachability from its source to its target.
pub proof fn reduction_keeps_only_needed_edges(
    order: Seq<(Seq<char>, Seq<char>)>,
    e: (Seq<char>, Seq<char>),
)
    requires
        order.no_duplicates(),
        reduce_steps(order, order.to_set()).contains(e),
    ensures
        !reaches(reduce_steps(order, order.to_set()).remove(e), e.0, e.1),
{
    lemma_reduce_subset(order, order.to_set());
    lemma_reduce_examined_edges_needed(order, order.to_set(), e);
}

proof fn lemma_reduce_keeps_needed(
    order: Seq<(Seq<char>, Seq<char>)>,
    g: Set<(Seq<char>, Seq<char>)>,
    e: (Seq<char>, Seq<char>),
)
    requires
        order.no_duplicates(),
        forall|k: int| 0 <= k < order.len() ==> g.contains(#[trigger] order[k]),
        g.contains(e),
        !reaches(g.remove(e), e.0, e.1),
    ensures
        reduce_steps(order, g).contains(e),
    decreases order.len(),
{
    if order.len() > 0 {
        let f = order[0];
        let rest = order.drop_first();
        lemma_rest_in_graph(order, g);
        let without = g.remove(f);
        if f == e {
            assert(without.insert(f) =~= g);
            assert forall|k: int| 0 <= k < rest.len() implies g.contains(#[trigger] rest[k]) by {
                assert(without.contains(rest[k]));
            }
            lemma_reduce_keeps_unexamined(rest, g, e);
        } else if reaches(without, f.0, f.1) {
            if reaches(without.remove(e), e.0, e.1) {
                lemma_reaches_monotone(without.remove(e), g.remove(e), e.0, e.1);
            }
            lemma_reduce_keeps_needed(rest, without, e);
        } else {
            assert(without.insert(f) =~= g);
            assert forall|k: int| 0 <= k < rest.len() implies g.contains(#[trigger] rest[k]) by {
                assert(without.contains(rest[k]));
            }
            lemma_reduce_keeps_needed(rest, g, e);
        }
    }
}

/// The reduction keeps every edge that no other route replaces: an edge
/// whose target cannot be reached from its source through the other edges
/// always survives. A lone pair of opposite edges is therefore kept whole.
pub proof fn reduction_keeps_irreplaceable_edges(
    order: Seq<(Seq<char>, Seq<char>)>,
    e: (Seq<char>, Seq<char>),
)
    requires
        order.no_duplicates(),
        order.to_set().contains(e),
        !reaches(order.to_set().remove(e), e.0, e.1),
    ensures
        reduce_steps(order, order.to_set()).contains(e),
{
    lemma_reduce_keeps_needed(order, order.to_set(), e);
}

/// No folder of `g` reaches itself.
pub open spec fn acyclic(g: Set<(Seq<char>, Seq<char>)>) -> bool {
    forall|x: Seq<char>| !#[trigger] reaches(g, x, x)
}

/// A walk either avoids edge `e`, or runs from its start to `e`'s source
/// and from `e`'s target to its end.
proof fn lemma_walk_avoids_or_uses(
    g: Set<(Seq<char>, Seq<char>)>,
    e: (Seq<char>, Seq<char>),
    x: Seq<char>,
    y: Seq<char>,
)
    requires
        reaches(g, x, y),
    ensures
        reaches(g.remove(e), x, y) || (reaches_or_is(g, x, e.0) && reaches_or_is(g, e.1, y)),
{
    let p = choose|p: Seq<Seq<char>>| #[trigger] is_walk(g, p) && p[0] == x && p.last() == y;
    if exists|k: int| 0 <= k < p.len() - 1 && (#[trigger] p[k], p[k + 1]) == e {
        let k = choose|k: int| 0 <= k < p.len() - 1 && (#[trigger] p[k], p[k + 1]) == e;
        if k > 0 {
            let pre = p.take(k + 1);
            assert forall|i: int| 0 <= i < pre.len() - 1 implies #[trigger] g.contains(
                (pre[i], pre[i + 1]),
            ) by {
                assert(pre[i] == p[i] && pre[i + 1] == p[i + 1]);
            }
            assert(is_walk(g, pre) && pre[0] == x && pre.last() == e.0);
        }
        if k + 1 < p.len() - 1 {
            let post = p.skip(k + 1);
            assert forall|i: int| 0 <= i < post.len() - 1 implies #[trigger] g.contains(
                (post[i], post[i + 1]),
            ) by {
                assert(post[i] == p[k + 1 + i] && post[i + 1] == p[k + 1 + i + 1]);
            }
            assert(is_walk(g, post) && post[0] == e.1 && post.last() == y);
        }
    } else {
        let g2 = g.remove(e);
        assert forall|i: int| 0 <= i < p.len() - 1 implies #[trigger] g2.contains((p[i], p[i + 1])) by {
            assert(g.contains((p[i], p[i + 1])));
        }
        assert(is_walk(g2, p));
    }
}

/// On an acyclic graph, an edge that the reduction keeps has no other
/// route in the input graph.
proof fn lemma_acyclic_kept_irreplaceable(
    order: Seq<(Seq<char>, Seq<char>)>,
    e: (Seq<char>, Seq<char>),
)
    requires
        order.no_duplicates(),
        acyclic(order.to_set()),
        reduce_steps(order, order.to_set()).contains(e),
    ensures
        !reaches(order.to_set().remove(e), e.0, e.1),
{
    let g = order.to_set();
    let r = reduce_steps(order, g);
    let u = e.0;
    let v = e.1;
    reduction_keeps_only_needed_edges(order, e);
    lemma_reduce_subset(order, g);
    if reaches(g.remove(e), u, v) {
        let p = choose|p: Seq<Seq<char>>| #[trigger] is_walk(g.remove(e), p) && p[0] == u && p.last() == v;
        let w = p[1];
        let z: int = 0;
        assert(g.remove(e).contains((p[z], p[z + 1])));
        assert(w != v);
        lemma_edge_reaches(g, u, w);
        assert(u != w) by {
            if u == w {
                assert(reaches(g, u, u));
            }
        }
        assert(p.len() > 2);
        let q = p.drop_first();
        assert forall|i: int| 0 <= i < q.len() - 1 implies #[trigger] g.contains((q[i], q[i + 1])) by {
            let j = i + 1;
            assert(g.remove(e).contains((p[j], p[j + 1])));
            assert(q[i] == p[j] && q[i + 1] == p[j + 1]);
        }
        assert(is_walk(g, q) && q[0] == w && q.last() == v);
        lemma_reduce_reachability(order, g, u, w);
        lemma_reduce_reachability(order, g, w, v);
        lemma_walk_avoids_or_uses(r, e, u, w);
        lemma_walk_avoids_or_uses(r, e, w, v);
        if reaches(r.remove(e), u, w) && reaches(r.remove(e), w, v) {
            lemma_reaches_transitive(r.remove(e), u, w, v);
        } else if !reaches(r.remove(e), u, w) {
            lemma_reduce_reachability(order, g, v, w);
            lemma_reaches_transitive(g, v, w, v);
        } else {
            lemma_reduce_reachability(order, g, w, u);
            lemma_reaches_transitive(g, u, w, u);
        }
    }
}

/// On an acyclic graph the reduction keeps exactly the edges that no other
/// route replaces, whatever order the edges are examined in: the reduced
/// graph is the unique minimal graph with the reachability of the input.
pub proof fn reduction_of_acyclic_graph_is_unique(
    order: Seq<(Seq<char>, Seq<char>)>,
    e: (Seq<char>, Seq<char>),
)
    requires
        order.no_duplicates(),
        acyclic(order.to_set()),
    ensures
        reduce_steps(order, order.to_set()).contains(e) <==> (order.to_set().contains(e) && !reaches(
            order.to_set().remove(e),
            e.0,
            e.1,
        )),
{
    lemma_reduce_subset(order, order.to_set());
    if reduce_steps(order, order.to_set()).contains(e) {
        lemma_acyclic_kept_irreplaceable(order, e);
    }
    if order.to_set().contains(e) && !reaches(order.to_set().remove(e), e.0, e.1) {
        reduction_keeps_irreplaceable_edges(order, e);
    }
}

/// Two examination orders of the same acyclic edge set reduce it to the
/// same graph.
pub proof fn reduction_of_acyclic_graph_ignores_order(
    first: Seq<(Seq<char>, Seq<char>)>,
    second: Seq<(Seq<char>, Seq<char>)>,
)
    requires
        first.no_duplicates(),
        second.no_duplicates(),
        first.to_set() == second.to_set(),
        acyclic(first.to_set()),
    ensures
        reduce_steps(first, first.to_set()) == reduce_steps(second, second.to_set()),
{
    assert forall|e: (Seq<char>, Seq<char>)| #[trigger] reduce_steps(first, first.to_set()).contains(e)
        == reduce_steps(second, second.to_set()).contains(e) by {
        reduction_of_acyclic_graph_is_unique(first, e);
        reduction_of_acyclic_graph_is_unique(second, e);
    }
    assert(reduce_steps(first, first.to_set()) =~= reduce_steps(second, second.to_set()));
}

/// The number of `true` entries of `s`.
pub open spec fn count_true(s: Seq<bool>) -> nat
    decreases s.len(),
{
    if s.len() == 0 {
        0
    } else {
        count_true(s.drop_last()) + if s.last() {
            1nat
        } else {
            0nat
        }
    }
}

proof fn lemma_count_true_bound(s: Seq<bool>)
    ensures
        count_true(s) <= s.len(),
    decreases s.len(),
{
    if s.len() > 0 {
        lemma_count_true_bound(s.drop_last());
    }
}

proof fn lemma_count_true_set(s: Seq<bool>, j: int)
    requires
        0 <= j < s.len(),
        !s[j],
    ensures
        count_true(s.update(j, true)) == count_true(s) + 1,
    decreases s.len(),
{
    let t = s.update(j, true);
    if j < s.len() - 1 {
        assert(t.drop_last() == s.drop_last().update(j, true));
        lemma_count_true_set(s.drop_last(), j);
    } else {
        assert(t.drop_last() == s.drop_last());
    }
}

/// The edges of `edges` whose flag in `present` is set.
pub open spec fn present_edges(edges: Seq<(String, String)>, present: Seq<bool>) -> Set<
    (Seq<char>, Seq<char>),
> {
    Set::new(
        |e: (Seq<char>, Seq<char>)|
            exists|k: int|
                0 <= k < edges.len() && k < present.len() && #[trigger] present[k] && (
                edges[k].0@,
                edges[k].1@,
            ) == e,
    )
}

/// `x` is `y`, or reaches it.
pub open spec fn reaches_or_is(g: Set<(Seq<char>, Seq<char>)>, x: Seq<char>, y: Seq<char>) -> bool {
    x == y || reaches(g, x, y)
}

proof fn lemma_extend(g: Set<(Seq<char>, Seq<char>)>, x: Seq<char>, y: Seq<char>, z: Seq<char>)
    requires
        reaches_or_is(g, x, y),
        g.contains((y, z)),
    ensures
        reaches(g, x, z),
{
    lemma_edge_reaches(g, y, z);
    if x != y {
        lemma_reaches_transitive(g, x, y, z);
    }
}

/// The position of `name` in `names`, if it is there.
fn position_of(names: &Vec<String>, name: &String) -> (r: Option<usize>)
    ensures
        match r {
            Some(j) => j < names@.len() && names@[j as int]@ == name@,
            None => forall|j: int| 0 <= j < names@.len() ==> names@[j]@ != name@,
        },
{
    let n = names.len();
    for j in 0..n
        invariant
            n == names@.len(),
            forall|k: int| 0 <= k < j ==> names@[k]@ != name@,
    {
        if names[j] == *name {
            return Some(j);
        }
    }
    None
}

/// `names` holds a string equal to `x`.
pub open spec fn name_listed(names: Seq<String>, x: Seq<char>) -> bool {
    exists|j: int| 0 <= j < names.len() && #[trigger] names[j]@ == x
}

/// `start` and every folder that an edge of `edges` leads to.
fn reachable_candidates(edges: &Vec<(String, String)>, start: &String) -> (names: Vec<String>)
    ensures
        names@.len() >= 1,
        names@[0]@ == start@,
        forall|k: int| 0 <= k < edges@.len() ==> name_listed(names@, #[trigger] edges@[k].1@),
{
    let mut names: Vec<String> = Vec::new();
    names.push(start.clone());
    let n = edges.len();
    for k in 0..n
        invariant
            n == edges@.len(),
            names@.len() >= 1,
            names@[0]@ == start@,
            forall|m: int| 0 <= m < k ==> name_listed(names@, #[trigger] edges@[m].1@),
    {
        let ghost before = names@;
        match position_of(&names, &edges[k].1) {
            Some(j) => {
                assert(name_listed(names@, edges@[k as int].1@));
            },
            None => {
                names.push(edges[k].1.clone());
                assert(names@[names@.len() - 1]@ == edges@[k as int].1@);
                assert forall|m: int| 0 <= m < k + 1 implies name_listed(
                    names@,
                    #[trigger] edges@[m].1@,
                ) by {
                    if m < k {
                        let j = choose|j: int|
                            0 <= j < before.len() && #[trigger] before[j]@ == edges@[m].1@;
                        assert(names@[j] == before[j]);
                    } else {
                        assert(names@[names@.len() - 1]@ == edges@[m].1@);
                    }
                }
            },
        }
    }
    names
}


/// Some visited entry of `names` is `x`.
pub open spec fn visited_name(names: Seq<String>, visited: Seq<bool>, x: Seq<char>) -> bool {
    exists|j: int| 0 <= j < names.len() && j < visited.len() && visited[j] && #[trigger] names[j]@ == x
}

/// Every present edge out of `x` leads to a visited folder other than `target`.
pub open spec fn explored(
    edges: Seq<(String, String)>,
    present: Seq<bool>,
    names: Seq<String>,
    visited: Seq<bool>,
    x: Seq<char>,
    target: Seq<char>,
) -> bool {
    forall|k: int|
        0 <= k < edges.len() && k < present.len() && present[k] && #[trigger] edges[k].0@ == x
            ==> edges[k].1@ != target && visited_name(names, visited, edges[k].1@)
}

proof fn lemma_closed_set_misses_target(
    g: Set<(Seq<char>, Seq<char>)>,
    names: Seq<String>,
    visited: Seq<bool>,
    start: Seq<char>,
    target: Seq<char>,
)
    requires
        visited_name(names, visited, start),
        forall|x: Seq<char>, y: Seq<char>|
            #[trigger] g.contains((x, y)) && visited_name(names, visited, x) ==> y != target
                && visited_name(names, visited, y),
    ensures
        !reaches(g, start, target),
{
    if reaches(g, start, target) {
        let p = choose|p: Seq<Seq<char>>| #[trigger] is_walk(g, p) && p[0] == start && p.last() == target;
        assert forall|i: int| 0 <= i < p.len() implies visited_name(names, visited, #[trigger] p[i])
            && (i > 0 ==> p[i] != target) by {
            lemma_walk_stays_visited(g, names, visited, target, p, i);
        }
        assert(p[p.len() - 1] != target);
    }
}

proof fn lemma_walk_stays_visited(
    g: Set<(Seq<char>, Seq<char>)>,
    names: Seq<String>,
    visited: Seq<bool>,
    target: Seq<char>,
    p: Seq<Seq<char>>,
    i: int,
)
    requires
        is_walk(g, p),
        visited_name(names, visited, p[0]),
        forall|x: Seq<char>, y: Seq<char>|
            #[trigger] g.contains((x, y)) && visited_name(names, visited, x) ==> y != target
                && visited_name(names, visited, y),
        0 <= i < p.len(),
    ensures
        visited_name(names, visited, p[i]),
        i > 0 ==> p[i] != target,
    decreases i,
{
    if i > 0 {
        lemma_walk_stays_visited(g, names, visited, target, p, i - 1);
        let j = i - 1;
        assert(g.contains((p[j], p[j + 1])));
    }
}

/// Whether `target` is reachable from `start` through at least one of the
/// edges of `edges` whose flag in `present` is set: a depth-first search.
fn reachable_in(
    edges: &Vec<(String, String)>,
    present: &Vec<bool>,
    start: &String,
    target: &String,
) -> (r: bool)
    requires
        present@.len() == edges@.len(),
    ensures
        r == reaches(present_edges(edges@, present@), start@, target@),
{
    let ghost g = present_edges(edges@, present@);
    let names = reachable_candidates(edges, start);
    let nn = names.len();
    let ne = edges.len();
    let mut visited: Vec<bool> = Vec::new();
    visited.push(true);
    for i in 1..nn
        invariant
            i >= 1,
            visited@.len() == i,
            visited@[0],
            forall|j: int| 1 <= j < i ==> !visited@[j],
    {
        visited.push(false);
    }
    let mut stack: Vec<usize> = Vec::new();
    stack.push(0);
    proof {
        lemma_count_true_bound(visited@);
        assert(stack@[0] == 0);
        assert forall|j: int| 0 <= j < nn && #[trigger] visited@[j] implies j == 0 by {}
    }
    loop
        invariant
            nn == names@.len(),
            nn >= 1,
            ne == edges@.len() == present@.len(),
            g == present_edges(edges@, present@),
            names@[0]@ == start@,
            forall|k: int| 0 <= k < edges@.len() ==> name_listed(names@, #[trigger] edges@[k].1@),
            visited@.len() == nn,
            visited@[0],
            forall|j: int|
                0 <= j < nn && #[trigger] visited@[j] ==> reaches_or_is(g, start@, names@[j]@),
            forall|m: int|
                0 <= m < stack@.len() ==> #[trigger] stack@[m] < nn && visited@[stack@[m] as int],
            forall|j: int|
                0 <= j < nn && #[trigger] visited@[j] && !stack@.contains(j as usize) ==> explored(
                    edges@,
                    present@,
                    names@,
                    visited@,
                    names@[j]@,
                    target@,
                ),
        decreases nn - count_true(visited@), stack@.len(),
    {
        if stack.len() == 0 {
            proof {
                assert forall|x: Seq<char>, y: Seq<char>|
                    #[trigger] g.contains((x, y)) && visited_name(names@, visited@, x) implies y
                    != target@ && visited_name(names@, visited@, y) by {
                    let k = choose|k: int|
                        0 <= k < edges@.len() && k < present@.len() && #[trigger] present@[k] && (
                        edges@[k].0@,
                        edges@[k].1@,
                    ) == (x, y);
                    let j = choose|j: int|
                        0 <= j < names@.len() && j < visited@.len() && visited@[j]
                            && #[trigger] names@[j]@ == x;
                    assert(visited@[j]);
                    assert(edges@[k].0@ == names@[j]@);
                }
                assert(names@[0]@ == start@ && visited@[0]);
                lemma_closed_set_misses_target(g, names@, visited@, start@, target@);
            }
            return false;
        }
        let n = stack[stack.len() - 1];
        let ghost full_stack = stack@;
        stack.pop();
        proof {
            lemma_count_true_bound(visited@);
            assert(stack@ == full_stack.drop_last());
            assert forall|j: int|
                0 <= j < nn && #[trigger] visited@[j] && !stack@.contains(j as usize) && j != n
                    implies explored(edges@, present@, names@, visited@, names@[j]@, target@) by {
                if full_stack.contains(j as usize) {
                    let w = choose|w: int| 0 <= w < full_stack.len() && full_stack[w] == j as usize;
                    if w < full_stack.len() - 1 {
                        assert(stack@[w] == j as usize);
                    }
                }
            }
        }
        let ghost base = count_true(visited@);
        let ghost base_len = stack@.len();
        for k in 0..ne
            invariant
                nn == names@.len(),
                nn >= 1,
                ne == edges@.len() == present@.len(),
                g == present_edges(edges@, present@),
                names@[0]@ == start@,
                forall|k2: int|
                    0 <= k2 < edges@.len() ==> name_listed(names@, #[trigger] edges@[k2].1@),
                visited@.len() == nn,
                visited@[0],
                n < nn,
                visited@[n as int],
                forall|j: int|
                    0 <= j < nn && #[trigger] visited@[j] ==> reaches_or_is(g, start@, names@[j]@),
                forall|m: int|
                    0 <= m < stack@.len() ==> #[trigger] stack@[m] < nn && visited@[stack@[m] as int],
                forall|j: int|
                    0 <= j < nn && #[trigger] visited@[j] && !stack@.contains(j as usize) && j
                        != n ==> explored(edges@, present@, names@, visited@, names@[j]@, target@),
                forall|k2: int|
                    0 <= k2 < k && present@[k2] && #[trigger] edges@[k2].0@ == names@[n as int]@
                        ==> edges@[k2].1@ != target@ && visited_name(
                        names@,
                        visited@,
                        edges@[k2].1@,
                    ),
                count_true(visited@) >= base,
                stack@.len() + base == base_len + count_true(visited@),
                count_true(visited@) <= nn,
        {
            if present[k] && edges[k].0 == names[n] {
                proof {
                    assert(g.contains((names@[n as int]@, edges@[k as int].1@)));
                    lemma_extend(g, start@, names@[n as int]@, edges@[k as int].1@);
                }
                if edges[k].1 == *target {
                    return true;
                }
                match position_of(&names, &edges[k].1) {
                    Some(j) => {
                        if !visited[j] {
                            let ghost before = visited@;
                            let ghost old_stack = stack@;
                            proof {
                                lemma_count_true_set(visited@, j as int);
                            }
                            visited.set(j, true);
                            stack.push(j);
                            proof {
                                lemma_count_true_bound(visited@);
                                assert(stack@ == old_stack.push(j));
                                assert(stack@[stack@.len() - 1] == j);
                                assert(stack@.contains(j));
                                assert forall|jj: int|
                                    0 <= jj < nn && #[trigger] visited@[jj] && !stack@.contains(
                                        jj as usize,
                                    ) && jj != n implies explored(
                                    edges@,
                                    present@,
                                    names@,
                                    visited@,
                                    names@[jj]@,
                                    target@,
                                ) by {
                                    assert(jj != j);
                                    assert(before[jj]);
                                    if old_stack.contains(jj as usize) {
                                        let w = choose|w: int|
                                            0 <= w < old_stack.len() && old_stack[w] == jj as usize;
                                        assert(stack@[w] == jj as usize);
                                    }
                                    assert(explored(edges@, present@, names@, before, names@[jj]@, target@));
                                    assert forall|k3: int|
                                        0 <= k3 < edges@.len() && k3 < present@.len() && present@[k3]
                                            && #[trigger] edges@[k3].0@ == names@[jj]@ implies visited_name(
                                        names@,
                                        visited@,
                                        edges@[k3].1@,
                                    ) by {
                                        let w = choose|w: int|
                                            0 <= w < names@.len() && w < before.len() && before[w]
                                                && #[trigger] names@[w]@ == edges@[k3].1@;
                                        assert(visited@[w]);
                                    }
                                }
                                assert forall|k2: int|
                                    0 <= k2 < k + 1 && present@[k2] && #[trigger] edges@[k2].0@
                                        == names@[n as int]@ implies edges@[k2].1@ != target@
                                    && visited_name(names@, visited@, edges@[k2].1@) by {
                                    if k2 < k {
                                        let w = choose|w: int|
                                            0 <= w < names@.len() && w < before.len() && before[w]
                                                && #[trigger] names@[w]@ == edges@[k2].1@;
                                        assert(visited@[w]);
                                    } else {
                                        assert(visited@[j as int]);
                                    }
                                }
                            }
                        } else {
                            assert(visited_name(names@, visited@, edges@[k as int].1@));
                        }
                    },
                    None => {
                        proof {
                            assert(name_listed(names@, edges@[k as int].1@));
                        }
                        return false;
                    },
                }
            }
        }
        assert(explored(edges@, present@, names@, visited@, names@[n as int]@, target@));
    }
}


/// Every flag set.
fn all_present(n: usize) -> (present: Vec<bool>)
    ensures
        present@.len() == n,
        forall|k: int| 0 <= k < n ==> #[trigger] present@[k],
{
    let mut present: Vec<bool> = Vec::new();
    for i in 0..n
        invariant
            present@.len() == i,
            forall|k: int| 0 <= k < i ==> #[trigger] present@[k],
    {
        present.push(true);
    }
    present
}

proof fn lemma_all_present(edges: Seq<(String, String)>, present: Seq<bool>)
    requires
        present.len() == edges.len(),
        forall|k: int| 0 <= k < present.len() ==> #[trigger] present[k],
    ensures
        present_edges(edges, present) == edge_set(edges),
{
    assert forall|e| present_edges(edges, present).contains(e) implies edge_set(edges).contains(e) by {
        let k = choose|k: int|
            0 <= k < edges.len() && k < present.len() && #[trigger] present[k] && (
            edges[k].0@,
            edges[k].1@,
        ) == e;
        assert(pair_views(edges)[k] == e);
    }
    assert forall|e| edge_set(edges).contains(e) implies present_edges(edges, present).contains(e) by {
        let k = choose|k: int| 0 <= k < pair_views(edges).len() && pair_views(edges)[k] == e;
        assert(present[k]);
    }
    assert(present_edges(edges, present) =~= edge_set(edges));
}

/// Depth-first reachability: is `target` reachable from `start` through
/// at least one edge of `edges`?
pub fn is_reachable(edges: &Vec<(String, String)>, start: &str, target: &str) -> (r: bool)
    ensures
        r == reaches(edge_set(edges@), start@, target@),
{
    let present = all_present(edges.len());
    proof {
        lemma_all_present(edges@, present@);
    }
    let s = start.to_owned();
    let t = target.to_owned();
    reachable_in(edges, &present, &s, &t)
}

proof fn lemma_clear_flag(edges: Seq<(String, String)>, present: Seq<bool>, i: int)
    requires
        present.len() == edges.len(),
        0 <= i < edges.len(),
        present[i],
        pair_views(edges).no_duplicates(),
    ensures
        present_edges(edges, present.update(i, false)) == present_edges(edges, present).remove(
            pair_views(edges)[i],
        ),
        present_edges(edges, present).contains(pair_views(edges)[i]),
{
    let e = pair_views(edges)[i];
    let p2 = present.update(i, false);
    assert(present[i] && (edges[i].0@, edges[i].1@) == e);
    assert forall|x| present_edges(edges, p2).contains(x) implies present_edges(edges, present).remove(
        e,
    ).contains(x) by {
        let k = choose|k: int|
            0 <= k < edges.len() && k < p2.len() && #[trigger] p2[k] && (edges[k].0@, edges[k].1@) == x;
        assert(k != i);
        assert(present[k]);
        assert(pair_views(edges)[k] == x);
        assert(pair_views(edges)[i] == e);
    }
    assert forall|x| present_edges(edges, present).remove(e).contains(x) implies present_edges(
        edges,
        p2,
    ).contains(x) by {
        let k = choose|k: int|
            0 <= k < edges.len() && k < present.len() && #[trigger] present[k] && (
            edges[k].0@,
            edges[k].1@,
        ) == x;
        assert(k != i);
        assert(p2[k]);
    }
    assert(present_edges(edges, p2) =~= present_edges(edges, present).remove(e));
}

/// Applies a transitive reduction to a directed edge set: an edge `A -> B`
/// is dropped whenever `B` is still reachable from `A` through the remaining
/// edges. Edges are examined in sorted order, so the result is determined by
/// the set alone; in a graph with cycles, which edges of a cycle survive
/// depends on that order, but the result always keeps the reachability of
/// the input.
pub fn transitive_reduction(edges: &Vec<(String, String)>) -> (r: Vec<(String, String)>)
    ensures
        edges_sorted(pair_views(r@)),
        edge_set(r@) == reduced(edge_set(edges@)),
        edge_set(r@).subset_of(edge_set(edges@)),
        forall|x: Seq<char>, y: Seq<char>|
            reaches(edge_set(r@), x, y) == reaches(edge_set(edges@), x, y),
        forall|e: (Seq<char>, Seq<char>)|
            #[trigger] edge_set(r@).contains(e) ==> !reaches(edge_set(r@).remove(e), e.0, e.1),
        forall|e: (Seq<char>, Seq<char>)|
            #[trigger] edge_set(edges@).contains(e) && !reaches(edge_set(edges@).remove(e), e.0, e.1)
                ==> edge_set(r@).contains(e),
        acyclic(edge_set(edges@)) ==> forall|e: (Seq<char>, Seq<char>)|
            #[trigger] edge_set(r@).contains(e) <==> (edge_set(edges@).contains(e) && !reaches(
                edge_set(edges@).remove(e),
                e.0,
                e.1,
            )),
{
    let sorted = sort_edge_set(edges);
    let ghost order = pair_views(sorted@);
    proof {
        lemma_sorted_no_duplicates(order);
        lemma_sorted_edges_of(order, edge_set(edges@));
    }
    let n = sorted.len();
    let mut present = all_present(n);
    proof {
        lemma_all_present(sorted@, present@);
        assert(order.skip(0) == order);
    }
    for i in 0..n
        invariant
            n == sorted@.len(),
            order == pair_views(sorted@),
            order.no_duplicates(),
            present@.len() == n,
            forall|k: int| i <= k < n ==> #[trigger] present@[k],
            reduce_steps(order, order.to_set()) == reduce_steps(
                order.skip(i as int),
                present_edges(sorted@, present@),
            ),
    {
        let ghost cur = present_edges(sorted@, present@);
        let ghost orig = present@;
        let ghost e = order[i as int];
        proof {
            lemma_clear_flag(sorted@, present@, i as int);
            assert(order.skip(i as int)[0] == e);
            assert(order.skip(i as int).drop_first() == order.skip(i + 1));
        }
        present.set(i, false);
        let needed = !reachable_in(&sorted, &present, &sorted[i].0, &sorted[i].1);
        if needed {
            present.set(i, true);
            proof {
                assert(present@ =~= orig);
                assert(cur.remove(e).insert(e) =~= cur);
            }
            assert(present_edges(sorted@, present@) == cur);
        }
    }
    let mut out: Vec<(String, String)> = Vec::new();
    let ghost final_set = present_edges(sorted@, present@);
    assert(edge_set(out@) =~= kept_among(order, present@, 0));
    for k in 0..n
        invariant
            n == sorted@.len(),
            order == pair_views(sorted@),
            edges_sorted(order),
            present@.len() == n,
            edges_sorted(pair_views(out@)),
            forall|a: int| 0 <= a < out@.len() ==> among(order, k as int, #[trigger] pair_views(out@)[a]),
            edge_set(out@) == kept_among(order, present@, k as int),
    {
        if present[k] {
            let item = (sorted[k].0.clone(), sorted[k].1.clone());
            let ghost before = pair_views(out@);
            out.push(item);
            let ghost now = pair_views(out@);
            assert(now =~= before.push(order[k as int]));
            assert forall|a: int, b: int| 0 <= a < b < now.len() implies crate::edges::edge_lt(
                #[trigger] now[a],
                #[trigger] now[b],
            ) by {
                if b == now.len() - 1 {
                    assert(among(order, k as int, before[a]));
                    let c = choose|c: int| 0 <= c < k && order[c] == before[a];
                }
            }
            assert forall|a: int| 0 <= a < now.len() implies among(order, k + 1, #[trigger] now[a]) by {
                if a < before.len() {
                    assert(among(order, k as int, before[a]));
                    let c = choose|c: int| 0 <= c < k && order[c] == before[a];
                } else {
                    assert(now[a] == order[k as int]);
                }
            }
            proof {
                before.lemma_push_to_set_commute(order[k as int]);
            }
            assert(edge_set(out@) =~= kept_among(order, present@, k + 1)) by {
                assert forall|x| kept_among(order, present@, k + 1).contains(x) implies edge_set(
                    out@,
                ).contains(x) by {
                    let c = choose|c: int| 0 <= c < k + 1 && #[trigger] present@[c] && order[c] == x;
                    if c < k {
                        assert(kept_among(order, present@, k as int).contains(x));
                    }
                }
                assert forall|x| edge_set(out@).contains(x) implies kept_among(
                    order,
                    present@,
                    k + 1,
                ).contains(x) by {
                    if x != order[k as int] {
                        assert(kept_among(order, present@, k as int).contains(x));
                        let c = choose|c: int| 0 <= c < k && #[trigger] present@[c] && order[c] == x;
                    }
                }
            }
        } else {
            assert forall|a: int| 0 <= a < out@.len() implies among(
                order,
                k + 1,
                #[trigger] pair_views(out@)[a],
            ) by {
                assert(among(order, k as int, pair_views(out@)[a]));
                let c = choose|c: int| 0 <= c < k && order[c] == pair_views(out@)[a];
            }
            assert(edge_set(out@) =~= kept_among(order, present@, k + 1)) by {
                assert forall|x| kept_among(order, present@, k + 1).contains(x) implies kept_among(
                    order,
                    present@,
                    k as int,
                ).contains(x) by {
                    let c = choose|c: int| 0 <= c < k + 1 && #[trigger] present@[c] && order[c] == x;
                }
            }
        }
    }
    proof {
        assert(kept_among(order, present@, n as int) =~= final_set) by {
            assert forall|x| final_set.contains(x) implies kept_among(order, present@, n as int).contains(
                x,
            ) by {
                let c = choose|c: int|
                    0 <= c < sorted@.len() && c < present@.len() && #[trigger] present@[c] && (
                    sorted@[c].0@,
                    sorted@[c].1@,
                ) == x;
                assert(order[c] == x);
            }
            assert forall|x| kept_among(order, present@, n as int).contains(x) implies final_set.contains(
                x,
            ) by {
                let c = choose|c: int| 0 <= c < n && #[trigger] present@[c] && order[c] == x;
                assert(order[c] == (sorted@[c].0@, sorted@[c].1@));
            }
        }
        assert(order.skip(n as int) =~= Seq::<(Seq<char>, Seq<char>)>::empty());
        assert(reduce_steps(order.skip(n as int), final_set) == final_set);
        assert(order.to_set() == edge_set(edges@));
        reduction_only_drops(order);
        assert forall|x: Seq<char>, y: Seq<char>|
            reaches(edge_set(out@), x, y) == reaches(edge_set(edges@), x, y) by {
            reduction_keeps_reachability(order, x, y);
        }
        assert forall|e: (Seq<char>, Seq<char>)| #[trigger] edge_set(out@).contains(e) implies !reaches(
            edge_set(out@).remove(e),
            e.0,
            e.1,
        ) by {
            reduction_keeps_only_needed_edges(order, e);
        }
        assert forall|e: (Seq<char>, Seq<char>)|
            #[trigger] edge_set(edges@).contains(e) && !reaches(edge_set(edges@).remove(e), e.0, e.1)
                implies edge_set(out@).contains(e) by {
            reduction_keeps_irreplaceable_edges(order, e);
        }
        if acyclic(edge_set(edges@)) {
            assert forall|e: (Seq<char>, Seq<char>)| #[trigger] edge_set(out@).contains(e) <==> (edge_set(
                edges@,
            ).contains(e) && !reaches(edge_set(edges@).remove(e), e.0, e.1)) by {
                reduction_of_acyclic_graph_is_unique(order, e);
            }
        }
    }
    out
}

/// `x` is one of the first `k` edges of `order`.
pub open spec fn among(order: Seq<(Seq<char>, Seq<char>)>, k: int, x: (Seq<char>, Seq<char>)) -> bool {
    exists|c: int| 0 <= c < k && order[c] == x
}

/// The edges among the first `k` of `order` whose flag is set.
pub open spec fn kept_among(order: Seq<(Seq<char>, Seq<char>)>, present: Seq<bool>, k: int) -> Set<
    (Seq<char>, Seq<char>),
> {
    Set::new(|x: (Seq<char>, Seq<char>)| exists|c: int| 0 <= c < k && #[trigger] present[c] && order[c] == x)
}

} // verus!
