//! Rendering the folder tree and the edge set as a Graphviz `.dot` file.

use vstd::prelude::*;

use crate::edges::{
    common_ancestor_scope, contains_edge, edge_set, hierarchical_scopes_are_clusters,
    lemma_sorted_edges_exist, lemma_sorted_edges_of, pair_edge, pairs_edge_set, scope_of,
    sort_edge_set, sorted_edges_of, top_level_name, top_name, EdgeMode,
};
use crate::text::{
    chars_of, is_ascii_alnum, pair_views, push_char, replace_all, replace_chars, string_of,
    string_views,
};
use crate::tree::{
    has_cluster, height, lemma_max_height, max_height, node_has_cluster, well_formed_tree, FolderNode,
};

verus! {

/// `s` with each backslash doubled, and then each double quote escaped
/// with a backslash.
pub open spec fn escaped(s: Seq<char>) -> Seq<char> {
    replace_all(replace_all(s, seq!['\\'], seq!['\\', '\\']), seq!['"'], seq!['\\', '"'])
}

/// Escapes `s` for use inside a double-quoted Graphviz string.
pub fn escape(s: &str) -> (r: String)
    ensures
        r@ == escaped(s@),
{
    let cs = chars_of(s);
    let backslash: Vec<char> = vec!['\\'];
    let two_backslashes: Vec<char> = vec!['\\', '\\'];
    let quote: Vec<char> = vec!['"'];
    let escaped_quote: Vec<char> = vec!['\\', '"'];
    assert(backslash@ =~= seq!['\\']);
    assert(two_backslashes@ =~= seq!['\\', '\\']);
    assert(quote@ =~= seq!['"']);
    assert(escaped_quote@ =~= seq!['\\', '"']);
    let once = replace_chars(&cs, &backslash, &two_backslashes);
    let twice = replace_chars(&once, &quote, &escaped_quote);
    string_of(&twice)
}

/// The character that stands for `c` in a cluster identifier.
pub open spec fn id_char(c: char) -> char {
    if is_ascii_alnum(c) {
        c
    } else {
        '_'
    }
}

/// `s` with every character that is not an ASCII letter or digit replaced
/// by `'_'`.
pub open spec fn sanitized(s: Seq<char>) -> Seq<char> {
    s.map_values(|c: char| id_char(c))
}

/// Sanitizes a folder id into a valid Graphviz cluster identifier (letters,
/// digits and underscores only).
pub fn sanitize_id(s: &str) -> (r: String)
    ensures
        r@ == sanitized(s@),
{
    let cs = chars_of(s);
    let mut out = String::new();
    let n = cs.len();
    for i in 0..n
        invariant
            n == cs@.len(),
            cs@ == s@,
            out@ == sanitized(s@).take(i as int),
    {
        let c = cs[i];
        let alnum = ('a' <= c && c <= 'z') || ('A' <= c && c <= 'Z') || ('0' <= c && c <= '9');
        if alnum {
            push_char(&mut out, c);
        } else {
            push_char(&mut out, '_');
        }
        assert(sanitized(s@).take(i + 1) =~= sanitized(s@).take(i as int).push(id_char(c)));
    }
    assert(sanitized(s@).take(n as int) =~= sanitized(s@));
    out
}

/// The indentation of nesting depth `indent`: four spaces per level.
pub open spec fn pad(indent: nat) -> Seq<char>
    decreases indent,
{
    if indent == 0 {
        Seq::empty()
    } else {
        pad((indent - 1) as nat) + "    "@
    }
}

/// Appends the indentation of depth `indent` to `out`.
fn push_pad(out: &mut String, indent: usize)
    ensures
        final(out)@ == old(out)@ + pad(indent as nat),
{
    let mut i: usize = 0;
    assert(old(out)@ + pad(0) =~= old(out)@);
    while i < indent
        invariant
            i <= indent,
            out@ == old(out)@ + pad(i as nat),
        decreases indent - i,
    {
        let ghost before = out@;
        out.append("    ");
        assert(pad((i + 1) as nat) == pad(i as nat) + "    "@);
        assert(before + "    "@ =~= old(out)@ + pad((i + 1) as nat));
        i = i + 1;
    }
}

/// There is a top-level folder named `name` that is broken out into a
/// cluster.
pub open spec fn exploded_top(name: Seq<char>, tree: Seq<FolderNode>) -> bool {
    exists|i: int| 0 <= i < tree.len() && #[trigger] tree[i].name@ == name && tree[i].children@.len() > 0
}

/// Whether the top-level folder `name` is exploded into a cluster, and so
/// has a `cluster_<name>` that an edge can be clipped to.
pub fn is_exploded_top_level(name: &str, tree: &[FolderNode]) -> (r: bool)
    ensures
        r == exploded_top(name@, tree@),
{
    let owned = name.to_owned();
    let n = tree.len();
    for i in 0..n
        invariant
            n == tree@.len(),
            owned@ == name@,
            forall|k: int| 0 <= k < i ==> !(#[trigger] tree@[k].name@ == name@ && tree@[k].children@.len() > 0),
    {
        if tree[i].name == owned && tree[i].children.len() > 0 {
            return true;
        }
    }
    false
}

/// The extra attributes of an edge between two different top-level folders
/// of which at least one is a cluster: `minlen=0`, then `ltail` and `lhead`
/// naming the clustered sides' top-level clusters.
pub open spec fn cluster_attrs(a: Seq<char>, b: Seq<char>, tree: Seq<FolderNode>) -> Option<
    Seq<Seq<char>>,
> {
    let ta = top_name(a);
    let tb = top_name(b);
    if ta == tb {
        None
    } else {
        let xa = exploded_top(ta, tree);
        let xb = exploded_top(tb, tree);
        if !xa && !xb {
            None
        } else {
            Some(
                seq!["minlen=0"@] + (if xa {
                    seq!["ltail=\"cluster_"@ + sanitized(ta) + "\""@]
                } else {
                    Seq::empty()
                }) + (if xb {
                    seq!["lhead=\"cluster_"@ + sanitized(tb) + "\""@]
                } else {
                    Seq::empty()
                }),
            )
        }
    }
}

/// `prefix`, then `id`, then a closing double quote.
fn quoted_attr(prefix: &str, id: &str) -> (r: String)
    ensures
        r@ == prefix@ + sanitized(id@) + "\""@,
{
    let mut s = prefix.to_owned();
    let cleaned = sanitize_id(id);
    s.append(cleaned.as_str());
    s.append("\"");
    s
}

/// Extra attributes for an edge that crosses between two different
/// top-level folders where at least one side is a cluster; `None` when both
/// ends share their top-level folder, or neither side is a cluster.
pub fn cross_cluster_attrs(a: &str, b: &str, tree: &[FolderNode]) -> (r: Option<Vec<String>>)
    ensures
        match r {
            Some(v) => cluster_attrs(a@, b@, tree@) == Some(string_views(v@)),
            None => cluster_attrs(a@, b@, tree@) is None,
        },
{
    let ta = top_level_name(a);
    let tb = top_level_name(b);
    let ta_owned = ta.to_owned();
    let tb_owned = tb.to_owned();
    if ta_owned == tb_owned {
        return None;
    }
    let ta_exploded = is_exploded_top_level(ta, tree);
    let tb_exploded = is_exploded_top_level(tb, tree);
    if !ta_exploded && !tb_exploded {
        return None;
    }
    let mut attrs: Vec<String> = Vec::new();
    attrs.push("minlen=0".to_owned());
    let ghost first = string_views(attrs@);
    assert(first =~= seq!["minlen=0"@]);
    if ta_exploded {
        let s = quoted_attr("ltail=\"cluster_", ta);
        let ghost before = string_views(attrs@);
        let ghost sv = s@;
        attrs.push(s);
        assert(string_views(attrs@) =~= before.push(sv));
    }
    let ghost mid = string_views(attrs@);
    if tb_exploded {
        let s = quoted_attr("lhead=\"cluster_", tb);
        let ghost sv = s@;
        attrs.push(s);
        assert(string_views(attrs@) =~= mid.push(sv));
    }
    assert(string_views(attrs@) =~= seq!["minlen=0"@] + (if ta_exploded {
        seq!["ltail=\"cluster_"@ + sanitized(ta@) + "\""@]
    } else {
        Seq::empty()
    }) + (if tb_exploded {
        seq!["lhead=\"cluster_"@ + sanitized(tb@) + "\""@]
    } else {
        Seq::empty()
    }));
    Some(attrs)
}


/// The characters of an optional string.
pub open spec fn opt_view(o: Option<String>) -> Option<Seq<char>> {
    match o {
        Some(s) => Some(s@),
        None => None,
    }
}

/// The folder whose cluster encloses edge `e` in the rendered file: the top
/// level in `Flat` mode, the deepest common ancestor in `Hierarchical` mode.
pub open spec fn edge_scope(e: (Seq<char>, Seq<char>), mode: EdgeMode) -> Option<Seq<char>> {
    match mode {
        EdgeMode::Flat => None,
        EdgeMode::Hierarchical => scope_of(e.0, e.1),
    }
}

/// The edges of `all` that are placed in scope `s`.
pub open spec fn scoped_edges(
    all: Set<(Seq<char>, Seq<char>)>,
    mode: EdgeMode,
    s: Option<Seq<char>>,
) -> Set<(Seq<char>, Seq<char>)> {
    all.filter(|e: (Seq<char>, Seq<char>)| edge_scope(e, mode) == s)
}

/// The edges of the group of scope `s` in `groups`, none when there is no
/// such group.
pub open spec fn group_lookup(groups: Seq<(Option<String>, Vec<(String, String)>)>, s: Option<Seq<char>>) -> Set<
    (Seq<char>, Seq<char>),
> {
    if exists|a: int| 0 <= a < groups.len() && #[trigger] opt_view(groups[a].0) == s {
        let a = choose|a: int| 0 <= a < groups.len() && #[trigger] opt_view(groups[a].0) == s;
        edge_set(groups[a].1@)
    } else {
        Set::empty()
    }
}

/// The scopes of `groups` are all different.
pub open spec fn distinct_scopes(groups: Seq<(Option<String>, Vec<(String, String)>)>) -> bool {
    forall|a: int, b: int|
        0 <= a < groups.len() && 0 <= b < groups.len() && a != b ==> opt_view(
            #[trigger] groups[a].0,
        ) != opt_view(#[trigger] groups[b].0)
}

/// The position of the group of scope `scope`.
fn find_group(groups: &Vec<(Option<String>, Vec<(String, String)>)>, scope: &Option<String>) -> (r:
    Option<usize>)
    ensures
        match r {
            Some(a) => a < groups@.len() && opt_view(groups@[a as int].0) == opt_view(*scope),
            None => forall|a: int|
                0 <= a < groups@.len() ==> #[trigger] opt_view(groups@[a].0) != opt_view(*scope),
        },
{
    let n = groups.len();
    for a in 0..n
        invariant
            n == groups@.len(),
            forall|k: int| 0 <= k < a ==> #[trigger] opt_view(groups@[k].0) != opt_view(*scope),
    {
        let same = match (&groups[a].0, scope) {
            (Some(x), Some(y)) => *x == *y,
            (None, None) => true,
            _ => false,
        };
        if same {
            return Some(a);
        }
    }
    None
}

/// The scope of the edge `a -> b` under `mode`.
fn edge_scope_of(a: &String, b: &String, mode: EdgeMode) -> (r: Option<String>)
    ensures
        opt_view(r) == edge_scope((a@, b@), mode),
{
    match mode {
        EdgeMode::Flat => None,
        EdgeMode::Hierarchical => common_ancestor_scope(a.as_str(), b.as_str()),
    }
}

/// Every edge of every group has that group's scope and is a member.
pub open spec fn groups_sound(
    groups: Seq<(Option<String>, Vec<(String, String)>)>,
    members: Set<(Seq<char>, Seq<char>)>,
    mode: EdgeMode,
) -> bool {
    forall|a: int, x: (Seq<char>, Seq<char>)|
        0 <= a < groups.len() && #[trigger] edge_set(groups[a].1@).contains(x) ==> edge_scope(
            x,
            mode,
        ) == opt_view(groups[a].0) && members.contains(x)
}

/// Edge `x` lies in the group of its scope.
pub open spec fn grouped(
    groups: Seq<(Option<String>, Vec<(String, String)>)>,
    x: (Seq<char>, Seq<char>),
    mode: EdgeMode,
) -> bool {
    exists|a: int|
        0 <= a < groups.len() && opt_view(groups[a].0) == edge_scope(x, mode) && #[trigger] edge_set(
            groups[a].1@,
        ).contains(x)
}

/// Every member lies in the group of its scope.
pub open spec fn groups_complete(
    groups: Seq<(Option<String>, Vec<(String, String)>)>,
    members: Set<(Seq<char>, Seq<char>)>,
    mode: EdgeMode,
) -> bool {
    forall|x: (Seq<char>, Seq<char>)| #[trigger] members.contains(x) ==> grouped(groups, x, mode)
}

proof fn lemma_add_to_group(
    old_groups: Seq<(Option<String>, Vec<(String, String)>)>,
    groups: Seq<(Option<String>, Vec<(String, String)>)>,
    members: Set<(Seq<char>, Seq<char>)>,
    mode: EdgeMode,
    idx: int,
    x: (Seq<char>, Seq<char>),
)
    requires
        0 <= idx < old_groups.len(),
        groups.len() == old_groups.len(),
        forall|a: int| 0 <= a < groups.len() && a != idx ==> groups[a] == old_groups[a],
        groups[idx].0 == old_groups[idx].0,
        edge_set(groups[idx].1@) == edge_set(old_groups[idx].1@).insert(x),
        opt_view(groups[idx].0) == edge_scope(x, mode),
        distinct_scopes(old_groups),
        groups_sound(old_groups, members, mode),
        groups_complete(old_groups, members, mode),
    ensures
        distinct_scopes(groups),
        groups_sound(groups, members.insert(x), mode),
        groups_complete(groups, members.insert(x), mode),
{
    assert forall|a: int, b: int|
        0 <= a < groups.len() && 0 <= b < groups.len() && a != b implies opt_view(
            #[trigger] groups[a].0,
        ) != opt_view(#[trigger] groups[b].0) by {
        assert(groups[a].0 == old_groups[a].0);
        assert(groups[b].0 == old_groups[b].0);
    }
    assert forall|a: int, y: (Seq<char>, Seq<char>)|
        0 <= a < groups.len() && #[trigger] edge_set(groups[a].1@).contains(y) implies edge_scope(
            y,
            mode,
        ) == opt_view(groups[a].0) && members.insert(x).contains(y) by {
        if a != idx {
            assert(groups[a] == old_groups[a]);
        } else if y != x {
            assert(edge_set(old_groups[a].1@).contains(y));
        }
    }
    assert forall|y: (Seq<char>, Seq<char>)| #[trigger] members.insert(x).contains(y) implies grouped(
        groups,
        y,
        mode,
    ) by {
        if y == x {
            assert(edge_set(groups[idx].1@).contains(y));
        } else {
            assert(members.contains(y));
            assert(grouped(old_groups, y, mode));
            let a = choose|a: int|
                0 <= a < old_groups.len() && opt_view(old_groups[a].0) == edge_scope(y, mode)
                    && #[trigger] edge_set(old_groups[a].1@).contains(y);
            if a == idx {
                assert(edge_set(groups[a].1@).contains(y));
            } else {
                assert(groups[a] == old_groups[a]);
                assert(edge_set(groups[a].1@).contains(y));
            }
        }
    }
}

proof fn lemma_new_group(
    old_groups: Seq<(Option<String>, Vec<(String, String)>)>,
    groups: Seq<(Option<String>, Vec<(String, String)>)>,
    members: Set<(Seq<char>, Seq<char>)>,
    mode: EdgeMode,
    x: (Seq<char>, Seq<char>),
)
    requires
        groups.len() == old_groups.len() + 1,
        forall|a: int| 0 <= a < old_groups.len() ==> groups[a] == old_groups[a],
        edge_set(groups.last().1@) == Set::<(Seq<char>, Seq<char>)>::empty().insert(x),
        opt_view(groups.last().0) == edge_scope(x, mode),
        forall|a: int| 0 <= a < old_groups.len() ==> #[trigger] opt_view(old_groups[a].0) != edge_scope(x, mode),
        distinct_scopes(old_groups),
        groups_sound(old_groups, members, mode),
        groups_complete(old_groups, members, mode),
    ensures
        distinct_scopes(groups),
        groups_sound(groups, members.insert(x), mode),
        groups_complete(groups, members.insert(x), mode),
{
    let last = groups.len() - 1;
    assert forall|a: int, b: int|
        0 <= a < groups.len() && 0 <= b < groups.len() && a != b implies opt_view(
            #[trigger] groups[a].0,
        ) != opt_view(#[trigger] groups[b].0) by {
        if a < last {
            assert(groups[a] == old_groups[a]);
        }
        if b < last {
            assert(groups[b] == old_groups[b]);
        }
    }
    assert forall|a: int, y: (Seq<char>, Seq<char>)|
        0 <= a < groups.len() && #[trigger] edge_set(groups[a].1@).contains(y) implies edge_scope(
            y,
            mode,
        ) == opt_view(groups[a].0) && members.insert(x).contains(y) by {
        if a < last {
            assert(groups[a] == old_groups[a]);
        } else {
            assert(y == x);
        }
    }
    assert forall|y: (Seq<char>, Seq<char>)| #[trigger] members.insert(x).contains(y) implies grouped(
        groups,
        y,
        mode,
    ) by {
        if y == x {
            assert(edge_set(groups[last].1@).contains(y));
        } else {
            assert(members.contains(y));
            assert(grouped(old_groups, y, mode));
            let a = choose|a: int|
                0 <= a < old_groups.len() && opt_view(old_groups[a].0) == edge_scope(y, mode)
                    && #[trigger] edge_set(old_groups[a].1@).contains(y);
            assert(groups[a] == old_groups[a]);
            assert(edge_set(groups[a].1@).contains(y));
        }
    }
}

/// Groups edges by the folder that should enclose them in the rendered
/// file: every edge at the top level in `Flat` mode; in `Hierarchical`
/// mode, under the deepest common ancestor of its two ends. Each edge lies
/// in the one group of its scope; no group is empty, and no group lists an
/// edge twice when `edges` lists none twice.
pub fn group_edges_by_scope(edges: &Vec<(String, String)>, mode: EdgeMode) -> (r: Vec<
    (Option<String>, Vec<(String, String)>),
>)
    ensures
        distinct_scopes(r@),
        forall|s: Option<Seq<char>>|
            #[trigger] group_lookup(r@, s) == scoped_edges(edge_set(edges@), mode, s),
        forall|k: int, x: (Seq<char>, Seq<char>)|
            0 <= k < r@.len() && #[trigger] edge_set(r@[k].1@).contains(x) ==> opt_view(r@[k].0)
                == edge_scope(x, mode),
        forall|k: int| 0 <= k < r@.len() ==> #[trigger] r@[k].1@.len() > 0,
        pair_views(edges@).no_duplicates() ==> forall|k: int|
            0 <= k < r@.len() ==> pair_views(#[trigger] r@[k].1@).no_duplicates(),
{
    let mut groups: Vec<(Option<String>, Vec<(String, String)>)> = Vec::new();
    let n = edges.len();
    let ghost ev = pair_views(edges@);
    assert(ev.take(0).to_set() =~= Set::empty());
    for i in 0..n
        invariant
            n == edges@.len(),
            ev == pair_views(edges@),
            distinct_scopes(groups@),
            groups_sound(groups@, ev.take(i as int).to_set(), mode),
            groups_complete(groups@, ev.take(i as int).to_set(), mode),
            forall|k: int| 0 <= k < groups@.len() ==> #[trigger] groups@[k].1@.len() > 0,
            ev.no_duplicates() ==> forall|k: int|
                0 <= k < groups@.len() ==> pair_views(#[trigger] groups@[k].1@).no_duplicates(),
    {
        let scope = edge_scope_of(&edges[i].0, &edges[i].1, mode);
        let e = (edges[i].0.clone(), edges[i].1.clone());
        let ghost x = ev[i as int];
        assert((e.0@, e.1@) == x);
        let ghost old_groups = groups@;
        assert(ev.take(i + 1) =~= ev.take(i as int).push(x));
        proof {
            ev.take(i as int).lemma_push_to_set_commute(x);
        }
        match find_group(&groups, &scope) {
            Some(idx) => {
                let mut g = groups.remove(idx);
                let ghost old_members = pair_views(g.1@);
                assert(g == old_groups[idx as int]);
                g.1.push(e);
                assert(pair_views(g.1@) =~= old_members.push(x));
                proof {
                    old_members.lemma_push_to_set_commute(x);
                    if ev.no_duplicates() {
                        assert(old_members.no_duplicates());
                        assert(!old_members.contains(x)) by {
                            if old_members.contains(x) {
                                assert(edge_set(old_groups[idx as int].1@).contains(x));
                                assert(ev.take(i as int).to_set().contains(x));
                                let j = choose|j: int| 0 <= j < i && ev.take(i as int)[j] == x;
                                assert(ev[j] == ev[i as int]);
                            }
                        }
                        assert(old_members.push(x).no_duplicates()) by {
                            let nm = old_members.push(x);
                            assert forall|a: int, b: int|
                                0 <= a < nm.len() && 0 <= b < nm.len() && a != b implies nm[a] != nm[b] by {
                                if a < old_members.len() && b < old_members.len() {
                                    assert(nm[a] == old_members[a] && nm[b] == old_members[b]);
                                } else if a < old_members.len() {
                                    assert(nm[a] == old_members[a]);
                                } else if b < old_members.len() {
                                    assert(nm[b] == old_members[b]);
                                }
                            }
                        }
                    }
                }
                groups.insert(idx, g);
                proof {
                    lemma_add_to_group(old_groups, groups@, ev.take(i as int).to_set(), mode, idx as int, x);
                    assert forall|k: int| 0 <= k < groups@.len() implies #[trigger] groups@[k].1@.len() > 0 by {
                        if k != idx {
                            assert(groups@[k] == old_groups[k]);
                        }
                    }
                    if ev.no_duplicates() {
                        assert forall|k: int| 0 <= k < groups@.len() implies pair_views(
                            #[trigger] groups@[k].1@,
                        ).no_duplicates() by {
                            if k != idx {
                                assert(groups@[k] == old_groups[k]);
                            }
                        }
                    }
                }
            },
            None => {
                let mut members: Vec<(String, String)> = Vec::new();
                members.push(e);
                assert(pair_views(members@) =~= seq![x]);
                assert(seq![x].to_set() =~= Set::empty().insert(x)) by {
                    Seq::<(Seq<char>, Seq<char>)>::empty().lemma_push_to_set_commute(x);
                    assert(Seq::<(Seq<char>, Seq<char>)>::empty().push(x) == seq![x]);
                    assert(Seq::<(Seq<char>, Seq<char>)>::empty().to_set() =~= Set::empty());
                }
                groups.push((scope, members));
                proof {
                    lemma_new_group(old_groups, groups@, ev.take(i as int).to_set(), mode, x);
                    assert forall|k: int| 0 <= k < groups@.len() implies #[trigger] groups@[k].1@.len() > 0 by {
                        if k < old_groups.len() {
                            assert(groups@[k] == old_groups[k]);
                        }
                    }
                    if ev.no_duplicates() {
                        assert forall|k: int| 0 <= k < groups@.len() implies pair_views(
                            #[trigger] groups@[k].1@,
                        ).no_duplicates() by {
                            if k < old_groups.len() {
                                assert(groups@[k] == old_groups[k]);
                            } else {
                                assert(pair_views(groups@[k].1@) == seq![x]);
                            }
                        }
                    }
                }
            },
        }
    }
    assert(ev.take(n as int) =~= ev);
    assert forall|s: Option<Seq<char>>| #[trigger] group_lookup(groups@, s) == scoped_edges(
        edge_set(edges@),
        mode,
        s,
    ) by {
        lemma_group_lookup(groups@, ev, mode, s);
    }
    groups
}

proof fn lemma_group_lookup(
    groups: Seq<(Option<String>, Vec<(String, String)>)>,
    ev: Seq<(Seq<char>, Seq<char>)>,
    mode: EdgeMode,
    s: Option<Seq<char>>,
)
    requires
        distinct_scopes(groups),
        groups_sound(groups, ev.to_set(), mode),
        groups_complete(groups, ev.to_set(), mode),
    ensures
        group_lookup(groups, s) == scoped_edges(ev.to_set(), mode, s),
{
    let target = scoped_edges(ev.to_set(), mode, s);
    if exists|a: int| 0 <= a < groups.len() && #[trigger] opt_view(groups[a].0) == s {
        let a = choose|a: int| 0 <= a < groups.len() && #[trigger] opt_view(groups[a].0) == s;
        assert forall|x| edge_set(groups[a].1@).contains(x) implies target.contains(x) by {}
        assert forall|x| target.contains(x) implies edge_set(groups[a].1@).contains(x) by {
            assert(ev.to_set().contains(x));
            assert(grouped(groups, x, mode));
            let b = choose|b: int|
                0 <= b < groups.len() && opt_view(groups[b].0) == edge_scope(x, mode)
                    && #[trigger] edge_set(groups[b].1@).contains(x);
            assert(b == a);
        }
        assert(edge_set(groups[a].1@) =~= target);
    } else {
        assert forall|x| !target.contains(x) by {
            if target.contains(x) {
                assert(ev.to_set().contains(x));
                assert(grouped(groups, x, mode));
                let b = choose|b: int|
                    0 <= b < groups.len() && opt_view(groups[b].0) == edge_scope(x, mode)
                        && #[trigger] edge_set(groups[b].1@).contains(x);
                assert(opt_view(groups[b].0) == s);
            }
        }
        assert(target =~= Set::empty());
    }
}


/// The pieces of `parts` joined with `sep` between them.
pub open spec fn join_str(parts: Seq<Seq<char>>, sep: Seq<char>) -> Seq<char>
    decreases parts.len(),
{
    if parts.len() == 0 {
        Seq::empty()
    } else if parts.len() == 1 {
        parts[0]
    } else {
        join_str(parts.drop_last(), sep) + sep + parts.last()
    }
}

/// The strings of `parts` joined with `sep` between them.
fn join_strings(parts: &Vec<String>, sep: &str) -> (r: String)
    ensures
        r@ == join_str(string_views(parts@), sep@),
{
    let mut out = String::new();
    let n = parts.len();
    let ghost pv = string_views(parts@);
    for i in 0..n
        invariant
            n == parts@.len(),
            pv == string_views(parts@),
            out@ == join_str(pv.take(i as int), sep@),
    {
        let ghost t = pv.take(i + 1);
        assert(t.drop_last() =~= pv.take(i as int));
        assert(t.last() == parts@[i as int]@);
        if i > 0 {
            out.append(sep);
        } else {
            assert(t =~= seq![parts@[0]@]);
            assert(out@ =~= Seq::<char>::empty());
        }
        out.append(parts[i].as_str());
    }
    assert(pv.take(n as int) =~= pv);
    out
}

/// The attributes of the edge `e`: red and two-headed when the reverse edge
/// exists too, then the attributes that clip it to cluster boundaries.
pub open spec fn edge_attrs(
    e: (Seq<char>, Seq<char>),
    all: Set<(Seq<char>, Seq<char>)>,
    tree: Seq<FolderNode>,
) -> Seq<Seq<char>> {
    (if all.contains((e.1, e.0)) {
        seq!["color=red"@, "dir=both"@]
    } else {
        Seq::empty()
    }) + match cluster_attrs(e.0, e.1, tree) {
        Some(v) => v,
        None => Seq::empty(),
    }
}

/// The declaration of edge `e` in the rendered file.
pub open spec fn edge_line(
    e: (Seq<char>, Seq<char>),
    all: Set<(Seq<char>, Seq<char>)>,
    tree: Seq<FolderNode>,
    indent: nat,
) -> Seq<char> {
    let attrs = edge_attrs(e, all, tree);
    pad(indent) + "\""@ + escaped(e.0) + "\" -> \""@ + escaped(e.1) + "\""@ + (if attrs.len() == 0 {
        Seq::empty()
    } else {
        " ["@ + join_str(attrs, ", "@) + "]"@
    }) + ";\n"@
}

/// Renders the edges `sorted` in order, given the edges already `drawn`: an
/// edge whose pair is drawn is skipped; an edge whose reverse exists too is
/// drawn once for both. Gives the edges drawn afterwards and the text.
pub open spec fn edges_text(
    sorted: Seq<(Seq<char>, Seq<char>)>,
    all: Set<(Seq<char>, Seq<char>)>,
    tree: Seq<FolderNode>,
    drawn: Set<(Seq<char>, Seq<char>)>,
    indent: nat,
) -> (Set<(Seq<char>, Seq<char>)>, Seq<char>)
    decreases sorted.len(),
{
    if sorted.len() == 0 {
        (drawn, Seq::empty())
    } else {
        let prev = edges_text(sorted.drop_last(), all, tree, drawn, indent);
        let e = sorted.last();
        let rev = (e.1, e.0);
        if prev.0.contains(e) || prev.0.contains(rev) {
            prev
        } else {
            let now = if all.contains(rev) {
                prev.0.insert(e).insert(rev)
            } else {
                prev.0.insert(e)
            };
            (now, prev.1 + edge_line(e, all, tree, indent))
        }
    }
}

/// The edges, in order, whose declarations `edges_text` writes.
pub open spec fn drawn_lines(
    sorted: Seq<(Seq<char>, Seq<char>)>,
    all: Set<(Seq<char>, Seq<char>)>,
    tree: Seq<FolderNode>,
    drawn: Set<(Seq<char>, Seq<char>)>,
    indent: nat,
) -> Seq<(Seq<char>, Seq<char>)>
    decreases sorted.len(),
{
    if sorted.len() == 0 {
        Seq::empty()
    } else {
        let prev = edges_text(sorted.drop_last(), all, tree, drawn, indent);
        let e = sorted.last();
        let before = drawn_lines(sorted.drop_last(), all, tree, drawn, indent);
        if prev.0.contains(e) || prev.0.contains((e.1, e.0)) {
            before
        } else {
            before.push(e)
        }
    }
}

/// The declarations of the edges `d`, one after the other.
pub open spec fn lines_text(
    d: Seq<(Seq<char>, Seq<char>)>,
    all: Set<(Seq<char>, Seq<char>)>,
    tree: Seq<FolderNode>,
    indent: nat,
) -> Seq<char>
    decreases d.len(),
{
    if d.len() == 0 {
        Seq::empty()
    } else {
        lines_text(d.drop_last(), all, tree, indent) + edge_line(d.last(), all, tree, indent)
    }
}

proof fn lemma_edges_text_lines(
    sorted: Seq<(Seq<char>, Seq<char>)>,
    all: Set<(Seq<char>, Seq<char>)>,
    tree: Seq<FolderNode>,
    drawn: Set<(Seq<char>, Seq<char>)>,
    indent: nat,
)
    ensures
        ({
            let r = edges_text(sorted, all, tree, drawn, indent);
            let d = drawn_lines(sorted, all, tree, drawn, indent);
            &&& r.1 == lines_text(d, all, tree, indent)
            &&& forall|i: int| 0 <= i < d.len() ==> sorted.contains(#[trigger] d[i])
            &&& drawn.subset_of(r.0)
            &&& forall|i: int| 0 <= i < d.len() ==> r.0.contains(#[trigger] d[i])
            &&& forall|x: (Seq<char>, Seq<char>)|
                #[trigger] r.0.contains(x) ==> drawn.contains(x) || d.contains(x) || d.contains(
                    (x.1, x.0),
                )
            &&& forall|i: int|
                0 <= i < d.len() ==> !drawn.contains(#[trigger] d[i]) && !drawn.contains((d[i].1, d[i].0))
            &&& forall|i: int, j: int|
                0 <= i < j < d.len() ==> #[trigger] d[j] != #[trigger] d[i] && d[j] != (d[i].1, d[i].0)
            &&& forall|k: int|
                0 <= k < sorted.len() && !drawn.contains(#[trigger] sorted[k]) && !drawn.contains(
                    (sorted[k].1, sorted[k].0),
                ) ==> d.contains(sorted[k]) || d.contains((sorted[k].1, sorted[k].0))
            &&& forall|k: int|
                0 <= k < sorted.len() ==> r.0.contains(#[trigger] sorted[k]) || r.0.contains(
                    (sorted[k].1, sorted[k].0),
                )
        }),
    decreases sorted.len(),
{
    if sorted.len() > 0 {
        let rest = sorted.drop_last();
        lemma_edges_text_lines(rest, all, tree, drawn, indent);
        let prev = edges_text(rest, all, tree, drawn, indent);
        let dp = drawn_lines(rest, all, tree, drawn, indent);
        let e = sorted.last();
        let rev = (e.1, e.0);
        let d = drawn_lines(sorted, all, tree, drawn, indent);
        let r = edges_text(sorted, all, tree, drawn, indent);
        assert forall|k: int| 0 <= k < sorted.len() - 1 implies #[trigger] sorted[k] == rest[k] by {}
        if prev.0.contains(e) || prev.0.contains(rev) {
            assert(d == dp && r == prev);
            assert forall|k: int| 0 <= k < sorted.len() implies r.0.contains(#[trigger] sorted[k])
                || r.0.contains((sorted[k].1, sorted[k].0)) by {
                if k < sorted.len() - 1 {
                    assert(sorted[k] == rest[k]);
                } else {
                    assert(sorted[k] == e);
                }
            }
            assert forall|i: int| 0 <= i < d.len() implies sorted.contains(#[trigger] d[i]) by {
                assert(rest.contains(dp[i]));
                let k = choose|k: int| 0 <= k < rest.len() && rest[k] == dp[i];
                assert(sorted[k] == dp[i]);
            }
            assert forall|k: int|
                0 <= k < sorted.len() && !drawn.contains(#[trigger] sorted[k]) && !drawn.contains(
                    (sorted[k].1, sorted[k].0),
                ) implies d.contains(sorted[k]) || d.contains((sorted[k].1, sorted[k].0)) by {
                if k < sorted.len() - 1 {
                    assert(sorted[k] == rest[k]);
                } else {
                    assert(sorted[k] == e);
                    if prev.0.contains(e) {
                        assert(dp.contains(e) || dp.contains(rev));
                    } else {
                        assert(prev.0.contains(rev));
                        assert((rev.1, rev.0) == e);
                        assert(dp.contains(rev) || dp.contains(e));
                    }
                }
            }
        } else {
            assert(d == dp.push(e));
            assert(d.drop_last() == dp);
            assert(d.last() == e);
            assert(d.contains(e)) by {
                assert(d[d.len() - 1] == e);
            }
            assert forall|i: int| 0 <= i < dp.len() implies #[trigger] d[i] == dp[i] by {}
            assert forall|k: int| 0 <= k < sorted.len() implies r.0.contains(#[trigger] sorted[k])
                || r.0.contains((sorted[k].1, sorted[k].0)) by {
                if k < sorted.len() - 1 {
                    assert(sorted[k] == rest[k]);
                } else {
                    assert(sorted[k] == e);
                }
            }
            assert forall|i: int| 0 <= i < d.len() implies sorted.contains(#[trigger] d[i]) by {
                if i < dp.len() {
                    assert(rest.contains(dp[i]));
                    let k = choose|k: int| 0 <= k < rest.len() && rest[k] == dp[i];
                    assert(sorted[k] == dp[i]);
                } else {
                    assert(sorted[sorted.len() - 1] == e);
                }
            }
            assert forall|i: int| 0 <= i < d.len() implies r.0.contains(#[trigger] d[i]) by {
                if i < dp.len() {
                    assert(d[i] == dp[i]);
                    assert(prev.0.contains(dp[i]));
                }
            }
            assert forall|x: (Seq<char>, Seq<char>)| #[trigger] r.0.contains(x) implies drawn.contains(x)
                || d.contains(x) || d.contains((x.1, x.0)) by {
                if x == e {
                } else if x == rev {
                    assert((x.1, x.0) == e);
                } else {
                    assert(prev.0.contains(x));
                    if dp.contains(x) {
                        let i = choose|i: int| 0 <= i < dp.len() && dp[i] == x;
                        assert(d[i] == x);
                    } else if dp.contains((x.1, x.0)) {
                        let i = choose|i: int| 0 <= i < dp.len() && dp[i] == (x.1, x.0);
                        assert(d[i] == (x.1, x.0));
                    }
                }
            }
            assert forall|i: int| 0 <= i < d.len() implies !drawn.contains(#[trigger] d[i]) && !drawn.contains(
                (d[i].1, d[i].0),
            ) by {
                if i < dp.len() {
                    assert(d[i] == dp[i]);
                } else {
                    assert(d[i] == e);
                }
            }
            assert forall|i: int, j: int| 0 <= i < j < d.len() implies #[trigger] d[j] != #[trigger] d[i]
                && d[j] != (d[i].1, d[i].0) by {
                assert(d[i] == dp[i]);
                if j < dp.len() {
                    assert(d[j] == dp[j]);
                } else {
                    assert(d[j] == e);
                    assert(prev.0.contains(dp[i]));
                    if e == (d[i].1, d[i].0) {
                        assert(rev == dp[i]);
                    }
                }
            }
            assert forall|k: int|
                0 <= k < sorted.len() && !drawn.contains(#[trigger] sorted[k]) && !drawn.contains(
                    (sorted[k].1, sorted[k].0),
                ) implies d.contains(sorted[k]) || d.contains((sorted[k].1, sorted[k].0)) by {
                if k < sorted.len() - 1 {
                    assert(sorted[k] == rest[k]);
                    if dp.contains(sorted[k]) {
                        let i = choose|i: int| 0 <= i < dp.len() && dp[i] == sorted[k];
                        assert(d[i] == sorted[k]);
                    } else {
                        let i = choose|i: int| 0 <= i < dp.len() && dp[i] == (sorted[k].1, sorted[k].0);
                        assert(d[i] == (sorted[k].1, sorted[k].0));
                    }
                } else {
                    assert(sorted[k] == e);
                }
            }
        }
    }
}

/// Each pair of folders is drawn at most once: of the edges whose
/// declarations are written, none is written twice, none together with its
/// reverse, and none whose pair was drawn before. Every edge of the list
/// whose pair was not drawn before is written, itself or as its reverse;
/// and a written edge whose reverse exists too is red and two-headed, so a
/// pair with dependencies both ways appears as a single red edge rather
/// than two arrows.
pub proof fn edge_pairs_drawn_once(
    sorted: Seq<(Seq<char>, Seq<char>)>,
    all: Set<(Seq<char>, Seq<char>)>,
    tree: Seq<FolderNode>,
    drawn: Set<(Seq<char>, Seq<char>)>,
    indent: nat,
)
    ensures
        ({
            let d = drawn_lines(sorted, all, tree, drawn, indent);
            &&& edges_text(sorted, all, tree, drawn, indent).1 == lines_text(d, all, tree, indent)
            &&& forall|i: int, j: int|
                0 <= i < j < d.len() ==> #[trigger] d[j] != #[trigger] d[i] && d[j] != (d[i].1, d[i].0)
            &&& forall|i: int|
                0 <= i < d.len() ==> !drawn.contains(#[trigger] d[i]) && !drawn.contains((d[i].1, d[i].0))
            &&& forall|k: int|
                0 <= k < sorted.len() && !drawn.contains(#[trigger] sorted[k]) && !drawn.contains(
                    (sorted[k].1, sorted[k].0),
                ) ==> d.contains(sorted[k]) || d.contains((sorted[k].1, sorted[k].0))
            &&& forall|i: int|
                0 <= i < d.len() && all.contains((d[i].1, d[i].0)) ==> #[trigger] edge_attrs(
                    d[i],
                    all,
                    tree,
                ).take(2) == seq!["color=red"@, "dir=both"@]
        }),
{
    lemma_edges_text_lines(sorted, all, tree, drawn, indent);
    let d = drawn_lines(sorted, all, tree, drawn, indent);
    assert forall|i: int| 0 <= i < d.len() && all.contains((d[i].1, d[i].0)) implies #[trigger] edge_attrs(
        d[i],
        all,
        tree,
    ).take(2) == seq!["color=red"@, "dir=both"@] by {
        let red = seq!["color=red"@, "dir=both"@];
        let rest = match cluster_attrs(d[i].0, d[i].1, tree) {
            Some(v) => v,
            None => Seq::empty(),
        };
        assert((red + rest).take(2) =~= red);
    }
}

/// The attributes of the edge `a -> b`.
fn edge_attr_list(a: &String, b: &String, all_edges: &Vec<(String, String)>, tree: &[FolderNode]) -> (r:
    Vec<String>)
    ensures
        string_views(r@) == edge_attrs((a@, b@), edge_set(all_edges@), tree@),
{
    let reverse_exists = contains_edge(all_edges, b, a);
    let mut attrs: Vec<String> = Vec::new();
    if reverse_exists {
        attrs.push("color=red".to_owned());
        attrs.push("dir=both".to_owned());
        assert(string_views(attrs@) =~= seq!["color=red"@, "dir=both"@]);
    } else {
        assert(string_views(attrs@) =~= Seq::<Seq<char>>::empty());
    }
    let ghost base_attrs = string_views(attrs@);
    match cross_cluster_attrs(a.as_str(), b.as_str(), tree) {
        Some(extra) => {
            let m = extra.len();
            for j in 0..m
                invariant
                    m == extra@.len(),
                    string_views(attrs@) == base_attrs + string_views(extra@).take(j as int),
            {
                let ghost before = string_views(attrs@);
                let x = extra[j].clone();
                attrs.push(x);
                assert(string_views(attrs@) =~= before.push(extra@[j as int]@));
                assert(string_views(extra@).take(j + 1) =~= string_views(extra@).take(j as int).push(
                    extra@[j as int]@,
                ));
            }
            assert(string_views(extra@).take(m as int) =~= string_views(extra@));
        },
        None => {
            assert(base_attrs + Seq::<Seq<char>>::empty() =~= base_attrs);
        },
    }
    attrs
}

/// Appends the declaration of the edge `a -> b` with attributes `attrs`.
fn push_edge_line(dot: &mut String, a: &String, b: &String, attrs: &Vec<String>, indent: usize)
    ensures
        final(dot)@ == old(dot)@ + pad(indent as nat) + "\""@ + escaped(a@) + "\" -> \""@ + escaped(
            b@,
        ) + "\""@ + (if attrs@.len() == 0 {
            Seq::empty()
        } else {
            " ["@ + join_str(string_views(attrs@), ", "@) + "]"@
        }) + ";\n"@,
{
    push_pad(dot, indent);
    dot.append("\"");
    let ea = escape(a.as_str());
    dot.append(ea.as_str());
    dot.append("\" -> \"");
    let eb = escape(b.as_str());
    dot.append(eb.as_str());
    dot.append("\"");
    let ghost mid = dot@;
    if attrs.len() > 0 {
        dot.append(" [");
        let joined = join_strings(attrs, ", ");
        dot.append(joined.as_str());
        dot.append("]");
    } else {
        assert(mid + Seq::<char>::empty() =~= mid);
    }
    dot.append(";\n");
}

/// Renders the edge `a -> b` unless it or its reverse is drawn already.
fn render_edge_step(
    a: &String,
    b: &String,
    all_edges: &Vec<(String, String)>,
    tree: &[FolderNode],
    drawn: &mut Vec<(String, String)>,
    dot: &mut String,
    indent: usize,
)
    ensures
        ({
            let d = edge_set(old(drawn)@);
            let e = (a@, b@);
            let rev = (b@, a@);
            let all = edge_set(all_edges@);
            if d.contains(e) || d.contains(rev) {
                edge_set(final(drawn)@) == d && final(dot)@ == old(dot)@
            } else {
                &&& edge_set(final(drawn)@) == (if all.contains(rev) {
                    d.insert(e).insert(rev)
                } else {
                    d.insert(e)
                })
                &&& final(dot)@ == old(dot)@ + edge_line(e, all, tree@, indent as nat)
            }
        }),
{
    let ghost e = (a@, b@);
    let already = contains_edge(drawn, a, b) || contains_edge(drawn, b, a);
    if !already {
        let reverse_exists = contains_edge(all_edges, b, a);
        let attrs = edge_attr_list(a, b, all_edges, tree);
        let ghost before_line = dot@;
        push_edge_line(dot, a, b, &attrs, indent);
        assert(dot@ =~= before_line + edge_line(e, edge_set(all_edges@), tree@, indent as nat));
        let ghost before_drawn = pair_views(drawn@);
        drawn.push((a.clone(), b.clone()));
        assert(pair_views(drawn@) =~= before_drawn.push(e));
        proof {
            before_drawn.lemma_push_to_set_commute(e);
        }
        if reverse_exists {
            let ghost mid_drawn = pair_views(drawn@);
            drawn.push((b.clone(), a.clone()));
            assert(pair_views(drawn@) =~= mid_drawn.push((e.1, e.0)));
            proof {
                mid_drawn.lemma_push_to_set_commute((e.1, e.0));
            }
        }
    }
}

/// Renders the edges of `edges`, sorted, at nesting depth `indent`, merging
/// a pair that exists in both directions into one red two-headed edge, and
/// skipping edges already drawn.
pub fn render_edges(
    edges: &Vec<(String, String)>,
    all_edges: &Vec<(String, String)>,
    tree: &[FolderNode],
    drawn: &mut Vec<(String, String)>,
    dot: &mut String,
    indent: usize,
)
    ensures
        ({
            let r = edges_text(
                sorted_edges_of(edge_set(edges@)),
                edge_set(all_edges@),
                tree@,
                edge_set(old(drawn)@),
                indent as nat,
            );
            edge_set(final(drawn)@) == r.0 && final(dot)@ == old(dot)@ + r.1
        }),
{
    let sorted = sort_edge_set(edges);
    let ghost order = pair_views(sorted@);
    let ghost all = edge_set(all_edges@);
    proof {
        lemma_sorted_edges_of(order, edge_set(edges@));
        assert(order.take(0) =~= Seq::<(Seq<char>, Seq<char>)>::empty());
    }
    let n = sorted.len();
    assert(old(dot)@ + Seq::<char>::empty() =~= old(dot)@);
    for k in 0..n
        invariant
            n == sorted@.len(),
            order == pair_views(sorted@),
            all == edge_set(all_edges@),
            ({
                let r = edges_text(order.take(k as int), all, tree@, edge_set(old(drawn)@), indent as nat);
                edge_set(drawn@) == r.0 && dot@ == old(dot)@ + r.1
            }),
    {
        let ghost e = order[k as int];
        let ghost t = order.take(k + 1);
        assert(t.drop_last() =~= order.take(k as int));
        assert(t.last() == e);
        assert(e == (sorted@[k as int].0@, sorted@[k as int].1@));
        render_edge_step(&sorted[k].0, &sorted[k].1, all_edges, tree, drawn, dot, indent);
    }
    assert(order.take(n as int) =~= order);
}


/// The edge sets by scope that the groups `groups` hold.
pub open spec fn lookup_fn(groups: Seq<(Option<String>, Vec<(String, String)>)>) -> spec_fn(
    Option<Seq<char>>,
) -> Set<(Seq<char>, Seq<char>)> {
    |s: Option<Seq<char>>| group_lookup(groups, s)
}

/// The edge sets by scope of the edges `all` under `mode`.
pub open spec fn scoped_fn(all: Set<(Seq<char>, Seq<char>)>, mode: EdgeMode) -> spec_fn(
    Option<Seq<char>>,
) -> Set<(Seq<char>, Seq<char>)> {
    |s: Option<Seq<char>>| scoped_edges(all, mode, s)
}

/// The rendering of one folder at depth `indent`: a plain node for a leaf;
/// for a folder with children, a cluster holding its children and the edges
/// scoped to it. Gives the edges drawn afterwards and the text.
pub open spec fn folder_text(
    node: FolderNode,
    scoped: spec_fn(Option<Seq<char>>) -> Set<(Seq<char>, Seq<char>)>,
    all: Set<(Seq<char>, Seq<char>)>,
    tree: Seq<FolderNode>,
    drawn: Set<(Seq<char>, Seq<char>)>,
    indent: nat,
) -> (Set<(Seq<char>, Seq<char>)>, Seq<char>)
    decreases node,
{
    if node.children@.len() == 0 {
        (
            drawn,
            pad(indent) + "\""@ + escaped(node.path_id@) + "\" [label=\""@ + escaped(node.name@)
                + "\"];\n"@,
        )
    } else {
        let head = pad(indent) + "subgraph cluster_"@ + sanitized(node.path_id@) + " {\n"@ + pad(
            indent,
        ) + "    label=\""@ + escaped(node.name@) + "\";\n"@;
        let c = children_text(node.children@, scoped, all, tree, drawn, indent + 1);
        let es = edges_text(
            sorted_edges_of(scoped(Some(node.path_id@))),
            all,
            tree,
            c.0,
            indent + 1,
        );
        (es.0, head + c.1 + es.1 + pad(indent) + "}\n"@)
    }
}

/// The renderings of `nodes` in order.
pub open spec fn children_text(
    nodes: Seq<FolderNode>,
    scoped: spec_fn(Option<Seq<char>>) -> Set<(Seq<char>, Seq<char>)>,
    all: Set<(Seq<char>, Seq<char>)>,
    tree: Seq<FolderNode>,
    drawn: Set<(Seq<char>, Seq<char>)>,
    indent: nat,
) -> (Set<(Seq<char>, Seq<char>)>, Seq<char>)
    decreases nodes,
{
    if nodes.len() == 0 {
        (drawn, Seq::empty())
    } else {
        let prev = children_text(nodes.drop_last(), scoped, all, tree, drawn, indent);
        let f = folder_text(nodes.last(), scoped, all, tree, prev.0, indent);
        (f.0, prev.1 + f.1)
    }
}


/// A group lookup finds the group at its position.
proof fn lemma_lookup_at(groups: Seq<(Option<String>, Vec<(String, String)>)>, idx: int)
    requires
        distinct_scopes(groups),
        0 <= idx < groups.len(),
    ensures
        group_lookup(groups, opt_view(groups[idx].0)) == edge_set(groups[idx].1@),
{
    let s = opt_view(groups[idx].0);
    assert(opt_view(groups[idx].0) == s);
    let a = choose|a: int| 0 <= a < groups.len() && #[trigger] opt_view(groups[a].0) == s;
    assert(a == idx);
}

/// Renders the edges of the group of scope `key`, if there is one.
fn render_scope_edges(
    key: &Option<String>,
    edges_by_scope: &Vec<(Option<String>, Vec<(String, String)>)>,
    all_edges: &Vec<(String, String)>,
    tree: &[FolderNode],
    drawn: &mut Vec<(String, String)>,
    dot: &mut String,
    indent: usize,
)
    requires
        distinct_scopes(edges_by_scope@),
    ensures
        ({
            let r = edges_text(
                sorted_edges_of(group_lookup(edges_by_scope@, opt_view(*key))),
                edge_set(all_edges@),
                tree@,
                edge_set(old(drawn)@),
                indent as nat,
            );
            edge_set(final(drawn)@) == r.0 && final(dot)@ == old(dot)@ + r.1
        }),
{
    match find_group(edges_by_scope, key) {
        Some(idx) => {
            proof {
                lemma_lookup_at(edges_by_scope@, idx as int);
            }
            render_edges(&edges_by_scope[idx].1, all_edges, tree, drawn, dot, indent);
        },
        None => {
            proof {
                assert(group_lookup(edges_by_scope@, opt_view(*key)) == Set::<
                    (Seq<char>, Seq<char>),
                >::empty());
                assert(Seq::<(Seq<char>, Seq<char>)>::empty().to_set() =~= Set::empty());
                lemma_sorted_edges_of(Seq::empty(), Set::empty());
                assert(old(dot)@ + Seq::<char>::empty() =~= old(dot)@);
            }
        },
    }
}

/// Renders one folder at depth `indent`: a plain node for a leaf, or a
/// cluster holding its children and the edges scoped to it.
pub fn render_folder_node(
    node: &FolderNode,
    edges_by_scope: &Vec<(Option<String>, Vec<(String, String)>)>,
    all_edges: &Vec<(String, String)>,
    tree: &[FolderNode],
    drawn: &mut Vec<(String, String)>,
    dot: &mut String,
    indent: usize,
)
    requires
        distinct_scopes(edges_by_scope@),
        indent + height(*node) <= usize::MAX,
    ensures
        ({
            let r = folder_text(
                *node,
                lookup_fn(edges_by_scope@),
                edge_set(all_edges@),
                tree@,
                edge_set(old(drawn)@),
                indent as nat,
            );
            edge_set(final(drawn)@) == r.0 && final(dot)@ == old(dot)@ + r.1
        }),
    decreases node,
{
    let ghost scoped = lookup_fn(edges_by_scope@);
    let ghost all = edge_set(all_edges@);
    let ghost d0 = edge_set(drawn@);
    if node.children.len() == 0 {
        push_pad(dot, indent);
        dot.append("\"");
        let id = escape(node.path_id.as_str());
        dot.append(id.as_str());
        dot.append("\" [label=\"");
        let label = escape(node.name.as_str());
        dot.append(label.as_str());
        dot.append("\"];\n");
        return ;
    }
    push_pad(dot, indent);
    dot.append("subgraph cluster_");
    let cluster = sanitize_id(node.path_id.as_str());
    dot.append(cluster.as_str());
    dot.append(" {\n");
    push_pad(dot, indent);
    dot.append("    label=\"");
    let label = escape(node.name.as_str());
    dot.append(label.as_str());
    dot.append("\";\n");
    let ghost base = dot@;
    assert(base == old(dot)@ + (pad(indent as nat) + "subgraph cluster_"@ + sanitized(node.path_id@)
        + " {\n"@ + pad(indent as nat) + "    label=\""@ + escaped(node.name@) + "\";\n"@));
    let n = node.children.len();
    let ghost kids = node.children@;
    assert(kids.take(0) =~= Seq::<FolderNode>::empty());
    assert(base + Seq::<char>::empty() =~= base);
    for i in 0..n
        invariant
            n == kids.len(),
            kids == node.children@,
            distinct_scopes(edges_by_scope@),
            scoped == lookup_fn(edges_by_scope@),
            all == edge_set(all_edges@),
            indent + height(*node) <= usize::MAX,
            height(*node) == 1 + max_height(kids),
            ({
                let r = children_text(kids.take(i as int), scoped, all, tree@, d0, (indent + 1) as nat);
                edge_set(drawn@) == r.0 && dot@ == base + r.1
            }),
    {
        let ghost t = kids.take(i + 1);
        assert(t.drop_last() =~= kids.take(i as int));
        assert(t.last() == kids[i as int]);
        let ghost before = dot@;
        proof {
            lemma_max_height(kids, i as int);
        }
        assert(decreases_to!(node => node.children@[i as int]));
        render_folder_node(&node.children[i], edges_by_scope, all_edges, tree, drawn, dot, indent + 1);
    }
    assert(kids.take(n as int) =~= kids);
    let ghost after_children = dot@;
    let key = Some(node.path_id.clone());
    assert(opt_view(key) == Some(node.path_id@));
    render_scope_edges(&key, edges_by_scope, all_edges, tree, drawn, dot, indent + 1);
    push_pad(dot, indent);
    dot.append("}\n");
}

/// The rendered `.dot` file for the folder tree `tree` and the edges `all`
/// placed by `mode`: global settings, the folders with nested clusters, the
/// top-level edges, and the closing brace.
pub open spec fn dot_text(tree: Seq<FolderNode>, all: Set<(Seq<char>, Seq<char>)>, mode: EdgeMode) -> Seq<
    char,
> {
    let c = children_text(tree, scoped_fn(all, mode), all, tree, Set::empty(), 1);
    let top = edges_text(sorted_edges_of(scoped_edges(all, mode, None)), all, tree, c.0, 1);
    dot_header() + c.1 + top.1 + "}\n"@
}

/// The opening of the rendered file: the graph and its global settings.
pub open spec fn dot_header() -> Seq<char> {
    "digraph dependencies {\n"@ + "    rankdir=TB;\n"@ + "    compound=true;\n"@ + "    nodesep=.55;\n"@
        + "    node [shape=ellipse];\n\n"@
}

/// No edges in any scope.
pub open spec fn no_edges() -> spec_fn(Option<Seq<char>>) -> Set<(Seq<char>, Seq<char>)> {
    |s: Option<Seq<char>>| Set::<(Seq<char>, Seq<char>)>::empty()
}

proof fn lemma_no_edges_text(
    all: Set<(Seq<char>, Seq<char>)>,
    tree: Seq<FolderNode>,
    drawn: Set<(Seq<char>, Seq<char>)>,
    indent: nat,
)
    ensures
        edges_text(sorted_edges_of(Set::empty()), all, tree, drawn, indent) == (drawn, Seq::<char>::empty()),
{
    assert(Seq::<(Seq<char>, Seq<char>)>::empty().to_set() =~= Set::empty());
    lemma_sorted_edges_of(Seq::empty(), Set::empty());
}

/// In `Flat` mode a cluster holds no edges: a folder renders as it would
/// with no edges at all, and draws none.
proof fn lemma_flat_folder(
    node: FolderNode,
    all: Set<(Seq<char>, Seq<char>)>,
    tree: Seq<FolderNode>,
    drawn: Set<(Seq<char>, Seq<char>)>,
    indent: nat,
)
    ensures
        folder_text(node, scoped_fn(all, EdgeMode::Flat), all, tree, drawn, indent) == folder_text(
            node,
            no_edges(),
            all,
            tree,
            drawn,
            indent,
        ),
        folder_text(node, no_edges(), all, tree, drawn, indent).0 == drawn,
    decreases node,
{
    if node.children@.len() > 0 {
        lemma_flat_children(node.children@, all, tree, drawn, indent + 1);
        let key = Some(node.path_id@);
        assert(scoped_fn(all, EdgeMode::Flat)(key) =~= Set::<(Seq<char>, Seq<char>)>::empty());
        let c = children_text(node.children@, no_edges(), all, tree, drawn, indent + 1);
        lemma_no_edges_text(all, tree, c.0, indent + 1);
    }
}

proof fn lemma_flat_children(
    nodes: Seq<FolderNode>,
    all: Set<(Seq<char>, Seq<char>)>,
    tree: Seq<FolderNode>,
    drawn: Set<(Seq<char>, Seq<char>)>,
    indent: nat,
)
    ensures
        children_text(nodes, scoped_fn(all, EdgeMode::Flat), all, tree, drawn, indent) == children_text(
            nodes,
            no_edges(),
            all,
            tree,
            drawn,
            indent,
        ),
        children_text(nodes, no_edges(), all, tree, drawn, indent).0 == drawn,
    decreases nodes,
{
    if nodes.len() > 0 {
        lemma_flat_children(nodes.drop_last(), all, tree, drawn, indent);
        lemma_flat_folder(nodes.last(), all, tree, drawn, indent);
    }
}

/// In `Flat` mode every edge is placed at the top level: the rendered file
/// is the folder tree drawn without edges, followed by one declaration for
/// each pair of folders joined by an edge (in one direction or both), and a
/// pair joined both ways is declared once, red and two-headed.
pub proof fn flat_file_declares_each_pair_once(tree: Seq<FolderNode>, all: Set<(Seq<char>, Seq<char>)>)
    requires
        all.finite(),
    ensures
        ({
            let d = drawn_lines(sorted_edges_of(all), all, tree, Set::empty(), 1);
            &&& dot_text(tree, all, EdgeMode::Flat) == dot_header() + children_text(
                tree,
                no_edges(),
                all,
                tree,
                Set::empty(),
                1,
            ).1 + lines_text(d, all, tree, 1) + "}\n"@
            &&& forall|i: int| 0 <= i < d.len() ==> all.contains(#[trigger] d[i])
            &&& forall|i: int, j: int|
                0 <= i < j < d.len() ==> #[trigger] d[j] != #[trigger] d[i] && d[j] != (d[i].1, d[i].0)
            &&& forall|e: (Seq<char>, Seq<char>)|
                #[trigger] all.contains(e) ==> d.contains(e) || d.contains((e.1, e.0))
            &&& forall|i: int|
                0 <= i < d.len() && all.contains((d[i].1, d[i].0)) ==> #[trigger] edge_attrs(
                    d[i],
                    all,
                    tree,
                ).take(2) == seq!["color=red"@, "dir=both"@]
        }),
{
    let q = sorted_edges_of(all);
    let none = Set::<(Seq<char>, Seq<char>)>::empty();
    lemma_flat_children(tree, all, tree, none, 1);
    assert(scoped_edges(all, EdgeMode::Flat, None) =~= all);
    lemma_sorted_edges_exist(all);
    lemma_edges_text_lines(q, all, tree, none, 1);
    edge_pairs_drawn_once(q, all, tree, none, 1);
    let d = drawn_lines(q, all, tree, none, 1);
    assert forall|i: int| 0 <= i < d.len() implies all.contains(#[trigger] d[i]) by {
        assert(q.contains(d[i]));
        assert(q.to_set().contains(d[i]));
    }
    assert forall|e: (Seq<char>, Seq<char>)| #[trigger] all.contains(e) implies d.contains(e) || d.contains(
        (e.1, e.0),
    ) by {
        assert(q.to_set().contains(e));
        let k = choose|k: int| 0 <= k < q.len() && q[k] == e;
        assert(!none.contains(q[k]) && !none.contains((q[k].1, q[k].0)));
    }
}

/// Renders the final `.dot` file: nodes and nested clusters from the folder
/// tree, then edges placed by scope, merging any pair that exists in both
/// directions into a single red two-headed edge.
pub fn render_dot(tree: &[FolderNode], edges: &Vec<(String, String)>, mode: EdgeMode) -> (r: String)
    requires
        max_height(tree@) < usize::MAX,
    ensures
        r@ == dot_text(tree@, edge_set(edges@), mode),
{
    let mut dot = String::new();
    dot.append("digraph dependencies {\n");
    dot.append("    rankdir=TB;\n");
    dot.append("    compound=true;\n");
    dot.append("    nodesep=.55;\n");
    dot.append("    node [shape=ellipse];\n\n");
    let ghost header = dot@;
    let ghost all = edge_set(edges@);
    let edges_by_scope = group_edges_by_scope(edges, mode);
    let ghost scoped = lookup_fn(edges_by_scope@);
    assert(scoped =~= scoped_fn(all, mode));
    let mut drawn: Vec<(String, String)> = Vec::new();
    assert(edge_set(drawn@) =~= Set::empty());
    let n = tree.len();
    assert(tree@.take(0) =~= Seq::<FolderNode>::empty());
    assert(header + Seq::<char>::empty() =~= header);
    for i in 0..n
        invariant
            n == tree@.len(),
            distinct_scopes(edges_by_scope@),
            scoped == lookup_fn(edges_by_scope@),
            all == edge_set(edges@),
            max_height(tree@) < usize::MAX,
            ({
                let r = children_text(tree@.take(i as int), scoped, all, tree@, Set::empty(), 1);
                edge_set(drawn@) == r.0 && dot@ == header + r.1
            }),
    {
        let ghost t = tree@.take(i + 1);
        assert(t.drop_last() =~= tree@.take(i as int));
        assert(t.last() == tree@[i as int]);
        proof {
            lemma_max_height(tree@, i as int);
        }
        render_folder_node(&tree[i], &edges_by_scope, edges, tree, &mut drawn, &mut dot, 1);
    }
    assert(tree@.take(n as int) =~= tree@);
    let top: Option<String> = None;
    render_scope_edges(&top, &edges_by_scope, edges, tree, &mut drawn, &mut dot, 1);
    dot.append("}\n");
    dot
}

/// The edges, in order, whose declarations `folder_text` writes.
pub open spec fn folder_lines(
    node: FolderNode,
    scoped: spec_fn(Option<Seq<char>>) -> Set<(Seq<char>, Seq<char>)>,
    all: Set<(Seq<char>, Seq<char>)>,
    tree: Seq<FolderNode>,
    drawn: Set<(Seq<char>, Seq<char>)>,
    indent: nat,
) -> Seq<(Seq<char>, Seq<char>)>
    decreases node,
{
    if node.children@.len() == 0 {
        Seq::empty()
    } else {
        let c = children_text(node.children@, scoped, all, tree, drawn, indent + 1);
        children_lines(node.children@, scoped, all, tree, drawn, indent + 1) + drawn_lines(
            sorted_edges_of(scoped(Some(node.path_id@))),
            all,
            tree,
            c.0,
            indent + 1,
        )
    }
}

/// The edges, in order, whose declarations `children_text` writes.
pub open spec fn children_lines(
    nodes: Seq<FolderNode>,
    scoped: spec_fn(Option<Seq<char>>) -> Set<(Seq<char>, Seq<char>)>,
    all: Set<(Seq<char>, Seq<char>)>,
    tree: Seq<FolderNode>,
    drawn: Set<(Seq<char>, Seq<char>)>,
    indent: nat,
) -> Seq<(Seq<char>, Seq<char>)>
    decreases nodes,
{
    if nodes.len() == 0 {
        Seq::empty()
    } else {
        let prev = children_text(nodes.drop_last(), scoped, all, tree, drawn, indent);
        children_lines(nodes.drop_last(), scoped, all, tree, drawn, indent) + folder_lines(
            nodes.last(),
            scoped,
            all,
            tree,
            prev.0,
            indent,
        )
    }
}

/// The edges, in order, whose declarations the rendered file `dot_text`
/// holds: those written inside the clusters, then those at the top level.
pub open spec fn dot_lines(tree: Seq<FolderNode>, all: Set<(Seq<char>, Seq<char>)>, mode: EdgeMode) -> Seq<
    (Seq<char>, Seq<char>),
> {
    let c = children_text(tree, scoped_fn(all, mode), all, tree, Set::empty(), 1);
    children_lines(tree, scoped_fn(all, mode), all, tree, Set::empty(), 1) + drawn_lines(
        sorted_edges_of(scoped_edges(all, mode, None)),
        all,
        tree,
        c.0,
        1,
    )
}

/// Going from the drawn edges `d` to the drawn edges `r` while declaring
/// the edges `lines`: the drawn edges only grow, by the declared edges and
/// their reverses, and no declared edge, nor its reverse, was drawn before
/// or is declared twice.
spec fn draws_well(
    d: Set<(Seq<char>, Seq<char>)>,
    lines: Seq<(Seq<char>, Seq<char>)>,
    r: Set<(Seq<char>, Seq<char>)>,
) -> bool {
    &&& d.subset_of(r)
    &&& forall|i: int| 0 <= i < lines.len() ==> r.contains(#[trigger] lines[i])
    &&& forall|x: (Seq<char>, Seq<char>)|
        #[trigger] r.contains(x) ==> d.contains(x) || lines.contains(x) || lines.contains((x.1, x.0))
    &&& forall|i: int|
        0 <= i < lines.len() ==> !d.contains(#[trigger] lines[i]) && !d.contains((lines[i].1, lines[i].0))
    &&& forall|i: int, j: int|
        0 <= i < j < lines.len() ==> #[trigger] lines[j] != #[trigger] lines[i] && lines[j] != (
            lines[i].1,
            lines[i].0,
        )
}

proof fn lemma_draws_well_compose(
    d: Set<(Seq<char>, Seq<char>)>,
    l1: Seq<(Seq<char>, Seq<char>)>,
    r1: Set<(Seq<char>, Seq<char>)>,
    l2: Seq<(Seq<char>, Seq<char>)>,
    r2: Set<(Seq<char>, Seq<char>)>,
)
    requires
        draws_well(d, l1, r1),
        draws_well(r1, l2, r2),
    ensures
        draws_well(d, l1 + l2, r2),
{
    let l = l1 + l2;
    let n1 = l1.len() as int;
    assert forall|i: int| 0 <= i < l.len() implies r2.contains(#[trigger] l[i]) by {
        if i < n1 {
            assert(l[i] == l1[i]);
            assert(r1.contains(l1[i]));
        } else {
            assert(l[i] == l2[i - n1]);
        }
    }
    assert forall|x: (Seq<char>, Seq<char>)| #[trigger] r2.contains(x) implies d.contains(x) || l.contains(x)
        || l.contains((x.1, x.0)) by {
        if r1.contains(x) {
            if l1.contains(x) {
                let i = choose|i: int| 0 <= i < l1.len() && l1[i] == x;
                assert(l[i] == x);
            } else if l1.contains((x.1, x.0)) {
                let i = choose|i: int| 0 <= i < l1.len() && l1[i] == (x.1, x.0);
                assert(l[i] == (x.1, x.0));
            }
        } else if l2.contains(x) {
            let i = choose|i: int| 0 <= i < l2.len() && l2[i] == x;
            assert(l[n1 + i] == x);
        } else {
            assert(l2.contains((x.1, x.0)));
            let i = choose|i: int| 0 <= i < l2.len() && l2[i] == (x.1, x.0);
            assert(l[n1 + i] == (x.1, x.0));
        }
    }
    assert forall|i: int| 0 <= i < l.len() implies !d.contains(#[trigger] l[i]) && !d.contains(
        (l[i].1, l[i].0),
    ) by {
        if i < n1 {
            assert(l[i] == l1[i]);
        } else {
            assert(l[i] == l2[i - n1]);
        }
    }
    assert forall|i: int, j: int| 0 <= i < j < l.len() implies #[trigger] l[j] != #[trigger] l[i] && l[j]
        != (l[i].1, l[i].0) by {
        if j < n1 {
            assert(l[i] == l1[i] && l[j] == l1[j]);
        } else if i >= n1 {
            assert(l[i] == l2[i - n1] && l[j] == l2[j - n1]);
        } else {
            assert(l[i] == l1[i] && l[j] == l2[j - n1]);
            assert(r1.contains(l1[i]));
            if l[j] == (l[i].1, l[i].0) {
                assert((l2[j - n1].1, l2[j - n1].0) == l1[i]);
            }
        }
    }
}

/// Each scope's edges are a finite set of edges of `all`.
pub open spec fn scopes_within(
    scoped: spec_fn(Option<Seq<char>>) -> Set<(Seq<char>, Seq<char>)>,
    all: Set<(Seq<char>, Seq<char>)>,
) -> bool {
    forall|s: Option<Seq<char>>| #[trigger] scoped(s).finite() && scoped(s).subset_of(all)
}

/// Drawing the edges of a scope declares only edges of that scope.
proof fn lemma_group_draws_well(
    group: Set<(Seq<char>, Seq<char>)>,
    all: Set<(Seq<char>, Seq<char>)>,
    tree: Seq<FolderNode>,
    drawn: Set<(Seq<char>, Seq<char>)>,
    indent: nat,
)
    requires
        group.finite(),
    ensures
        ({
            let q = sorted_edges_of(group);
            let r = edges_text(q, all, tree, drawn, indent);
            let d = drawn_lines(q, all, tree, drawn, indent);
            &&& draws_well(drawn, d, r.0)
            &&& forall|i: int| 0 <= i < d.len() ==> group.contains(#[trigger] d[i])
            &&& forall|e: (Seq<char>, Seq<char>)|
                #[trigger] group.contains(e) ==> r.0.contains(e) || r.0.contains((e.1, e.0))
        }),
{
    let q = sorted_edges_of(group);
    lemma_sorted_edges_exist(group);
    lemma_edges_text_lines(q, all, tree, drawn, indent);
    let d = drawn_lines(q, all, tree, drawn, indent);
    let r = edges_text(q, all, tree, drawn, indent);
    assert forall|i: int| 0 <= i < d.len() implies group.contains(#[trigger] d[i]) by {
        assert(q.contains(d[i]));
        assert(q.to_set().contains(d[i]));
    }
    assert forall|e: (Seq<char>, Seq<char>)| #[trigger] group.contains(e) implies r.0.contains(e)
        || r.0.contains((e.1, e.0)) by {
        assert(q.to_set().contains(e));
        let k = choose|k: int| 0 <= k < q.len() && q[k] == e;
    }
}

proof fn lemma_folder_draws_well(
    node: FolderNode,
    scoped: spec_fn(Option<Seq<char>>) -> Set<(Seq<char>, Seq<char>)>,
    all: Set<(Seq<char>, Seq<char>)>,
    tree: Seq<FolderNode>,
    drawn: Set<(Seq<char>, Seq<char>)>,
    indent: nat,
)
    requires
        scopes_within(scoped, all),
    ensures
        draws_well(
            drawn,
            folder_lines(node, scoped, all, tree, drawn, indent),
            folder_text(node, scoped, all, tree, drawn, indent).0,
        ),
        forall|i: int|
            0 <= i < folder_lines(node, scoped, all, tree, drawn, indent).len() ==> all.contains(
                #[trigger] folder_lines(node, scoped, all, tree, drawn, indent)[i],
            ),
    decreases node,
{
    let lines = folder_lines(node, scoped, all, tree, drawn, indent);
    if node.children@.len() == 0 {
        assert(draws_well(drawn, lines, drawn));
    } else {
        lemma_children_draws_well(node.children@, scoped, all, tree, drawn, indent + 1);
        let cl = children_lines(node.children@, scoped, all, tree, drawn, indent + 1);
        let c = children_text(node.children@, scoped, all, tree, drawn, indent + 1);
        let group = scoped(Some(node.path_id@));
        lemma_group_draws_well(group, all, tree, c.0, indent + 1);
        let dl = drawn_lines(sorted_edges_of(group), all, tree, c.0, indent + 1);
        let es = edges_text(sorted_edges_of(group), all, tree, c.0, indent + 1);
        lemma_draws_well_compose(drawn, cl, c.0, dl, es.0);
        assert(lines == cl + dl);
        assert forall|i: int| 0 <= i < lines.len() implies all.contains(#[trigger] lines[i]) by {
            if i < cl.len() {
                assert(lines[i] == cl[i]);
            } else {
                assert(lines[i] == dl[i - cl.len()]);
                assert(group.contains(dl[i - cl.len()]));
            }
        }
    }
}

proof fn lemma_children_draws_well(
    nodes: Seq<FolderNode>,
    scoped: spec_fn(Option<Seq<char>>) -> Set<(Seq<char>, Seq<char>)>,
    all: Set<(Seq<char>, Seq<char>)>,
    tree: Seq<FolderNode>,
    drawn: Set<(Seq<char>, Seq<char>)>,
    indent: nat,
)
    requires
        scopes_within(scoped, all),
    ensures
        draws_well(
            drawn,
            children_lines(nodes, scoped, all, tree, drawn, indent),
            children_text(nodes, scoped, all, tree, drawn, indent).0,
        ),
        forall|i: int|
            0 <= i < children_lines(nodes, scoped, all, tree, drawn, indent).len() ==> all.contains(
                #[trigger] children_lines(nodes, scoped, all, tree, drawn, indent)[i],
            ),
    decreases nodes,
{
    let lines = children_lines(nodes, scoped, all, tree, drawn, indent);
    if nodes.len() == 0 {
        assert(draws_well(drawn, lines, drawn));
    } else {
        let rest = nodes.drop_last();
        lemma_children_draws_well(rest, scoped, all, tree, drawn, indent);
        let pl = children_lines(rest, scoped, all, tree, drawn, indent);
        let prev = children_text(rest, scoped, all, tree, drawn, indent);
        lemma_folder_draws_well(nodes.last(), scoped, all, tree, prev.0, indent);
        let fl = folder_lines(nodes.last(), scoped, all, tree, prev.0, indent);
        let f = folder_text(nodes.last(), scoped, all, tree, prev.0, indent);
        lemma_draws_well_compose(drawn, pl, prev.0, fl, f.0);
        assert(lines == pl + fl);
        assert forall|i: int| 0 <= i < lines.len() implies all.contains(#[trigger] lines[i]) by {
            if i < pl.len() {
                assert(lines[i] == pl[i]);
            } else {
                assert(lines[i] == fl[i - pl.len()]);
            }
        }
    }
}

proof fn lemma_folder_covers(
    node: FolderNode,
    scoped: spec_fn(Option<Seq<char>>) -> Set<(Seq<char>, Seq<char>)>,
    all: Set<(Seq<char>, Seq<char>)>,
    tree: Seq<FolderNode>,
    drawn: Set<(Seq<char>, Seq<char>)>,
    indent: nat,
    p: Seq<char>,
)
    requires
        scopes_within(scoped, all),
        node_has_cluster(node, p),
    ensures
        forall|e: (Seq<char>, Seq<char>)|
            #[trigger] scoped(Some(p)).contains(e) ==> folder_text(node, scoped, all, tree, drawn, indent).0.contains(
                e,
            ) || folder_text(node, scoped, all, tree, drawn, indent).0.contains((e.1, e.0)),
    decreases node,
{
    let c = children_text(node.children@, scoped, all, tree, drawn, indent + 1);
    let group = scoped(Some(node.path_id@));
    lemma_group_draws_well(group, all, tree, c.0, indent + 1);
    let r = folder_text(node, scoped, all, tree, drawn, indent).0;
    if node.path_id@ != p {
        lemma_children_covers(node.children@, scoped, all, tree, drawn, indent + 1, p);
    }
    assert forall|e: (Seq<char>, Seq<char>)| #[trigger] scoped(Some(p)).contains(e) implies r.contains(e)
        || r.contains((e.1, e.0)) by {
        if node.path_id@ == p {
            assert(group.contains(e));
        } else {
            assert(c.0.contains(e) || c.0.contains((e.1, e.0)));
        }
    }
}

proof fn lemma_children_covers(
    nodes: Seq<FolderNode>,
    scoped: spec_fn(Option<Seq<char>>) -> Set<(Seq<char>, Seq<char>)>,
    all: Set<(Seq<char>, Seq<char>)>,
    tree: Seq<FolderNode>,
    drawn: Set<(Seq<char>, Seq<char>)>,
    indent: nat,
    p: Seq<char>,
)
    requires
        scopes_within(scoped, all),
        has_cluster(nodes, p),
    ensures
        forall|e: (Seq<char>, Seq<char>)|
            #[trigger] scoped(Some(p)).contains(e) ==> children_text(nodes, scoped, all, tree, drawn, indent).0.contains(
                e,
            ) || children_text(nodes, scoped, all, tree, drawn, indent).0.contains((e.1, e.0)),
    decreases nodes,
{
    let rest = nodes.drop_last();
    let prev = children_text(rest, scoped, all, tree, drawn, indent);
    lemma_folder_draws_well(nodes.last(), scoped, all, tree, prev.0, indent);
    let r = children_text(nodes, scoped, all, tree, drawn, indent).0;
    if has_cluster(rest, p) {
        lemma_children_covers(rest, scoped, all, tree, drawn, indent, p);
    } else {
        lemma_folder_covers(nodes.last(), scoped, all, tree, prev.0, indent, p);
    }
    assert forall|e: (Seq<char>, Seq<char>)| #[trigger] scoped(Some(p)).contains(e) implies r.contains(e)
        || r.contains((e.1, e.0)) by {
        if has_cluster(rest, p) {
            assert(prev.0.contains(e) || prev.0.contains((e.1, e.0)));
        }
    }
}

/// Each pair of folders joined by an edge is declared exactly once in the
/// rendered file, provided each edge's scope is the top level or a cluster
/// of the tree: every declared edge is an edge of the set; no edge is
/// declared twice or together with its reverse; every edge is declared,
/// itself or as its reverse; and a declared edge whose reverse exists too
/// is red and two-headed.
pub proof fn file_declares_each_pair_once(
    tree: Seq<FolderNode>,
    all: Set<(Seq<char>, Seq<char>)>,
    mode: EdgeMode,
)
    requires
        all.finite(),
        forall|e: (Seq<char>, Seq<char>)|
            #[trigger] all.contains(e) ==> (edge_scope(e, mode) matches Some(s) ==> has_cluster(tree, s)),
    ensures
        ({
            let d = dot_lines(tree, all, mode);
            &&& forall|i: int| 0 <= i < d.len() ==> all.contains(#[trigger] d[i])
            &&& forall|i: int, j: int|
                0 <= i < j < d.len() ==> #[trigger] d[j] != #[trigger] d[i] && d[j] != (d[i].1, d[i].0)
            &&& forall|e: (Seq<char>, Seq<char>)|
                #[trigger] all.contains(e) ==> d.contains(e) || d.contains((e.1, e.0))
            &&& forall|i: int|
                0 <= i < d.len() && all.contains((d[i].1, d[i].0)) ==> #[trigger] edge_attrs(
                    d[i],
                    all,
                    tree,
                ).take(2) == seq!["color=red"@, "dir=both"@]
        }),
{
    let scoped = scoped_fn(all, mode);
    let none = Set::<(Seq<char>, Seq<char>)>::empty();
    assert forall|s: Option<Seq<char>>| #[trigger] scoped(s).finite() && scoped(s).subset_of(all) by {
        vstd::set_lib::lemma_set_subset_finite(all, scoped(s));
    }
    assert(scopes_within(scoped, all));
    lemma_children_draws_well(tree, scoped, all, tree, none, 1);
    let cl = children_lines(tree, scoped, all, tree, none, 1);
    let c = children_text(tree, scoped, all, tree, none, 1);
    let top = scoped_edges(all, mode, None);
    assert(top == scoped(None));
    lemma_group_draws_well(top, all, tree, c.0, 1);
    let dl = drawn_lines(sorted_edges_of(top), all, tree, c.0, 1);
    let r = edges_text(sorted_edges_of(top), all, tree, c.0, 1).0;
    lemma_draws_well_compose(none, cl, c.0, dl, r);
    let d = dot_lines(tree, all, mode);
    assert(d == cl + dl);
    assert forall|i: int| 0 <= i < d.len() implies all.contains(#[trigger] d[i]) by {
        if i < cl.len() {
            assert(d[i] == cl[i]);
        } else {
            assert(d[i] == dl[i - cl.len()]);
            assert(top.contains(dl[i - cl.len()]));
        }
    }
    assert forall|e: (Seq<char>, Seq<char>)| #[trigger] all.contains(e) implies d.contains(e) || d.contains(
        (e.1, e.0),
    ) by {
        match edge_scope(e, mode) {
            Some(sc) => {
                lemma_children_covers(tree, scoped, all, tree, none, 1, sc);
                assert(scoped(Some(sc)).contains(e));
                assert(c.0.contains(e) || c.0.contains((e.1, e.0)));
            },
            None => {
                assert(top.contains(e));
            },
        }
        assert(r.contains(e) || r.contains((e.1, e.0)));
        if !r.contains(e) {
            assert(r.contains((e.1, e.0)));
            let x = (e.1, e.0);
            assert((x.1, x.0) == e);
        }
    }
    assert forall|i: int| 0 <= i < d.len() && all.contains((d[i].1, d[i].0)) implies #[trigger] edge_attrs(
        d[i],
        all,
        tree,
    ).take(2) == seq!["color=red"@, "dir=both"@] by {
        let red = seq!["color=red"@, "dir=both"@];
        let rest = match cluster_attrs(d[i].0, d[i].1, tree) {
            Some(v) => v,
            None => Seq::empty(),
        };
        assert((red + rest).take(2) =~= red);
    }
}

/// In `Hierarchical` mode, on a well-formed tree, the file rendered for the
/// edges that the dependency pairs `pairs` give declares each pair of
/// folders joined by an edge exactly once, inside the cluster of its scope
/// or at the top level.
pub proof fn hierarchical_file_declares_each_pair_once(
    pairs: Seq<(Seq<char>, Seq<char>)>,
    tree: Seq<FolderNode>,
)
    requires
        well_formed_tree(tree),
    ensures
        ({
            let all = pairs_edge_set(pairs, tree, EdgeMode::Hierarchical);
            let d = dot_lines(tree, all, EdgeMode::Hierarchical);
            &&& forall|i: int| 0 <= i < d.len() ==> all.contains(#[trigger] d[i])
            &&& forall|i: int, j: int|
                0 <= i < j < d.len() ==> #[trigger] d[j] != #[trigger] d[i] && d[j] != (d[i].1, d[i].0)
            &&& forall|e: (Seq<char>, Seq<char>)|
                #[trigger] all.contains(e) ==> d.contains(e) || d.contains((e.1, e.0))
        }),
{
    let mode = EdgeMode::Hierarchical;
    let all = pairs_edge_set(pairs, tree, mode);
    let f = |pr: (Seq<char>, Seq<char>)| pair_edge(pr.0, pr.1, tree, mode)->0;
    pairs.to_set().lemma_map_finite(f);
    assert(all.subset_of(pairs.to_set().map(f))) by {
        assert forall|e: (Seq<char>, Seq<char>)| all.contains(e) implies pairs.to_set().map(f).contains(e) by {
            let i = choose|i: int|
                0 <= i < pairs.len() && #[trigger] pair_edge(pairs[i].0, pairs[i].1, tree, mode) == Some(e);
            assert(pairs.to_set().contains(pairs[i]));
            assert(f(pairs[i]) == e);
        }
    }
    vstd::set_lib::lemma_set_subset_finite(pairs.to_set().map(f), all);
    assert forall|e: (Seq<char>, Seq<char>)| #[trigger] all.contains(e) implies (edge_scope(
        e,
        mode,
    ) matches Some(s) ==> has_cluster(tree, s)) by {
        let i = choose|i: int|
            0 <= i < pairs.len() && #[trigger] pair_edge(pairs[i].0, pairs[i].1, tree, mode) == Some(e);
        hierarchical_scopes_are_clusters(pairs[i].0, pairs[i].1, tree);
    }
    file_declares_each_pair_once(tree, all, mode);
}

/// Every cluster-boundary attribute begins with `m` (`minlen`) or `l`
/// (`ltail`, `lhead`).
proof fn lemma_cluster_attr_letters(a: Seq<char>, b: Seq<char>, tree: Seq<FolderNode>)
    ensures
        cluster_attrs(a, b, tree) matches Some(v) ==> forall|k: int|
            0 <= k < v.len() ==> (#[trigger] v[k]).len() > 0 && (v[k][0] == 'm' || v[k][0] == 'l'),
{
    reveal_strlit("minlen=0");
    reveal_strlit("ltail=\"cluster_");
    reveal_strlit("lhead=\"cluster_");
    if let Some(v) = cluster_attrs(a, b, tree) {
        let ta = top_name(a);
        let tb = top_name(b);
        let xa = exploded_top(ta, tree);
        let xb = exploded_top(tb, tree);
        let first = seq!["minlen=0"@];
        let tail: Seq<Seq<char>> = if xa {
            seq!["ltail=\"cluster_"@ + sanitized(ta) + "\""@]
        } else {
            Seq::empty()
        };
        let head: Seq<Seq<char>> = if xb {
            seq!["lhead=\"cluster_"@ + sanitized(tb) + "\""@]
        } else {
            Seq::empty()
        };
        assert(v == first + tail + head);
        assert forall|k: int| 0 <= k < v.len() implies (#[trigger] v[k]).len() > 0 && (v[k][0] == 'm'
            || v[k][0] == 'l') by {
            if k == 0 {
                assert(v[k] == "minlen=0"@);
            } else if k < 1 + tail.len() {
                assert(v[k] == tail[k - 1]);
                assert(tail[k - 1] == "ltail=\"cluster_"@ + sanitized(ta) + "\""@);
                assert(("ltail=\"cluster_"@ + sanitized(ta) + "\""@)[0] == 'l');
            } else {
                assert(v[k] == head[k - 1 - tail.len()]);
                assert(head[k - 1 - tail.len()] == "lhead=\"cluster_"@ + sanitized(tb) + "\""@);
                assert(("lhead=\"cluster_"@ + sanitized(tb) + "\""@)[0] == 'l');
            }
        }
    }
}

/// An edge is drawn red and two-headed exactly when the edge back exists
/// too; an edge without one carries only the attributes that clip it to
/// cluster boundaries.
pub proof fn red_marks_exactly_two_way_pairs(
    e: (Seq<char>, Seq<char>),
    all: Set<(Seq<char>, Seq<char>)>,
    tree: Seq<FolderNode>,
)
    ensures
        edge_attrs(e, all, tree).contains("color=red"@) <==> all.contains((e.1, e.0)),
        edge_attrs(e, all, tree).contains("dir=both"@) <==> all.contains((e.1, e.0)),
        !all.contains((e.1, e.0)) ==> edge_attrs(e, all, tree) == match cluster_attrs(e.0, e.1, tree) {
            Some(v) => v,
            None => Seq::<Seq<char>>::empty(),
        },
{
    reveal_strlit("color=red");
    reveal_strlit("dir=both");
    lemma_cluster_attr_letters(e.0, e.1, tree);
    let red = seq!["color=red"@, "dir=both"@];
    let rest = match cluster_attrs(e.0, e.1, tree) {
        Some(v) => v,
        None => Seq::<Seq<char>>::empty(),
    };
    let attrs = edge_attrs(e, all, tree);
    assert("color=red"@[0] == 'c');
    assert("dir=both"@[0] == 'd');
    assert(!rest.contains("color=red"@)) by {
        if rest.contains("color=red"@) {
            let k = choose|k: int| 0 <= k < rest.len() && rest[k] == "color=red"@;
            assert(rest[k][0] == 'm' || rest[k][0] == 'l');
        }
    }
    assert(!rest.contains("dir=both"@)) by {
        if rest.contains("dir=both"@) {
            let k = choose|k: int| 0 <= k < rest.len() && rest[k] == "dir=both"@;
            assert(rest[k][0] == 'm' || rest[k][0] == 'l');
        }
    }
    if all.contains((e.1, e.0)) {
        assert(attrs == red + rest);
        assert(attrs[0] == "color=red"@);
        assert(attrs[1] == "dir=both"@);
    } else {
        assert(attrs =~= rest);
    }
}

} // verus!
