# depgraph

Reads gcc-generated `.d` dependency files under a folder tree and writes a
Graphviz `.dot` graph of folder-to-folder dependencies. An edge `A -> B`
means that a file under `A` depends on a file under `B`; a pair with
dependencies in both directions is drawn as one red two-headed edge.

The library in `src/` is verified with Verus; `app/` is the command-line
program around it (argument list, directory walk, file reading and writing).

## Layout

- `src/text.rs`: character-level helpers (trimming, replacing, splitting,
  ordering) with their specifications.
- `src/depfile.rs`: the `.d` file format: line continuations, the rule
  colon (skipping a drive-letter colon), make tokens with escaped spaces,
  and the (target, prerequisite) pairs of a file.
- `src/tree.rs`: the folder tree built from a directory listing up to a
  number of levels, leaf counting, and the ancestor chain of a dependency
  path.
- `src/edges.rs`: edges from dependency pairs in flat or hierarchical mode,
  the enclosing scope of an edge, and sorting of edge lists.
- `src/graph.rs`: reachability and the transitive reduction.
- `src/render.rs`: the `.dot` text: nodes, nested clusters, edges grouped
  by scope, merged red pairs, and cluster-boundary attributes.
- `src/cli.rs`: the command-line options.

## Properties proved

Besides the contract of each function, the library proves:

- every make token is non-empty and holds whitespace only as escaped spaces;
- the built tree is well formed and has no more levels than requested;
- no edge joins a folder to itself;
- in hierarchical mode, both ends of an edge sit directly under the scope
  that encloses it;
- the transitive reduction keeps reachability, only drops edges, keeps only
  needed edges and every edge no other route replaces; on an acyclic graph
  it keeps exactly those, whatever the order in which edges are examined;
- in hierarchical mode, the scope of an edge is the top level or a cluster
  of the tree;
- each pair of folders joined by an edge is declared exactly once in the
  rendered file (in flat mode, and in hierarchical mode for the edges of a
  well-formed tree), and a pair with edges both ways is declared as a
  single red two-headed edge.
