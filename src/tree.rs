//! The mathematical model of the directory tree: well-formedness, paths,
//! digest consistency, and the laws that insertion obeys.

use vstd::prelude::*;
use petgraph::graph::Graph;
use crate::analyser::{FileRecord, GNode};
use crate::digest::{combined_digest, views};
use crate::graph::{children_of, graph_edges, graph_nodes};

verus! {

/// The node with index `a > 0` hangs under this node.
pub open spec fn parent_of(g: Graph<GNode, ()>, a: int) -> int {
    graph_edges(g)[a - 1].0
}

pub open spec fn children(g: Graph<GNode, ()>, a: int) -> Seq<int> {
    children_of(graph_edges(g), a)
}

/// A tree rooted at node 0: node `a > 0` was added together with the edge
/// `a - 1`, which leads to it from an earlier directory, and no directory
/// has two directory children of one name.
pub open spec fn tree_wf(g: Graph<GNode, ()>) -> bool {
    let nodes = graph_nodes(g);
    let edges = graph_edges(g);
    &&& 1 <= nodes.len() <= u32::MAX
    &&& nodes[0].is_dir()
    &&& edges.len() + 1 == nodes.len()
    &&& forall|k: int| 0 <= k < edges.len() ==> (#[trigger] edges[k]).1 == k + 1
    &&& forall|a: int|
        1 <= a < nodes.len() ==> 0 <= #[trigger] parent_of(g, a) < a && nodes[parent_of(g, a)].is_dir()
    &&& forall|a: int, b: int|
        1 <= a < nodes.len() && 1 <= b < nodes.len() && a != b && #[trigger] parent_of(g, a)
            == #[trigger] parent_of(g, b) && nodes[a].is_dir() && nodes[b].is_dir() ==> nodes[a].name_view()
            != nodes[b].name_view()
}

/// The digests of the children of `a`, in the order in which they are listed.
pub open spec fn child_digests(g: Graph<GNode, ()>, a: int) -> Seq<Seq<char>> {
    children(g, a).map_values(|c: int| graph_nodes(g)[c].digest())
}

/// A directory with children carries the combined digest of its children.
pub open spec fn dir_consistent(g: Graph<GNode, ()>, d: int) -> bool {
    graph_nodes(g)[d].is_dir() && children(g, d).len() > 0 ==> graph_nodes(g)[d].digest()
        == combined_digest(child_digests(g, d))
}

/// Every directory outside `bad` carries the digest of its children.
pub open spec fn consistent_except(g: Graph<GNode, ()>, bad: Set<int>) -> bool {
    forall|d: int| 0 <= d < graph_nodes(g).len() && !bad.contains(d) ==> #[trigger] dir_consistent(g, d)
}

pub(crate) proof fn lemma_children_of_edge(edges: Seq<(int, int)>, p: int, i: int)
    requires
        0 <= i < children_of(edges, p).len(),
    ensures
        exists|k: int| 0 <= k < edges.len() && edges[k] == (p, children_of(edges, p)[i]),
    decreases edges.len(),
{
    let rest = children_of(edges.drop_last(), p);
    if edges.last().0 == p {
        if i == 0 {
            assert(edges[edges.len() - 1] == (p, children_of(edges, p)[i]));
        } else {
            lemma_children_of_edge(edges.drop_last(), p, i - 1);
            let k = choose|k: int| 0 <= k < edges.drop_last().len() && edges.drop_last()[k] == (p, rest[i - 1]);
            assert(edges[k] == (p, children_of(edges, p)[i]));
        }
    } else {
        lemma_children_of_edge(edges.drop_last(), p, i);
        let k = choose|k: int| 0 <= k < edges.drop_last().len() && edges.drop_last()[k] == (p, rest[i]);
        assert(edges[k] == (p, children_of(edges, p)[i]));
    }
}

pub(crate) proof fn lemma_edge_in_children(edges: Seq<(int, int)>, k: int)
    requires
        0 <= k < edges.len(),
    ensures
        children_of(edges, edges[k].0).contains(edges[k].1),
    decreases edges.len(),
{
    let p = edges[k].0;
    if k == edges.len() - 1 {
        assert(children_of(edges, p)[0] == edges[k].1);
    } else {
        lemma_edge_in_children(edges.drop_last(), k);
        let rest = children_of(edges.drop_last(), p);
        let j = choose|j: int| 0 <= j < rest.len() && rest[j] == edges[k].1;
        if edges.last().0 == p {
            assert(children_of(edges, p)[j + 1] == edges[k].1);
        } else {
            assert(children_of(edges, p)[j] == edges[k].1);
        }
    }
}

/// In a well-formed tree, the children of `p` are exactly the nodes whose
/// parent is `p`.
pub proof fn lemma_children_parent(g: Graph<GNode, ()>, p: int)
    requires
        tree_wf(g),
    ensures
        forall|i: int|
            0 <= i < children(g, p).len() ==> 1 <= #[trigger] children(g, p)[i] < graph_nodes(g).len()
                && parent_of(g, children(g, p)[i]) == p,
        forall|c: int|
            1 <= c < graph_nodes(g).len() && parent_of(g, c) == p ==> #[trigger] children(g, p).contains(c),
{
    let edges = graph_edges(g);
    assert forall|i: int| 0 <= i < children(g, p).len() implies 1 <= #[trigger] children(g, p)[i] < graph_nodes(g).len()
        && parent_of(g, children(g, p)[i]) == p by {
        lemma_children_of_edge(edges, p, i);
        let k = choose|k: int| 0 <= k < edges.len() && edges[k] == (p, children(g, p)[i]);
        assert(parent_of(g, k + 1) == edges[k].0);
    }
    assert forall|c: int| 1 <= c < graph_nodes(g).len() && parent_of(g, c) == p implies #[trigger] children(g, p).contains(c) by {
        assert(parent_of(g, c) == edges[c - 1].0);
        lemma_edge_in_children(edges, c - 1);
    }
}

/// Appending node `len` under `p` keeps the tree well formed and changes
/// the children of `p` alone.
pub(crate) proof fn lemma_push_child(g1: Graph<GNode, ()>, g2: Graph<GNode, ()>, p: int, w: GNode)
    requires
        tree_wf(g1),
        0 <= p < graph_nodes(g1).len() < u32::MAX,
        graph_nodes(g1)[p].is_dir(),
        graph_nodes(g2) == graph_nodes(g1).push(w),
        graph_edges(g2) == graph_edges(g1).push((p, graph_nodes(g1).len() as int)),
        w.is_dir() ==> forall|c: int|
            #[trigger] children(g1, p).contains(c) ==> !(graph_nodes(g1)[c].is_dir()
                && graph_nodes(g1)[c].name_view() == w.name_view()),
    ensures
        tree_wf(g2),
        children(g2, p) == seq![graph_nodes(g1).len() as int] + children(g1, p),
        children(g2, graph_nodes(g1).len() as int).len() == 0,
        forall|d: int|
            0 <= d < graph_nodes(g1).len() && d != p ==> #[trigger] children(g2, d) == children(g1, d),
        forall|d: int|
            0 <= d < graph_nodes(g1).len() && d != p ==> #[trigger] child_digests(g2, d) == child_digests(g1, d),
        forall|d: int|
            0 <= d < graph_nodes(g1).len() && d != p ==> #[trigger] dir_consistent(g2, d) == dir_consistent(g1, d),
{
    let n = graph_nodes(g1).len() as int;
    let e1 = graph_edges(g1);
    let e2 = graph_edges(g2);
    assert(e2.drop_last() =~= e1);
    assert forall|a: int| 1 <= a < n implies #[trigger] parent_of(g2, a) == parent_of(g1, a) && e2[a - 1] == e1[a - 1] by {
        assert(e2[a - 1] == e1[a - 1]);
    }
    assert(parent_of(g2, n) == p);
    assert forall|k: int| 0 <= k < e2.len() implies (#[trigger] e2[k]).1 == k + 1 by {
        if k < e1.len() {
            assert(e2[k] == e1[k]);
        }
    }
    lemma_children_parent(g1, p);
    assert forall|a: int, b: int|
        1 <= a < graph_nodes(g2).len() && 1 <= b < graph_nodes(g2).len() && a != b && #[trigger] parent_of(g2, a)
            == #[trigger] parent_of(g2, b) && graph_nodes(g2)[a].is_dir() && graph_nodes(g2)[b].is_dir() implies graph_nodes(g2)[a].name_view()
        != graph_nodes(g2)[b].name_view() by {
        if a == n {
            assert(children(g1, p).contains(b));
        } else if b == n {
            assert(children(g1, p).contains(a));
        } else {
            assert(parent_of(g1, a) == parent_of(g1, b));
        }
    }
    assert(tree_wf(g2));
    lemma_children_parent(g2, n);
    if children(g2, n).len() > 0 {
        assert(parent_of(g2, children(g2, n)[0]) == n);
    }
    assert forall|d: int| 0 <= d < n && d != p implies #[trigger] child_digests(g2, d) == child_digests(g1, d)
        && children(g2, d) == children(g1, d) by {
        lemma_children_parent(g1, d);
        assert(e2.drop_last() == e1);
        assert(children(g2, d) == children(g1, d));
        let cs = children(g1, d);
        assert forall|i: int| 0 <= i < cs.len() implies graph_nodes(g2)[#[trigger] cs[i]] == graph_nodes(g1)[cs[i]] by {
            assert(1 <= cs[i] < n);
        }
        assert(child_digests(g2, d) =~= child_digests(g1, d));
    }
    assert forall|d: int| 0 <= d < n && d != p implies #[trigger] dir_consistent(g2, d) == dir_consistent(g1, d) by {
        assert(child_digests(g2, d) == child_digests(g1, d));
    }
}

/// Giving node `t` another checksum keeps the tree well formed, and of all
/// directories only its parent may stop or start carrying the digest of its
/// children: no unrelated digest depends on it.
pub proof fn lemma_set_checksum(g1: Graph<GNode, ()>, g2: Graph<GNode, ()>, t: int, w: GNode)
    requires
        tree_wf(g1),
        0 <= t < graph_nodes(g1).len(),
        w.is_dir() == graph_nodes(g1)[t].is_dir(),
        w.name_view() == graph_nodes(g1)[t].name_view(),
        graph_nodes(g2) == graph_nodes(g1).update(t, w),
        graph_edges(g2) == graph_edges(g1),
    ensures
        tree_wf(g2),
        forall|d: int| #![auto] children(g2, d) == children(g1, d),
        forall|d: int|
            0 <= d < graph_nodes(g1).len() && d != t && (t == 0 || d != parent_of(g1, t))
                ==> #[trigger] dir_consistent(g2, d) == dir_consistent(g1, d),
{
    assert forall|a: int| 1 <= a < graph_nodes(g1).len() implies #[trigger] parent_of(g2, a) == parent_of(g1, a) by {}
    assert forall|a: int, b: int|
        1 <= a < graph_nodes(g2).len() && 1 <= b < graph_nodes(g2).len() && a != b && #[trigger] parent_of(g2, a)
            == #[trigger] parent_of(g2, b) && graph_nodes(g2)[a].is_dir() && graph_nodes(g2)[b].is_dir() implies graph_nodes(g2)[a].name_view()
        != graph_nodes(g2)[b].name_view() by {
        assert(parent_of(g1, a) == parent_of(g1, b));
    }
    assert(tree_wf(g2));
    assert forall|d: int|
        0 <= d < graph_nodes(g1).len() && d != t && (t == 0 || d != parent_of(g1, t))
            implies #[trigger] dir_consistent(g2, d) == dir_consistent(g1, d) by {
        lemma_children_parent(g1, d);
        assert forall|i: int| 0 <= i < children(g1, d).len() implies #[trigger] children(g1, d)[i] != t by {
            if children(g1, d)[i] == t {
                assert(parent_of(g1, t) == d);
            }
        }
        assert(child_digests(g2, d) =~= child_digests(g1, d));
    }
}

/// The number of file leaves among `nodes`.
pub open spec fn file_count(nodes: Seq<GNode>) -> nat
    decreases nodes.len(),
{
    if nodes.len() == 0 {
        0
    } else {
        file_count(nodes.drop_last()) + if nodes.last().is_dir() {
            0nat
        } else {
            1nat
        }
    }
}

/// `g2` holds the nodes of `g1` under the same parents, each with its kind
/// and name; file leaves are unchanged, directories may carry another
/// checksum.
pub open spec fn grows_from(g1: Graph<GNode, ()>, g2: Graph<GNode, ()>) -> bool {
    &&& graph_nodes(g1).len() <= graph_nodes(g2).len()
    &&& forall|a: int|
        0 <= a < graph_nodes(g1).len() ==> {
            &&& (#[trigger] graph_nodes(g2)[a]).is_dir() == graph_nodes(g1)[a].is_dir()
            &&& graph_nodes(g2)[a].name_view() == graph_nodes(g1)[a].name_view()
            &&& !graph_nodes(g1)[a].is_dir() ==> graph_nodes(g2)[a] == graph_nodes(g1)[a]
        }
    &&& forall|a: int| 1 <= a < graph_nodes(g1).len() ==> #[trigger] parent_of(g2, a) == parent_of(g1, a)
}

/// The names on the way from the root down to node `n`, the root's own name
/// left out.
pub open spec fn path_of(g: Graph<GNode, ()>, n: int) -> Seq<Seq<char>>
    decreases n,
{
    if n <= 0 || n >= graph_nodes(g).len() || parent_of(g, n) < 0 || parent_of(g, n) >= n {
        Seq::empty()
    } else {
        path_of(g, parent_of(g, n)).push(graph_nodes(g)[n].name_view())
    }
}

/// The components of a path with the empty ones left out.
pub open spec fn clean_path(p: Seq<Seq<char>>) -> Seq<Seq<char>>
    decreases p.len(),
{
    if p.len() == 0 {
        Seq::empty()
    } else if p.last().len() == 0 {
        clean_path(p.drop_last())
    } else {
        clean_path(p.drop_last()).push(p.last())
    }
}

/// Empty path components are ignored: putting an empty component anywhere
/// into a path leaves its cleaned form, and so where its leaf goes, as it was.
pub proof fn lemma_empty_components_ignored(p: Seq<Seq<char>>, i: int)
    requires
        0 <= i <= p.len(),
    ensures
        clean_path(p.insert(i, Seq::empty())) == clean_path(p),
    decreases p.len(),
{
    let q = p.insert(i, Seq::empty());
    if i == p.len() {
        assert(q.drop_last() =~= p);
    } else {
        assert(q.drop_last() =~= p.drop_last().insert(i, Seq::empty()));
        assert(q.last() == p.last());
        lemma_empty_components_ignored(p.drop_last(), i);
    }
}

/// Cleaning a leading part of a path gives a leading part of the cleaned path.
pub(crate) proof fn lemma_clean_prefix(p: Seq<Seq<char>>, i: int)
    requires
        0 <= i <= p.len(),
    ensures
        clean_path(p.take(i)).len() <= clean_path(p).len(),
        clean_path(p.take(i)) == clean_path(p).take(clean_path(p.take(i)).len() as int),
    decreases p.len(),
{
    if i == p.len() {
        assert(p.take(i) =~= p);
        assert(clean_path(p).take(clean_path(p).len() as int) =~= clean_path(p));
    } else {
        assert(p.drop_last().take(i) =~= p.take(i));
        lemma_clean_prefix(p.drop_last(), i);
        let a = clean_path(p.take(i));
        let b = clean_path(p.drop_last());
        if p.last().len() > 0 {
            assert(clean_path(p) == b.push(p.last()));
            assert(b.push(p.last()).take(a.len() as int) =~= b.take(a.len() as int));
        }
    }
}

/// Every component of a cleaned path is non-empty.
pub proof fn lemma_clean_path_nonempty(p: Seq<Seq<char>>)
    ensures
        forall|i: int| 0 <= i < clean_path(p).len() ==> (#[trigger] clean_path(p)[i]).len() > 0,
    decreases p.len(),
{
    if p.len() > 0 {
        lemma_clean_path_nonempty(p.drop_last());
        let c = clean_path(p.drop_last());
        if p.last().len() > 0 {
            assert forall|i: int| 0 <= i < clean_path(p).len() implies (#[trigger] clean_path(p)[i]).len() > 0 by {
                if i < c.len() {
                    assert(clean_path(p)[i] == c[i]);
                }
            }
        }
    }
}

/// The nodes of a trace, as a set.
pub open spec fn trace_set(tr: Seq<usize>) -> Set<int> {
    Set::new(|x: int| exists|t: int| 0 <= t < tr.len() && tr[t] as int == x)
}

pub(crate) proof fn lemma_file_count_update(s: Seq<GNode>, t: int, w: GNode)
    requires
        0 <= t < s.len(),
        w.is_dir() == s[t].is_dir(),
    ensures
        file_count(s.update(t, w)) == file_count(s),
    decreases s.len(),
{
    if t < s.len() - 1 {
        assert(s.update(t, w).drop_last() =~= s.drop_last().update(t, w));
        lemma_file_count_update(s.drop_last(), t, w);
    } else {
        assert(s.update(t, w).drop_last() =~= s.drop_last());
    }
}

pub(crate) proof fn lemma_path_stable(g1: Graph<GNode, ()>, g2: Graph<GNode, ()>, x: int)
    requires
        tree_wf(g1),
        tree_wf(g2),
        grows_from(g1, g2),
        0 <= x < graph_nodes(g1).len(),
    ensures
        path_of(g2, x) == path_of(g1, x),
    decreases x,
{
    if x > 0 {
        assert(parent_of(g2, x) == parent_of(g1, x));
        assert(graph_nodes(g2)[x].name_view() == graph_nodes(g1)[x].name_view());
        lemma_path_stable(g1, g2, parent_of(g1, x));
    }
}

pub(crate) proof fn lemma_dir_for_stable(g1: Graph<GNode, ()>, g2: Graph<GNode, ()>, node: int, rec: FileRecord, d: int)
    requires
        tree_wf(g1),
        tree_wf(g2),
        grows_from(g1, g2),
        0 <= node < graph_nodes(g1).len(),
        0 <= d < graph_nodes(g1).len(),
    ensures
        dir_for(g2, node, rec, d) == dir_for(g1, node, rec, d),
{
    lemma_path_stable(g1, g2, node);
    lemma_path_stable(g1, g2, d);
}

/// In a well-formed tree no two directories share a path.
pub proof fn lemma_dir_paths_distinct(g: Graph<GNode, ()>, d1: int, d2: int)
    requires
        tree_wf(g),
        0 <= d1 < graph_nodes(g).len(),
        0 <= d2 < graph_nodes(g).len(),
        graph_nodes(g)[d1].is_dir(),
        graph_nodes(g)[d2].is_dir(),
        path_of(g, d1) == path_of(g, d2),
    ensures
        d1 == d2,
    decreases d1 + d2,
{
    if d1 == 0 && d2 == 0 {
    } else if d1 == 0 {
        assert(path_of(g, d2).len() > 0);
    } else if d2 == 0 {
        assert(path_of(g, d1).len() > 0);
    } else {
        let pa = parent_of(g, d1);
        let pb = parent_of(g, d2);
        assert(path_of(g, d1).drop_last() =~= path_of(g, pa));
        assert(path_of(g, d2).drop_last() =~= path_of(g, pb));
        assert(path_of(g, d1).last() == graph_nodes(g)[d1].name_view());
        assert(path_of(g, d2).last() == graph_nodes(g)[d2].name_view());
        lemma_dir_paths_distinct(g, pa, pb);
    }
}

/// Every leading part of a directory's path is the path of a directory.
pub(crate) proof fn lemma_ancestor_dir(g: Graph<GNode, ()>, x: int, j: int)
    requires
        tree_wf(g),
        0 <= x < graph_nodes(g).len(),
        graph_nodes(g)[x].is_dir(),
        0 <= j <= path_of(g, x).len(),
    ensures
        exists|d: int|
            0 <= d < graph_nodes(g).len() && graph_nodes(g)[d].is_dir() && path_of(g, d) == path_of(g, x).take(j),
    decreases x,
{
    if j == path_of(g, x).len() {
        assert(path_of(g, x).take(j) =~= path_of(g, x));
    } else {
        let p = parent_of(g, x);
        assert(path_of(g, x).drop_last() =~= path_of(g, p));
        lemma_ancestor_dir(g, p, j);
        let d = choose|d: int|
            0 <= d < graph_nodes(g).len() && graph_nodes(g)[d].is_dir() && path_of(g, d) == path_of(g, p).take(j);
        assert(path_of(g, p).take(j) =~= path_of(g, x).take(j));
    }
}

pub(crate) proof fn lemma_dirs_below(s: Seq<GNode>, m: int)
    requires
        1 <= m <= s.len(),
        s[0].is_dir(),
    ensures
        dirs_below(s, m).finite(),
        dirs_below(s, m).len() + file_count(s.take(m)) + 1 == m,
    decreases m,
{
    if m == 1 {
        assert(dirs_below(s, 1) =~= Set::<int>::empty());
        assert(s.take(1).drop_last() =~= Seq::<GNode>::empty());
        assert(s.take(1).last() == s[0]);
        assert(file_count(s.take(1)) == file_count(s.take(1).drop_last()));
    } else {
        lemma_dirs_below(s, m - 1);
        assert(s.take(m).drop_last() =~= s.take(m - 1));
        assert(s.take(m).last() == s[m - 1]);
        assert(file_count(s.take(m)) == file_count(s.take(m - 1)) + if s[m - 1].is_dir() {
            0nat
        } else {
            1nat
        });
        if s[m - 1].is_dir() {
            assert(!dirs_below(s, m - 1).contains(m - 1));
            assert(dirs_below(s, m) =~= dirs_below(s, m - 1).insert(m - 1));
        } else {
            assert(dirs_below(s, m) =~= dirs_below(s, m - 1));
        }
    }
}

/// Inserting records into a tree that holds only its root gives one node
/// per distinct directory path that the records name, one leaf per record
/// (leaves are never merged by name), and the root.
pub proof fn lemma_node_count(g0: Graph<GNode, ()>, g1: Graph<GNode, ()>, records: Seq<FileRecord>)
    requires
        tree_wf(g0),
        graph_nodes(g0).len() == 1,
        tree_wf(g1),
        grows_from(g0, g1),
        file_count(graph_nodes(g1)) == file_count(graph_nodes(g0)) + records.len(),
        forall|i: int| 0 <= i < records.len() ==> #[trigger] has_leaf(g1, 0, records[i]),
        forall|d: int|
            1 <= d < graph_nodes(g1).len() && graph_nodes(g1)[d].is_dir() ==> #[trigger] dir_from(g1, 0, records, d),
    ensures
        records_dirs(records).finite(),
        graph_nodes(g1).len() == 1 + records_dirs(records).len() + records.len(),
        dir_paths(g1) == records_dirs(records).insert(Seq::empty()),
{
    let s = graph_nodes(g1);
    let n = s.len() as int;
    let dirs = dirs_below(s, n);
    assert(graph_nodes(g0).drop_last() =~= Seq::<GNode>::empty());
    assert(graph_nodes(g0).last() == graph_nodes(g0)[0]);
    assert(file_count(graph_nodes(g0)) == file_count(graph_nodes(g0).drop_last()));
    lemma_dirs_below(s, n);
    assert(s.take(n) =~= s);
    let f = |d: int| path_of(g1, d);
    assert(path_of(g1, 0) =~= Seq::<Seq<char>>::empty());
    assert forall|a: int, b: int| dirs.contains(a) && dirs.contains(b) && #[trigger] f(a) == #[trigger] f(b) implies a == b by {
        lemma_dir_paths_distinct(g1, a, b);
    }
    assert forall|p: Seq<Seq<char>>| #[trigger] dirs.map(f).contains(p) implies records_dirs(records).contains(p) by {
        let d = choose|d: int| dirs.contains(d) && f(d) == p;
        assert(dir_from(g1, 0, records, d));
        let i = choose|i: int| 0 <= i < records.len() && dir_for(g1, 0, records[i], d);
        let cp = clean_path(views(records[i].path@));
        let j = choose|j: int| 1 <= j <= cp.len() && path_of(g1, d) == path_of(g1, 0) + cp.take(j);
        assert(path_of(g1, 0) + cp.take(j) =~= cp.take(j));
        assert(record_dirs(records[i]).contains(p));
    }
    assert forall|p: Seq<Seq<char>>| records_dirs(records).contains(p) implies #[trigger] dirs.map(f).contains(p) by {
        let i = choose|i: int| 0 <= i < records.len() && record_dirs(records[i]).contains(p);
        let cp = clean_path(views(records[i].path@));
        let j = choose|j: int| 1 <= j <= cp.len() && p == cp.take(j);
        assert(has_leaf(g1, 0, records[i]));
        let leaf = choose|leaf: int| holds_leaf(g1, 0, records[i], leaf);
        let x = parent_of(g1, leaf);
        assert(path_of(g1, 0) + cp =~= cp);
        assert(path_of(g1, x) == cp);
        lemma_ancestor_dir(g1, x, j);
        let d = choose|d: int| 0 <= d < n && s[d].is_dir() && path_of(g1, d) == path_of(g1, x).take(j);
        if d == 0 {
            assert(path_of(g1, d).len() == 0);
        }
        assert(dirs.contains(d));
        assert(f(d) == p);
    }
    assert(dirs.map(f) =~= records_dirs(records));
    vstd::set_lib::lemma_map_size(dirs, records_dirs(records), f);
    assert forall|p: Seq<Seq<char>>| #[trigger] dir_paths(g1).contains(p) <==> records_dirs(records).insert(Seq::empty()).contains(p) by {
        if dir_paths(g1).contains(p) {
            let d = choose|d: int| 0 <= d < n && s[d].is_dir() && path_of(g1, d) == p;
            if d != 0 {
                assert(dirs.contains(d));
                assert(dirs.map(f).contains(p));
            }
        }
        if records_dirs(records).insert(Seq::empty()).contains(p) {
            if p == Seq::<Seq<char>>::empty() {
                assert(s[0].is_dir() && path_of(g1, 0) == p);
            } else {
                assert(dirs.map(f).contains(p));
                let d = choose|d: int| dirs.contains(d) && f(d) == p;
                assert(s[d].is_dir() && path_of(g1, d) == p);
            }
        }
    }
    assert(dir_paths(g1) =~= records_dirs(records).insert(Seq::empty()));
}

/// Two insertions of the same records into trees that hold only their
/// root, whatever their order of work (record by record, or fork-join),
/// build trees of the same shape: the same directory paths and the same
/// node count, with one leaf per record in the directory its path names.
pub proof fn lemma_inserters_same_shape(
    a0: Graph<GNode, ()>,
    a1: Graph<GNode, ()>,
    b0: Graph<GNode, ()>,
    b1: Graph<GNode, ()>,
    records: Seq<FileRecord>,
)
    requires
        tree_wf(a0),
        graph_nodes(a0).len() == 1,
        tree_wf(a1),
        grows_from(a0, a1),
        file_count(graph_nodes(a1)) == file_count(graph_nodes(a0)) + records.len(),
        forall|i: int| 0 <= i < records.len() ==> #[trigger] has_leaf(a1, 0, records[i]),
        forall|d: int|
            1 <= d < graph_nodes(a1).len() && graph_nodes(a1)[d].is_dir() ==> #[trigger] dir_from(a1, 0, records, d),
        tree_wf(b0),
        graph_nodes(b0).len() == 1,
        tree_wf(b1),
        grows_from(b0, b1),
        file_count(graph_nodes(b1)) == file_count(graph_nodes(b0)) + records.len(),
        forall|i: int| 0 <= i < records.len() ==> #[trigger] has_leaf(b1, 0, records[i]),
        forall|d: int|
            1 <= d < graph_nodes(b1).len() && graph_nodes(b1)[d].is_dir() ==> #[trigger] dir_from(b1, 0, records, d),
    ensures
        dir_paths(a1) == dir_paths(b1),
        graph_nodes(a1).len() == graph_nodes(b1).len(),
{
    lemma_node_count(a0, a1, records);
    lemma_node_count(b0, b1, records);
}

/// Node `a` lies on the way from the root to node `t`, `t` itself left out.
pub open spec fn is_ancestor(g: Graph<GNode, ()>, a: int, t: int) -> bool
    decreases t,
{
    if 1 <= t < graph_nodes(g).len() && 0 <= parent_of(g, t) < t {
        parent_of(g, t) == a || is_ancestor(g, a, parent_of(g, t))
    } else {
        false
    }
}

pub(crate) proof fn lemma_ancestor_step(g: Graph<GNode, ()>, c: int, t: int)
    requires
        tree_wf(g),
        1 <= c < graph_nodes(g).len(),
        is_ancestor(g, c, t),
    ensures
        is_ancestor(g, parent_of(g, c), t),
    decreases t,
{
    if parent_of(g, t) != c {
        lemma_ancestor_step(g, c, parent_of(g, t));
    } else {
        assert(parent_of(g, c) < c);
        assert(is_ancestor(g, parent_of(g, c), c));
    }
}

/// Two consistent trees of one shape whose nodes differ only in the
/// checksum of leaf `t` give the same digest to every node that is neither
/// `t` nor one of its ancestors: no unrelated digest changes.
pub proof fn lemma_unrelated_digests_kept(g1: Graph<GNode, ()>, g2: Graph<GNode, ()>, t: int, x: int)
    requires
        tree_wf(g1),
        tree_wf(g2),
        graph_edges(g1) == graph_edges(g2),
        graph_nodes(g1).len() == graph_nodes(g2).len(),
        0 <= t < graph_nodes(g1).len(),
        !graph_nodes(g1)[t].is_dir(),
        !graph_nodes(g2)[t].is_dir(),
        forall|y: int|
            0 <= y < graph_nodes(g1).len() && y != t ==> #[trigger] graph_nodes(g2)[y].is_dir() == graph_nodes(g1)[y].is_dir(),
        forall|y: int|
            0 <= y < graph_nodes(g1).len() && y != t && (!graph_nodes(g1)[y].is_dir() || children(g1, y).len() == 0)
                ==> #[trigger] graph_nodes(g2)[y].digest() == graph_nodes(g1)[y].digest(),
        consistent_except(g1, Set::empty()),
        consistent_except(g2, Set::empty()),
        0 <= x < graph_nodes(g1).len(),
        x != t,
        !is_ancestor(g1, x, t),
    ensures
        graph_nodes(g2)[x].digest() == graph_nodes(g1)[x].digest(),
    decreases graph_nodes(g1).len() - x,
{
    if graph_nodes(g1)[x].is_dir() && children(g1, x).len() > 0 {
        lemma_children_parent(g1, x);
        let cs = children(g1, x);
        assert forall|i: int| 0 <= i < cs.len() implies graph_nodes(g2)[#[trigger] cs[i]].digest() == graph_nodes(g1)[cs[i]].digest() by {
            let c = cs[i];
            assert(parent_of(g1, c) == x);
            if c == t {
                assert(is_ancestor(g1, x, t));
            }
            if is_ancestor(g1, c, t) {
                lemma_ancestor_step(g1, c, t);
            }
            lemma_unrelated_digests_kept(g1, g2, t, c);
        }
        assert(children(g2, x) == cs);
        assert(child_digests(g2, x) =~= child_digests(g1, x));
        assert(dir_consistent(g1, x));
        assert(dir_consistent(g2, x));
    }
}

/// Node `n` is a file leaf holding `rec`'s name and checksum, in the
/// directory that `rec`'s path, empty components left out, names below
/// `node`; a record with no such component sits right under `node`.
pub open spec fn holds_leaf(g: Graph<GNode, ()>, node: int, rec: FileRecord, n: int) -> bool {
    &&& 1 <= n < graph_nodes(g).len()
    &&& !graph_nodes(g)[n].is_dir()
    &&& graph_nodes(g)[n].name_view() == rec.name@
    &&& graph_nodes(g)[n].digest() == rec.checksum@
    &&& path_of(g, parent_of(g, n)) == path_of(g, node) + clean_path(views(rec.path@))
    &&& clean_path(views(rec.path@)).len() == 0 ==> parent_of(g, n) == node
}

/// Directory `d` lies on `rec`'s path below `node`: its path is `node`'s
/// followed by a non-empty leading part of `rec`'s cleaned path.
pub open spec fn dir_for(g: Graph<GNode, ()>, node: int, rec: FileRecord, d: int) -> bool {
    exists|j: int|
        1 <= j <= clean_path(views(rec.path@)).len() && path_of(g, d) == path_of(g, node) + clean_path(
            views(rec.path@),
        ).take(j)
}

/// Directory `d` lies on the path of one of `records` below `node`.
pub open spec fn dir_from(g: Graph<GNode, ()>, node: int, records: Seq<FileRecord>, d: int) -> bool {
    exists|i: int| 0 <= i < records.len() && dir_for(g, node, records[i], d)
}

/// The directory paths that a record names: each non-empty leading part of
/// its cleaned path.
pub open spec fn record_dirs(rec: FileRecord) -> Set<Seq<Seq<char>>> {
    Set::new(
        |p: Seq<Seq<char>>|
            exists|j: int|
                1 <= j <= clean_path(views(rec.path@)).len() && p == clean_path(views(rec.path@)).take(j),
    )
}

/// The distinct directory paths that the records name.
pub open spec fn records_dirs(records: Seq<FileRecord>) -> Set<Seq<Seq<char>>> {
    Set::new(|p: Seq<Seq<char>>| exists|i: int| 0 <= i < records.len() && record_dirs(records[i]).contains(p))
}

/// The directories of `s` other than the one at index 0, below index `m`.
pub open spec fn dirs_below(s: Seq<GNode>, m: int) -> Set<int> {
    Set::new(|d: int| 1 <= d < m && s[d].is_dir())
}

/// `ls` gives each of `records` a leaf of its own, all at index `from` or
/// later: no two records share a leaf.
pub open spec fn own_leaves(g: Graph<GNode, ()>, node: int, records: Seq<FileRecord>, ls: Seq<int>, from: int) -> bool {
    &&& ls.len() == records.len()
    &&& forall|i: int| 0 <= i < ls.len() ==> from <= #[trigger] ls[i] && holds_leaf(g, node, records[i], ls[i])
    &&& forall|i: int, j: int| 0 <= i < ls.len() && 0 <= j < ls.len() && i != j ==> ls[i] != ls[j]
}

/// Some node of `g` is a leaf for `rec` below `node`.
pub open spec fn has_leaf(g: Graph<GNode, ()>, node: int, rec: FileRecord) -> bool {
    exists|n: int| holds_leaf(g, node, rec, n)
}

/// The most nodes that inserting `records` can add: one per path component
/// and one per record.
pub open spec fn insert_cost(records: Seq<FileRecord>) -> int
    decreases records.len(),
{
    if records.len() == 0 {
        0
    } else {
        insert_cost(records.drop_last()) + records.last().path@.len() + 1
    }
}

/// The directories that do not carry the digest of their children.
pub open spec fn inconsistent_dirs(g: Graph<GNode, ()>) -> Set<int> {
    Set::new(|d: int| 0 <= d < graph_nodes(g).len() && !dir_consistent(g, d))
}

/// The parent of `node`, or nothing for the root.
pub open spec fn above(g: Graph<GNode, ()>, node: int) -> Set<int> {
    if node == 0 {
        Set::empty()
    } else {
        set![parent_of(g, node)]
    }
}

pub(crate) proof fn lemma_trace_set_push(tr: Seq<usize>, x: usize)
    ensures
        trace_set(tr.push(x)) == trace_set(tr).insert(x as int),
{
    let tr2 = tr.push(x);
    assert forall|y: int| trace_set(tr2).contains(y) implies trace_set(tr).insert(x as int).contains(y) by {
        let t = choose|t: int| 0 <= t < tr2.len() && #[trigger] tr2[t] as int == y;
        if t < tr.len() {
            assert(tr[t] == tr2[t]);
        }
    }
    assert forall|y: int| trace_set(tr).insert(x as int).contains(y) implies trace_set(tr2).contains(y) by {
        if y != x as int {
            let t = choose|t: int| 0 <= t < tr.len() && #[trigger] tr[t] as int == y;
            assert(tr2[t] == tr[t]);
        } else {
            assert(tr2[tr.len() as int] as int == y);
        }
    }
    assert(trace_set(tr2) =~= trace_set(tr).insert(x as int));
}

pub(crate) proof fn lemma_grows_trans(g1: Graph<GNode, ()>, g2: Graph<GNode, ()>, g3: Graph<GNode, ()>)
    requires
        grows_from(g1, g2),
        grows_from(g2, g3),
    ensures
        grows_from(g1, g3),
{
    assert forall|a: int| 0 <= a < graph_nodes(g1).len() implies {
        &&& (#[trigger] graph_nodes(g3)[a]).is_dir() == graph_nodes(g1)[a].is_dir()
        &&& graph_nodes(g3)[a].name_view() == graph_nodes(g1)[a].name_view()
        &&& !graph_nodes(g1)[a].is_dir() ==> graph_nodes(g3)[a] == graph_nodes(g1)[a]
    } by {
        assert(graph_nodes(g2)[a].is_dir() == graph_nodes(g1)[a].is_dir());
    }
    assert forall|a: int| 1 <= a < graph_nodes(g1).len() implies #[trigger] parent_of(g3, a) == parent_of(g1, a) by {
        assert(parent_of(g2, a) == parent_of(g1, a));
    }
}

pub(crate) proof fn lemma_holds_leaf_stable(
    g1: Graph<GNode, ()>,
    g2: Graph<GNode, ()>,
    node: int,
    rec: FileRecord,
    n: int,
)
    requires
        tree_wf(g1),
        tree_wf(g2),
        grows_from(g1, g2),
        0 <= node < graph_nodes(g1).len(),
        holds_leaf(g1, node, rec, n),
    ensures
        holds_leaf(g2, node, rec, n),
{
    assert(graph_nodes(g2)[n] == graph_nodes(g1)[n]);
    assert(parent_of(g2, n) == parent_of(g1, n));
    lemma_path_stable(g1, g2, node);
    lemma_path_stable(g1, g2, parent_of(g1, n));
}

pub(crate) proof fn lemma_insert_cost_prefix(records: Seq<FileRecord>, i: int)
    requires
        0 <= i < records.len(),
    ensures
        insert_cost(records.take(i + 1)) == insert_cost(records.take(i)) + records[i].path@.len() + 1,
        insert_cost(records.take(i + 1)) <= insert_cost(records),
    decreases records.len(),
{
    assert(records.take(i + 1).drop_last() =~= records.take(i));
    if i + 1 < records.len() {
        assert(records.drop_last().take(i + 1) =~= records.take(i + 1));
        assert(records.drop_last().take(i) =~= records.take(i));
        lemma_insert_cost_prefix(records.drop_last(), i);
    } else {
        assert(records.take(i + 1) =~= records);
    }
}

/// The paths below `node` of the directories that the records name.
pub open spec fn named_dir_paths(g: Graph<GNode, ()>, node: int, records: Seq<FileRecord>) -> Set<Seq<Seq<char>>> {
    Set::new(|p: Seq<Seq<char>>| exists|q: Seq<Seq<char>>| records_dirs(records).contains(q) && p == path_of(g, node) + q)
}

/// The paths of the directories of `g`.
pub open spec fn dir_paths(g: Graph<GNode, ()>) -> Set<Seq<Seq<char>>> {
    Set::new(
        |p: Seq<Seq<char>>|
            exists|d: int| 0 <= d < graph_nodes(g).len() && graph_nodes(g)[d].is_dir() && path_of(g, d) == p,
    )
}

/// Inserting records below `node` adds exactly one leaf per record and one
/// directory per directory path that the records name below `node` and the
/// tree did not hold yet.
pub proof fn lemma_node_count_growth(g0: Graph<GNode, ()>, g1: Graph<GNode, ()>, node: int, records: Seq<FileRecord>)
    requires
        tree_wf(g0),
        tree_wf(g1),
        grows_from(g0, g1),
        0 <= node < graph_nodes(g0).len(),
        graph_nodes(g0)[node].is_dir(),
        file_count(graph_nodes(g1)) == file_count(graph_nodes(g0)) + records.len(),
        forall|i: int| 0 <= i < records.len() ==> #[trigger] has_leaf(g1, node, records[i]),
        forall|d: int|
            graph_nodes(g0).len() <= d < graph_nodes(g1).len() && graph_nodes(g1)[d].is_dir() ==> #[trigger] dir_from(
                g1,
                node,
                records,
                d,
            ),
    ensures
        named_dir_paths(g0, node, records).difference(dir_paths(g0)).finite(),
        graph_nodes(g1).len() == graph_nodes(g0).len() + records.len() + named_dir_paths(g0, node, records).difference(
            dir_paths(g0),
        ).len(),
{
    let s0 = graph_nodes(g0);
    let s1 = graph_nodes(g1);
    let m = s0.len() as int;
    let n = s1.len() as int;
    let target = named_dir_paths(g0, node, records).difference(dir_paths(g0));
    lemma_dirs_below(s0, m);
    lemma_dirs_below(s1, n);
    assert(s0.take(m) =~= s0);
    assert(s1.take(n) =~= s1);
    let d0 = dirs_below(s0, m);
    let d1m = dirs_below(s1, m);
    let fresh = Set::new(|d: int| m <= d < n && s1[d].is_dir());
    assert forall|d: int| d1m.contains(d) <==> d0.contains(d) by {
        if 1 <= d < m {
            assert(s1[d].is_dir() == s0[d].is_dir());
        }
    }
    assert(d1m =~= d0);
    assert(dirs_below(s1, n) =~= d1m + fresh);
    vstd::set_lib::lemma_len_subset(fresh, dirs_below(s1, n));
    assert(d1m.disjoint(fresh));
    vstd::set_lib::lemma_set_disjoint_lens(d1m, fresh);
    lemma_path_stable(g0, g1, node);
    let f = |d: int| path_of(g1, d);
    assert forall|a: int, b: int| fresh.contains(a) && fresh.contains(b) && #[trigger] f(a) == #[trigger] f(b) implies a == b by {
        lemma_dir_paths_distinct(g1, a, b);
    }
    assert forall|p: Seq<Seq<char>>| #[trigger] fresh.map(f).contains(p) implies target.contains(p) by {
        let d = choose|d: int| fresh.contains(d) && f(d) == p;
        assert(dir_from(g1, node, records, d));
        let i = choose|i: int| 0 <= i < records.len() && dir_for(g1, node, records[i], d);
        let cp = clean_path(views(records[i].path@));
        let j = choose|j: int| 1 <= j <= cp.len() && path_of(g1, d) == path_of(g1, node) + cp.take(j);
        assert(record_dirs(records[i]).contains(cp.take(j)));
        assert(records_dirs(records).contains(cp.take(j)));
        assert(named_dir_paths(g0, node, records).contains(p));
        if dir_paths(g0).contains(p) {
            let e = choose|e: int| 0 <= e < m && s0[e].is_dir() && path_of(g0, e) == p;
            lemma_path_stable(g0, g1, e);
            assert(s1[e].is_dir() == s0[e].is_dir());
            lemma_dir_paths_distinct(g1, d, e);
        }
    }
    assert forall|p: Seq<Seq<char>>| target.contains(p) implies #[trigger] fresh.map(f).contains(p) by {
        let q = choose|q: Seq<Seq<char>>| records_dirs(records).contains(q) && p == path_of(g0, node) + q;
        let i = choose|i: int| 0 <= i < records.len() && record_dirs(records[i]).contains(q);
        let cp = clean_path(views(records[i].path@));
        let j = choose|j: int| 1 <= j <= cp.len() && q == cp.take(j);
        assert(has_leaf(g1, node, records[i]));
        let leaf = choose|leaf: int| holds_leaf(g1, node, records[i], leaf);
        let x = parent_of(g1, leaf);
        let base = path_of(g1, node);
        assert(path_of(g1, x) == base + cp);
        lemma_ancestor_dir(g1, x, base.len() + j);
        let d = choose|d: int| 0 <= d < n && s1[d].is_dir() && path_of(g1, d) == path_of(g1, x).take(base.len() + j);
        assert((base + cp).take(base.len() + j) =~= base + cp.take(j));
        assert(path_of(g1, d) == p);
        if d < m {
            lemma_path_stable(g0, g1, d);
            assert(s1[d].is_dir() == s0[d].is_dir());
            assert(dir_paths(g0).contains(p));
        }
        assert(fresh.contains(d));
        assert(f(d) == p);
    }
    assert(fresh.map(f) =~= target);
    vstd::set_lib::lemma_map_size(fresh, target, f);
}

} // verus!
