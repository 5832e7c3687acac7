use vstd::prelude::*;
use petgraph::graph::Graph;
use crate::digest::{combine_digests, combined_digest, str_eq, views};
use crate::tree::{
    above, own_leaves, child_digests, children, clean_path, consistent_except, dir_consistent, dir_for,
    dir_from, file_count, grows_from, has_leaf, holds_leaf, inconsistent_dirs, insert_cost,
    lemma_children_parent, lemma_clean_prefix, lemma_dir_for_stable, lemma_dir_paths_distinct, lemma_file_count_update,
    lemma_grows_trans, lemma_holds_leaf_stable, lemma_insert_cost_prefix, lemma_path_stable,
    lemma_push_child, lemma_set_checksum, lemma_trace_set_push, parent_of, path_of, trace_set,
    tree_wf,
};
use crate::graph::{
    empty_graph, graph_edges, graph_nodes, neighbor_indices, node_at, push_edge, push_node,
    set_node,
};

verus! {

/// A file as the scanner reports it: its content checksum, its name, the
/// directory components from the root to the file's directory, and its
/// modification time in milliseconds since the Unix epoch.
#[derive(Debug)]
pub struct FileRecord {
    pub checksum: String,
    pub name: String,
    pub path: Vec<String>,
    pub modified: i64,
}

/// A node of the directory tree: a directory, whose checksum is derived from
/// its children, or a file leaf, whose checksum comes from the file contents.
#[derive(Debug, Clone)]
pub enum GNode {
    DirNode { name: String, checksum: String },
    FileLeaf { name: String, checksum: String, id: u32 },
}

impl GNode {
    pub open spec fn is_dir(self) -> bool {
        self is DirNode
    }

    pub open spec fn name_view(self) -> Seq<char> {
        match self {
            GNode::DirNode { name, .. } => name@,
            GNode::FileLeaf { name, .. } => name@,
        }
    }

    /// The node's label for a graph export: "Directory-" or "File-", then
    /// its name.
    pub fn label(&self) -> (r: String)
        ensures
            r@ == (if self.is_dir() {
                "Directory-"@
            } else {
                "File-"@
            }) + self.name_view(),
    {
        match self {
            GNode::DirNode { name, .. } => {
                let mut s = String::from_str("Directory-");
                s.append(name.as_str());
                s
            },
            GNode::FileLeaf { name, .. } => {
                let mut s = String::from_str("File-");
                s.append(name.as_str());
                s
            },
        }
    }

    pub open spec fn digest(self) -> Seq<char> {
        match self {
            GNode::DirNode { checksum, .. } => checksum@,
            GNode::FileLeaf { checksum, .. } => checksum@,
        }
    }
}

/// The directory child of `cursor` named `key`, if there is one; file
/// children never match.
fn is_linked(g: &Graph<GNode, ()>, cursor: usize, key: &str) -> (r: Option<usize>)
    requires
        tree_wf(*g),
        cursor < graph_nodes(*g).len(),
    ensures
        match r {
            Some(c) => {
                &&& children(*g, cursor as int).contains(c as int)
                &&& graph_nodes(*g)[c as int].is_dir()
                &&& graph_nodes(*g)[c as int].name_view() == key@
            },
            None => forall|c: int|
                #[trigger] children(*g, cursor as int).contains(c) ==> !(graph_nodes(*g)[c].is_dir()
                    && graph_nodes(*g)[c].name_view() == key@),
        },
{
    proof {
        lemma_children_parent(*g, cursor as int);
    }
    let kids = neighbor_indices(g, cursor);
    let ghost cs = children(*g, cursor as int);
    assert(cs.len() == kids@.len());
    let mut i: usize = 0;
    while i < kids.len()
        invariant
            i <= kids.len(),
            kids@.map_values(|x: usize| x as int) == cs,
            cs == children(*g, cursor as int),
            tree_wf(*g),
            forall|j: int| 0 <= j < cs.len() ==> 1 <= #[trigger] cs[j] < graph_nodes(*g).len(),
            forall|j: int|
                0 <= j < i ==> !(graph_nodes(*g)[#[trigger] cs[j]].is_dir() && graph_nodes(*g)[cs[j]].name_view()
                    == key@),
        decreases kids.len() - i,
    {
        let c = kids[i];
        assert(cs[i as int] == c as int);
        match node_at(g, c) {
            GNode::DirNode { name, .. } => {
                if str_eq(name.as_str(), key) {
                    return Some(c);
                }
            },
            GNode::FileLeaf { .. } => {},
        }
        i = i + 1;
    }
    proof {
        assert forall|c: int| #[trigger] cs.contains(c) implies !(graph_nodes(*g)[c].is_dir()
            && graph_nodes(*g)[c].name_view() == key@) by {
            let j = choose|j: int| 0 <= j < cs.len() && cs[j] == c;
        }
    }
    None
}

/// The checksum that node `a` carries.
fn checksum_at(g: &Graph<GNode, ()>, a: usize) -> (r: String)
    requires
        a < graph_nodes(*g).len(),
    ensures
        r@ == graph_nodes(*g)[a as int].digest(),
{
    match node_at(g, a) {
        GNode::DirNode { checksum, .. } => checksum.clone(),
        GNode::FileLeaf { checksum, .. } => checksum.clone(),
    }
}

/// The combined digest of the children of `cursor`.
fn calculate_hash(g: &Graph<GNode, ()>, cursor: usize) -> (r: String)
    requires
        tree_wf(*g),
        cursor < graph_nodes(*g).len(),
    ensures
        r@ == combined_digest(child_digests(*g, cursor as int)),
        r@.len() == 32,
{
    proof {
        lemma_children_parent(*g, cursor as int);
    }
    let kids = neighbor_indices(g, cursor);
    let ghost cs = children(*g, cursor as int);
    let ghost ds = child_digests(*g, cursor as int);
    assert(cs.len() == kids@.len());
    let mut buff: Vec<String> = Vec::new();
    let mut i: usize = 0;
    while i < kids.len()
        invariant
            i <= kids.len(),
            kids@.map_values(|x: usize| x as int) == cs,
            ds == child_digests(*g, cursor as int),
            cs == children(*g, cursor as int),
            forall|j: int| 0 <= j < cs.len() ==> 1 <= #[trigger] cs[j] < graph_nodes(*g).len(),
            views(buff@) == ds.take(i as int),
        decreases kids.len() - i,
    {
        let c = kids[i];
        assert(cs[i as int] == c as int);
        let d = checksum_at(g, c);
        assert(ds[i as int] == d@);
        let ghost before = buff@;
        buff.push(d);
        assert(views(buff@) =~= views(before).push(ds[i as int]));
        assert(ds.take(i + 1) =~= ds.take(i as int).push(ds[i as int]));
        i = i + 1;
    }
    assert(ds.take(kids.len() as int) =~= ds);
    combine_digests(&buff)
}

/// The directory tree: a petgraph graph whose node `root` is the root
/// directory.
#[derive(Debug)]
pub struct GraphStorage {
    pub graph: Graph<GNode, ()>,
    pub root: usize,
}

impl GraphStorage {
    pub open spec fn wf(&self) -> bool {
        self.root == 0 && tree_wf(self.graph)
    }

    pub open spec fn nodes(&self) -> Seq<GNode> {
        graph_nodes(self.graph)
    }

    pub open spec fn edges(&self) -> Seq<(int, int)> {
        graph_edges(self.graph)
    }

    /// Whether `node` is a directory of this tree.
    pub open spec fn is_dir_node(&self, node: int) -> bool {
        0 <= node < self.nodes().len() && self.nodes()[node].is_dir()
    }

    /// The node count.
    pub fn node_count(&self) -> (r: usize)
        requires
            self.wf(),
        ensures
            r == self.nodes().len(),
    {
        proof {
            lemma_children_parent(self.graph, self.root as int);
        }
        self.edge_total() + 1
    }

    fn edge_total(&self) -> (r: usize)
        requires
            self.wf(),
        ensures
            r == self.edges().len(),
    {
        edge_count(&self.graph)
    }
}

/// Relies on `Graph::edge_count`: the number of edges.
#[verifier::external_body]
fn edge_count(g: &Graph<GNode, ()>) -> (r: usize)
    ensures
        r == graph_edges(*g).len(),
{
    g.edge_count()
}

/// A tree that holds only its root: a directory named "root" with an empty
/// checksum.
pub fn initialise_graph() -> (r: GraphStorage)
    ensures
        r.wf(),
        r.nodes().len() == 1,
        r.nodes()[0].is_dir(),
        r.nodes()[0].name_view() == "root"@,
        r.nodes()[0].digest() == Seq::<char>::empty(),
        consistent_except(r.graph, Set::empty()),
{
    let mut g = empty_graph();
    let root_index = push_node(
        &mut g,
        GNode::DirNode { name: String::from_str("root"), checksum: String::new() },
    );
    proof {
        assert forall|d: int| 0 <= d < graph_nodes(g).len() && !Set::<int>::empty().contains(d) implies #[trigger] dir_consistent(g, d) by {
            assert(children(g, d) =~= Seq::<int>::empty());
        }
    }
    GraphStorage { graph: g, root: root_index }
}

impl GraphStorage {
    /// Attaches a new file leaf under the directory `node`. Leaves are never
    /// merged: a sibling of the same name is left as it is.
    pub fn attach_leaf(&mut self, node: usize, name: String, checksum: String) -> (r: usize)
        requires
            old(self).wf(),
            old(self).is_dir_node(node as int),
            old(self).nodes().len() < u32::MAX,
        ensures
            final(self).wf(),
            r == old(self).nodes().len(),
            final(self).nodes() == old(self).nodes().push(
                (GNode::FileLeaf { name: name, checksum: checksum, id: 0 }),
            ),
            final(self).edges() == old(self).edges().push((node as int, r as int)),
            parent_of(final(self).graph, r as int) == node,
            grows_from(old(self).graph, final(self).graph),
            file_count(final(self).nodes()) == file_count(old(self).nodes()) + 1,
            forall|d: int|
                0 <= d < old(self).nodes().len() && d != node ==> #[trigger] dir_consistent(
                    final(self).graph,
                    d,
                ) == dir_consistent(old(self).graph, d),
    {
        let ghost g1 = self.graph;
        let leaf = GNode::FileLeaf { name: name, checksum: checksum, id: 0 };
        let n = push_node(&mut self.graph, leaf);
        push_edge(&mut self.graph, node, n);
        proof {
            lemma_push_child(g1, self.graph, node as int, leaf);
            assert(graph_nodes(self.graph).drop_last() =~= graph_nodes(g1));
        }
        n
    }

    /// The directory child of `node` named `key`, created with the
    /// placeholder checksum "NA" when there is none.
    pub fn find_or_create_dir(&mut self, node: usize, key: &str) -> (r: usize)
        requires
            old(self).wf(),
            old(self).is_dir_node(node as int),
            old(self).nodes().len() < u32::MAX,
        ensures
            final(self).wf(),
            final(self).is_dir_node(r as int),
            1 <= r,
            parent_of(final(self).graph, r as int) == node,
            final(self).nodes()[r as int].name_view() == key@,
            r < old(self).nodes().len() ==> *final(self) == *old(self),
            r >= old(self).nodes().len() ==> {
                &&& r == old(self).nodes().len()
                &&& final(self).nodes().len() == r + 1
                &&& final(self).nodes()[r as int].digest() == "NA"@
                &&& children(final(self).graph, r as int).len() == 0
            },
            grows_from(old(self).graph, final(self).graph),
            file_count(final(self).nodes()) == file_count(old(self).nodes()),
            forall|a: int| 0 <= a < old(self).nodes().len() ==> #[trigger] final(self).nodes()[a] == old(self).nodes()[a],
            forall|d: int|
                0 <= d < old(self).nodes().len() && d != node ==> #[trigger] dir_consistent(
                    final(self).graph,
                    d,
                ) == dir_consistent(old(self).graph, d),
    {
        let ghost g1 = self.graph;
        match is_linked(&self.graph, node, key) {
            Some(c) => {
                proof {
                    lemma_children_parent(g1, node as int);
                    let k = choose|k: int| 0 <= k < children(g1, node as int).len() && children(g1, node as int)[k] == c;
                }
                c
            },
            None => {
                let dir = GNode::DirNode { name: String::from_str(key), checksum: String::from_str("NA") };
                let n = push_node(&mut self.graph, dir);
                push_edge(&mut self.graph, node, n);
                proof {
                    lemma_push_child(g1, self.graph, node as int, dir);
                    assert(graph_nodes(self.graph).drop_last() =~= graph_nodes(g1));
                    assert forall|a: int| 0 <= a < graph_nodes(g1).len() implies #[trigger] graph_nodes(self.graph)[a] == graph_nodes(g1)[a] by {
                        assert(graph_nodes(self.graph).drop_last()[a] == graph_nodes(self.graph)[a]);
                    }
                }
                n
            },
        }
    }

    /// Recomputes the checksum of the directory `node` from its children.
    pub fn update_digest(&mut self, node: usize)
        requires
            old(self).wf(),
            old(self).is_dir_node(node as int),
        ensures
            final(self).wf(),
            final(self).edges() == old(self).edges(),
            final(self).nodes().len() == old(self).nodes().len(),
            final(self).nodes()[node as int].is_dir(),
            final(self).nodes()[node as int].name_view() == old(self).nodes()[node as int].name_view(),
            final(self).nodes()[node as int].digest() == combined_digest(
                child_digests(old(self).graph, node as int),
            ),
            final(self).nodes()[node as int].digest().len() == 32,
            forall|i: int| 0 <= i < old(self).nodes().len() && i != node ==> #[trigger] final(self).nodes()[i] == old(self).nodes()[i],
            dir_consistent(final(self).graph, node as int),
            grows_from(old(self).graph, final(self).graph),
            file_count(final(self).nodes()) == file_count(old(self).nodes()),
            forall|d: int|
                0 <= d < old(self).nodes().len() && d != node && (node == 0 || d != parent_of(
                    old(self).graph,
                    node as int,
                )) ==> #[trigger] dir_consistent(final(self).graph, d) == dir_consistent(old(self).graph, d),
    {
        let ghost g1 = self.graph;
        let checksum = calculate_hash(&self.graph, node);
        let name = match node_at(&self.graph, node) {
            GNode::DirNode { name, .. } => name.clone(),
            GNode::FileLeaf { name, .. } => name.clone(),
        };
        let dir = GNode::DirNode { name, checksum };
        set_node(&mut self.graph, node, dir);
        proof {
            lemma_set_checksum(g1, self.graph, node as int, dir);
            lemma_file_count_update(graph_nodes(g1), node as int, dir);
            assert(child_digests(self.graph, node as int) =~= child_digests(g1, node as int)) by {
                lemma_children_parent(g1, node as int);
                assert forall|i: int| 0 <= i < children(g1, node as int).len() implies #[trigger] children(g1, node as int)[i] != node by {
                    assert(parent_of(g1, children(g1, node as int)[i]) == node);
                }
            }
        }
    }
}

impl GraphStorage {
    /// Recomputes the digests of the directories of a walk, innermost first.
    #[verifier::rlimit(100)]
    fn refresh_trace(&mut self, trace: &Vec<usize>, Ghost(bad): Ghost<Set<int>>)
        requires
            old(self).wf(),
            trace@.len() >= 1,
            forall|t: int| 0 <= t < trace@.len() ==> old(self).is_dir_node(#[trigger] trace@[t] as int),
            forall|t: int|
                1 <= t < trace@.len() ==> 1 <= #[trigger] trace@[t] && parent_of(old(self).graph, trace@[t] as int)
                    == trace@[t - 1],
            forall|t1: int, t2: int| 0 <= t1 < t2 < trace@.len() ==> trace@[t1] < trace@[t2],
            trace@[0] == 0 || bad.contains(parent_of(old(self).graph, trace@[0] as int)),
            consistent_except(old(self).graph, bad.union(trace_set(trace@))),
        ensures
            final(self).wf(),
            grows_from(old(self).graph, final(self).graph),
            final(self).nodes().len() == old(self).nodes().len(),
            file_count(final(self).nodes()) == file_count(old(self).nodes()),
            consistent_except(final(self).graph, bad),
            forall|t: int| 0 <= t < trace@.len() ==> dir_consistent(final(self).graph, #[trigger] trace@[t] as int),
            forall|a: int|
                0 <= a < old(self).nodes().len() && !trace_set(trace@).contains(a) ==> #[trigger] final(self).nodes()[a]
                    == old(self).nodes()[a],
    {
        let ghost g0 = self.graph;
        let mut j: usize = trace.len();
        proof {
            assert(trace@.take(trace@.len() as int) =~= trace@);
        }
        while j > 0
            invariant
                self.wf(),
                tree_wf(g0),
                j <= trace@.len(),
                trace@.len() >= 1,
                graph_nodes(self.graph).len() == graph_nodes(g0).len(),
                grows_from(g0, self.graph),
                file_count(self.nodes()) == file_count(graph_nodes(g0)),
                forall|t: int| 0 <= t < trace@.len() ==> self.is_dir_node(#[trigger] trace@[t] as int),
                forall|t: int|
                    1 <= t < trace@.len() ==> 1 <= #[trigger] trace@[t] && parent_of(self.graph, trace@[t] as int)
                        == trace@[t - 1],
                forall|t1: int, t2: int| 0 <= t1 < t2 < trace@.len() ==> trace@[t1] < trace@[t2],
                trace@[0] == 0 || bad.contains(parent_of(self.graph, trace@[0] as int)),
                consistent_except(self.graph, bad.union(trace_set(trace@.take(j as int)))),
                forall|t: int| j <= t < trace@.len() ==> dir_consistent(self.graph, #[trigger] trace@[t] as int),
                forall|a: int|
                    0 <= a < graph_nodes(g0).len() && !trace_set(trace@).contains(a) ==> #[trigger] graph_nodes(self.graph)[a]
                        == graph_nodes(g0)[a],
            decreases j,
        {
            j = j - 1;
            let t = trace[j];
            let ghost g3 = self.graph;
            self.update_digest(t);
            proof {
                lemma_grows_trans(g0, g3, self.graph);
                assert(trace@[j as int] == t);
                assert forall|d: int| 0 <= d < graph_nodes(self.graph).len() && !bad.union(trace_set(trace@.take(j as int))).contains(d) implies #[trigger] dir_consistent(self.graph, d) by {
                    if d != t {
                        if j > 0 {
                            assert(parent_of(g3, t as int) == trace@[j - 1]);
                            assert(trace@.take(j as int)[j - 1] == trace@[j - 1]);
                            assert(trace_set(trace@.take(j as int)).contains(trace@[j - 1] as int));
                        }
                        assert(!trace_set(trace@.take(j + 1)).contains(d)) by {
                            if trace_set(trace@.take(j + 1)).contains(d) {
                                let k = choose|k: int| 0 <= k < j + 1 && #[trigger] trace@.take(j + 1)[k] as int == d;
                                assert(trace@.take(j as int)[k] == trace@[k]);
                            }
                        }
                        assert(dir_consistent(g3, d));
                    }
                }
                assert forall|t2: int| 0 <= t2 < trace@.len() implies self.is_dir_node(#[trigger] trace@[t2] as int) by {
                    assert(graph_nodes(g3)[trace@[t2] as int].is_dir());
                }
                assert forall|t2: int| 1 <= t2 < trace@.len() implies 1 <= #[trigger] trace@[t2] && parent_of(self.graph, trace@[t2] as int) == trace@[t2 - 1] by {
                    assert(parent_of(g3, trace@[t2] as int) == trace@[t2 - 1]);
                }
                if trace@[0] != 0 {
                    assert(parent_of(self.graph, trace@[0] as int) == parent_of(g3, trace@[0] as int));
                }
                assert forall|t2: int| j <= t2 < trace@.len() implies dir_consistent(self.graph, #[trigger] trace@[t2] as int) by {
                    if t2 > j {
                        assert(trace@[j as int] < trace@[t2]);
                        if t != 0 {
                            assert(parent_of(g3, t as int) < t);
                        }
                        assert(dir_consistent(g3, trace@[t2] as int));
                    }
                }
                assert forall|a: int|
                    0 <= a < graph_nodes(g0).len() && !trace_set(trace@).contains(a) implies #[trigger] graph_nodes(self.graph)[a]
                        == graph_nodes(g0)[a] by {
                    if a == t as int {
                        assert(trace_set(trace@).contains(a));
                    }
                    assert(graph_nodes(self.graph)[a] == graph_nodes(g3)[a]);
                }
            }
        }
        proof {
            assert forall|d: int| 0 <= d < graph_nodes(self.graph).len() && !bad.contains(d) implies #[trigger] dir_consistent(self.graph, d) by {
                assert(trace@.take(0) =~= Seq::<usize>::empty());
                assert(!trace_set(trace@.take(0)).contains(d));
            }
        }
    }

    /// Inserts one record under `node`: walks its path from `node`, skipping
    /// empty components and creating missing directories, attaches the leaf,
    /// then recomputes the digests along the walk, innermost first.
    #[verifier::rlimit(100)]
    fn insert_record(&mut self, node: usize, record: &FileRecord, Ghost(bad): Ghost<Set<int>>)
        requires
            old(self).wf(),
            old(self).is_dir_node(node as int),
            old(self).nodes().len() + record.path@.len() + 1 <= u32::MAX,
            consistent_except(old(self).graph, bad),
            node == 0 || bad.contains(parent_of(old(self).graph, node as int)),
        ensures
            final(self).wf(),
            consistent_except(final(self).graph, bad),
            grows_from(old(self).graph, final(self).graph),
            final(self).nodes().len() <= old(self).nodes().len() + record.path@.len() + 1,
            file_count(final(self).nodes()) == file_count(old(self).nodes()) + 1,
            holds_leaf(final(self).graph, node as int, *record, final(self).nodes().len() - 1),
            forall|d: int|
                old(self).nodes().len() <= d < final(self).nodes().len() && final(self).nodes()[d].is_dir()
                    ==> #[trigger] dir_for(final(self).graph, node as int, *record, d),
            old(self).nodes().len() < final(self).nodes().len(),
            dir_consistent(final(self).graph, node as int),
            forall|d: int|
                0 <= d < final(self).nodes().len() && final(self).nodes()[d].is_dir() && #[trigger] dir_for(
                    final(self).graph,
                    node as int,
                    *record,
                    d,
                ) ==> dir_consistent(final(self).graph, d),
            forall|a: int|
                0 <= a < old(self).nodes().len() && a != node && !dir_for(final(self).graph, node as int, *record, a)
                    ==> #[trigger] final(self).nodes()[a] == old(self).nodes()[a],
    {
        let ghost g0 = self.graph;
        let ghost comps = views(record.path@);
        let mut trace: Vec<usize> = Vec::new();
        trace.push(node);
        let mut cur = node;
        let mut i: usize = 0;
        proof {
            assert(comps.take(0) =~= Seq::<Seq<char>>::empty());
            assert(path_of(g0, node as int) + Seq::<Seq<char>>::empty() =~= path_of(g0, node as int));
            assert(clean_path(comps.take(0)).take(0) =~= Seq::<Seq<char>>::empty());
            assert(trace@[0] == node);
            assert forall|d: int| 0 <= d < graph_nodes(self.graph).len() && !bad.union(trace_set(trace@)).contains(d) implies #[trigger] dir_consistent(self.graph, d) by {
                assert(!bad.contains(d));
            }
        }
        while i < record.path.len()
            invariant
                self.wf(),
                i <= record.path@.len(),
                comps == views(record.path@),
                tree_wf(g0),
                graph_nodes(self.graph).len() <= graph_nodes(g0).len() + i,
                graph_nodes(g0).len() + record.path@.len() + 1 <= u32::MAX,
                0 <= node < graph_nodes(g0).len(),
                grows_from(g0, self.graph),
                file_count(self.nodes()) == file_count(graph_nodes(g0)),
                trace@.len() >= 1,
                trace@[0] == node,
                trace@.last() == cur,
                forall|t: int| 0 <= t < trace@.len() ==> self.is_dir_node(#[trigger] trace@[t] as int),
                forall|t: int| 1 <= t < trace@.len() ==> 1 <= #[trigger] trace@[t] && parent_of(self.graph, trace@[t] as int) == trace@[t - 1],
                consistent_except(self.graph, bad.union(trace_set(trace@))),
                path_of(self.graph, cur as int) == path_of(g0, node as int) + clean_path(comps.take(i as int)),
                clean_path(comps.take(i as int)).len() == 0 ==> cur == node,
                forall|d: int|
                    graph_nodes(g0).len() <= d < graph_nodes(self.graph).len() && graph_nodes(self.graph)[d].is_dir()
                        ==> #[trigger] dir_for(self.graph, node as int, *record, d),
                trace@.len() == clean_path(comps.take(i as int)).len() + 1,
                forall|t: int|
                    0 <= t < trace@.len() ==> path_of(self.graph, #[trigger] trace@[t] as int) == path_of(g0, node as int)
                        + clean_path(comps.take(i as int)).take(t),
                forall|t1: int, t2: int| 0 <= t1 < t2 < trace@.len() ==> trace@[t1] < trace@[t2],
                forall|a: int| 0 <= a < graph_nodes(g0).len() ==> #[trigger] graph_nodes(self.graph)[a] == graph_nodes(g0)[a],
            decreases record.path@.len() - i,
        {
            let comp = &record.path[i];
            proof {
                assert(comps.take(i + 1).drop_last() =~= comps.take(i as int));
                assert(comps.take(i + 1).last() == comp@);
            }
            if comp.as_str().unicode_len() > 0 {
                let ghost g1 = self.graph;
                let ghost tr1 = trace@;
                let next = self.find_or_create_dir(cur, comp.as_str());
                proof {
                    lemma_grows_trans(g0, g1, self.graph);
                    lemma_path_stable(g1, self.graph, cur as int);
                    assert(path_of(self.graph, next as int) == path_of(self.graph, cur as int).push(comp@));
                    assert(path_of(g0, node as int) + clean_path(comps.take(i + 1)) =~= (path_of(g0, node as int) + clean_path(comps.take(i as int))).push(comp@));
                    lemma_path_stable(g0, self.graph, node as int);
                    assert forall|d: int|
                        graph_nodes(g0).len() <= d < graph_nodes(self.graph).len() && graph_nodes(self.graph)[d].is_dir()
                            implies #[trigger] dir_for(self.graph, node as int, *record, d) by {
                        if d < graph_nodes(g1).len() {
                            assert(graph_nodes(g1)[d].is_dir());
                            assert(dir_for(g1, node as int, *record, d));
                            lemma_dir_for_stable(g1, self.graph, node as int, *record, d);
                        } else {
                            assert(d == next);
                            lemma_clean_prefix(comps, i + 1);
                            let cpi = clean_path(comps.take(i + 1));
                            assert(cpi.len() >= 1);
                            assert(path_of(self.graph, d) == path_of(self.graph, node as int) + clean_path(comps).take(cpi.len() as int));
                        }
                    }
                }
                cur = next;
                trace.push(cur);
                proof {
                    lemma_trace_set_push(tr1, next);
                    assert(trace_set(tr1).contains(tr1.last() as int)) by {
                        assert(tr1[tr1.len() - 1] == tr1.last());
                    }
                    assert forall|t: int| 0 <= t < trace@.len() implies self.is_dir_node(#[trigger] trace@[t] as int) by {
                        if t < tr1.len() {
                            assert(trace@[t] == tr1[t]);
                            assert(graph_nodes(g1)[tr1[t] as int].is_dir());
                        }
                    }
                    assert forall|t: int| 1 <= t < trace@.len() implies 1 <= #[trigger] trace@[t] && parent_of(self.graph, trace@[t] as int) == trace@[t - 1] by {
                        if t < tr1.len() {
                            assert(trace@[t] == tr1[t]);
                            assert(trace@[t - 1] == tr1[t - 1]);
                            assert(parent_of(g1, tr1[t] as int) == tr1[t - 1]);
                        }
                    }
                    assert forall|d: int| 0 <= d < graph_nodes(self.graph).len() && !bad.union(trace_set(trace@)).contains(d) implies #[trigger] dir_consistent(self.graph, d) by {
                        if d < graph_nodes(g1).len() {
                            assert(d != tr1.last());
                            assert(dir_consistent(g1, d));
                        }
                    }
                    let c1 = clean_path(comps.take(i as int));
                    let c2 = clean_path(comps.take(i + 1));
                    assert(c2 == c1.push(comp@));
                    assert forall|t: int| 0 <= t < trace@.len() implies path_of(self.graph, #[trigger] trace@[t] as int) == path_of(g0, node as int)
                        + c2.take(t) by {
                        if t < tr1.len() {
                            assert(trace@[t] == tr1[t]);
                            assert(path_of(g1, tr1[t] as int) == path_of(g0, node as int) + c1.take(t));
                            lemma_path_stable(g1, self.graph, tr1[t] as int);
                            assert(c2.take(t) =~= c1.take(t));
                        } else {
                            assert(c2.take(t) =~= c2);
                        }
                    }
                    assert(next as int > tr1.last() as int) by {
                        assert(1 <= next && next < graph_nodes(self.graph).len());
                        assert(parent_of(self.graph, next as int) < next);
                    }
                    assert forall|t1: int, t2: int| 0 <= t1 < t2 < trace@.len() implies trace@[t1] < trace@[t2] by {
                        if t2 < tr1.len() {
                            assert(trace@[t1] == tr1[t1] && trace@[t2] == tr1[t2]);
                        } else {
                            assert(trace@[t1] == tr1[t1]);
                            if t1 < tr1.len() - 1 {
                                assert(tr1[t1] < tr1[tr1.len() - 1]);
                            }
                            assert(trace@[t2] == next);
                        }
                    }
                    assert forall|a: int| 0 <= a < graph_nodes(g0).len() implies #[trigger] graph_nodes(self.graph)[a] == graph_nodes(g0)[a] by {
                        assert(graph_nodes(g1)[a] == graph_nodes(g0)[a]);
                    }
                }
            } else {
                proof {
                    assert(comp@.len() == 0);
                    assert(clean_path(comps.take(i + 1)) == clean_path(comps.take(i as int)));
                }
            }
            i = i + 1;
        }
        proof {
            assert(comps.take(record.path@.len() as int) =~= comps);
        }
        let ghost g2 = self.graph;
        let leaf = self.attach_leaf(cur, record.name.clone(), record.checksum.clone());
        proof {
            lemma_grows_trans(g0, g2, self.graph);
            lemma_path_stable(g2, self.graph, cur as int);
            lemma_path_stable(g0, self.graph, node as int);
            assert(trace_set(trace@).contains(cur as int)) by {
                assert(trace@[trace@.len() - 1] == cur);
            }
            assert forall|t2: int| 1 <= t2 < trace@.len() implies 1 <= #[trigger] trace@[t2] && parent_of(self.graph, trace@[t2] as int) == trace@[t2 - 1] by {
                assert(parent_of(g2, trace@[t2] as int) == trace@[t2 - 1]);
            }
            assert forall|t2: int| 0 <= t2 < trace@.len() implies self.is_dir_node(#[trigger] trace@[t2] as int) by {
                assert(graph_nodes(g2)[trace@[t2] as int].is_dir());
            }
            assert forall|d: int|
                graph_nodes(g0).len() <= d < graph_nodes(self.graph).len() && graph_nodes(self.graph)[d].is_dir()
                    implies #[trigger] dir_for(self.graph, node as int, *record, d) by {
                if d < graph_nodes(g2).len() {
                    assert(graph_nodes(g2)[d].is_dir());
                    assert(dir_for(g2, node as int, *record, d));
                    lemma_dir_for_stable(g2, self.graph, node as int, *record, d);
                }
            }
            assert forall|d: int| 0 <= d < graph_nodes(self.graph).len() && !bad.union(trace_set(trace@.take(trace@.len() as int))).contains(d) implies #[trigger] dir_consistent(self.graph, d) by {
                assert(trace@.take(trace@.len() as int) =~= trace@);
                if d < graph_nodes(g2).len() {
                    assert(dir_consistent(g2, d));
                }
            }
            assert forall|t: int| 0 <= t < trace@.len() implies path_of(self.graph, #[trigger] trace@[t] as int) == path_of(g0, node as int)
                + clean_path(comps).take(t) by {
                lemma_path_stable(g2, self.graph, trace@[t] as int);
            }
            assert forall|a: int| 0 <= a < graph_nodes(g0).len() && !trace_set(trace@).contains(a) implies #[trigger] graph_nodes(self.graph)[a] == graph_nodes(g0)[a] by {
                assert(graph_nodes(g2)[a] == graph_nodes(g0)[a]);
                assert(graph_nodes(self.graph)[a] == graph_nodes(g2)[a]);
            }
        }
        let ghost g3 = self.graph;
        self.refresh_trace(&trace, Ghost(bad));
        proof {
            lemma_grows_trans(g0, g3, self.graph);
            lemma_holds_leaf_stable(g3, self.graph, node as int, *record, leaf as int);
            assert forall|d: int|
                graph_nodes(g0).len() <= d < graph_nodes(self.graph).len() && graph_nodes(self.graph)[d].is_dir()
                    implies #[trigger] dir_for(self.graph, node as int, *record, d) by {
                assert(graph_nodes(g3)[d].is_dir());
                assert(dir_for(g3, node as int, *record, d));
                lemma_dir_for_stable(g3, self.graph, node as int, *record, d);
            }
            assert forall|t: int| 0 <= t < trace@.len() implies path_of(self.graph, #[trigger] trace@[t] as int) == path_of(g0, node as int)
                + clean_path(comps).take(t) by {
                lemma_path_stable(g3, self.graph, trace@[t] as int);
            }
            assert forall|a: int| 0 <= a < graph_nodes(g0).len() && !trace_set(trace@).contains(a) implies #[trigger] graph_nodes(self.graph)[a] == graph_nodes(g0)[a] by {
                assert(graph_nodes(self.graph)[a] == graph_nodes(g3)[a]);
            }
            assert(trace@.take(0) =~= Seq::<usize>::empty());
        }
        proof {
            let cp = clean_path(comps);
            lemma_path_stable(g0, self.graph, node as int);
            assert(dir_consistent(self.graph, trace@[0] as int));
            assert forall|d: int|
                0 <= d < graph_nodes(self.graph).len() && graph_nodes(self.graph)[d].is_dir() && #[trigger] dir_for(
                    self.graph,
                    node as int,
                    *record,
                    d,
                ) implies dir_consistent(self.graph, d) by {
                let jj = choose|jj: int| 1 <= jj <= cp.len() && path_of(self.graph, d) == path_of(self.graph, node as int) + cp.take(jj);
                assert(path_of(self.graph, trace@[jj] as int) == path_of(g0, node as int) + cp.take(jj));
                lemma_dir_paths_distinct(self.graph, d, trace@[jj] as int);
            }
            assert forall|a: int|
                0 <= a < graph_nodes(g0).len() && a != node && !dir_for(self.graph, node as int, *record, a)
                    implies #[trigger] graph_nodes(self.graph)[a] == graph_nodes(g0)[a] by {
                if trace_set(trace@).contains(a) {
                    let tt = choose|tt: int| 0 <= tt < trace@.len() && trace@[tt] as int == a;
                    if tt > 0 {
                        assert(path_of(self.graph, a) == path_of(self.graph, node as int) + cp.take(tt));
                        assert(dir_for(self.graph, node as int, *record, a));
                    }
                }
            }
        }
    }
}

impl GraphStorage {
    /// Inserts the records under the directory `node`, their paths read from
    /// `node` down. Every record becomes a new leaf of its own (`own_leaves`);
    /// directories are found or created by name. Afterwards `node` and every
    /// directory on the records' paths carry the digest of their children;
    /// every other directory that did so before, but the parent of `node`,
    /// still does; and every other old node keeps its weight.
    #[verifier::rlimit(100)]
    pub fn _bulk_insert(&mut self, node: &mut usize, sorted_entries: Vec<FileRecord>)
        requires
            old(self).wf(),
            old(self).is_dir_node(*old(node) as int),
            old(self).nodes().len() + insert_cost(sorted_entries@) <= u32::MAX,
        ensures
            *final(node) == *old(node),
            final(self).root == old(self).root,
            final(self).wf(),
            grows_from(old(self).graph, final(self).graph),
            final(self).nodes().len() <= old(self).nodes().len() + insert_cost(sorted_entries@),
            file_count(final(self).nodes()) == file_count(old(self).nodes()) + sorted_entries@.len(),
            exists|ls: Seq<int>|
                own_leaves(final(self).graph, *old(node) as int, sorted_entries@, ls, old(self).nodes().len() as int),
            forall|i: int|
                0 <= i < sorted_entries@.len() ==> #[trigger] has_leaf(final(self).graph, *old(node) as int, sorted_entries@[i]),
            consistent_except(
                final(self).graph,
                inconsistent_dirs(old(self).graph).union(above(old(self).graph, *old(node) as int)),
            ),
            sorted_entries@.len() > 0 ==> dir_consistent(final(self).graph, *old(node) as int),
            forall|d: int|
                0 <= d < final(self).nodes().len() && final(self).nodes()[d].is_dir() && #[trigger] dir_from(
                    final(self).graph,
                    *old(node) as int,
                    sorted_entries@,
                    d,
                ) ==> dir_consistent(final(self).graph, d),
            forall|a: int|
                0 <= a < old(self).nodes().len() && a != *old(node) && !dir_from(
                    final(self).graph,
                    *old(node) as int,
                    sorted_entries@,
                    a,
                ) ==> #[trigger] final(self).nodes()[a] == old(self).nodes()[a],
            forall|d: int|
                old(self).nodes().len() <= d < final(self).nodes().len() && final(self).nodes()[d].is_dir()
                    ==> #[trigger] dir_from(final(self).graph, *old(node) as int, sorted_entries@, d),
    {
        let ghost g0 = self.graph;
        let ghost bad = inconsistent_dirs(g0).union(above(g0, *node as int));
        let ghost es = sorted_entries@;
        let ghost mut ls: Seq<int> = Seq::empty();
        let start = *node;
        let mut i: usize = 0;
        proof {
            assert(es.take(0) =~= Seq::<FileRecord>::empty());
            assert(consistent_except(g0, bad));
        }
        while i < sorted_entries.len()
            invariant
                self.wf(),
                tree_wf(g0),
                es == sorted_entries@,
                start == *node,
                0 <= start < graph_nodes(g0).len(),
                self.is_dir_node(start as int),
                i <= es.len(),
                graph_nodes(g0).len() + insert_cost(es) <= u32::MAX,
                graph_nodes(self.graph).len() <= graph_nodes(g0).len() + insert_cost(es.take(i as int)),
                grows_from(g0, self.graph),
                file_count(self.nodes()) == file_count(graph_nodes(g0)) + i,
                bad == inconsistent_dirs(g0).union(above(g0, start as int)),
                consistent_except(self.graph, bad),
                forall|k: int| 0 <= k < i ==> #[trigger] has_leaf(self.graph, start as int, es[k]),
                own_leaves(self.graph, start as int, es.take(i as int), ls, graph_nodes(g0).len() as int),
                forall|k: int| 0 <= k < ls.len() ==> #[trigger] ls[k] < graph_nodes(self.graph).len(),
                forall|d: int|
                    graph_nodes(g0).len() <= d < graph_nodes(self.graph).len() && graph_nodes(self.graph)[d].is_dir()
                        ==> #[trigger] dir_from(self.graph, start as int, es, d),
                i > 0 ==> dir_consistent(self.graph, start as int),
                forall|d: int|
                    0 <= d < graph_nodes(self.graph).len() && graph_nodes(self.graph)[d].is_dir() && #[trigger] dir_from(
                        self.graph,
                        start as int,
                        es.take(i as int),
                        d,
                    ) ==> dir_consistent(self.graph, d),
                forall|a: int|
                    0 <= a < graph_nodes(g0).len() && a != start && !dir_from(self.graph, start as int, es.take(i as int), a)
                        ==> #[trigger] graph_nodes(self.graph)[a] == graph_nodes(g0)[a],
            decreases es.len() - i,
        {
            let ghost g1 = self.graph;
            let ghost bad1 = inconsistent_dirs(g1).union(above(g1, start as int));
            proof {
                lemma_insert_cost_prefix(es, i as int);
                if start != 0 {
                    assert(parent_of(g1, start as int) == parent_of(g0, start as int));
                    assert(bad1.contains(parent_of(g1, start as int)));
                }
            }
            self.insert_record(start, &sorted_entries[i], Ghost(bad1));
            proof {
                let g = self.graph;
                let rec = es[i as int];
                lemma_grows_trans(g0, g1, g);
                assert(self.is_dir_node(start as int)) by {
                    assert(graph_nodes(g)[start as int].is_dir() == graph_nodes(g1)[start as int].is_dir());
                }
                lemma_path_stable(g1, g, start as int);
                assert(es.take(i + 1).drop_last() =~= es.take(i as int));
                assert forall|d: int| 0 <= d < graph_nodes(g).len() && !bad.contains(d) implies #[trigger] dir_consistent(g, d) by {
                    if d < graph_nodes(g1).len() {
                        assert(dir_consistent(g1, d));
                    }
                    assert(!bad1.contains(d));
                }
                assert forall|k: int| 0 <= k < i + 1 implies #[trigger] has_leaf(g, start as int, es[k]) by {
                    if k < i {
                        assert(has_leaf(g1, start as int, es[k]));
                        let n = choose|n: int| holds_leaf(g1, start as int, es[k], n);
                        lemma_holds_leaf_stable(g1, g, start as int, es[k], n);
                    } else {
                        assert(holds_leaf(g, start as int, es[k], graph_nodes(g).len() - 1));
                    }
                }
                let nl = graph_nodes(g).len() - 1;
                let ls2 = ls.push(nl);
                assert(own_leaves(g, start as int, es.take(i + 1), ls2, graph_nodes(g0).len() as int)) by {
                    assert forall|k: int| 0 <= k < ls2.len() implies graph_nodes(g0).len() <= #[trigger] ls2[k] && holds_leaf(g, start as int, es.take(i + 1)[k], ls2[k]) by {
                        if k < i {
                            assert(ls2[k] == ls[k]);
                            assert(es.take(i + 1)[k] == es.take(i as int)[k]);
                            lemma_holds_leaf_stable(g1, g, start as int, es.take(i as int)[k], ls[k]);
                        } else {
                            assert(es.take(i + 1)[k] == rec);
                        }
                    }
                    assert forall|k1: int, k2: int| 0 <= k1 < ls2.len() && 0 <= k2 < ls2.len() && k1 != k2 implies ls2[k1] != ls2[k2] by {
                        if k2 == i {
                            assert(ls[k1] < graph_nodes(g1).len());
                        } else if k1 == i {
                            assert(ls[k2] < graph_nodes(g1).len());
                        }
                    }
                }
                ls = ls2;
                assert forall|d: int|
                    graph_nodes(g0).len() <= d < graph_nodes(g).len() && graph_nodes(g)[d].is_dir()
                        implies #[trigger] dir_from(g, start as int, es, d) by {
                    if d < graph_nodes(g1).len() {
                        assert(graph_nodes(g1)[d].is_dir());
                        assert(dir_from(g1, start as int, es, d));
                        let k = choose|k: int| 0 <= k < es.len() && dir_for(g1, start as int, es[k], d);
                        lemma_dir_for_stable(g1, g, start as int, es[k], d);
                    } else {
                        assert(dir_for(g, start as int, rec, d));
                    }
                }
                assert forall|d: int|
                    0 <= d < graph_nodes(g).len() && graph_nodes(g)[d].is_dir() && #[trigger] dir_from(
                        g,
                        start as int,
                        es.take(i + 1),
                        d,
                    ) implies dir_consistent(g, d) by {
                    let k = choose|k: int| 0 <= k < es.take(i + 1).len() && #[trigger] dir_for(g, start as int, es.take(i + 1)[k], d);
                    if k == i {
                        assert(es.take(i + 1)[k] == rec);
                    } else if d >= graph_nodes(g1).len() {
                        assert(dir_for(g, start as int, rec, d));
                    } else {
                        let rk = es.take(i + 1)[k];
                        assert(rk == es.take(i as int)[k]);
                        lemma_dir_for_stable(g1, g, start as int, rk, d);
                        assert(dir_from(g1, start as int, es.take(i as int), d));
                        assert(graph_nodes(g1)[d].is_dir());
                        assert(dir_consistent(g1, d));
                        if start != 0 && d == parent_of(g1, start as int) {
                            let cp = clean_path(views(rk.path@));
                            let jj = choose|jj: int| 1 <= jj <= cp.len() && path_of(g1, d) == path_of(g1, start as int) + cp.take(jj);
                            assert(path_of(g1, start as int).drop_last() =~= path_of(g1, d));
                        }
                        assert(!bad1.contains(d));
                    }
                }
                assert forall|a: int|
                    0 <= a < graph_nodes(g0).len() && a != start && !dir_from(g, start as int, es.take(i + 1), a)
                        implies #[trigger] graph_nodes(g)[a] == graph_nodes(g0)[a] by {
                    assert(es.take(i + 1)[i as int] == rec);
                    assert(!dir_for(g, start as int, rec, a));
                    assert(!dir_from(g1, start as int, es.take(i as int), a)) by {
                        if dir_from(g1, start as int, es.take(i as int), a) {
                            let k = choose|k: int| 0 <= k < es.take(i as int).len() && #[trigger] dir_for(g1, start as int, es.take(i as int)[k], a);
                            lemma_dir_for_stable(g1, g, start as int, es.take(i as int)[k], a);
                            assert(es.take(i + 1)[k] == es.take(i as int)[k]);
                        }
                    }
                }
            }
            i = i + 1;
        }
        proof {
            assert(es.take(es.len() as int) =~= es);
        }
    }

    /// Inserts the records under the root; see `_bulk_insert`. A tree whose
    /// directories all carried the digest of their children keeps doing so.
    pub fn bulk_insert(&mut self, sorted_entries: Vec<FileRecord>)
        requires
            old(self).wf(),
            old(self).nodes().len() + insert_cost(sorted_entries@) <= u32::MAX,
        ensures
            final(self).wf(),
            grows_from(old(self).graph, final(self).graph),
            final(self).nodes().len() <= old(self).nodes().len() + insert_cost(sorted_entries@),
            file_count(final(self).nodes()) == file_count(old(self).nodes()) + sorted_entries@.len(),
            forall|i: int|
                0 <= i < sorted_entries@.len() ==> #[trigger] has_leaf(final(self).graph, 0, sorted_entries@[i]),
            consistent_except(final(self).graph, inconsistent_dirs(old(self).graph)),
            consistent_except(old(self).graph, Set::empty()) ==> consistent_except(final(self).graph, Set::empty()),
            forall|d: int|
                old(self).nodes().len() <= d < final(self).nodes().len() && final(self).nodes()[d].is_dir()
                    ==> #[trigger] dir_from(final(self).graph, 0, sorted_entries@, d),
            final(self).root == old(self).root,
            exists|ls: Seq<int>| own_leaves(final(self).graph, 0, sorted_entries@, ls, old(self).nodes().len() as int),
            sorted_entries@.len() > 0 ==> dir_consistent(final(self).graph, 0),
            forall|d: int|
                0 <= d < final(self).nodes().len() && final(self).nodes()[d].is_dir() && #[trigger] dir_from(
                    final(self).graph,
                    0,
                    sorted_entries@,
                    d,
                ) ==> dir_consistent(final(self).graph, d),
            forall|a: int|
                0 < a < old(self).nodes().len() && !dir_from(final(self).graph, 0, sorted_entries@, a)
                    ==> #[trigger] final(self).nodes()[a] == old(self).nodes()[a],
    {
        let ghost g0 = self.graph;
        let mut root = self.root;
        self._bulk_insert(&mut root, sorted_entries);
        proof {
            assert(inconsistent_dirs(g0).union(above(g0, 0)) =~= inconsistent_dirs(g0));
            if consistent_except(g0, Set::empty()) {
                assert(inconsistent_dirs(g0) =~= Set::<int>::empty());
            }
        }
    }
}

} // verus!
