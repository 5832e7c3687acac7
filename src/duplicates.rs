use vstd::prelude::*;
use std::collections::HashMap;
use petgraph::graph::Graph;
use crate::analyser::{GNode, GraphStorage};
use crate::tree::{children, lemma_children_parent};
use crate::digest::{str_eq, views};
use crate::graph::{graph_nodes, neighbor_indices, node_at};

verus! {

/// Digests in the order in which the walk first meets them, each with the
/// paths that carry it, in visiting order.
pub type DigestGroups = Seq<(Seq<char>, Seq<Seq<char>>)>;

/// Directories waiting to be descended into, each with its path.
pub type Frontier = Seq<(int, Seq<char>)>;

/// The walk meets child `c` of the directory at path `tag`: its path joins
/// the group of its digest; a digest met for the first time opens a group,
/// and then, for a directory, the child is queued for the next level.
pub open spec fn visit_child(g: Graph<GNode, ()>, st: (DigestGroups, Frontier), tag: Seq<char>, c: int) -> (
    DigestGroups,
    Frontier,
) {
    let acc = st.0;
    let next = st.1;
    let n = graph_nodes(g)[c];
    let path = tag + "/"@ + n.name_view();
    let k = n.digest();
    if exists|i: int| 0 <= i < acc.len() && acc[i].0 == k {
        let i = choose|i: int| 0 <= i < acc.len() && acc[i].0 == k;
        (acc.update(i, (k, acc[i].1.push(path))), next)
    } else {
        (acc.push((k, seq![path])), if n.is_dir() {
            next.push((c, path))
        } else {
            next
        })
    }
}

/// The walk meets the children `kids`, in order.
pub open spec fn visit_children(
    g: Graph<GNode, ()>,
    st: (DigestGroups, Frontier),
    tag: Seq<char>,
    kids: Seq<int>,
) -> (DigestGroups, Frontier)
    decreases kids.len(),
{
    if kids.len() == 0 {
        st
    } else {
        visit_child(g, visit_children(g, st, tag, kids.drop_last()), tag, kids.last())
    }
}

/// The children of `a` in the order in which they were added, oldest first.
pub open spec fn children_in_order(g: Graph<GNode, ()>, a: int) -> Seq<int> {
    children(g, a).reverse()
}

/// The walk takes the directories of one level, in order, and meets the
/// children of each, oldest first.
pub open spec fn visit_level(g: Graph<GNode, ()>, st: (DigestGroups, Frontier), level: Frontier) -> (
    DigestGroups,
    Frontier,
)
    decreases level.len(),
{
    if level.len() == 0 {
        st
    } else {
        let e = level.last();
        visit_children(g, visit_level(g, st, level.drop_last()), e.1, children_in_order(g, e.0))
    }
}

/// The breadth-first walk, level by level, for at most `fuel` levels.
pub open spec fn walk(g: Graph<GNode, ()>, acc: DigestGroups, level: Frontier, fuel: nat) -> DigestGroups
    decreases fuel,
{
    if level.len() == 0 || fuel == 0 {
        acc
    } else {
        let st = visit_level(g, (acc, Seq::empty()), level);
        walk(g, st.0, st.1, (fuel - 1) as nat)
    }
}

/// The groups of the walk from the root, whose path is empty. A tree has
/// fewer levels than nodes, so the walk is complete.
pub open spec fn digest_groups(g: Graph<GNode, ()>) -> DigestGroups {
    walk(g, Seq::empty(), seq![(0int, Seq::<char>::empty())], graph_nodes(g).len())
}

pub open spec fn groups_view(keys: Seq<String>, groups: Seq<Vec<String>>) -> DigestGroups {
    Seq::new(keys.len(), |i: int| (keys[i]@, views(groups[i]@)))
}

pub open spec fn frontier_view(level: Seq<(usize, String)>) -> Frontier {
    level.map_values(|e: (usize, String)| (e.0 as int, e.1@))
}

/// Relies on `HashMap::insert`: with no equal key present, the map gains
/// the entry.
#[verifier::external_body]
fn insert_group(m: &mut HashMap<String, Vec<String>>, k: String, v: Vec<String>)
    requires
        forall|j: String| old(m)@.contains_key(j) ==> j@ != k@,
    ensures
        final(m)@ == old(m)@.insert(k, v),
{
    m.insert(k, v);
}

/// The position of `k` among `keys`, if it is there.
pub(crate) fn find_key(keys: &Vec<String>, k: &str) -> (r: Option<usize>)
    ensures
        match r {
            Some(i) => i < keys@.len() && keys@[i as int]@ == k@,
            None => forall|i: int| 0 <= i < keys@.len() ==> keys@[i]@ != k@,
        },
{
    let mut i: usize = 0;
    while i < keys.len()
        invariant
            i <= keys@.len(),
            forall|j: int| 0 <= j < i ==> keys@[j]@ != k@,
        decreases keys@.len() - i,
    {
        if str_eq(keys[i].as_str(), k) {
            return Some(i);
        }
        i = i + 1;
    }
    None
}

impl GraphStorage {
    /// Walks the tree breadth first from the root, siblings in the order in
    /// which they were added, and groups the paths of the nodes by digest
    /// (see `digest_groups`). A node whose digest was met
    /// before joins that group and, even when it is a directory, is not
    /// descended into. Only the groups with more than one path are returned.
    pub fn find_duplicates(&self) -> (r: HashMap<String, Vec<String>>)
        requires
            self.wf(),
        ensures
            forall|k: String|
                #[trigger] r@.contains_key(k) ==> exists|i: int|
                    0 <= i < digest_groups(self.graph).len() && digest_groups(self.graph)[i].0 == k@
                        && digest_groups(self.graph)[i].1.len() > 1 && views(r@[k]@) == digest_groups(self.graph)[i].1,
            forall|i: int|
                0 <= i < digest_groups(self.graph).len() && (#[trigger] digest_groups(self.graph)[i]).1.len() > 1
                    ==> exists|k: String| r@.contains_key(k) && k@ == digest_groups(self.graph)[i].0,
    {
        let ghost g = self.graph;
        let mut keys: Vec<String> = Vec::new();
        let mut groups: Vec<Vec<String>> = Vec::new();
        let mut level: Vec<(usize, String)> = Vec::new();
        level.push((self.root, String::new()));
        let ghost mut depth: int = 0;
        let count = self.node_count();
        proof {
            assert(groups_view(keys@, groups@) =~= Seq::<(Seq<char>, Seq<Seq<char>>)>::empty());
            assert(frontier_view(level@) =~= seq![(0int, Seq::<char>::empty())]);
        }
        while level.len() > 0
            invariant
                self.wf(),
                g == self.graph,
                count == graph_nodes(g).len(),
                0 <= depth <= count,
                keys@.len() == groups@.len(),
                forall|i: int, j: int| 0 <= i < j < keys@.len() ==> keys@[i]@ != keys@[j]@,
                forall|e: int|
                    0 <= e < level@.len() ==> depth <= (#[trigger] level@[e]).0 < count && graph_nodes(g)[level@[e].0 as int].is_dir(),
                digest_groups(g) == walk(g, groups_view(keys@, groups@), frontier_view(level@), (count - depth) as nat),
            decreases count - depth,
        {
            assert(depth <= level@[0].0 < count);
            let ghost acc0 = groups_view(keys@, groups@);
            let ghost lv = frontier_view(level@);
            let mut next: Vec<(usize, String)> = Vec::new();
            let mut li: usize = 0;
            proof {
                assert(lv.take(0) =~= Seq::<(int, Seq<char>)>::empty());
                assert(frontier_view(next@) =~= Seq::<(int, Seq<char>)>::empty());
            }
            while li < level.len()
                invariant
                    self.wf(),
                    g == self.graph,
                    count == graph_nodes(g).len(),
                    0 <= depth < count,
                    li <= level@.len(),
                    lv == frontier_view(level@),
                    keys@.len() == groups@.len(),
                    forall|i: int, j: int| 0 <= i < j < keys@.len() ==> keys@[i]@ != keys@[j]@,
                    forall|e: int|
                        0 <= e < level@.len() ==> depth <= (#[trigger] level@[e]).0 < count && graph_nodes(g)[level@[e].0 as int].is_dir(),
                    forall|e: int|
                        0 <= e < next@.len() ==> depth + 1 <= (#[trigger] next@[e]).0 < count && graph_nodes(g)[next@[e].0 as int].is_dir(),
                    (groups_view(keys@, groups@), frontier_view(next@)) == visit_level(g, (acc0, Seq::empty()), lv.take(li as int)),
                decreases level@.len() - li,
            {
                let node = level[li].0;
                let tag = &level[li].1;
                assert(depth <= level@[li as int].0 < count);
                proof {
                    lemma_children_parent(g, node as int);
                    assert(lv.take(li + 1).drop_last() =~= lv.take(li as int));
                    assert(lv.take(li + 1).last() == (node as int, tag@));
                }
                let kids = neighbor_indices(&self.graph, node);
                let ghost cs = children(g, node as int);
                let ghost ord = children_in_order(g, node as int);
                let ghost st0 = visit_level(g, (acc0, Seq::empty()), lv.take(li as int));
                assert(cs.len() == kids@.len());
                let mut ki: usize = 0;
                proof {
                    assert(ord.take(0) =~= Seq::<int>::empty());
                }
                while ki < kids.len()
                    invariant
                        self.wf(),
                        g == self.graph,
                        count == graph_nodes(g).len(),
                        0 <= depth <= node < count,
                        kids@.map_values(|x: usize| x as int) == cs,
                        cs == children(g, node as int),
                        forall|j: int| 0 <= j < cs.len() ==> node < #[trigger] cs[j] < count,
                        ki <= kids@.len(),
                        keys@.len() == groups@.len(),
                        forall|i: int, j: int| 0 <= i < j < keys@.len() ==> keys@[i]@ != keys@[j]@,
                        forall|e: int|
                            0 <= e < next@.len() ==> depth + 1 <= (#[trigger] next@[e]).0 < count && graph_nodes(g)[next@[e].0 as int].is_dir(),
                        (groups_view(keys@, groups@), frontier_view(next@)) == visit_children(g, st0, tag@, ord.take(ki as int)),
                        ord == cs.reverse(),
                    decreases kids@.len() - ki,
                {
                    let c = kids[kids.len() - 1 - ki];
                    assert(cs[kids@.len() - 1 - ki] == c as int);
                    assert(ord[ki as int] == c as int);
                    let ghost st = (groups_view(keys@, groups@), frontier_view(next@));
                    proof {
                        assert(ord.take(ki + 1).drop_last() =~= ord.take(ki as int));
                        assert(ord.take(ki + 1).last() == c as int);
                    }
                    let (name, checksum, is_dir) = match node_at(&self.graph, c) {
                        GNode::DirNode { name, checksum } => (name, checksum, true),
                        GNode::FileLeaf { name, checksum, .. } => (name, checksum, false),
                    };
                    let mut path = String::new();
                    path.append(tag.as_str());
                    path.append("/");
                    path.append(name.as_str());
                    let ghost k = graph_nodes(g)[c as int].digest();
                    assert(checksum@ == k);
                    assert(path@ == tag@ + "/"@ + graph_nodes(g)[c as int].name_view());
                    match find_key(&keys, checksum.as_str()) {
                        Some(idx) => {
                            let ghost gs = groups@;
                            let mut grp = groups.remove(idx);
                            grp.push(path);
                            groups.insert(idx, grp);
                            proof {
                                assert(st.0[idx as int].0 == k);
                                let i = choose|i: int| 0 <= i < st.0.len() && st.0[i].0 == k;
                                assert(i == idx);
                                assert(groups@ == gs.update(idx as int, grp));
                                assert(views(grp@) =~= views(gs[idx as int]@).push(path@));
                                assert(groups_view(keys@, groups@) =~= st.0.update(idx as int, (k, st.0[idx as int].1.push(path@))));
                            }
                        },
                        None => {
                            let ghost gs = groups@;
                            let ghost ks = keys@;
                            let ghost nx = next@;
                            let mut grp: Vec<String> = Vec::new();
                            grp.push(path.clone());
                            keys.push(checksum.clone());
                            groups.push(grp);
                            proof {
                                assert(!(exists|i: int| 0 <= i < st.0.len() && st.0[i].0 == k)) by {
                                    if exists|i: int| 0 <= i < st.0.len() && st.0[i].0 == k {
                                        let i = choose|i: int| 0 <= i < st.0.len() && st.0[i].0 == k;
                                        assert(ks[i]@ == k);
                                    }
                                }
                                assert(views(grp@) =~= seq![path@]);
                                assert(groups_view(keys@, groups@) =~= st.0.push((k, seq![path@])));
                            }
                            if is_dir {
                                next.push((c, path));
                                proof {
                                    assert(frontier_view(next@) =~= frontier_view(nx).push((c as int, path@)));
                                }
                            }
                        },
                    }
                    ki = ki + 1;
                }
                proof {
                    assert(ord.take(kids@.len() as int) =~= ord);
                }
                li = li + 1;
            }
            proof {
                assert(lv.take(level@.len() as int) =~= lv);
            }
            level = next;
            proof {
                depth = depth + 1;
            }
        }
        let ghost all = groups_view(keys@, groups@);
        assert(digest_groups(g) == all);
        let mut r: HashMap<String, Vec<String>> = HashMap::new();
        let ghost total = keys@.len();
        while keys.len() > 0
            invariant
                keys@.len() == groups@.len(),
                keys@.len() <= total,
                all.len() == total,
                forall|i: int| 0 <= i < keys@.len() ==> groups_view(keys@, groups@)[i] == #[trigger] all[i],
                forall|i: int, j: int| 0 <= i < j < keys@.len() ==> keys@[i]@ != keys@[j]@,
                forall|i: int, j: String| 0 <= i < keys@.len() && r@.contains_key(j) ==> keys@[i]@ != j@,
                forall|k: String|
                    #[trigger] r@.contains_key(k) ==> exists|i: int|
                        keys@.len() <= i < total && all[i].0 == k@ && all[i].1.len() > 1 && views(r@[k]@) == all[i].1,
                forall|i: int|
                    keys@.len() <= i < total && (#[trigger] all[i]).1.len() > 1 ==> exists|k: String|
                        r@.contains_key(k) && k@ == all[i].0,
            decreases keys@.len(),
        {
            let ghost ks = keys@;
            let ghost gs = groups@;
            let ghost last = keys@.len() - 1;
            let k = keys.pop().unwrap();
            let grp = groups.pop().unwrap();
            assert(k == ks[last] && grp == gs[last]);
            assert(all[last] == (k@, views(grp@)));
            assert forall|i: int| 0 <= i < keys@.len() implies groups_view(keys@, groups@)[i] == #[trigger] all[i] by {
                assert(keys@[i] == ks[i] && groups@[i] == gs[i]);
                assert(groups_view(ks, gs)[i] == all[i]);
            }
            if grp.len() > 1 {
                let ghost r0 = r@;
                let ghost kv = k@;
                insert_group(&mut r, k, grp);
                proof {
                    assert forall|k2: String| #[trigger] r@.contains_key(k2) implies exists|i: int|
                        keys@.len() <= i < total && all[i].0 == k2@ && all[i].1.len() > 1 && views(r@[k2]@) == all[i].1 by {
                        if k2 == ks[last] {
                            assert(all[last].0 == k2@);
                        } else {
                            assert(r0.contains_key(k2));
                        }
                    }
                    assert forall|i: int| keys@.len() <= i < total && (#[trigger] all[i]).1.len() > 1 implies exists|k2: String|
                        r@.contains_key(k2) && k2@ == all[i].0 by {
                        if i == last {
                            assert(r@.contains_key(ks[last]));
                        } else {
                            let k2 = choose|k2: String| r0.contains_key(k2) && k2@ == all[i].0;
                            assert(r@.contains_key(k2));
                        }
                    }
                    assert forall|i: int, j: String| 0 <= i < keys@.len() && r@.contains_key(j) implies keys@[i]@ != j@ by {
                        assert(keys@[i] == ks[i]);
                        if j != ks[last] {
                            assert(r0.contains_key(j));
                        }
                    }
                }
            } else {
                proof {
                    assert forall|i: int, j: String| 0 <= i < keys@.len() && r@.contains_key(j) implies keys@[i]@ != j@ by {
                        assert(keys@[i] == ks[i]);
                    }
                }
            }
        }
        r
    }
}

} // verus!
