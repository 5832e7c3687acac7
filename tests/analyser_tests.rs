use chrono::{DateTime, NaiveDate, Utc};
use rusty_index::analyser::{initialise_graph, FileRecord, GNode, GraphStorage};
use rusty_index::digest::combine_digests;
use rusty_index::misc::path_to_components;
use rusty_index::parallel::partition_records;

fn elem_from_path(path: String) -> Vec<String> {
    path_to_components(&path)
}

fn mock_date_time() -> i64 {
    let naive = NaiveDate::from_ymd_opt(2015, 6, 3)
        .unwrap()
        .and_hms_milli_opt(12, 34, 56, 789)
        .unwrap();
    DateTime::<Utc>::from_naive_utc_and_offset(naive, Utc).timestamp_millis()
}

fn record(checksum: &str, name: &str, path: &str) -> FileRecord {
    FileRecord {
        checksum: String::from(checksum),
        name: String::from(name),
        path: elem_from_path(String::from(path)),
        modified: mock_date_time(),
    }
}

fn sample_records() -> Vec<FileRecord> {
    vec![
        record("aaaaa", "aaaaa.txt", "/some/"),
        record("aaaaa", "aaaaa.txt", "/some/location/"),
        record("aaaaa", "aaaaa.txt", "/some/other/"),
        record("aaaaa", "aaaaa.txt", "/some/yet-another/"),
        record("aabbb", "aabbb.txt", "/some/location/"),
    ]
}

fn checksum_of(graph: &GraphStorage, node: usize) -> String {
    match &graph.graph[petgraph::graph::NodeIndex::new(node)] {
        GNode::DirNode { checksum, .. } => checksum.clone(),
        GNode::FileLeaf { checksum, .. } => checksum.clone(),
    }
}

fn child_dir(graph: &GraphStorage, node: usize, name: &str) -> usize {
    for c in graph.graph.neighbors(petgraph::graph::NodeIndex::new(node)) {
        if let GNode::DirNode { name: n, .. } = &graph.graph[c] {
            if n == name {
                return c.index();
            }
        }
    }
    panic!("no directory {}", name);
}

#[test]
fn test_bulk_insert() {
    let records = sample_records();
    let mut graph = initialise_graph();
    let mut root = graph.root;
    graph._bulk_insert(&mut root, records);

    let res = graph.find_duplicates();
    println!("dupes : {:#?}", res);

    assert_eq!(res.len(), 2);
    assert_eq!(res.get("aaaaa").unwrap().len(), 3);
}

#[test]
fn test_bulk_parallel_insert() {
    let records = sample_records();
    let mut graph = initialise_graph();
    let root = graph.root;
    graph.fork_join_insert(root, records);

    let res = graph.find_duplicates();
    println!("dupes : {:#?}", res);

    assert_eq!(res.len(), 2);
    assert_eq!(res.get("aaaaa").unwrap().len(), 3);
}

#[test]
fn duplicate_report_paths_in_visiting_order() {
    let mut graph = initialise_graph();
    graph.bulk_insert(sample_records());
    let res = graph.find_duplicates();
    let files = res.get("aaaaa").unwrap();
    assert_eq!(
        files,
        &vec![
            String::from("/some/aaaaa.txt"),
            String::from("/some/location/aaaaa.txt"),
            String::from("/some/other/aaaaa.txt"),
        ]
    );
    let dirs = res.get("594f803b380a41396ed63dca39503542").unwrap();
    assert_eq!(dirs, &vec![String::from("/some/other"), String::from("/some/yet-another")]);
}

#[test]
fn fork_join_leaves_root_consistent() {
    let mut a = initialise_graph();
    a.bulk_insert(sample_records());
    let mut b = initialise_graph();
    let root = b.root;
    b.fork_join_insert(root, sample_records());
    assert_eq!(a.node_count(), b.node_count());
    assert_eq!(checksum_of(&a, 0), checksum_of(&b, 0));
}

#[test]
fn siblings_reported_in_insertion_order() {
    let mut graph = initialise_graph();
    graph.bulk_insert(vec![record("same", "x", ""), record("same", "y", "")]);
    let res = graph.find_duplicates();
    assert_eq!(res.get("same").unwrap(), &vec![String::from("/x"), String::from("/y")]);
}

#[test]
fn first_of_equal_directories_is_descended() {
    let mut graph = initialise_graph();
    graph.bulk_insert(vec![
        record("x", "f", "/a/"),
        record("x", "f", "/b/"),
        record("x", "g", ""),
    ]);
    let res = graph.find_duplicates();
    // root's children, oldest first: a, b, g; a is descended, b is not
    assert_eq!(
        res.get("x").unwrap(),
        &vec![String::from("/g"), String::from("/a/f")]
    );
}

#[test]
fn equal_records_get_leaves_of_their_own() {
    let mut graph = initialise_graph();
    graph.bulk_insert(vec![record("a", "same.txt", "/d/"), record("a", "same.txt", "/d/")]);
    assert_eq!(graph.node_count(), 4);
    let res = graph.find_duplicates();
    assert_eq!(res.get("a").unwrap(), &vec![String::from("/d/same.txt"), String::from("/d/same.txt")]);
}

#[test]
fn sequential_and_fork_join_give_same_groups() {
    let mut seq_graph = initialise_graph();
    seq_graph.bulk_insert(sample_records());
    let mut fj_graph = initialise_graph();
    let root = fj_graph.root;
    fj_graph.fork_join_insert(root, sample_records());
    let a = seq_graph.find_duplicates();
    let b = fj_graph.find_duplicates();
    assert_eq!(a.len(), b.len());
    for (k, v) in a.iter() {
        let mut x = v.clone();
        let mut y = b.get(k).unwrap().clone();
        x.sort();
        y.sort();
        assert_eq!(x, y);
    }
}

#[test]
fn node_count_is_directories_plus_records() {
    let mut graph = initialise_graph();
    graph.bulk_insert(sample_records());
    // root, some, location, other, yet-another, and five leaves
    assert_eq!(graph.node_count(), 5 + 5);
}

#[test]
fn same_name_leaves_are_not_merged() {
    let mut graph = initialise_graph();
    graph.bulk_insert(vec![record("x1", "a.txt", "/d/"), record("x2", "a.txt", "/d/")]);
    assert_eq!(graph.node_count(), 4);
}

#[test]
fn digest_ignores_child_order() {
    let mut g1 = initialise_graph();
    g1.bulk_insert(vec![record("b", "b.txt", "/d/"), record("a", "a.txt", "/d/")]);
    let mut g2 = initialise_graph();
    g2.bulk_insert(vec![record("a", "a.txt", "/d/"), record("b", "b.txt", "/d/")]);
    let d1 = child_dir(&g1, 0, "d");
    let d2 = child_dir(&g2, 0, "d");
    assert_eq!(checksum_of(&g1, d1), checksum_of(&g2, d2));
    assert_eq!(checksum_of(&g1, d1), String::from("187ef4436122d1cc2f40dc2b92f0eba0"));
    assert_eq!(checksum_of(&g1, 0), checksum_of(&g2, 0));
}

#[test]
fn changed_leaf_changes_ancestors_only() {
    let base = vec![record("a", "a.txt", "/x/y/"), record("b", "b.txt", "/z/")];
    let changed = vec![record("c", "a.txt", "/x/y/"), record("b", "b.txt", "/z/")];
    let mut g1 = initialise_graph();
    g1.bulk_insert(base);
    let mut g2 = initialise_graph();
    g2.bulk_insert(changed);
    let x1 = child_dir(&g1, 0, "x");
    let x2 = child_dir(&g2, 0, "x");
    let y1 = child_dir(&g1, x1, "y");
    let y2 = child_dir(&g2, x2, "y");
    let z1 = child_dir(&g1, 0, "z");
    let z2 = child_dir(&g2, 0, "z");
    assert_ne!(checksum_of(&g1, y1), checksum_of(&g2, y2));
    assert_ne!(checksum_of(&g1, x1), checksum_of(&g2, x2));
    assert_ne!(checksum_of(&g1, 0), checksum_of(&g2, 0));
    assert_eq!(checksum_of(&g1, z1), checksum_of(&g2, z2));
}

#[test]
fn empty_path_attaches_under_subtree_root() {
    let mut graph = initialise_graph();
    graph.bulk_insert(vec![record("a", "a.txt", "/d/")]);
    let d = child_dir(&graph, 0, "d");
    let mut node = d;
    graph._bulk_insert(&mut node, vec![record("b", "b.txt", "")]);
    assert_eq!(node, d);
    let kids: Vec<usize> = graph
        .graph
        .neighbors(petgraph::graph::NodeIndex::new(d))
        .map(|n| n.index())
        .collect();
    assert_eq!(kids.len(), 2);
    assert_eq!(graph.node_count(), 4);
}

#[test]
fn empty_components_are_ignored() {
    let mut g1 = initialise_graph();
    g1.bulk_insert(vec![FileRecord {
        checksum: String::from("a"),
        name: String::from("a.txt"),
        path: vec![String::from(""), String::from("some"), String::from("")],
        modified: 0,
    }]);
    let mut g2 = initialise_graph();
    g2.bulk_insert(vec![FileRecord {
        checksum: String::from("a"),
        name: String::from("a.txt"),
        path: vec![String::from("some")],
        modified: 0,
    }]);
    assert_eq!(g1.node_count(), 3);
    assert_eq!(g2.node_count(), 3);
    assert_eq!(checksum_of(&g1, 0), checksum_of(&g2, 0));
    let s = child_dir(&g1, 0, "some");
    assert_eq!(checksum_of(&g1, s), combine_digests(&vec![String::from("a")]));
}

#[test]
fn root_starts_alone_with_empty_checksum() {
    let graph = initialise_graph();
    assert_eq!(graph.node_count(), 1);
    assert_eq!(graph.root, 0);
    assert_eq!(checksum_of(&graph, 0), String::new());
    assert!(graph.find_duplicates().is_empty());
}

#[test]
fn find_or_create_dir_is_idempotent() {
    let mut graph = initialise_graph();
    let a = graph.find_or_create_dir(0, "d");
    let b = graph.find_or_create_dir(0, "d");
    assert_eq!(a, b);
    assert_eq!(graph.node_count(), 2);
    assert_eq!(checksum_of(&graph, a), String::from("NA"));
    let leaf = graph.attach_leaf(0, String::from("d"), String::from("q"));
    assert_ne!(leaf, a);
    assert_eq!(graph.find_or_create_dir(0, "d"), a);
}

#[test]
fn update_digest_uses_children() {
    let mut graph = initialise_graph();
    graph.attach_leaf(0, String::from("x"), String::from("b"));
    graph.attach_leaf(0, String::from("y"), String::from("a"));
    graph.update_digest(0);
    assert_eq!(checksum_of(&graph, 0), String::from("187ef4436122d1cc2f40dc2b92f0eba0"));
}

#[test]
fn combine_digests_sorts_then_hashes() {
    let d = combine_digests(&vec![String::from("b"), String::from("a")]);
    assert_eq!(d, String::from("187ef4436122d1cc2f40dc2b92f0eba0"));
    assert_eq!(combine_digests(&vec![]), String::from("d41d8cd98f00b204e9800998ecf8427e"));
    let d2 = combine_digests(&vec![String::from("aaaaa"), String::from("aabbb")]);
    assert_eq!(d2, String::from("70c509d6f4f27439dd77cdad42e58972"));
}

#[test]
fn partition_groups_by_first_component() {
    let recs = vec![
        record("1", "a", ""),
        record("2", "b", "/x/y/"),
        record("3", "c", "/x/"),
        record("4", "d", "/z/"),
    ];
    let part = partition_records(recs);
    assert_eq!(part.leaves.len(), 1);
    assert_eq!(part.leaves[0].name, String::from("a"));
    assert_eq!(part.keys, vec![String::from("x"), String::from("z")]);
    assert_eq!(part.buckets[0].len(), 2);
    assert_eq!(part.buckets[0][0].path, vec![String::from("y")]);
    assert!(part.buckets[0][1].path.is_empty());
    assert_eq!(part.buckets[1][0].name, String::from("d"));
}

#[test]
fn partition_skips_empty_components() {
    let part = partition_records(vec![FileRecord {
        checksum: String::from("1"),
        name: String::from("a"),
        path: vec![String::from(""), String::from("p"), String::from(""), String::from("q")],
        modified: 5,
    }]);
    assert_eq!(part.keys, vec![String::from("p")]);
    assert_eq!(part.buckets[0][0].path, vec![String::from("q")]);
    assert_eq!(part.buckets[0][0].modified, 5);
}
