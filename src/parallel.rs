use vstd::prelude::*;
use crate::analyser::{FileRecord, GraphStorage};
use crate::tree::{
    own_leaves, dir_for, dir_from, file_count, has_leaf, holds_leaf, lemma_dir_for_stable,
    lemma_holds_leaf_stable, lemma_path_stable, path_of, lemma_dir_paths_distinct, insert_cost, above, clean_path, consistent_except, dir_consistent, grows_from, inconsistent_dirs,
    lemma_clean_path_nonempty, lemma_grows_trans, parent_of, tree_wf,
};
use crate::graph::graph_nodes;
use crate::analyser::GNode;
use petgraph::graph::Graph;
use crate::duplicates::find_key;
use crate::digest::views;

verus! {

/// A record's path with the empty components left out.
pub open spec fn clean_of(r: FileRecord) -> Seq<Seq<char>> {
    clean_path(views(r.path@))
}

/// What a record says once its first remaining component is taken off:
/// checksum, name, the rest of its cleaned path, modification time.
pub open spec fn down_view(r: FileRecord) -> (Seq<char>, Seq<char>, Seq<Seq<char>>, i64) {
    let cp = clean_of(r);
    (r.checksum@, r.name@, if cp.len() == 0 {
        cp
    } else {
        cp.drop_first()
    }, r.modified)
}

/// What a record says: checksum, name, path, modification time.
pub open spec fn record_view(r: FileRecord) -> (Seq<char>, Seq<char>, Seq<Seq<char>>, i64) {
    (r.checksum@, r.name@, views(r.path@), r.modified)
}

pub open spec fn is_leaf_record(r: FileRecord) -> bool {
    clean_of(r).len() == 0
}

pub open spec fn has_key(r: FileRecord, key: Seq<char>) -> bool {
    clean_of(r).len() > 0 && clean_of(r)[0] == key
}

/// The records of `s` whose first remaining component is `key`, in order.
pub open spec fn bucket_of(s: Seq<FileRecord>, key: Seq<char>) -> Seq<FileRecord> {
    s.filter(|r: FileRecord| has_key(r, key))
}

/// The records of `s` with no remaining component, in order.
pub open spec fn leaves_of(s: Seq<FileRecord>) -> Seq<FileRecord> {
    s.filter(|r: FileRecord| is_leaf_record(r))
}

/// The records that sit right under a node, and the others grouped by
/// their first remaining component, which each group has taken off.
pub struct Partition {
    pub leaves: Vec<FileRecord>,
    pub keys: Vec<String>,
    pub buckets: Vec<Vec<FileRecord>>,
}

proof fn lemma_filter_push(s: Seq<FileRecord>, x: FileRecord, pred: spec_fn(FileRecord) -> bool)
    ensures
        s.push(x).filter(pred) == if pred(x) {
            s.filter(pred).push(x)
        } else {
            s.filter(pred)
        },
{
    reveal(Seq::filter);
    assert(s.push(x).drop_last() =~= s);
}

/// The components of `path` that are not empty.
pub fn clean_components(path: &Vec<String>) -> (r: Vec<String>)
    ensures
        views(r@) == clean_path(views(path@)),
{
    let mut out: Vec<String> = Vec::new();
    let mut i: usize = 0;
    proof {
        assert(views(path@).take(0) =~= Seq::<Seq<char>>::empty());
        assert(views(out@) =~= Seq::<Seq<char>>::empty());
    }
    while i < path.len()
        invariant
            i <= path@.len(),
            views(out@) == clean_path(views(path@).take(i as int)),
        decreases path@.len() - i,
    {
        let ghost before = out@;
        proof {
            assert(views(path@).take(i + 1).drop_last() =~= views(path@).take(i as int));
            assert(views(path@).take(i + 1).last() == path@[i as int]@);
        }
        if path[i].as_str().unicode_len() > 0 {
            out.push(path[i].clone());
            proof {
                assert(views(out@) =~= views(before).push(path@[i as int]@));
            }
        }
        i = i + 1;
    }
    proof {
        assert(views(path@).take(path@.len() as int) =~= views(path@));
    }
    out
}

/// Splits the records by their first non-empty path component. Records with
/// none become `leaves`; each other one joins the bucket of its first
/// component, with that component and the empty ones taken off its path.
/// Keys are distinct and non-empty, and order is kept within each group.
pub fn partition_records(records: Vec<FileRecord>) -> (r: Partition)
    ensures
        r.keys@.len() == r.buckets@.len(),
        forall|i: int, j: int| 0 <= i < j < r.keys@.len() ==> r.keys@[i]@ != r.keys@[j]@,
        forall|j: int| 0 <= j < r.keys@.len() ==> (#[trigger] r.keys@[j])@.len() > 0,
        forall|j: int| 0 <= j < r.buckets@.len() ==> (#[trigger] r.buckets@[j])@.len() > 0,
        r.leaves@.map_values(|x: FileRecord| record_view(x)) == leaves_of(records@).map_values(
            |x: FileRecord| down_view(x),
        ),
        forall|j: int|
            0 <= j < r.keys@.len() ==> (#[trigger] r.buckets@[j])@.map_values(|x: FileRecord| record_view(x))
                == bucket_of(records@, r.keys@[j]@).map_values(|x: FileRecord| down_view(x)),
        forall|i: int|
            0 <= i < records@.len() && !is_leaf_record(#[trigger] records@[i]) ==> exists|j: int|
                0 <= j < r.keys@.len() && r.keys@[j]@ == clean_of(records@[i])[0],
{
    let mut leaves: Vec<FileRecord> = Vec::new();
    let mut keys: Vec<String> = Vec::new();
    let mut buckets: Vec<Vec<FileRecord>> = Vec::new();
    let mut i: usize = 0;
    proof {
        assert(records@.take(0) =~= Seq::<FileRecord>::empty());
        reveal(Seq::filter);
        assert(leaves_of(Seq::<FileRecord>::empty()) =~= Seq::<FileRecord>::empty());
        assert(leaves@.map_values(|x: FileRecord| record_view(x)) =~= Seq::empty());
    }
    while i < records.len()
        invariant
            i <= records@.len(),
            keys@.len() == buckets@.len(),
            forall|a: int, b: int| 0 <= a < b < keys@.len() ==> keys@[a]@ != keys@[b]@,
            forall|j: int| 0 <= j < keys@.len() ==> (#[trigger] keys@[j])@.len() > 0,
            forall|j: int| 0 <= j < buckets@.len() ==> (#[trigger] buckets@[j])@.len() > 0,
            leaves@.map_values(|x: FileRecord| record_view(x)) == leaves_of(records@.take(i as int)).map_values(
                |x: FileRecord| down_view(x),
            ),
            forall|j: int|
                0 <= j < keys@.len() ==> (#[trigger] buckets@[j])@.map_values(|x: FileRecord| record_view(x))
                    == bucket_of(records@.take(i as int), keys@[j]@).map_values(|x: FileRecord| down_view(x)),
            forall|k: int|
                0 <= k < i && !is_leaf_record(#[trigger] records@[k]) ==> exists|j: int|
                    0 <= j < keys@.len() && keys@[j]@ == clean_of(records@[k])[0],
        decreases records@.len() - i,
    {
        let rec = &records[i];
        let ghost x = records@[i as int];
        let ghost pre = records@.take(i as int);
        proof {
            assert(records@.take(i + 1) =~= pre.push(x));
            lemma_filter_push(pre, x, |r: FileRecord| is_leaf_record(r));
        }
        let mut cp = clean_components(&rec.path);
        if cp.len() == 0 {
            let ghost before = leaves@;
            leaves.push(FileRecord { checksum: rec.checksum.clone(), name: rec.name.clone(), path: cp, modified: rec.modified });
            proof {
                assert(leaves@.map_values(|x: FileRecord| record_view(x)) =~= before.map_values(|x: FileRecord| record_view(x)).push(down_view(x)));
                assert(leaves_of(records@.take(i + 1)).map_values(|x: FileRecord| down_view(x)) =~= leaves_of(pre).map_values(|x: FileRecord| down_view(x)).push(down_view(x)));
                assert forall|j: int| 0 <= j < keys@.len() implies (#[trigger] buckets@[j])@.map_values(|x: FileRecord| record_view(x))
                    == bucket_of(records@.take(i + 1), keys@[j]@).map_values(|x: FileRecord| down_view(x)) by {
                    lemma_filter_push(pre, x, |r: FileRecord| has_key(r, keys@[j]@));
                }
                assert forall|k: int| 0 <= k < i + 1 && !is_leaf_record(#[trigger] records@[k]) implies exists|j: int|
                    0 <= j < keys@.len() && keys@[j]@ == clean_of(records@[k])[0] by {}
            }
        } else {
            let key = cp.remove(0);
            let moved = FileRecord { checksum: rec.checksum.clone(), name: rec.name.clone(), path: cp, modified: rec.modified };
            proof {
                assert(record_view(moved) == down_view(x));
            }
            let ghost ks0 = keys@;
            let lookup = find_key(&keys, key.as_str());
            proof {
                assert(key@ == clean_of(x)[0]);
                lemma_clean_path_nonempty(views(x.path@));
            }
            if let Some(j) = lookup {
                let ghost bs = buckets@;
                let mut grp = buckets.remove(j);
                grp.push(moved);
                buckets.insert(j, grp);
                proof {
                    assert forall|b: int| 0 <= b < keys@.len() implies (#[trigger] buckets@[b])@.map_values(|x: FileRecord| record_view(x))
                        == bucket_of(records@.take(i + 1), keys@[b]@).map_values(|x: FileRecord| down_view(x)) by {
                        lemma_filter_push(pre, x, |r: FileRecord| has_key(r, keys@[b]@));
                        if b == j {
                            assert(buckets@[b]@ == bs[b]@.push(moved));
                            assert(buckets@[b]@.map_values(|x: FileRecord| record_view(x)) =~= bs[b]@.map_values(|x: FileRecord| record_view(x)).push(down_view(x)));
                            assert(bucket_of(records@.take(i + 1), keys@[b]@).map_values(|x: FileRecord| down_view(x)) =~= bucket_of(pre, keys@[b]@).map_values(|x: FileRecord| down_view(x)).push(down_view(x)));
                        } else {
                            assert(buckets@[b] == bs[b]);
                        }
                    }
                }
            } else {
                let ghost ks = keys@;
                let ghost bs = buckets@;
                let mut grp: Vec<FileRecord> = Vec::new();
                grp.push(moved);
                keys.push(key);
                buckets.push(grp);
                proof {
                    let nk = keys@.len() - 1;
                    assert forall|b: int| 0 <= b < keys@.len() implies (#[trigger] buckets@[b])@.map_values(|x: FileRecord| record_view(x))
                        == bucket_of(records@.take(i + 1), keys@[b]@).map_values(|x: FileRecord| down_view(x)) by {
                        lemma_filter_push(pre, x, |r: FileRecord| has_key(r, keys@[b]@));
                        if b == nk {
                            assert forall|k: int| 0 <= k < pre.len() implies !has_key(#[trigger] pre[k], keys@[b]@) by {
                                assert(pre[k] == records@[k]);
                                if has_key(pre[k], keys@[b]@) {
                                    assert(!is_leaf_record(records@[k]));
                                    let jj = choose|jj: int| 0 <= jj < ks.len() && ks[jj]@ == clean_of(records@[k])[0];
                                    assert(ks[jj]@ != key@);
                                }
                            }
                            reveal(Seq::filter);
                            pre.lemma_all_neg_filter_empty(|r: FileRecord| has_key(r, keys@[b]@));
                            assert(buckets@[b]@.map_values(|x: FileRecord| record_view(x)) =~= seq![down_view(x)]);
                            assert(bucket_of(records@.take(i + 1), keys@[b]@).map_values(|x: FileRecord| down_view(x)) =~= seq![down_view(x)]);
                        } else {
                            assert(buckets@[b] == bs[b]);
                            assert(keys@[b] == ks[b]);
                        }
                    }
                    assert forall|k: int| 0 <= k < i + 1 && !is_leaf_record(#[trigger] records@[k]) implies exists|jj: int|
                        0 <= jj < keys@.len() && keys@[jj]@ == clean_of(records@[k])[0] by {
                        if k < i {
                            let jj = choose|jj: int| 0 <= jj < ks.len() && ks[jj]@ == clean_of(records@[k])[0];
                            assert(keys@[jj] == ks[jj]);
                        } else {
                            assert(keys@[nk]@ == clean_of(records@[k])[0]);
                        }
                    }
                }
            }
        }
        i = i + 1;
    }
    proof {
        assert(records@.take(records@.len() as int) =~= records@);
        assert forall|k: int| 0 <= k < records@.len() && !is_leaf_record(#[trigger] records@[k]) implies exists|jj: int|
            0 <= jj < keys@.len() && keys@[jj]@ == clean_of(records@[k])[0] by {
            assert(k < i);
        }
    }
    let r = Partition { leaves, keys, buckets };
    assert(r.keys@ == keys@);
    r
}

/// The sum of `w` over the records of `s`.
pub open spec fn wsum(s: Seq<FileRecord>, w: spec_fn(FileRecord) -> int) -> int
    decreases s.len(),
{
    if s.len() == 0 {
        0
    } else {
        wsum(s.drop_last(), w) + w(s.last())
    }
}

/// The sum of `w` over the buckets of `s` for the keys `ks`.
pub open spec fn bsum(s: Seq<FileRecord>, ks: Seq<Seq<char>>, w: spec_fn(FileRecord) -> int) -> int
    decreases ks.len(),
{
    if ks.len() == 0 {
        0
    } else {
        bsum(s, ks.drop_last(), w) + wsum(bucket_of(s, ks.last()), w)
    }
}

pub open spec fn distinct_keys(ks: Seq<Seq<char>>) -> bool {
    forall|a: int, b: int| 0 <= a < b < ks.len() ==> ks[a] != ks[b]
}

/// Every record of `s` either has no remaining component or has its first
/// one among `ks`.
pub open spec fn keys_cover(s: Seq<FileRecord>, ks: Seq<Seq<char>>) -> bool {
    forall|i: int| 0 <= i < s.len() && !is_leaf_record(#[trigger] s[i]) ==> ks.contains(clean_of(s[i])[0])
}

proof fn lemma_bsum_push(s: Seq<FileRecord>, x: FileRecord, ks: Seq<Seq<char>>, w: spec_fn(FileRecord) -> int)
    requires
        distinct_keys(ks),
    ensures
        bsum(s.push(x), ks, w) == bsum(s, ks, w) + if !is_leaf_record(x) && ks.contains(clean_of(x)[0]) {
            w(x)
        } else {
            0
        },
    decreases ks.len(),
{
    if ks.len() > 0 {
        let k = ks.last();
        assert(distinct_keys(ks.drop_last()));
        lemma_bsum_push(s, x, ks.drop_last(), w);
        lemma_filter_push(s, x, |r: FileRecord| has_key(r, k));
        let f = bucket_of(s, k);
        if has_key(x, k) {
            assert(f.push(x).drop_last() =~= f);
            assert(!ks.drop_last().contains(k)) by {
                if ks.drop_last().contains(k) {
                    let a = choose|a: int| 0 <= a < ks.drop_last().len() && ks.drop_last()[a] == k;
                    assert(ks[a] == ks[ks.len() - 1]);
                }
            }
            assert(ks.contains(k)) by {
                assert(ks[ks.len() - 1] == k);
            }
        } else {
            if !is_leaf_record(x) && ks.contains(clean_of(x)[0]) {
                let a = choose|a: int| 0 <= a < ks.len() && ks[a] == clean_of(x)[0];
                assert(a != ks.len() - 1);
                assert(ks.drop_last()[a] == ks[a]);
            }
            if !is_leaf_record(x) && ks.drop_last().contains(clean_of(x)[0]) {
                let a = choose|a: int| 0 <= a < ks.drop_last().len() && ks.drop_last()[a] == clean_of(x)[0];
                assert(ks[a] == ks.drop_last()[a]);
            }
        }
    }
}

/// The records of `s` split into the leaves and the buckets of `ks`: a sum
/// over `s` is the sum over its leaves plus the sums over its buckets.
pub proof fn lemma_partition_sum(s: Seq<FileRecord>, ks: Seq<Seq<char>>, w: spec_fn(FileRecord) -> int)
    requires
        distinct_keys(ks),
        keys_cover(s, ks),
    ensures
        wsum(s, w) == wsum(leaves_of(s), w) + bsum(s, ks, w),
    decreases s.len(),
{
    if s.len() == 0 {
        reveal(Seq::filter);
        assert(leaves_of(s) =~= Seq::<FileRecord>::empty());
        lemma_bsum_empty(s, ks, w);
    } else {
        let t = s.drop_last();
        let x = s.last();
        assert(t.push(x) =~= s);
        assert forall|i: int| 0 <= i < t.len() && !is_leaf_record(#[trigger] t[i]) implies ks.contains(clean_of(t[i])[0]) by {
            assert(s[i] == t[i]);
        }
        lemma_partition_sum(t, ks, w);
        lemma_bsum_push(t, x, ks, w);
        lemma_filter_push(t, x, |r: FileRecord| is_leaf_record(r));
        if is_leaf_record(x) {
            assert(leaves_of(t).push(x).drop_last() =~= leaves_of(t));
        } else {
            assert(s[s.len() - 1] == x);
        }
    }
}

proof fn lemma_bsum_empty(s: Seq<FileRecord>, ks: Seq<Seq<char>>, w: spec_fn(FileRecord) -> int)
    requires
        s.len() == 0,
    ensures
        bsum(s, ks, w) == 0,
    decreases ks.len(),
{
    if ks.len() > 0 {
        lemma_bsum_empty(s, ks.drop_last(), w);
        reveal(Seq::filter);
        assert(bucket_of(s, ks.last()) =~= Seq::<FileRecord>::empty());
    }
}

/// What inserting one record costs at most: a node per path component and
/// one for its leaf.
pub open spec fn record_cost() -> spec_fn(FileRecord) -> int {
    |r: FileRecord| r.path@.len() + 1int
}

pub open spec fn one_each() -> spec_fn(FileRecord) -> int {
    |r: FileRecord| 1int
}

proof fn lemma_insert_cost_wsum(s: Seq<FileRecord>)
    ensures
        insert_cost(s) == wsum(s, record_cost()),
        wsum(s, record_cost()) >= s.len(),
        wsum(s, one_each()) == s.len(),
    decreases s.len(),
{
    if s.len() > 0 {
        lemma_insert_cost_wsum(s.drop_last());
    }
}

proof fn lemma_bsum_prefix(s: Seq<FileRecord>, ks: Seq<Seq<char>>, j: int)
    requires
        0 <= j < ks.len(),
    ensures
        bsum(s, ks.take(j + 1), record_cost()) == bsum(s, ks.take(j), record_cost()) + wsum(
            bucket_of(s, ks[j]),
            record_cost(),
        ),
        bsum(s, ks.take(j + 1), record_cost()) <= bsum(s, ks, record_cost()),
    decreases ks.len(),
{
    assert(ks.take(j + 1).drop_last() =~= ks.take(j));
    if j + 1 < ks.len() {
        assert(ks.drop_last().take(j + 1) =~= ks.take(j + 1));
        assert(ks.drop_last().take(j) =~= ks.take(j));
        lemma_bsum_prefix(s, ks.drop_last(), j);
        lemma_insert_cost_wsum(bucket_of(s, ks.last()));
    } else {
        assert(ks.take(j + 1) =~= ks);
    }
}

/// A cleaned path is left as it is by cleaning.
proof fn lemma_clean_path_idem(p: Seq<Seq<char>>)
    requires
        forall|i: int| 0 <= i < p.len() ==> (#[trigger] p[i]).len() > 0,
    ensures
        clean_path(p) == p,
    decreases p.len(),
{
    if p.len() > 0 {
        lemma_clean_path_idem(p.drop_last());
        assert(p.drop_last().push(p.last()) =~= p);
    }
}

/// A bucket costs no more than the records it came from, less one per record.
proof fn lemma_bucket_cost(b: Seq<FileRecord>, f: Seq<FileRecord>, k: Seq<char>)
    requires
        b.map_values(|x: FileRecord| record_view(x)) == f.map_values(|x: FileRecord| down_view(x)),
        forall|q: int| 0 <= q < f.len() ==> has_key(#[trigger] f[q], k),
    ensures
        b.len() == f.len(),
        insert_cost(b) + b.len() <= wsum(f, record_cost()),
    decreases b.len(),
{
    assert(b.map_values(|x: FileRecord| record_view(x)).len() == f.map_values(|x: FileRecord| down_view(x)).len());
    assert(b.map_values(|x: FileRecord| record_view(x)).len() == b.len());
    assert(f.map_values(|x: FileRecord| down_view(x)).len() == f.len());
    if b.len() > 0 {
        let n = b.len() - 1;
        assert(b.drop_last().map_values(|x: FileRecord| record_view(x)) =~= b.map_values(|x: FileRecord| record_view(x)).drop_last());
        assert(f.drop_last().map_values(|x: FileRecord| down_view(x)) =~= f.map_values(|x: FileRecord| down_view(x)).drop_last());
        assert forall|q: int| 0 <= q < f.drop_last().len() implies has_key(#[trigger] f.drop_last()[q], k) by {
            assert(f.drop_last()[q] == f[q]);
        }
        lemma_bucket_cost(b.drop_last(), f.drop_last(), k);
        assert(b.map_values(|x: FileRecord| record_view(x))[n] == f.map_values(|x: FileRecord| down_view(x))[n]);
        assert(record_view(b.last()) == down_view(f.last()));
        assert(has_key(f[n], k));
        lemma_clean_path_len(views(f.last().path@));
        assert(views(b.last().path@).len() == b.last().path@.len());
        let cp = clean_of(f.last());
        assert(f.last() == f[n] && b.last() == b[n]);
        assert(cp.len() > 0);
        assert(views(b.last().path@) == cp.drop_first());
        assert(b.last().path@.len() + 1 <= f.last().path@.len());
        assert(insert_cost(b) == insert_cost(b.drop_last()) + b.last().path@.len() + 1);
        assert(wsum(f, record_cost()) == wsum(f.drop_last(), record_cost()) + f.last().path@.len() + 1);
    } else {
        assert(f.len() == 0);
    }
}

proof fn lemma_clean_path_len(p: Seq<Seq<char>>)
    ensures
        clean_path(p).len() <= p.len(),
    decreases p.len(),
{
    if p.len() > 0 {
        lemma_clean_path_len(p.drop_last());
    }
}

/// The length of the longest path among the records.
pub fn longest_path(records: &Vec<FileRecord>) -> (r: usize)
    ensures
        forall|i: int| 0 <= i < records@.len() ==> (#[trigger] records@[i]).path@.len() <= r,
        records@.len() == 0 || exists|i: int| 0 <= i < records@.len() && records@[i].path@.len() == r,
{
    let mut best: usize = 0;
    let mut i: usize = 0;
    while i < records.len()
        invariant
            i <= records@.len(),
            forall|k: int| 0 <= k < i ==> (#[trigger] records@[k]).path@.len() <= best,
            i == 0 || exists|k: int| 0 <= k < i && records@[k].path@.len() == best,
        decreases records@.len() - i,
    {
        if records[i].path.len() > best || i == 0 {
            best = records[i].path.len();
        }
        i = i + 1;
    }
    best
}

/// Where the elements of a filtered sequence stand in the sequence: in
/// order, and every element that passes the filter is among them.
proof fn lemma_filter_index(s: Seq<FileRecord>, pred: spec_fn(FileRecord) -> bool) -> (idx: Seq<int>)
    ensures
        idx.len() == s.filter(pred).len(),
        forall|p: int| 0 <= p < idx.len() ==> 0 <= #[trigger] idx[p] < s.len() && s[idx[p]] == s.filter(pred)[p],
        forall|p1: int, p2: int| 0 <= p1 < p2 < idx.len() ==> idx[p1] < idx[p2],
        forall|i: int| 0 <= i < s.len() && pred(#[trigger] s[i]) ==> exists|p: int| 0 <= p < idx.len() && idx[p] == i,
    decreases s.len(),
{
    if s.len() == 0 {
        reveal(Seq::filter);
        Seq::empty()
    } else {
        let t = s.drop_last();
        let x = s.last();
        assert(t.push(x) =~= s);
        let it = lemma_filter_index(t, pred);
        lemma_filter_push(t, x, pred);
        if pred(x) {
            let idx = it.push(s.len() - 1);
            assert forall|p: int| 0 <= p < idx.len() implies 0 <= #[trigger] idx[p] < s.len() && s[idx[p]] == s.filter(pred)[p] by {
                if p < it.len() {
                    assert(idx[p] == it[p]);
                    assert(s[it[p]] == t[it[p]]);
                }
            }
            assert forall|i: int| 0 <= i < s.len() && pred(#[trigger] s[i]) implies exists|p: int| 0 <= p < idx.len() && idx[p] == i by {
                if i < t.len() {
                    assert(t[i] == s[i]);
                    let p = choose|p: int| 0 <= p < it.len() && it[p] == i;
                    assert(idx[p] == i);
                } else {
                    assert(idx[idx.len() - 1] == i);
                }
            }
            idx
        } else {
            assert forall|p: int| 0 <= p < it.len() implies 0 <= #[trigger] it[p] < s.len() && s[it[p]] == s.filter(pred)[p] by {
                assert(s[it[p]] == t[it[p]]);
            }
            assert forall|i: int| 0 <= i < s.len() && pred(#[trigger] s[i]) implies exists|p: int| 0 <= p < it.len() && it[p] == i by {
                assert(i < t.len());
                assert(t[i] == s[i]);
            }
            it
        }
    }
}

/// A leaf placed for a bucket record below the bucket's directory is placed
/// for the record it came from below the parent.
proof fn lemma_bucket_leaf(g: Graph<GNode, ()>, node: int, child: int, r: FileRecord, b: FileRecord, n: int)
    requires
        tree_wf(g),
        1 <= child < graph_nodes(g).len(),
        0 <= node < graph_nodes(g).len(),
        parent_of(g, child) == node,
        !is_leaf_record(r),
        graph_nodes(g)[child].name_view() == clean_of(r)[0],
        record_view(b) == down_view(r),
        holds_leaf(g, child, b, n),
    ensures
        holds_leaf(g, node, r, n),
{
    let cp = clean_of(r);
    lemma_clean_path_nonempty(views(r.path@));
    assert forall|i: int| 0 <= i < cp.drop_first().len() implies (#[trigger] cp.drop_first()[i]).len() > 0 by {
        assert(cp.drop_first()[i] == cp[i + 1]);
    }
    lemma_clean_path_idem(cp.drop_first());
    assert(views(b.path@) == cp.drop_first());
    assert(path_of(g, child) == path_of(g, node).push(cp[0]));
    assert(path_of(g, node).push(cp[0]) + cp.drop_first() =~= path_of(g, node) + cp);
}

/// A directory on a bucket record's path below the bucket's directory lies
/// on the original record's path below the parent.
proof fn lemma_bucket_dir(g: Graph<GNode, ()>, node: int, child: int, r: FileRecord, b: FileRecord, d: int)
    requires
        tree_wf(g),
        1 <= child < graph_nodes(g).len(),
        0 <= node < graph_nodes(g).len(),
        parent_of(g, child) == node,
        !is_leaf_record(r),
        graph_nodes(g)[child].name_view() == clean_of(r)[0],
        record_view(b) == down_view(r),
    ensures
        dir_for(g, node, r, child),
        dir_for(g, child, b, d) ==> dir_for(g, node, r, d),
{
    let cp = clean_of(r);
    lemma_clean_path_nonempty(views(r.path@));
    assert forall|i: int| 0 <= i < cp.drop_first().len() implies (#[trigger] cp.drop_first()[i]).len() > 0 by {
        assert(cp.drop_first()[i] == cp[i + 1]);
    }
    lemma_clean_path_idem(cp.drop_first());
    assert(views(b.path@) == cp.drop_first());
    assert(path_of(g, child) == path_of(g, node).push(cp[0]));
    assert(path_of(g, node).push(cp[0]) =~= path_of(g, node) + cp.take(1));
    if dir_for(g, child, b, d) {
        let jj = choose|jj: int| 1 <= jj <= cp.drop_first().len() && path_of(g, d) == path_of(g, child) + cp.drop_first().take(jj);
        assert(path_of(g, node).push(cp[0]) + cp.drop_first().take(jj) =~= path_of(g, node) + cp.take(jj + 1));
    }
}

/// A directory on a bucket record's original path below the parent is the
/// bucket's directory or lies on the bucket record's path below it.
proof fn lemma_bucket_dir_back(g: Graph<GNode, ()>, node: int, child: int, r: FileRecord, b: FileRecord, d: int)
    requires
        tree_wf(g),
        1 <= child < graph_nodes(g).len(),
        0 <= node < graph_nodes(g).len(),
        0 <= d < graph_nodes(g).len(),
        graph_nodes(g)[child].is_dir(),
        graph_nodes(g)[d].is_dir(),
        parent_of(g, child) == node,
        !is_leaf_record(r),
        graph_nodes(g)[child].name_view() == clean_of(r)[0],
        record_view(b) == down_view(r),
        dir_for(g, node, r, d),
    ensures
        d == child || dir_for(g, child, b, d),
{
    let cp = clean_of(r);
    lemma_clean_path_nonempty(views(r.path@));
    assert forall|i: int| 0 <= i < cp.drop_first().len() implies (#[trigger] cp.drop_first()[i]).len() > 0 by {
        assert(cp.drop_first()[i] == cp[i + 1]);
    }
    lemma_clean_path_idem(cp.drop_first());
    assert(views(b.path@) == cp.drop_first());
    assert(path_of(g, child) == path_of(g, node).push(cp[0]));
    let jj = choose|jj: int| 1 <= jj <= cp.len() && path_of(g, d) == path_of(g, node) + cp.take(jj);
    if jj == 1 {
        assert(path_of(g, node).push(cp[0]) =~= path_of(g, node) + cp.take(1));
        lemma_dir_paths_distinct(g, d, child);
    } else {
        assert(path_of(g, node).push(cp[0]) + cp.drop_first().take(jj - 1) =~= path_of(g, node) + cp.take(jj));
    }
}

/// A directory on a record's path below `node` has a longer path than
/// `node`, so it is neither `node` nor its parent.
proof fn lemma_dir_for_below(g: Graph<GNode, ()>, node: int, r: FileRecord, d: int)
    requires
        tree_wf(g),
        0 <= node < graph_nodes(g).len(),
        dir_for(g, node, r, d),
    ensures
        d != node,
        node != 0 ==> d != parent_of(g, node),
{
    let cp = clean_of(r);
    let jj = choose|jj: int| 1 <= jj <= cp.len() && path_of(g, d) == path_of(g, node) + cp.take(jj);
    assert(path_of(g, d).len() > path_of(g, node).len());
    if node != 0 {
        assert(path_of(g, node).len() == path_of(g, parent_of(g, node)).len() + 1);
    }
}

impl GraphStorage {
    /// Fork-join insertion of `records` under the directory `node`, one unit
    /// at a time: the records are partitioned by their first remaining path
    /// component, the empty-path ones become leaves of `node`, each bucket
    /// is inserted under its directory (found or created), and only then is
    /// the digest of `node` computed. Every record gets a leaf in the
    /// directory its path names below `node`, leaves are never merged, every
    /// new directory lies on a record's path, `node` ends up carrying the
    /// digest of its children, and every directory that did so before, but
    /// the parent of `node`, still does.
    pub fn fork_join_insert(&mut self, node: usize, records: Vec<FileRecord>)
        requires
            old(self).wf(),
            old(self).is_dir_node(node as int),
            old(self).nodes().len() + insert_cost(records@) <= u32::MAX,
        ensures
            final(self).wf(),
            final(self).root == old(self).root,
            grows_from(old(self).graph, final(self).graph),
            final(self).nodes().len() <= old(self).nodes().len() + insert_cost(records@),
            file_count(final(self).nodes()) == file_count(old(self).nodes()) + records@.len(),
            forall|i: int| 0 <= i < records@.len() ==> #[trigger] has_leaf(final(self).graph, node as int, records@[i]),
            exists|ls: Seq<int>| own_leaves(final(self).graph, node as int, records@, ls, old(self).nodes().len() as int),
            forall|d: int|
                old(self).nodes().len() <= d < final(self).nodes().len() && final(self).nodes()[d].is_dir()
                    ==> #[trigger] dir_from(final(self).graph, node as int, records@, d),
            dir_consistent(final(self).graph, node as int),
            consistent_except(
                final(self).graph,
                inconsistent_dirs(old(self).graph).union(above(old(self).graph, node as int)),
            ),
            forall|d: int|
                0 <= d < final(self).nodes().len() && final(self).nodes()[d].is_dir() && #[trigger] dir_from(
                    final(self).graph,
                    node as int,
                    records@,
                    d,
                ) ==> dir_consistent(final(self).graph, d),
            forall|a: int|
                0 <= a < old(self).nodes().len() && a != node && !dir_from(final(self).graph, node as int, records@, a)
                    ==> #[trigger] final(self).nodes()[a] == old(self).nodes()[a],
    {
        let depth = longest_path(&records);
        self.fork_join_at(node, records, depth);
    }

    #[verifier::rlimit(100)]
    fn fork_join_at(&mut self, node: usize, records: Vec<FileRecord>, depth: usize)
        requires
            old(self).wf(),
            old(self).is_dir_node(node as int),
            old(self).nodes().len() + insert_cost(records@) <= u32::MAX,
            forall|i: int| 0 <= i < records@.len() ==> (#[trigger] records@[i]).path@.len() <= depth,
        ensures
            final(self).wf(),
            final(self).root == old(self).root,
            grows_from(old(self).graph, final(self).graph),
            final(self).nodes().len() <= old(self).nodes().len() + insert_cost(records@),
            file_count(final(self).nodes()) == file_count(old(self).nodes()) + records@.len(),
            forall|i: int| 0 <= i < records@.len() ==> #[trigger] has_leaf(final(self).graph, node as int, records@[i]),
            exists|ls: Seq<int>| own_leaves(final(self).graph, node as int, records@, ls, old(self).nodes().len() as int),
            forall|d: int|
                old(self).nodes().len() <= d < final(self).nodes().len() && final(self).nodes()[d].is_dir()
                    ==> #[trigger] dir_from(final(self).graph, node as int, records@, d),
            dir_consistent(final(self).graph, node as int),
            consistent_except(
                final(self).graph,
                inconsistent_dirs(old(self).graph).union(above(old(self).graph, node as int)),
            ),
            forall|d: int|
                0 <= d < final(self).nodes().len() && final(self).nodes()[d].is_dir() && #[trigger] dir_from(
                    final(self).graph,
                    node as int,
                    records@,
                    d,
                ) ==> dir_consistent(final(self).graph, d),
            forall|a: int|
                0 <= a < old(self).nodes().len() && a != node && !dir_from(final(self).graph, node as int, records@, a)
                    ==> #[trigger] final(self).nodes()[a] == old(self).nodes()[a],
        decreases depth,
    {
        let ghost g0 = self.graph;
        let ghost recs = records@;
        let ghost len0 = graph_nodes(g0).len() as int;
        let ghost fc0 = file_count(graph_nodes(g0)) as int;
        let ghost bad = inconsistent_dirs(g0).union(above(g0, node as int)).insert(node as int);
        let part = partition_records(records);
        let Partition { leaves, mut keys, mut buckets } = part;
        let ghost ks0 = keys@;
        let ghost bs0 = buckets@;
        let ghost kv = ks0.map_values(|k: String| k@);
        let ghost lvs = leaves_of(recs);
        let ghost mut idx_l: Seq<int> = Seq::empty();
        let ghost mut ls: Seq<int> = Seq::new(recs.len(), |i: int| 0int);
        proof {
            idx_l = lemma_filter_index(recs, |x: FileRecord| is_leaf_record(x));
            assert forall|j: int, q: int|
                0 <= j < bs0.len() && 0 <= q < bs0[j]@.len() implies (#[trigger] bs0[j]@[q]).path@.len() + 1 <= depth by {
                let key = ks0[j]@;
                let f = bucket_of(recs, key);
                let b = bs0[j]@;
                assert(b.map_values(|x: FileRecord| record_view(x)).len() == b.len());
                assert(f.map_values(|x: FileRecord| down_view(x)).len() == f.len());
                assert(q < f.len());
                assert(b.map_values(|x: FileRecord| record_view(x))[q] == f.map_values(|x: FileRecord| down_view(x))[q]);
                let r = f[q];
                assert(record_view(b[q]) == down_view(r));
                assert(f.contains(r));
                recs.lemma_filter_contains_rev(|x: FileRecord| has_key(x, key), r);
                let k = choose|k: int| 0 <= k < recs.len() && recs[k] == r;
                assert(r.path@.len() <= depth);
                recs.lemma_filter_pred(|x: FileRecord| has_key(x, key), q);
                lemma_clean_path_len(views(r.path@));
                assert(views(b[q].path@).len() == b[q].path@.len());
            }
            assert forall|d: int| 0 <= d < len0 && !bad.contains(d) implies #[trigger] dir_consistent(g0, d) by {
                assert(!inconsistent_dirs(g0).contains(d));
            }
            assert(distinct_keys(kv));
            assert forall|i: int| 0 <= i < recs.len() && !is_leaf_record(#[trigger] recs[i]) implies kv.contains(clean_of(recs[i])[0]) by {
                let jj = choose|jj: int| 0 <= jj < ks0.len() && ks0[jj]@ == clean_of(recs[i])[0];
                assert(kv[jj] == ks0[jj]@);
            }
            lemma_partition_sum(recs, kv, record_cost());
            lemma_partition_sum(recs, kv, one_each());
            lemma_insert_cost_wsum(recs);
            lemma_insert_cost_wsum(lvs);
            assert(leaves@.map_values(|x: FileRecord| record_view(x)).len() == leaves@.len());
            assert(lvs.map_values(|x: FileRecord| down_view(x)).len() == lvs.len());
            assert(leaves@.len() == lvs.len());
        }
        let mut li: usize = 0;
        while li < leaves.len()
            invariant
                self.wf(),
                self.root == 0,
                tree_wf(g0),
                len0 == graph_nodes(g0).len(),
                fc0 == file_count(graph_nodes(g0)),
                0 <= node < len0,
                self.is_dir_node(node as int),
                grows_from(g0, self.graph),
                consistent_except(self.graph, bad),
                bad == inconsistent_dirs(g0).union(above(g0, node as int)).insert(node as int),
                li <= leaves@.len(),
                leaves@.len() == lvs.len(),
                lvs == leaves_of(recs),
                leaves@.map_values(|x: FileRecord| record_view(x)) == lvs.map_values(|x: FileRecord| down_view(x)),
                len0 + leaves@.len() <= len0 + insert_cost(recs),
                len0 + insert_cost(recs) <= u32::MAX,
                graph_nodes(self.graph).len() <= len0 + li,
                file_count(self.nodes()) == fc0 + li,
                forall|p: int| 0 <= p < li ==> #[trigger] has_leaf(self.graph, node as int, lvs[p]),
                forall|d: int|
                    len0 <= d < graph_nodes(self.graph).len() ==> !(#[trigger] graph_nodes(self.graph)[d]).is_dir(),
                forall|a: int| 0 <= a < len0 ==> #[trigger] graph_nodes(self.graph)[a] == graph_nodes(g0)[a],
                graph_nodes(self.graph).len() == len0 + li,
                idx_l.len() == lvs.len(),
                forall|p: int| 0 <= p < idx_l.len() ==> 0 <= #[trigger] idx_l[p] < recs.len() && recs[idx_l[p]] == lvs[p],
                forall|p1: int, p2: int| 0 <= p1 < p2 < idx_l.len() ==> idx_l[p1] < idx_l[p2],
                ls.len() == recs.len(),
                forall|p: int| 0 <= p < li ==> ls[#[trigger] idx_l[p]] == len0 + p && holds_leaf(self.graph, node as int, recs[idx_l[p]], len0 + p),
            decreases leaves@.len() - li,
        {
            let ghost g1 = self.graph;
            let n = self.attach_leaf(node, leaves[li].name.clone(), leaves[li].checksum.clone());
            proof {
                lemma_grows_trans(g0, g1, self.graph);
                lemma_path_stable(g1, self.graph, node as int);
                assert forall|d: int| 0 <= d < graph_nodes(self.graph).len() && !bad.contains(d) implies #[trigger] dir_consistent(self.graph, d) by {
                    if d < graph_nodes(g1).len() {
                        assert(dir_consistent(g1, d));
                    }
                }
                let lr = lvs[li as int];
                assert(leaves@.map_values(|x: FileRecord| record_view(x))[li as int] == lvs.map_values(|x: FileRecord| down_view(x))[li as int]);
                assert(record_view(leaves@[li as int]) == down_view(lr));
                recs.lemma_filter_pred(|x: FileRecord| is_leaf_record(x), li as int);
                assert(path_of(self.graph, node as int) + clean_of(lr) =~= path_of(self.graph, node as int));
                assert(holds_leaf(self.graph, node as int, lr, n as int));
                let ls_old = ls;
                ls = ls.update(idx_l[li as int], n as int);
                assert forall|p: int| 0 <= p < li + 1 implies ls[#[trigger] idx_l[p]] == len0 + p && holds_leaf(self.graph, node as int, recs[idx_l[p]], len0 + p) by {
                    if p < li {
                        assert(idx_l[p] != idx_l[li as int]);
                        assert(ls[idx_l[p]] == ls_old[idx_l[p]]);
                        lemma_holds_leaf_stable(g1, self.graph, node as int, recs[idx_l[p]], len0 + p);
                    }
                }
                assert forall|p: int| 0 <= p < li + 1 implies #[trigger] has_leaf(self.graph, node as int, lvs[p]) by {
                    if p < li {
                        assert(has_leaf(g1, node as int, lvs[p]));
                        let m = choose|m: int| holds_leaf(g1, node as int, lvs[p], m);
                        lemma_holds_leaf_stable(g1, self.graph, node as int, lvs[p], m);
                    } else {
                        assert(holds_leaf(self.graph, node as int, lvs[p], n as int));
                    }
                }
                assert forall|d: int| len0 <= d < graph_nodes(self.graph).len() implies !(#[trigger] graph_nodes(self.graph)[d]).is_dir() by {
                    if d < graph_nodes(g1).len() {
                        assert(graph_nodes(self.graph)[d] == graph_nodes(g1)[d]);
                    }
                }
                assert forall|a: int| 0 <= a < len0 implies #[trigger] graph_nodes(self.graph)[a] == graph_nodes(g0)[a] by {
                    assert(graph_nodes(self.graph)[a] == graph_nodes(g1)[a]);
                }
            }
            li = li + 1;
        }
        let ghost mut j: int = 0;
        proof {
            assert(kv.take(0) =~= Seq::<Seq<char>>::empty());
            assert(ks0.skip(0) =~= ks0);
            assert(bs0.skip(0) =~= bs0);
            assert forall|i: int|
                0 <= i < recs.len() && (is_leaf_record(recs[i]) || kv.take(0).contains(clean_of(recs[i])[0]))
                    implies len0 <= #[trigger] ls[i] < graph_nodes(self.graph).len() && holds_leaf(self.graph, node as int, recs[i], ls[i]) by {
                if !is_leaf_record(recs[i]) {
                    let a = choose|a: int| 0 <= a < kv.take(0).len() && #[trigger] kv.take(0)[a] == clean_of(recs[i])[0];
                }
                let p = choose|p: int| 0 <= p < idx_l.len() && idx_l[p] == i;
                assert(ls[idx_l[p]] == len0 + p);
            }
            assert forall|i1: int, i2: int|
                0 <= i1 < recs.len() && 0 <= i2 < recs.len() && i1 != i2 && (is_leaf_record(recs[i1]) || kv.take(0).contains(
                    clean_of(recs[i1])[0],
                )) && (is_leaf_record(recs[i2]) || kv.take(0).contains(clean_of(recs[i2])[0])) implies ls[i1] != ls[i2] by {
                if !is_leaf_record(recs[i1]) {
                    let a = choose|a: int| 0 <= a < kv.take(0).len() && #[trigger] kv.take(0)[a] == clean_of(recs[i1])[0];
                }
                if !is_leaf_record(recs[i2]) {
                    let a = choose|a: int| 0 <= a < kv.take(0).len() && #[trigger] kv.take(0)[a] == clean_of(recs[i2])[0];
                }
                let p1 = choose|p: int| 0 <= p < idx_l.len() && idx_l[p] == i1;
                let p2 = choose|p: int| 0 <= p < idx_l.len() && idx_l[p] == i2;
                assert(ls[idx_l[p1]] == len0 + p1);
                assert(ls[idx_l[p2]] == len0 + p2);
            }
            assert forall|d: int, i: int|
                0 <= d < graph_nodes(self.graph).len() && graph_nodes(self.graph)[d].is_dir() && 0 <= i < recs.len()
                    && !is_leaf_record(recs[i]) && kv.take(0).contains(clean_of(recs[i])[0]) && #[trigger] dir_for(
                    self.graph,
                    node as int,
                    recs[i],
                    d,
                ) implies dir_consistent(self.graph, d) by {
                let a = choose|a: int| 0 <= a < kv.take(0).len() && #[trigger] kv.take(0)[a] == clean_of(recs[i])[0];
            }
            assert forall|i: int|
                0 <= i < recs.len() && (is_leaf_record(recs[i]) || kv.take(0).contains(clean_of(recs[i])[0]))
                    implies #[trigger] has_leaf(self.graph, node as int, recs[i]) by {
                recs.lemma_filter_contains(|x: FileRecord| is_leaf_record(x), i);
                assert(lvs.contains(recs[i]));
                let p = choose|p: int| 0 <= p < lvs.len() && lvs[p] == recs[i];
                assert(has_leaf(self.graph, node as int, lvs[p]));
            }
        }
        while buckets.len() > 0
            invariant
                self.wf(),
                self.root == 0,
                tree_wf(g0),
                len0 == graph_nodes(g0).len(),
                fc0 == file_count(graph_nodes(g0)),
                0 <= node < len0,
                self.is_dir_node(node as int),
                grows_from(g0, self.graph),
                consistent_except(self.graph, bad),
                bad == inconsistent_dirs(g0).union(above(g0, node as int)).insert(node as int),
                0 <= j <= bs0.len(),
                bs0.len() == ks0.len(),
                kv == ks0.map_values(|k: String| k@),
                buckets@ == bs0.skip(j),
                keys@ == ks0.skip(j),
                distinct_keys(kv),
                forall|jj: int| 0 <= jj < bs0.len() ==> (#[trigger] bs0[jj])@.len() > 0,
                forall|jj: int|
                    0 <= jj < ks0.len() ==> (#[trigger] bs0[jj])@.map_values(|x: FileRecord| record_view(x))
                        == bucket_of(recs, ks0[jj]@).map_values(|x: FileRecord| down_view(x)),
                forall|jj: int, q: int|
                    0 <= jj < bs0.len() && 0 <= q < bs0[jj]@.len() ==> (#[trigger] bs0[jj]@[q]).path@.len() + 1 <= depth,
                len0 + leaves@.len() + bsum(recs, kv, record_cost()) <= u32::MAX,
                graph_nodes(self.graph).len() <= len0 + leaves@.len() + bsum(recs, kv.take(j), record_cost()),
                file_count(self.nodes()) == fc0 + leaves@.len() + bsum(recs, kv.take(j), one_each()),
                forall|i: int|
                    0 <= i < recs.len() && (is_leaf_record(recs[i]) || kv.take(j).contains(clean_of(recs[i])[0]))
                        ==> #[trigger] has_leaf(self.graph, node as int, recs[i]),
                forall|d: int|
                    len0 <= d < graph_nodes(self.graph).len() && graph_nodes(self.graph)[d].is_dir()
                        ==> #[trigger] dir_from(self.graph, node as int, recs, d),
                forall|d: int, i: int|
                    0 <= d < graph_nodes(self.graph).len() && graph_nodes(self.graph)[d].is_dir() && 0 <= i < recs.len()
                        && !is_leaf_record(recs[i]) && kv.take(j).contains(clean_of(recs[i])[0]) && #[trigger] dir_for(
                        self.graph,
                        node as int,
                        recs[i],
                        d,
                    ) ==> dir_consistent(self.graph, d),
                forall|a: int|
                    0 <= a < len0 && a != node && !dir_from(self.graph, node as int, recs, a) ==> #[trigger] graph_nodes(
                        self.graph,
                    )[a] == graph_nodes(g0)[a],
                ls.len() == recs.len(),
                forall|i: int|
                    0 <= i < recs.len() && (is_leaf_record(recs[i]) || kv.take(j).contains(clean_of(recs[i])[0]))
                        ==> len0 <= #[trigger] ls[i] < graph_nodes(self.graph).len() && holds_leaf(self.graph, node as int, recs[i], ls[i]),
                forall|i1: int, i2: int|
                    0 <= i1 < recs.len() && 0 <= i2 < recs.len() && i1 != i2 && (is_leaf_record(recs[i1]) || kv.take(j).contains(
                        clean_of(recs[i1])[0],
                    )) && (is_leaf_record(recs[i2]) || kv.take(j).contains(clean_of(recs[i2])[0])) ==> ls[i1] != ls[i2],
            decreases bs0.len() - j,
        {
            let bucket = buckets.remove(0);
            let key = keys.remove(0);
            let ghost f = bucket_of(recs, kv[j]);
            let ghost g1 = self.graph;
            proof {
                assert(bucket == bs0[j] && key == ks0[j]);
                assert(kv[j] == key@);
                assert forall|q: int| 0 <= q < f.len() implies has_key(#[trigger] f[q], kv[j]) by {
                    recs.lemma_filter_pred(|x: FileRecord| has_key(x, kv[j]), q);
                }
                lemma_bucket_cost(bucket@, f, kv[j]);
                lemma_insert_cost_wsum(f);
                lemma_bsum_prefix(recs, kv, j);
                assert(bucket@.len() > 0);
                assert(bucket@[0].path@.len() + 1 <= depth);
                assert forall|q: int| 0 <= q < bucket@.len() implies (#[trigger] bucket@[q]).path@.len() <= depth - 1 by {
                    assert(bs0[j]@[q] == bucket@[q]);
                }
                assert(kv.take(j + 1).drop_last() =~= kv.take(j));
                assert(kv.take(j + 1).last() == kv[j]);
            }
            let child = self.find_or_create_dir(node, key.as_str());
            let ghost g2 = self.graph;
            proof {
                lemma_grows_trans(g0, g1, g2);
                assert forall|d: int| 0 <= d < graph_nodes(g2).len() && !bad.contains(d) implies #[trigger] dir_consistent(g2, d) by {
                    if d < graph_nodes(g1).len() {
                        assert(dir_consistent(g1, d));
                    }
                }
            }
            self.fork_join_at(child, bucket, depth - 1);
            proof {
                let g = self.graph;
                lemma_grows_trans(g0, g2, g);
                lemma_grows_trans(g1, g2, g);
                assert(parent_of(g, child as int) == node);
                assert(graph_nodes(g)[child as int].name_view() == kv[j]);
                assert(above(g2, child as int) =~= set![node as int]);
                assert forall|d: int| 0 <= d < graph_nodes(g).len() && !bad.contains(d) implies #[trigger] dir_consistent(g, d) by {
                    if d < graph_nodes(g2).len() {
                        assert(dir_consistent(g2, d));
                        assert(!inconsistent_dirs(g2).union(above(g2, child as int)).contains(d));
                    }
                }
                assert(graph_nodes(g)[node as int].is_dir() == graph_nodes(g2)[node as int].is_dir());
                assert(bsum(recs, kv.take(j + 1), one_each()) == bsum(recs, kv.take(j), one_each()) + wsum(f, one_each()));
                assert forall|i: int|
                    0 <= i < recs.len() && (is_leaf_record(recs[i]) || kv.take(j + 1).contains(clean_of(recs[i])[0]))
                        implies #[trigger] has_leaf(g, node as int, recs[i]) by {
                    if is_leaf_record(recs[i]) || kv.take(j).contains(clean_of(recs[i])[0]) {
                        assert(has_leaf(g1, node as int, recs[i]));
                        let m = choose|m: int| holds_leaf(g1, node as int, recs[i], m);
                        lemma_holds_leaf_stable(g1, g, node as int, recs[i], m);
                    } else {
                        let a = choose|a: int| 0 <= a < kv.take(j + 1).len() && #[trigger] kv.take(j + 1)[a] == clean_of(recs[i])[0];
                        if a < j {
                            assert(kv.take(j)[a] == kv.take(j + 1)[a]);
                        }
                        assert(has_key(recs[i], kv[j]));
                        recs.lemma_filter_contains(|x: FileRecord| has_key(x, kv[j]), i);
                        let q = choose|q: int| 0 <= q < f.len() && f[q] == recs[i];
                        assert(bucket@.map_values(|x: FileRecord| record_view(x))[q] == f.map_values(|x: FileRecord| down_view(x))[q]);
                        assert(has_leaf(g, child as int, bucket@[q]));
                        let m = choose|m: int| holds_leaf(g, child as int, bucket@[q], m);
                        lemma_bucket_leaf(g, node as int, child as int, recs[i], bucket@[q], m);
                    }
                }
                assert forall|d: int|
                    len0 <= d < graph_nodes(g).len() && graph_nodes(g)[d].is_dir()
                        implies #[trigger] dir_from(g, node as int, recs, d) by {
                    let r0 = f[0];
                    assert(bucket@.map_values(|x: FileRecord| record_view(x))[0] == f.map_values(|x: FileRecord| down_view(x))[0]);
                    assert(f.contains(r0));
                    recs.lemma_filter_contains_rev(|x: FileRecord| has_key(x, kv[j]), r0);
                    if d < graph_nodes(g1).len() {
                        assert(graph_nodes(g1)[d].is_dir());
                        assert(dir_from(g1, node as int, recs, d));
                        let k = choose|k: int| 0 <= k < recs.len() && dir_for(g1, node as int, recs[k], d);
                        lemma_dir_for_stable(g1, g, node as int, recs[k], d);
                    } else if d == child {
                        lemma_bucket_dir(g, node as int, child as int, r0, bucket@[0], d);
                        let k = choose|k: int| 0 <= k < recs.len() && recs[k] == r0;
                    } else {
                        assert(d >= graph_nodes(g2).len());
                        assert(dir_from(g, child as int, bucket@, d));
                        let q = choose|q: int| 0 <= q < bucket@.len() && dir_for(g, child as int, bucket@[q], d);
                        let r = f[q];
                        assert(bucket@.map_values(|x: FileRecord| record_view(x))[q] == f.map_values(|x: FileRecord| down_view(x))[q]);
                        assert(f.contains(r));
                        recs.lemma_filter_contains_rev(|x: FileRecord| has_key(x, kv[j]), r);
                        lemma_bucket_dir(g, node as int, child as int, r, bucket@[q], d);
                        let k = choose|k: int| 0 <= k < recs.len() && recs[k] == r;
                    }
                }
                assert(graph_nodes(g)[child as int].is_dir());
                assert forall|d: int, i: int|
                    0 <= d < graph_nodes(g).len() && graph_nodes(g)[d].is_dir() && 0 <= i < recs.len()
                        && !is_leaf_record(recs[i]) && kv.take(j + 1).contains(clean_of(recs[i])[0]) && #[trigger] dir_for(
                        g,
                        node as int,
                        recs[i],
                        d,
                    ) implies dir_consistent(g, d) by {
                    lemma_dir_for_below(g, node as int, recs[i], d);
                    if d >= graph_nodes(g2).len() {
                        assert(dir_from(g, child as int, bucket@, d));
                    } else if d == child {
                    } else if kv.take(j).contains(clean_of(recs[i])[0]) {
                        if d < graph_nodes(g1).len() {
                            lemma_dir_for_stable(g1, g, node as int, recs[i], d);
                            assert(graph_nodes(g1)[d].is_dir());
                            assert(dir_consistent(g1, d));
                        }
                        assert(dir_consistent(g2, d));
                        assert(!inconsistent_dirs(g2).union(above(g2, child as int)).contains(d));
                    } else {
                        let a = choose|a: int| 0 <= a < kv.take(j + 1).len() && #[trigger] kv.take(j + 1)[a] == clean_of(recs[i])[0];
                        if a < j {
                            assert(kv.take(j)[a] == kv.take(j + 1)[a]);
                        }
                        recs.lemma_filter_contains(|x: FileRecord| has_key(x, kv[j]), i);
                        let q = choose|q: int| 0 <= q < f.len() && f[q] == recs[i];
                        assert(bucket@.map_values(|x: FileRecord| record_view(x))[q] == f.map_values(|x: FileRecord| down_view(x))[q]);
                        lemma_bucket_dir_back(g, node as int, child as int, recs[i], bucket@[q], d);
                        assert(dir_from(g, child as int, bucket@, d));
                    }
                }
                assert forall|a: int|
                    0 <= a < len0 && a != node && !dir_from(g, node as int, recs, a) implies #[trigger] graph_nodes(g)[a]
                        == graph_nodes(g0)[a] by {
                    let r0 = f[0];
                    assert(bucket@.map_values(|x: FileRecord| record_view(x))[0] == f.map_values(|x: FileRecord| down_view(x))[0]);
                    assert(f.contains(r0));
                    recs.lemma_filter_contains_rev(|x: FileRecord| has_key(x, kv[j]), r0);
                    let k0 = choose|k: int| 0 <= k < recs.len() && recs[k] == r0;
                    lemma_bucket_dir(g, node as int, child as int, r0, bucket@[0], a);
                    assert(a != child);
                    assert(!dir_from(g1, node as int, recs, a)) by {
                        if dir_from(g1, node as int, recs, a) {
                            let k = choose|k: int| 0 <= k < recs.len() && dir_for(g1, node as int, recs[k], a);
                            lemma_dir_for_stable(g1, g, node as int, recs[k], a);
                        }
                    }
                    assert(!dir_from(g, child as int, bucket@, a)) by {
                        if dir_from(g, child as int, bucket@, a) {
                            let q = choose|q: int| 0 <= q < bucket@.len() && dir_for(g, child as int, bucket@[q], a);
                            let r = f[q];
                            assert(bucket@.map_values(|x: FileRecord| record_view(x))[q] == f.map_values(|x: FileRecord| down_view(x))[q]);
                            assert(f.contains(r));
                            recs.lemma_filter_contains_rev(|x: FileRecord| has_key(x, kv[j]), r);
                            lemma_bucket_dir(g, node as int, child as int, r, bucket@[q], a);
                            let k = choose|k: int| 0 <= k < recs.len() && recs[k] == r;
                        }
                    }
                    assert(graph_nodes(g)[a] == graph_nodes(g2)[a]);
                    assert(graph_nodes(g2)[a] == graph_nodes(g1)[a]);
                }
                let idx_b = lemma_filter_index(recs, |x: FileRecord| has_key(x, kv[j]));
                assert(idx_b.len() == f.len());
                let lsb = choose|lsb: Seq<int>| own_leaves(g, child as int, bucket@, lsb, graph_nodes(g2).len() as int);
                let ls_old = ls;
                let pick = |i: int| choose|q: int| 0 <= q < idx_b.len() && idx_b[q] == i;
                ls = Seq::new(recs.len(), |i: int| if has_key(recs[i], kv[j]) { lsb[pick(i)] } else { ls_old[i] });
                assert forall|i: int| 0 <= i < recs.len() && has_key(recs[i], kv[j]) implies {
                    &&& 0 <= pick(i) < idx_b.len()
                    &&& idx_b[pick(i)] == i
                    &&& f[pick(i)] == recs[i]
                    &&& holds_leaf(g, child as int, bucket@[pick(i)], lsb[pick(i)])
                    &&& graph_nodes(g2).len() <= lsb[pick(i)]
                } by {
                    assert(exists|q: int| 0 <= q < idx_b.len() && idx_b[q] == i);
                    assert(bucket@.map_values(|x: FileRecord| record_view(x)).len() == bucket@.len());
                    assert(f.map_values(|x: FileRecord| down_view(x)).len() == f.len());
                }
                assert forall|i: int|
                    0 <= i < recs.len() && (is_leaf_record(recs[i]) || kv.take(j + 1).contains(clean_of(recs[i])[0]))
                        implies len0 <= #[trigger] ls[i] < graph_nodes(g).len() && holds_leaf(g, node as int, recs[i], ls[i]) by {
                    if has_key(recs[i], kv[j]) {
                        let q = pick(i);
                        assert(bucket@.map_values(|x: FileRecord| record_view(x))[q] == f.map_values(|x: FileRecord| down_view(x))[q]);
                        lemma_bucket_leaf(g, node as int, child as int, recs[i], bucket@[q], lsb[q]);
                    } else {
                        if !is_leaf_record(recs[i]) {
                            let a = choose|a: int| 0 <= a < kv.take(j + 1).len() && #[trigger] kv.take(j + 1)[a] == clean_of(recs[i])[0];
                            if a < j {
                                assert(kv.take(j)[a] == kv.take(j + 1)[a]);
                            }
                        }
                        lemma_holds_leaf_stable(g1, g, node as int, recs[i], ls_old[i]);
                    }
                }
                assert forall|i1: int, i2: int|
                    0 <= i1 < recs.len() && 0 <= i2 < recs.len() && i1 != i2 && (is_leaf_record(recs[i1]) || kv.take(j + 1).contains(
                        clean_of(recs[i1])[0],
                    )) && (is_leaf_record(recs[i2]) || kv.take(j + 1).contains(clean_of(recs[i2])[0])) implies ls[i1] != ls[i2] by {
                    if !has_key(recs[i1], kv[j]) && !is_leaf_record(recs[i1]) {
                        let a = choose|a: int| 0 <= a < kv.take(j + 1).len() && #[trigger] kv.take(j + 1)[a] == clean_of(recs[i1])[0];
                        if a < j {
                            assert(kv.take(j)[a] == kv.take(j + 1)[a]);
                        }
                    }
                    if !has_key(recs[i2], kv[j]) && !is_leaf_record(recs[i2]) {
                        let a = choose|a: int| 0 <= a < kv.take(j + 1).len() && #[trigger] kv.take(j + 1)[a] == clean_of(recs[i2])[0];
                        if a < j {
                            assert(kv.take(j)[a] == kv.take(j + 1)[a]);
                        }
                    }
                    if has_key(recs[i1], kv[j]) && has_key(recs[i2], kv[j]) {
                        assert(pick(i1) != pick(i2));
                    } else if has_key(recs[i1], kv[j]) {
                        assert(ls_old[i2] < graph_nodes(g1).len());
                    } else if has_key(recs[i2], kv[j]) {
                        assert(ls_old[i1] < graph_nodes(g1).len());
                    }
                }
                assert(buckets@ =~= bs0.skip(j + 1));
                assert(keys@ =~= ks0.skip(j + 1));
                j = j + 1;
            }
        }
        let ghost g3 = self.graph;
        self.update_digest(node);
        proof {
            let g = self.graph;
            lemma_grows_trans(g0, g3, g);
            assert(j == bs0.len());
            assert(kv.take(j) =~= kv);
            if node != 0 {
                assert(parent_of(g3, node as int) == parent_of(g0, node as int));
            }
            let b0 = inconsistent_dirs(g0).union(above(g0, node as int));
            assert forall|d: int| 0 <= d < graph_nodes(g).len() && !b0.contains(d) implies #[trigger] dir_consistent(g, d) by {
                if d != node {
                    assert(dir_consistent(g3, d));
                }
            }
            assert forall|d: int|
                0 <= d < graph_nodes(g).len() && graph_nodes(g)[d].is_dir() && #[trigger] dir_from(g, node as int, recs, d)
                    implies dir_consistent(g, d) by {
                let i = choose|i: int| 0 <= i < recs.len() && dir_for(g, node as int, recs[i], d);
                lemma_dir_for_stable(g3, g, node as int, recs[i], d);
                lemma_dir_for_below(g3, node as int, recs[i], d);
                if is_leaf_record(recs[i]) {
                    let jj = choose|jj: int| 1 <= jj <= clean_of(recs[i]).len() && path_of(g3, d) == path_of(g3, node as int) + clean_of(recs[i]).take(jj);
                }
                assert(graph_nodes(g3)[d].is_dir());
                assert(dir_consistent(g3, d));
            }
            assert forall|a: int|
                0 <= a < len0 && a != node && !dir_from(g, node as int, recs, a) implies #[trigger] graph_nodes(g)[a]
                    == graph_nodes(g0)[a] by {
                assert(!dir_from(g3, node as int, recs, a)) by {
                    if dir_from(g3, node as int, recs, a) {
                        let k = choose|k: int| 0 <= k < recs.len() && dir_for(g3, node as int, recs[k], a);
                        lemma_dir_for_stable(g3, g, node as int, recs[k], a);
                    }
                }
                assert(graph_nodes(g)[a] == graph_nodes(g3)[a]);
            }
            assert forall|i: int| 0 <= i < recs.len() implies len0 <= #[trigger] ls[i] && holds_leaf(g, node as int, recs[i], ls[i]) by {
                if !is_leaf_record(recs[i]) {
                    assert(kv.contains(clean_of(recs[i])[0]));
                }
                lemma_holds_leaf_stable(g3, g, node as int, recs[i], ls[i]);
            }
            assert forall|i1: int, i2: int| 0 <= i1 < ls.len() && 0 <= i2 < ls.len() && i1 != i2 implies ls[i1] != ls[i2] by {
                if !is_leaf_record(recs[i1]) {
                    assert(kv.contains(clean_of(recs[i1])[0]));
                }
                if !is_leaf_record(recs[i2]) {
                    assert(kv.contains(clean_of(recs[i2])[0]));
                }
            }
            assert(own_leaves(g, node as int, recs, ls, len0));
            assert forall|i: int| 0 <= i < recs.len() implies #[trigger] has_leaf(g, node as int, recs[i]) by {
                assert(has_leaf(g3, node as int, recs[i]));
                let m = choose|m: int| holds_leaf(g3, node as int, recs[i], m);
                lemma_holds_leaf_stable(g3, g, node as int, recs[i], m);
            }
            assert forall|d: int|
                len0 <= d < graph_nodes(g).len() && graph_nodes(g)[d].is_dir()
                    implies #[trigger] dir_from(g, node as int, recs, d) by {
                assert(graph_nodes(g3)[d].is_dir());
                assert(dir_from(g3, node as int, recs, d));
                let k = choose|k: int| 0 <= k < recs.len() && dir_for(g3, node as int, recs[k], d);
                lemma_dir_for_stable(g3, g, node as int, recs[k], d);
            }
        }
    }
}

} // verus!
