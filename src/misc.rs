use vstd::prelude::*;
use crate::analyser::FileRecord;
use crate::tree::clean_path;
use crate::digest::views;
use crate::index_db::IndexRecord;

verus! {

/// The pieces of `s` between slashes, empty pieces included.
pub open spec fn split_slash(s: Seq<char>) -> Seq<Seq<char>>
    decreases s.len(),
{
    if s.len() == 0 {
        seq![Seq::empty()]
    } else {
        let rest = split_slash(s.drop_last());
        if s.last() == '/' {
            rest.push(Seq::empty())
        } else {
            rest.update(rest.len() - 1, rest.last().push(s.last()))
        }
    }
}

/// The non-empty pieces of `s` between slashes.
pub open spec fn components(s: Seq<char>) -> Seq<Seq<char>> {
    clean_path(split_slash(s))
}

/// The components joined by single slashes.
pub open spec fn join_slash(c: Seq<Seq<char>>) -> Seq<char>
    decreases c.len(),
{
    if c.len() == 0 {
        Seq::empty()
    } else if c.len() == 1 {
        c[0]
    } else {
        join_slash(c.drop_last()) + "/"@ + c.last()
    }
}

/// Where `s` holds its last slash.
pub open spec fn is_last_slash(s: Seq<char>, k: int) -> bool {
    &&& 0 <= k < s.len()
    &&& s[k] == '/'
    &&& forall|j: int| k < j < s.len() ==> s[j] != '/'
}

/// A file path made absolute: a leading "./" is dropped, and a path that
/// does not start with a slash is put under `cwd`.
pub open spec fn absolute_path(cwd: Seq<char>, f: Seq<char>) -> Seq<char> {
    let rel = if f.len() >= 2 && f[0] == '.' && f[1] == '/' {
        f.skip(2)
    } else {
        f
    };
    if f.len() >= 1 && f[0] == '/' {
        rel
    } else {
        cwd + "/"@ + rel
    }
}

proof fn lemma_split_nonempty(s: Seq<char>)
    ensures
        split_slash(s).len() >= 1,
    decreases s.len(),
{
    if s.len() > 0 {
        lemma_split_nonempty(s.drop_last());
    }
}

/// The non-empty components of a slash-separated path.
pub fn path_to_components(path: &String) -> (r: Vec<String>)
    ensures
        views(r@) == components(path@),
{
    let s = path.as_str();
    let n = s.unicode_len();
    let mut out: Vec<String> = Vec::new();
    let mut start: usize = 0;
    let mut i: usize = 0;
    proof {
        assert(path@.take(0) =~= Seq::<char>::empty());
        assert(split_slash(path@.take(0)).drop_last() =~= Seq::<Seq<char>>::empty());
        assert(views(out@) =~= Seq::<Seq<char>>::empty());
        assert(path@.subrange(0, 0) =~= Seq::<char>::empty());
    }
    while i < n
        invariant
            s@ == path@,
            n == path@.len(),
            start <= i <= n,
            split_slash(path@.take(i as int)).len() >= 1,
            split_slash(path@.take(i as int)).last() == path@.subrange(start as int, i as int),
            clean_path(split_slash(path@.take(i as int)).drop_last()) == views(out@),
        decreases n - i,
    {
        let c = s.get_char(i);
        let ghost sp = split_slash(path@.take(i as int));
        proof {
            assert(path@.take(i + 1).drop_last() =~= path@.take(i as int));
            assert(path@.take(i + 1).last() == c);
            lemma_split_nonempty(path@.take(i as int));
        }
        if c == '/' {
            let ghost before = out@;
            if start < i {
                out.push(String::from_str(s.substring_char(start, i)));
                proof {
                    assert(views(out@) =~= views(before).push(path@.subrange(start as int, i as int)));
                }
            }
            proof {
                assert(split_slash(path@.take(i + 1)) == sp.push(Seq::<char>::empty()));
                assert(split_slash(path@.take(i + 1)).drop_last() =~= sp);
                assert(sp =~= sp.drop_last().push(sp.last()));
            }
            start = i + 1;
            proof {
                assert(path@.subrange(start as int, i + 1) =~= Seq::<char>::empty());
            }
        } else {
            proof {
                assert(split_slash(path@.take(i + 1)).drop_last() =~= sp.drop_last());
                assert(path@.subrange(start as int, i + 1) =~= path@.subrange(start as int, i as int).push(c));
            }
        }
        i = i + 1;
    }
    proof {
        assert(path@.take(n as int) =~= path@);
        let sp = split_slash(path@);
        assert(sp =~= sp.drop_last().push(sp.last()));
    }
    if start < n {
        let ghost before = out@;
        out.push(String::from_str(s.substring_char(start, n)));
        proof {
            assert(views(out@) =~= views(before).push(path@.subrange(start as int, n as int)));
        }
    } else {
        proof {
            assert(path@.subrange(start as int, n as int) =~= Seq::<char>::empty());
        }
    }
    out
}

/// The components as one path text: "/" + the components joined by "/" + "/".
pub fn components_to_path(components: &Vec<String>) -> (r: String)
    ensures
        r@ == "/"@ + join_slash(views(components@)) + "/"@,
{
    let mut buf = String::from_str("/");
    let mut i: usize = 0;
    proof {
        assert(views(components@).take(0) =~= Seq::<Seq<char>>::empty());
        assert(buf@ =~= "/"@ + join_slash(views(components@).take(0)));
    }
    while i < components.len()
        invariant
            i <= components@.len(),
            buf@ == "/"@ + join_slash(views(components@).take(i as int)),
        decreases components@.len() - i,
    {
        let ghost cs = views(components@);
        proof {
            assert(cs.take(i + 1).drop_last() =~= cs.take(i as int));
            assert(cs.take(i + 1).last() == components@[i as int]@);
        }
        if i > 0 {
            buf.append("/");
        } else {
            proof {
                assert(cs.take(1) =~= seq![components@[0]@]);
            }
        }
        buf.append(components[i].as_str());
        proof {
            if i > 0 {
                assert(buf@ =~= "/"@ + join_slash(cs.take(i + 1)));
            } else {
                assert(buf@ =~= "/"@ + join_slash(cs.take(i + 1)));
            }
        }
        i = i + 1;
    }
    buf.append("/");
    proof {
        assert(views(components@).take(components@.len() as int) =~= views(components@));
    }
    buf
}

/// Splits a file path at its last slash: the directory components before
/// it, and the file name after it.
pub fn get_name_and_split_path(file_path: &String) -> (r: (Vec<String>, String))
    requires
        file_path@.contains('/'),
    ensures
        exists|k: int|
            is_last_slash(file_path@, k) && views(r.0@) == components(file_path@.take(k)) && r.1@
                == file_path@.skip(k + 1),
{
    let s = file_path.as_str();
    let n = s.unicode_len();
    let mut i: usize = n;
    while i > 0 && s.get_char(i - 1) != '/'
        invariant
            s@ == file_path@,
            n == file_path@.len(),
            i <= n,
            file_path@.contains('/'),
            forall|j: int| i <= j < n ==> file_path@[j] != '/',
        decreases i,
    {
        i = i - 1;
    }
    if i == 0 {
        proof {
            let j = choose|j: int| 0 <= j < file_path@.len() && file_path@[j] == '/';
        }
        assert(false);
    }
    let k = i - 1;
    let before = String::from_str(s.substring_char(0, k));
    let name = String::from_str(s.substring_char(k + 1, n));
    let comps = path_to_components(&before);
    proof {
        assert(is_last_slash(file_path@, k as int));
        assert(before@ =~= file_path@.take(k as int));
        assert(name@ =~= file_path@.skip(k + 1));
    }
    (comps, name)
}

/// The flat form of a file record, with row id 0.
pub fn to_index_record(file_record: &FileRecord) -> (r: IndexRecord)
    ensures
        r.id == 0,
        r.checksum == file_record.checksum,
        r.name == file_record.name,
        r.path@ == "/"@ + join_slash(views(file_record.path@)) + "/"@,
        r.modified == file_record.modified,
{
    IndexRecord {
        id: 0,
        checksum: file_record.checksum.clone(),
        name: file_record.name.clone(),
        path: components_to_path(&file_record.path),
        modified: file_record.modified,
    }
}

/// The file record of a flat row: its path text split into components.
pub fn to_file_record(index_record: &IndexRecord) -> (r: FileRecord)
    ensures
        r.checksum == index_record.checksum,
        r.name == index_record.name,
        views(r.path@) == components(index_record.path@),
        r.modified == index_record.modified,
{
    FileRecord {
        checksum: index_record.checksum.clone(),
        name: index_record.name.clone(),
        path: path_to_components(&index_record.path),
        modified: index_record.modified,
    }
}

/// Makes each listed file path absolute against `current_dir`.
pub fn process_file_paths(raw_file_list: Vec<String>, current_dir: &String) -> (r: Vec<String>)
    ensures
        r@.len() == raw_file_list@.len(),
        forall|i: int|
            0 <= i < r@.len() ==> (#[trigger] r@[i])@ == absolute_path(current_dir@, raw_file_list@[i]@),
{
    let mut out: Vec<String> = Vec::new();
    let mut i: usize = 0;
    while i < raw_file_list.len()
        invariant
            i <= raw_file_list@.len(),
            out@.len() == i,
            forall|j: int|
                0 <= j < i ==> (#[trigger] out@[j])@ == absolute_path(current_dir@, raw_file_list@[j]@),
        decreases raw_file_list@.len() - i,
    {
        let f = raw_file_list[i].as_str();
        let n = f.unicode_len();
        let dot_slash = n >= 2 && f.get_char(0) == '.' && f.get_char(1) == '/';
        let rooted = n >= 1 && f.get_char(0) == '/';
        let rel = if dot_slash {
            f.substring_char(2, n)
        } else {
            f
        };
        let path = if rooted {
            String::from_str(rel)
        } else {
            let mut p = current_dir.clone();
            p.append("/");
            p.append(rel);
            p
        };
        proof {
            if dot_slash {
                assert(rel@ =~= f@.skip(2));
            }
            assert(path@ =~= absolute_path(current_dir@, raw_file_list@[i as int]@));
        }
        out.push(path);
        i = i + 1;
    }
    out
}

} // verus!
