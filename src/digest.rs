use vstd::prelude::*;
use vstd::relations::{sorted_by, total_ordering};
use vstd::seq_lib::group_to_multiset_ensures;
use crypto::digest::Digest;
use crypto::md5::Md5;

verus! {

/// The lowercase hexadecimal MD5 digest of a text.
pub uninterp spec fn md5_hex(data: Seq<char>) -> Seq<char>;

/// Relies on rust-crypto's `Md5` (`input_str`, then `result_str`): the hex
/// digest of the text's bytes, which depends on the text alone; two hex
/// digits for each of the 16 bytes of the digest.
#[verifier::external_body]
fn md5_of_str(s: &str) -> (r: String)
    ensures
        r@ == md5_hex(s@),
        r@.len() == 32,
{
    let mut hasher = Md5::new();
    hasher.input_str(s);
    hasher.result_str()
}

/// Lexicographic order on texts, character by character.
pub open spec fn lex_le(a: Seq<char>, b: Seq<char>) -> bool
    decreases a.len(),
{
    if a.len() == 0 {
        true
    } else if b.len() == 0 {
        false
    } else if a[0] < b[0] {
        true
    } else if a[0] != b[0] {
        false
    } else {
        lex_le(a.drop_first(), b.drop_first())
    }
}

pub open spec fn lex_order() -> spec_fn(Seq<char>, Seq<char>) -> bool {
    |a: Seq<char>, b: Seq<char>| lex_le(a, b)
}

/// The views of a sequence of strings.
pub open spec fn views(v: Seq<String>) -> Seq<Seq<char>> {
    v.map_values(|s: String| s@)
}

/// The digest of a directory whose children carry the digests `ds`: the MD5
/// digest of the children's digests, sorted and joined.
pub open spec fn combined_digest(ds: Seq<Seq<char>>) -> Seq<char> {
    md5_hex(ds.sort_by(lex_order()).flatten())
}

pub open spec fn sorted_lex(s: Seq<Seq<char>>) -> bool {
    forall|i: int, j: int| 0 <= i < j < s.len() ==> lex_le(#[trigger] s[i], #[trigger] s[j])
}

proof fn lemma_lex_reflexive(a: Seq<char>)
    ensures
        lex_le(a, a),
    decreases a.len(),
{
    if a.len() > 0 {
        lemma_lex_reflexive(a.drop_first());
    }
}

proof fn lemma_lex_total(a: Seq<char>, b: Seq<char>)
    ensures
        lex_le(a, b) || lex_le(b, a),
    decreases a.len(),
{
    if a.len() > 0 && b.len() > 0 && a[0] == b[0] {
        lemma_lex_total(a.drop_first(), b.drop_first());
    }
}

proof fn lemma_lex_antisymmetric(a: Seq<char>, b: Seq<char>)
    requires
        lex_le(a, b),
        lex_le(b, a),
    ensures
        a == b,
    decreases a.len(),
{
    if a.len() > 0 && b.len() > 0 {
        lemma_lex_antisymmetric(a.drop_first(), b.drop_first());
        assert(a =~= seq![a[0]] + a.drop_first());
        assert(b =~= seq![b[0]] + b.drop_first());
    }
}

proof fn lemma_lex_transitive(a: Seq<char>, b: Seq<char>, c: Seq<char>)
    requires
        lex_le(a, b),
        lex_le(b, c),
    ensures
        lex_le(a, c),
    decreases a.len(),
{
    if a.len() > 0 && b.len() > 0 && c.len() > 0 && a[0] == b[0] && b[0] == c[0] {
        lemma_lex_transitive(a.drop_first(), b.drop_first(), c.drop_first());
    }
}

/// The character order on texts is a total order.
pub proof fn lemma_lex_total_ordering()
    ensures
        total_ordering(lex_order()),
{
    assert forall|a: Seq<char>| #[trigger] lex_order()(a, a) by {
        lemma_lex_reflexive(a);
    }
    assert forall|a: Seq<char>, b: Seq<char>|
        #[trigger] lex_order()(a, b) && #[trigger] lex_order()(b, a) implies a == b by {
        lemma_lex_antisymmetric(a, b);
    }
    assert forall|a: Seq<char>, b: Seq<char>, c: Seq<char>|
        #[trigger] lex_order()(a, b) && #[trigger] lex_order()(b, c) implies lex_order()(a, c) by {
        lemma_lex_transitive(a, b, c);
    }
    assert forall|a: Seq<char>, b: Seq<char>|
        #[trigger] lex_order()(a, b) || #[trigger] lex_order()(b, a) by {
        lemma_lex_total(a, b);
    }
}

/// Two sorted sequences with the same elements are equal.
proof fn lemma_sorted_unique(a: Seq<Seq<char>>, b: Seq<Seq<char>>)
    requires
        sorted_lex(a),
        sorted_lex(b),
        a.to_multiset() == b.to_multiset(),
    ensures
        a == b,
    decreases a.len(),
{
    broadcast use group_to_multiset_ensures;

    if a.len() == 0 {
        assert(b.len() == 0);
        assert(a =~= b);
    } else {
        assert(a.to_multiset().len() == a.len());
        assert(b.to_multiset().len() == b.len());
        assert(b.len() == a.len());
        assert(a.to_multiset().count(b[0]) > 0);
        assert(a.contains(b[0]));
        let i = choose|i: int| 0 <= i < a.len() && a[i] == b[0];
        if i == 0 {
            lemma_lex_reflexive(a[0]);
        }
        assert(lex_le(a[0], b[0]));
        assert(b.to_multiset().count(a[0]) > 0);
        assert(b.contains(a[0]));
        let j = choose|j: int| 0 <= j < b.len() && b[j] == a[0];
        if j == 0 {
            lemma_lex_reflexive(b[0]);
        }
        assert(lex_le(b[0], a[0]));
        lemma_lex_antisymmetric(a[0], b[0]);
        assert(a.remove(0) =~= a.drop_first());
        assert(b.remove(0) =~= b.drop_first());
        lemma_sorted_unique(a.drop_first(), b.drop_first());
        assert(a =~= seq![a[0]] + a.drop_first());
        assert(b =~= seq![b[0]] + b.drop_first());
    }
}

/// The sorted arrangement of `s` is its only sorted permutation.
pub proof fn lemma_sort_is_unique(s: Seq<Seq<char>>, t: Seq<Seq<char>>)
    requires
        sorted_lex(t),
        t.to_multiset() == s.to_multiset(),
    ensures
        t == s.sort_by(lex_order()),
{
    lemma_lex_total_ordering();
    s.lemma_sort_by_ensures(lex_order());
    let u = s.sort_by(lex_order());
    assert(sorted_by(u, lex_order()));
    assert forall|i: int, j: int| 0 <= i < j < u.len() implies lex_le(#[trigger] u[i], #[trigger] u[j]) by {
        assert(lex_order()(u[i], u[j]));
    }
    lemma_sorted_unique(t, u);
}

/// A directory's digest depends on the digests of its children as a
/// multiset only: children listed in any other order give the same digest.
pub proof fn lemma_digest_order_free(a: Seq<Seq<char>>, b: Seq<Seq<char>>)
    requires
        a.to_multiset() == b.to_multiset(),
    ensures
        combined_digest(a) == combined_digest(b),
{
    lemma_lex_total_ordering();
    a.lemma_sort_by_ensures(lex_order());
    let u = a.sort_by(lex_order());
    assert forall|i: int, j: int| 0 <= i < j < u.len() implies lex_le(#[trigger] u[i], #[trigger] u[j]) by {
        assert(lex_order()(u[i], u[j]));
    }
    lemma_sort_is_unique(b, u);
}

/// Whether `a` comes before `b` or equals it, character by character.
pub fn str_le(a: &str, b: &str) -> (r: bool)
    ensures
        r == lex_le(a@, b@),
{
    let la = a.unicode_len();
    let lb = b.unicode_len();
    let mut i: usize = 0;
    assert(a@.skip(0) =~= a@);
    assert(b@.skip(0) =~= b@);
    while i < la && i < lb
        invariant
            i <= la,
            i <= lb,
            la == a@.len(),
            lb == b@.len(),
            lex_le(a@, b@) == lex_le(a@.skip(i as int), b@.skip(i as int)),
        decreases la - i,
    {
        let ca = a.get_char(i);
        let cb = b.get_char(i);
        assert(a@.skip(i as int)[0] == ca);
        assert(b@.skip(i as int)[0] == cb);
        if ca < cb {
            return true;
        }
        if ca != cb {
            return false;
        }
        assert(a@.skip(i as int).drop_first() =~= a@.skip(i + 1));
        assert(b@.skip(i as int).drop_first() =~= b@.skip(i + 1));
        i = i + 1;
    }
    i == la
}

/// Whether two texts are equal, character by character.
pub fn str_eq(a: &str, b: &str) -> (r: bool)
    ensures
        r == (a@ == b@),
{
    proof {
        lemma_lex_reflexive(a@);
        if lex_le(a@, b@) && lex_le(b@, a@) {
            lemma_lex_antisymmetric(a@, b@);
        }
    }
    str_le(a, b) && str_le(b, a)
}

/// A copy of `v` in character order.
pub fn sorted_strings(v: &Vec<String>) -> (r: Vec<String>)
    ensures
        sorted_lex(views(r@)),
        views(r@).to_multiset() == views(v@).to_multiset(),
{
    broadcast use group_to_multiset_ensures;

    let mut r: Vec<String> = Vec::new();
    let mut i: usize = 0;
    while i < v.len()
        invariant
            i <= v.len(),
            sorted_lex(views(r@)),
            views(r@).to_multiset() == views(v@.take(i as int)).to_multiset(),
        decreases v.len() - i,
    {
        let x = v[i].clone();
        let mut j: usize = 0;
        while j < r.len() && str_le(r[j].as_str(), x.as_str())
            invariant
                j <= r.len(),
                forall|k: int| 0 <= k < j ==> lex_le(#[trigger] r@[k]@, x@),
            decreases r.len() - j,
        {
            j = j + 1;
        }
        proof {
            let s = views(r@);
            assert forall|k: int| j <= k < s.len() implies lex_le(x@, #[trigger] s[k]) by {
                lemma_lex_total(x@, s[k]);
                if lex_le(s[k], x@) && !lex_le(x@, s[k]) {
                    if k > j {
                        lemma_lex_transitive(s[j as int], s[k], x@);
                    }
                }
            }
        }
        let ghost before = r@;
        r.insert(j, x);
        proof {
            let s = views(before);
            let t = views(r@);
            assert(t =~= s.insert(j as int, v@[i as int]@));
            vstd::seq_lib::to_multiset_insert(s, j as int, v@[i as int]@);
            vstd::seq_lib::to_multiset_build(views(v@.take(i as int)), v@[i as int]@);
            assert forall|p: int, q: int| 0 <= p < q < t.len() implies lex_le(#[trigger] t[p], #[trigger] t[q]) by {
                if p < j && q == j {
                } else if p == j && q > j {
                    assert(t[q] == s[q - 1]);
                } else if p < j && q > j {
                    assert(t[q] == s[q - 1]);
                } else if q < j {
                } else {
                    assert(t[p] == s[p - 1] && t[q] == s[q - 1]);
                }
            }
            assert(views(v@.take(i + 1)) =~= views(v@.take(i as int)).push(v@[i as int]@));
        }
        i = i + 1;
    }
    assert(v@.take(v.len() as int) =~= v@);
    r
}

/// The combined digest of a directory whose children carry the digests `ds`.
pub fn combine_digests(ds: &Vec<String>) -> (r: String)
    ensures
        r@ == combined_digest(views(ds@)),
        r@.len() == 32,
{
    let sorted = sorted_strings(ds);
    let mut buf = String::new();
    let mut i: usize = 0;
    while i < sorted.len()
        invariant
            i <= sorted.len(),
            buf@ == views(sorted@).take(i as int).flatten(),
        decreases sorted.len() - i,
    {
        buf.append(sorted[i].as_str());
        proof {
            let s = views(sorted@);
            assert(s.take(i + 1) =~= s.take(i as int).push(s[i as int]));
            s.take(i as int).lemma_flatten_push(s[i as int]);
        }
        i = i + 1;
    }
    proof {
        assert(views(sorted@).take(sorted.len() as int) =~= views(sorted@));
        lemma_sort_is_unique(views(ds@), views(sorted@));
    }
    md5_of_str(buf.as_str())
}

} // verus!
