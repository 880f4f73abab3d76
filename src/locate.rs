//! Which files are corpus files, and the order in which they run.

use vstd::prelude::*;
use crate::text::chars_of;

verus! {

broadcast use vstd::string::group_string_axioms;

/// Whether a file name marks a corpus file: it has the extension `tests`,
/// that is, it ends in `.tests` after a non-empty stem.
pub open spec fn is_corpus_name(name: Seq<char>) -> bool {
    name.len() > 6 && name.subrange(name.len() - 6, name.len() as int) == ".tests"@
}

/// Whether a file name (the last component of a path) marks a corpus file.
pub fn is_corpus_file_name(name: &str) -> (r: bool)
    ensures
        r == is_corpus_name(name@),
{
    proof {
        reveal_strlit(".tests");
    }
    let c = chars_of(name);
    let ext = chars_of(".tests");
    if c.len() <= ext.len() {
        return false;
    }
    let cl = c.len();
    let off = cl - ext.len();
    let mut k: usize = 0;
    while k < ext.len()
        invariant
            k <= ext@.len(),
            cl == c@.len(),
            c@ == name@,
            ext@ == ".tests"@,
            off + ext@.len() == c@.len(),
            forall|q: int| 0 <= q < k ==> c@[off + q] == ext@[q],
        decreases ext@.len() - k,
    {
        if c[off + k] != ext[k] {
            assert(c@.subrange(off as int, c@.len() as int)[k as int] != ext@[k as int]);
            return false;
        }
        k = k + 1;
    }
    assert(c@.subrange(off as int, c@.len() as int) =~= ext@);
    true
}

/// Lexicographic order of texts by code point, a prefix first: the order of
/// `String`'s `Ord`, since UTF-8 keeps code-point order byte by byte.
pub open spec fn text_le(a: Seq<char>, b: Seq<char>) -> bool
    decreases a.len(),
{
    if a.len() == 0 {
        true
    } else if b.len() == 0 {
        false
    } else if a[0] != b[0] {
        a[0] < b[0]
    } else {
        text_le(a.drop_first(), b.drop_first())
    }
}

pub open spec fn path_views(ps: Seq<String>) -> Seq<Seq<char>> {
    ps.map_values(|p: String| p@)
}

/// Each text is ordered no later than the next.
pub open spec fn is_sorted_texts(s: Seq<Seq<char>>) -> bool {
    forall|i: int| 0 <= i < s.len() - 1 ==> text_le(#[trigger] s[i], s[i + 1])
}

proof fn lemma_text_le_total(a: Seq<char>, b: Seq<char>)
    ensures
        text_le(a, b) || text_le(b, a),
    decreases a.len(),
{
    if a.len() > 0 && b.len() > 0 && a[0] == b[0] {
        lemma_text_le_total(a.drop_first(), b.drop_first());
    }
}

fn chars_le(a: &Vec<char>, b: &Vec<char>) -> (r: bool)
    ensures
        r == text_le(a@, b@),
{
    let mut k: usize = 0;
    assert(a@.subrange(0, a@.len() as int) =~= a@);
    assert(b@.subrange(0, b@.len() as int) =~= b@);
    while k < a.len() && k < b.len() && a[k] == b[k]
        invariant
            k <= a@.len(),
            k <= b@.len(),
            a@.subrange(0, k as int) == b@.subrange(0, k as int),
            text_le(a@, b@) == text_le(a@.subrange(k as int, a@.len() as int), b@.subrange(
                k as int,
                b@.len() as int,
            )),
        decreases a@.len() - k,
    {
        assert(a@.subrange(k as int, a@.len() as int).drop_first() =~= a@.subrange(
            k + 1,
            a@.len() as int,
        ));
        assert(b@.subrange(k as int, b@.len() as int).drop_first() =~= b@.subrange(
            k + 1,
            b@.len() as int,
        ));
        assert(a@.subrange(0, k + 1) =~= a@.subrange(0, k as int).push(a@[k as int]));
        assert(b@.subrange(0, k + 1) =~= b@.subrange(0, k as int).push(b@[k as int]));
        k = k + 1;
    }
    if k == a.len() {
        true
    } else if k == b.len() {
        false
    } else {
        a[k] < b[k]
    }
}

fn paths_le(a: &String, b: &String) -> (r: bool)
    ensures
        r == text_le(a@, b@),
{
    let ca = chars_of(a.as_str());
    let cb = chars_of(b.as_str());
    chars_le(&ca, &cb)
}

/// The paths in ascending order of their text, each kept as often as given.
pub fn sort_paths(paths: Vec<String>) -> (r: Vec<String>)
    ensures
        is_sorted_texts(path_views(r@)),
        r@.to_multiset() == paths@.to_multiset(),
{
    broadcast use vstd::seq_lib::group_to_multiset_ensures;

    let mut r: Vec<String> = Vec::new();
    let mut k: usize = 0;
    assert(paths@.subrange(0, 0) =~= Seq::<String>::empty());
    while k < paths.len()
        invariant
            k <= paths@.len(),
            is_sorted_texts(path_views(r@)),
            r@.to_multiset() == paths@.subrange(0, k as int).to_multiset(),
        decreases paths@.len() - k,
    {
        let x = paths[k].clone();
        let mut p: usize = r.len();
        while p > 0 && !paths_le(&r[p - 1], &x)
            invariant
                p <= r@.len(),
                p < r@.len() ==> !text_le(r@[p as int]@, x@),
            decreases p,
        {
            p = p - 1;
        }
        proof {
            if p < r@.len() {
                lemma_text_le_total(r@[p as int]@, x@);
            }
        }
        let ghost r0 = r@;
        r.insert(p, x);
        proof {
            vstd::seq_lib::to_multiset_insert(r0, p as int, x);
            vstd::seq_lib::to_multiset_build(paths@.subrange(0, k as int), paths@[k as int]);
        }
        let ghost v0 = path_views(r0);
        let ghost v = path_views(r@);
        assert forall|i: int| 0 <= i < v.len() - 1 implies text_le(#[trigger] v[i], v[i + 1]) by {
            if i + 1 < p {
                assert(v[i] == v0[i] && v[i + 1] == v0[i + 1]);
            } else if i + 1 == p {
                assert(v[i] == v0[i]);
            } else if i == p {
                assert(v[i + 1] == v0[i]);
            } else {
                assert(v[i] == v0[i - 1] && v[i + 1] == v0[i]);
            }
        }
        assert(paths@.subrange(0, k + 1) =~= paths@.subrange(0, k as int).push(paths@[k as int]));
        k = k + 1;
    }
    assert(paths@.subrange(0, paths@.len() as int) =~= paths@);
    r
}

} // verus!
