//! Character-level helpers: whitespace, normalisation, prefixes and substrings.

use vstd::prelude::*;

verus! {

/// Unicode `White_Space`: what both `char::is_whitespace` and the regex class
/// `\s` accept.
pub open spec fn is_white_space(c: char) -> bool {
    let u = c as u32;
    (0x09 <= u && u <= 0x0d) || u == 0x20 || u == 0x85 || u == 0xa0 || u == 0x1680 || (0x2000
        <= u && u <= 0x200a) || u == 0x2028 || u == 0x2029 || u == 0x202f || u == 0x205f || u
        == 0x3000
}

/// Every maximal run of whitespace replaced by one ASCII space.
pub open spec fn collapse_ws(s: Seq<char>) -> Seq<char>
    decreases s.len(),
{
    if s.len() == 0 {
        s
    } else {
        let p = collapse_ws(s.drop_last());
        let c = s.last();
        if is_white_space(c) {
            if s.len() >= 2 && is_white_space(s[s.len() - 2]) {
                p
            } else {
                p.push(' ')
            }
        } else {
            p.push(c)
        }
    }
}

/// Leading whitespace removed.
pub open spec fn trim_start(s: Seq<char>) -> Seq<char>
    decreases s.len(),
{
    if s.len() > 0 && is_white_space(s[0]) {
        trim_start(s.drop_first())
    } else {
        s
    }
}

/// Trailing whitespace removed.
pub open spec fn trim_end(s: Seq<char>) -> Seq<char>
    decreases s.len(),
{
    if s.len() > 0 && is_white_space(s.last()) {
        trim_end(s.drop_last())
    } else {
        s
    }
}

/// Leading and trailing whitespace removed.
pub open spec fn trimmed(s: Seq<char>) -> Seq<char> {
    trim_end(trim_start(s))
}

/// The canonical form used for every comparison: runs of whitespace collapsed
/// to one space, then the ends trimmed.
pub open spec fn normalized(s: Seq<char>) -> Seq<char> {
    trimmed(collapse_ws(s))
}

/// Whether the text is empty or holds only whitespace.
pub open spec fn is_blank(s: Seq<char>) -> bool {
    forall|i: int| 0 <= i < s.len() ==> is_white_space(#[trigger] s[i])
}

pub open spec fn has_prefix(s: Seq<char>, p: Seq<char>) -> bool {
    p.len() <= s.len() && s.subrange(0, p.len() as int) == p
}

/// `p` occurs in `t` as a contiguous block.
pub open spec fn is_substring(p: Seq<char>, t: Seq<char>) -> bool {
    exists|i: int| 0 <= i && i + p.len() <= t.len() && #[trigger] t.subrange(i, i + p.len()) == p
}

/// Relies on `regex::Regex::new` and `Regex::replace_all`: the pattern
/// `[\s\v]+` matches each maximal run of `White_Space` characters (its class is
/// Unicode `White_Space`, `\v` adds nothing to it), matches are greedy and do
/// not overlap, and each is replaced by the literal `" "`. The pattern is
/// valid, so `unwrap` does not panic.
#[verifier::external_body]
fn collapse_whitespace_runs(s: &str) -> (r: String)
    ensures
        r@ == collapse_ws(s@),
{
    regex::Regex::new(r"[\s\v]+").unwrap().replace_all(s, " ").into_owned()
}

/// Relies on `str::chars`: the characters of the text, in order; a `Vec`
/// never holds more than `isize::MAX` bytes.
#[verifier::external_body]
pub(crate) fn chars_of(s: &str) -> (r: Vec<char>)
    ensures
        r@ == s@,
        r@.len() <= isize::MAX,
{
    s.chars().collect()
}

/// Relies on `String::from_iter` over characters: the string of exactly those
/// characters.
#[verifier::external_body]
pub(crate) fn string_of(v: &[char]) -> (r: String)
    ensures
        r@ == v@,
{
    v.iter().collect()
}

/// Appends `src` to `dst`.
pub(crate) fn append_chars(dst: &mut Vec<char>, src: &Vec<char>)
    ensures
        final(dst)@ == old(dst)@ + src@,
{
    let mut t: usize = 0;
    while t < src.len()
        invariant
            t <= src@.len(),
            dst@ == old(dst)@ + src@.take(t as int),
        decreases src@.len() - t,
    {
        dst.push(src[t]);
        t = t + 1;
        assert(old(dst)@ + src@.take(t as int) =~= (old(dst)@ + src@.take(t - 1)).push(src@[t - 1]));
    }
    assert(src@.take(src@.len() as int) =~= src@);
}

/// Whether `v` starts with `p`.
pub fn starts_with_chars(v: &Vec<char>, p: &Vec<char>) -> (r: bool)
    ensures
        r == has_prefix(v@, p@),
{
    if p.len() > v.len() {
        return false;
    }
    block_matches(v, 0, p)
}

/// Whether `p` stands in `t` at position `i`.
fn block_matches(t: &Vec<char>, i: usize, p: &Vec<char>) -> (r: bool)
    requires
        i + p@.len() <= t@.len(),
    ensures
        r == (t@.subrange(i as int, i + p@.len()) == p@),
{
    let tl = t.len();
    let mut k: usize = 0;
    while k < p.len()
        invariant
            k <= p@.len(),
            i + p@.len() <= t@.len() == tl,
            forall|q: int| 0 <= q < k ==> t@[i + q] == p@[q],
        decreases p@.len() - k,
    {
        if t[i + k] != p[k] {
            assert(t@.subrange(i as int, i + p@.len())[k as int] != p@[k as int]);
            return false;
        }
        k = k + 1;
    }
    assert(t@.subrange(i as int, i + p@.len()) =~= p@);
    true
}

/// Whether `p` occurs in `t`.
pub fn contains_chars(t: &Vec<char>, p: &Vec<char>) -> (r: bool)
    ensures
        r == is_substring(p@, t@),
{
    if p.len() > t.len() {
        return false;
    }
    let last = t.len() - p.len();
    let mut i: usize = 0;
    while i <= last
        invariant
            last + p@.len() == t@.len(),
            forall|q: int| 0 <= q < i ==> #[trigger] t@.subrange(q, q + p@.len()) != p@,
        decreases last + 1 - i,
    {
        if block_matches(t, i, p) {
            return true;
        }
        if i == last {
            return false;
        }
        i = i + 1;
    }
    false
}

/// Whether `c` is Unicode whitespace.
pub fn is_white_space_char(c: char) -> (r: bool)
    ensures
        r == is_white_space(c),
{
    let u = c as u32;
    (0x09 <= u && u <= 0x0d) || u == 0x20 || u == 0x85 || u == 0xa0 || u == 0x1680 || (0x2000
        <= u && u <= 0x200a) || u == 0x2028 || u == 0x2029 || u == 0x202f || u == 0x205f || u
        == 0x3000
}


proof fn lemma_trim_start_step(s: Seq<char>, a: int)
    requires
        0 <= a < s.len(),
        is_white_space(s[a]),
    ensures
        trim_start(s.subrange(a, s.len() as int)) == trim_start(s.subrange(a + 1, s.len() as int)),
{
    assert(s.subrange(a, s.len() as int).drop_first() =~= s.subrange(a + 1, s.len() as int));
}

proof fn lemma_trim_end_step(s: Seq<char>, a: int, b: int)
    requires
        0 <= a < b <= s.len(),
        is_white_space(s[b - 1]),
    ensures
        trim_end(s.subrange(a, b)) == trim_end(s.subrange(a, b - 1)),
{
    assert(s.subrange(a, b).drop_last() =~= s.subrange(a, b - 1));
}

/// The characters with leading and trailing whitespace removed.
pub fn trim_chars(v: &[char]) -> (r: Vec<char>)
    ensures
        r@ == trimmed(v@),
{
    let n = v.len();
    let mut a: usize = 0;
    assert(v@.subrange(0, n as int) =~= v@);
    while a < n && is_white_space_char(v[a])
        invariant
            a <= n == v@.len(),
            trim_start(v@) == trim_start(v@.subrange(a as int, n as int)),
        decreases n - a,
    {
        proof {
            lemma_trim_start_step(v@, a as int);
        }
        a = a + 1;
    }
    let mut b: usize = n;
    while b > a && is_white_space_char(v[b - 1])
        invariant
            a <= b <= n == v@.len(),
            trim_start(v@) == v@.subrange(a as int, n as int),
            trimmed(v@) == trim_end(v@.subrange(a as int, b as int)),
        decreases b,
    {
        proof {
            lemma_trim_end_step(v@, a as int, b as int);
        }
        b = b - 1;
    }
    let mut r: Vec<char> = Vec::new();
    let mut k: usize = a;
    while k < b
        invariant
            a <= k <= b <= n == v@.len(),
            r@ == v@.subrange(a as int, k as int),
        decreases b - k,
    {
        r.push(v[k]);
        k = k + 1;
        assert(r@ =~= v@.subrange(a as int, k as int));
    }
    r
}

/// The text with runs of whitespace collapsed to one space and both ends
/// trimmed.
pub fn normalize(s: &str) -> (r: String)
    ensures
        r@ == normalized(s@),
{
    let collapsed = collapse_whitespace_runs(s);
    let chars = chars_of(collapsed.as_str());
    let t = trim_chars(chars.as_slice());
    string_of(t.as_slice())
}

/// No whitespace other than single spaces, and never two in a row.
pub open spec fn is_collapsed(t: Seq<char>) -> bool {
    forall|i: int|
        0 <= i < t.len() && is_white_space(#[trigger] t[i]) ==> t[i] == ' ' && (i + 1 < t.len()
            ==> !is_white_space(t[i + 1]))
}

proof fn lemma_collapse_ws_shape(s: Seq<char>)
    ensures
        is_collapsed(collapse_ws(s)),
        s.len() == 0 <==> collapse_ws(s).len() == 0,
        s.len() > 0 ==> (is_white_space(collapse_ws(s).last()) <==> is_white_space(s.last())),
    decreases s.len(),
{
    if s.len() > 0 {
        let p = collapse_ws(s.drop_last());
        lemma_collapse_ws_shape(s.drop_last());
        if s.len() >= 2 {
            assert(s.drop_last().last() == s[s.len() - 2]);
        }
        let r = collapse_ws(s);
        assert forall|i: int| 0 <= i < r.len() && is_white_space(#[trigger] r[i]) implies r[i]
            == ' ' && (i + 1 < r.len() ==> !is_white_space(r[i + 1])) by {
            if i < p.len() {
                assert(r[i] == p[i]);
                if i + 1 == p.len() && i + 1 < r.len() {
                    assert(is_white_space(s.drop_last().last()));
                }
            }
        }
    }
}

proof fn lemma_collapsed_fixed(t: Seq<char>)
    requires
        is_collapsed(t),
    ensures
        collapse_ws(t) == t,
    decreases t.len(),
{
    if t.len() > 0 {
        let d = t.drop_last();
        assert forall|i: int| 0 <= i < d.len() && is_white_space(#[trigger] d[i]) implies d[i]
            == ' ' && (i + 1 < d.len() ==> !is_white_space(d[i + 1])) by {
            assert(t[i] == d[i]);
            if i + 1 < d.len() {
                assert(t[i + 1] == d[i + 1]);
            }
        }
        lemma_collapsed_fixed(d);
        if t.len() >= 2 && is_white_space(t.last()) {
            assert(is_white_space(t[t.len() - 2]) ==> !is_white_space(t[t.len() - 1]));
        }
        assert(t.drop_last().push(t.last()) =~= t);
    }
}

proof fn lemma_collapsed_sub(t: Seq<char>, a: int, b: int)
    requires
        is_collapsed(t),
        0 <= a <= b <= t.len(),
    ensures
        is_collapsed(t.subrange(a, b)),
{
    let u = t.subrange(a, b);
    assert forall|i: int| 0 <= i < u.len() && is_white_space(#[trigger] u[i]) implies u[i] == ' '
        && (i + 1 < u.len() ==> !is_white_space(u[i + 1])) by {
        assert(u[i] == t[a + i]);
        if i + 1 < u.len() {
            assert(u[i + 1] == t[a + i + 1]);
        }
    }
}

proof fn lemma_trim_start_suffix(s: Seq<char>)
    ensures
        trim_start(s).len() <= s.len(),
        trim_start(s) =~= s.subrange(s.len() - trim_start(s).len(), s.len() as int),
        trim_start(s).len() > 0 ==> !is_white_space(trim_start(s)[0]),
    decreases s.len(),
{
    if s.len() > 0 && is_white_space(s[0]) {
        lemma_trim_start_suffix(s.drop_first());
    }
}

proof fn lemma_trim_end_prefix(s: Seq<char>)
    ensures
        trim_end(s).len() <= s.len(),
        trim_end(s) =~= s.subrange(0, trim_end(s).len() as int),
        trim_end(s).len() > 0 ==> !is_white_space(trim_end(s).last()),
    decreases s.len(),
{
    if s.len() > 0 && is_white_space(s.last()) {
        lemma_trim_end_prefix(s.drop_last());
    }
}

/// Normalising twice gives the same text as normalising once.
pub proof fn lemma_normalize_idempotent(s: Seq<char>)
    ensures
        normalized(normalized(s)) == normalized(s),
{
    let c = collapse_ws(s);
    lemma_collapse_ws_shape(s);
    let a = trim_start(c);
    lemma_trim_start_suffix(c);
    lemma_collapsed_sub(c, c.len() - a.len(), c.len() as int);
    let t = trim_end(a);
    lemma_trim_end_prefix(a);
    lemma_collapsed_sub(a, 0, t.len() as int);
    lemma_collapsed_fixed(t);
    if t.len() > 0 {
        assert(t[0] == a[0]);
    }
    assert(trim_start(t) == t);
    assert(trim_end(t) == t);
}

} // verus!
