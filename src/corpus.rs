//! The corpus format: named cases, each an input and an expected rendering.
//!
//! A file is read line by line. Outside a case, comment lines (`#`), blank
//! lines and stray text are skipped. A line starting with `=== ` opens a case;
//! the following lines up to a `---` line or the next `=== ` form the input;
//! after a `---`, the lines up to another `---` or the next `=== ` form the
//! expected text, from which trailing blank lines are dropped. Each `=== ` line
//! thus opens a case of its own.

use vstd::prelude::*;
use crate::text::{is_white_space, is_blank, trimmed, has_prefix, chars_of, string_of, is_white_space_char, trim_chars, append_chars};

verus! {

broadcast use vstd::string::group_string_axioms;

/// One case of a corpus file.
pub struct TestCase {
    pub name: String,
    pub input: String,
    pub expected: String,
    /// 1-based number of the line after the case's `=== ` marker.
    pub line_num: usize,
}

/// What a case holds, as plain sequences.
pub struct CaseSpec {
    pub name: Seq<char>,
    pub input: Seq<char>,
    pub expected: Seq<char>,
    pub line_num: int,
}

impl TestCase {
    pub open spec fn spec_view(&self) -> CaseSpec {
        CaseSpec {
            name: self.name@,
            input: self.input@,
            expected: self.expected@,
            line_num: self.line_num as int,
        }
    }
}

pub open spec fn case_views(cs: Seq<TestCase>) -> Seq<CaseSpec> {
    cs.map_values(|c: TestCase| c.spec_view())
}

pub open spec fn line_views(ls: Seq<Vec<char>>) -> Seq<Seq<char>> {
    ls.map_values(|l: Vec<char>| l@)
}

/// The text cut at every newline (a text without newline is one line).
pub open spec fn lines_of(s: Seq<char>) -> Seq<Seq<char>>
    decreases s.len(),
{
    if s.len() == 0 {
        seq![Seq::empty()]
    } else {
        let p = lines_of(s.drop_last());
        if s.last() == '\n' {
            p.push(Seq::empty())
        } else {
            p.update(p.len() - 1, p.last().push(s.last()))
        }
    }
}

/// The lines joined with a newline between each two.
pub open spec fn join_lines(ls: Seq<Seq<char>>) -> Seq<char>
    decreases ls.len(),
{
    if ls.len() == 0 {
        Seq::empty()
    } else if ls.len() == 1 {
        ls[0]
    } else {
        join_lines(ls.drop_last()) + seq!['\n'] + ls.last()
    }
}

/// The lines without their trailing blank ones.
pub open spec fn strip_trailing_blank(ls: Seq<Seq<char>>) -> Seq<Seq<char>>
    decreases ls.len(),
{
    if ls.len() > 0 && is_blank(ls.last()) {
        strip_trailing_blank(ls.drop_last())
    } else {
        ls
    }
}

pub open spec fn is_separator(l: Seq<char>) -> bool {
    l == seq!['-', '-', '-']
}

pub open spec fn is_marker(l: Seq<char>) -> bool {
    has_prefix(l, seq!['=', '=', '=', ' '])
}

pub open spec fn is_comment_or_blank(l: Seq<char>) -> bool {
    (l.len() > 0 && l[0] == '#') || is_blank(l)
}

/// Whether the line opens a case when met outside one.
pub open spec fn opens_case(l: Seq<char>) -> bool {
    !is_comment_or_blank(l) && is_marker(l)
}

/// The first line at or after `i` that is a separator or a marker, or the end.
pub open spec fn input_end(ls: Seq<Seq<char>>, i: int) -> int
    decreases ls.len() - i,
{
    if i >= ls.len() || is_separator(ls[i]) || is_marker(ls[i]) {
        i
    } else {
        input_end(ls, i + 1)
    }
}

/// The first line at or after `i` that is a separator or a marker, or the end.
pub open spec fn expected_end(ls: Seq<Seq<char>>, i: int) -> int
    decreases ls.len() - i,
{
    if i >= ls.len() || is_separator(ls[i]) || is_marker(ls[i]) {
        i
    } else {
        expected_end(ls, i + 1)
    }
}

/// Past a separator at `i`, if there is one.
pub open spec fn skip_separator(ls: Seq<Seq<char>>, i: int) -> int {
    if 0 <= i < ls.len() && is_separator(ls[i]) {
        i + 1
    } else {
        i
    }
}

/// Where the expected section of the case opened at `i` begins.
pub open spec fn expected_start(ls: Seq<Seq<char>>, i: int) -> int {
    skip_separator(ls, input_end(ls, i + 1))
}

/// The line after the case opened at `i`.
pub open spec fn case_end(ls: Seq<Seq<char>>, i: int) -> int {
    skip_separator(ls, expected_end(ls, expected_start(ls, i)))
}

/// The case opened by the marker at `i`.
pub open spec fn case_at(ls: Seq<Seq<char>>, i: int) -> CaseSpec {
    let j = input_end(ls, i + 1);
    let k = expected_start(ls, i);
    let m = expected_end(ls, k);
    CaseSpec {
        name: trimmed(ls[i].subrange(4, ls[i].len() as int)),
        input: join_lines(ls.subrange(i + 1, j)),
        expected: join_lines(strip_trailing_blank(ls.subrange(k, m))),
        line_num: i + 2,
    }
}

/// The cases found scanning from line `i`.
pub open spec fn cases_from(ls: Seq<Seq<char>>, i: int) -> Seq<CaseSpec>
    decreases ls.len() - i,
{
    if i < 0 || i >= ls.len() {
        Seq::empty()
    } else if opens_case(ls[i]) {
        if i < case_end(ls, i) <= ls.len() {
            seq![case_at(ls, i)] + cases_from(ls, case_end(ls, i))
        } else {
            Seq::empty()
        }
    } else {
        cases_from(ls, i + 1)
    }
}

/// The cases of a corpus text.
pub open spec fn corpus_cases(s: Seq<char>) -> Seq<CaseSpec> {
    cases_from(lines_of(s), 0)
}

proof fn lemma_input_end_bounds(ls: Seq<Seq<char>>, i: int)
    requires
        0 <= i <= ls.len(),
    ensures
        i <= input_end(ls, i) <= ls.len(),
    decreases ls.len() - i,
{
    if i < ls.len() && !is_separator(ls[i]) && !is_marker(ls[i]) {
        lemma_input_end_bounds(ls, i + 1);
    }
}

proof fn lemma_expected_end_bounds(ls: Seq<Seq<char>>, i: int)
    requires
        0 <= i <= ls.len(),
    ensures
        i <= expected_end(ls, i) <= ls.len(),
    decreases ls.len() - i,
{
    if i < ls.len() && !is_separator(ls[i]) && !is_marker(ls[i]) {
        lemma_expected_end_bounds(ls, i + 1);
    }
}

/// A case always ends after its marker and no later than the end of the text.
proof fn lemma_case_end_bounds(ls: Seq<Seq<char>>, i: int)
    requires
        0 <= i < ls.len(),
    ensures
        i + 1 <= input_end(ls, i + 1) <= expected_start(ls, i) <= expected_end(ls, expected_start(ls, i)) <= case_end(ls, i) <= ls.len(),
{
    lemma_input_end_bounds(ls, i + 1);
    lemma_expected_end_bounds(ls, expected_start(ls, i));
}

fn split_lines(v: &[char]) -> (r: Vec<Vec<char>>)
    ensures
        line_views(r@) == lines_of(v@),
        r@.len() <= v@.len() + 1,
{
    let mut r: Vec<Vec<char>> = Vec::new();
    let mut cur: Vec<char> = Vec::new();
    let mut i: usize = 0;
    assert(v@.take(0) =~= Seq::<char>::empty());
    assert(line_views(r@).push(cur@) =~= seq![Seq::<char>::empty()]);
    while i < v.len()
        invariant
            i <= v@.len(),
            line_views(r@).push(cur@) == lines_of(v@.take(i as int)),
            r@.len() <= i,
        decreases v@.len() - i,
    {
        let c = v[i];
        let ghost before = line_views(r@).push(cur@);
        assert(v@.take(i + 1).drop_last() =~= v@.take(i as int));
        assert(v@.take(i + 1).last() == c);
        if c == '\n' {
            let ghost r0 = r@;
            r.push(cur);
            cur = Vec::new();
            assert(line_views(r@) =~= line_views(r0).push(before.last()));
            assert(line_views(r@).push(cur@) =~= before.push(Seq::empty()));
        } else {
            cur.push(c);
            assert(line_views(r@).push(cur@) =~= before.update(before.len() - 1, before.last().push(c)));
        }
        i = i + 1;
    }
    let ghost r0 = r@;
    let ghost before = line_views(r@).push(cur@);
    r.push(cur);
    assert(line_views(r@) =~= before);
    assert(v@.take(v@.len() as int) =~= v@);
    r
}

fn line_is_separator(l: &Vec<char>) -> (r: bool)
    ensures
        r == is_separator(l@),
{
    if l.len() == 3 && l[0] == '-' && l[1] == '-' && l[2] == '-' {
        assert(l@ =~= seq!['-', '-', '-']);
        true
    } else {
        false
    }
}

fn line_is_marker(l: &Vec<char>) -> (r: bool)
    ensures
        r == is_marker(l@),
{
    if l.len() >= 4 && l[0] == '=' && l[1] == '=' && l[2] == '=' && l[3] == ' ' {
        assert(l@.subrange(0, 4) =~= seq!['=', '=', '=', ' ']);
        true
    } else {
        if l.len() >= 4 {
            assert(l@.subrange(0, 4)[0] == l@[0]);
            assert(l@.subrange(0, 4)[1] == l@[1]);
            assert(l@.subrange(0, 4)[2] == l@[2]);
            assert(l@.subrange(0, 4)[3] == l@[3]);
        }
        false
    }
}

fn line_is_blank(l: &Vec<char>) -> (r: bool)
    ensures
        r == is_blank(l@),
{
    let mut k: usize = 0;
    while k < l.len()
        invariant
            k <= l@.len(),
            forall|t: int| 0 <= t < k ==> is_white_space(#[trigger] l@[t]),
        decreases l@.len() - k,
    {
        if !is_white_space_char(l[k]) {
            return false;
        }
        k = k + 1;
    }
    true
}

fn line_is_comment_or_blank(l: &Vec<char>) -> (r: bool)
    ensures
        r == is_comment_or_blank(l@),
{
    (l.len() > 0 && l[0] == '#') || line_is_blank(l)
}

/// The lines `a..b` joined by newlines.
fn join_range(ls: &Vec<Vec<char>>, a: usize, b: usize) -> (r: Vec<char>)
    requires
        a <= b <= ls@.len(),
    ensures
        r@ == join_lines(line_views(ls@).subrange(a as int, b as int)),
{
    let ghost lv = line_views(ls@);
    let mut r: Vec<char> = Vec::new();
    let mut k: usize = a;
    assert(lv.subrange(a as int, a as int) =~= Seq::<Seq<char>>::empty());
    while k < b
        invariant
            a <= k <= b <= ls@.len(),
            lv == line_views(ls@),
            r@ == join_lines(lv.subrange(a as int, k as int)),
        decreases b - k,
    {
        assert(lv.subrange(a as int, k + 1).drop_last() =~= lv.subrange(a as int, k as int));
        assert(lv.subrange(a as int, k + 1).last() == ls@[k as int]@);
        if k > a {
            r.push('\n');
        } else {
            assert(r@ =~= Seq::<char>::empty());
        }
        append_chars(&mut r, &ls[k]);
        k = k + 1;
        if k - 1 == a {
            assert(r@ =~= lv.subrange(a as int, k as int)[0]);
        }
    }
    r
}

/// The trimmed text after the `=== ` of a marker line.
fn name_of(l: &Vec<char>) -> (r: String)
    requires
        is_marker(l@),
    ensures
        r@ == trimmed(l@.subrange(4, l@.len() as int)),
{
    let mut tail: Vec<char> = Vec::new();
    let mut t: usize = 4;
    while t < l.len()
        invariant
            4 <= t <= l@.len(),
            tail@ == l@.subrange(4, t as int),
        decreases l@.len() - t,
    {
        tail.push(l[t]);
        t = t + 1;
        assert(tail@ =~= l@.subrange(4, t as int));
    }
    let name = trim_chars(tail.as_slice());
    string_of(name.as_slice())
}

fn parse_lines(ls: &Vec<Vec<char>>) -> (r: Vec<TestCase>)
    requires
        ls@.len() + 2 <= usize::MAX,
    ensures
        case_views(r@) == cases_from(line_views(ls@), 0),
{
    let ghost lv = line_views(ls@);
    let n = ls.len();
    let mut r: Vec<TestCase> = Vec::new();
    let mut i: usize = 0;
    assert(case_views(r@) =~= Seq::<CaseSpec>::empty());
    assert(cases_from(lv, 0) =~= case_views(r@) + cases_from(lv, 0));
    while i < n
        invariant
            i <= n == ls@.len(),
            n + 2 <= usize::MAX,
            lv == line_views(ls@),
            cases_from(lv, 0) == case_views(r@) + cases_from(lv, i as int),
        decreases n - i,
    {
        if line_is_comment_or_blank(&ls[i]) || !line_is_marker(&ls[i]) {
            i = i + 1;
        } else {
            proof {
                lemma_case_end_bounds(lv, i as int);
            }
            let mut j: usize = i + 1;
            while j < n && !line_is_separator(&ls[j]) && !line_is_marker(&ls[j])
                invariant
                    i + 1 <= j <= n == ls@.len(),
                    lv == line_views(ls@),
                    input_end(lv, i + 1) == input_end(lv, j as int),
                decreases n - j,
            {
                j = j + 1;
            }
            let mut k: usize = j;
            if k < n && line_is_separator(&ls[k]) {
                k = k + 1;
            }
            assert(k == expected_start(lv, i as int));
            let mut m: usize = k;
            while m < n && !line_is_separator(&ls[m]) && !line_is_marker(&ls[m])
                invariant
                    k <= m <= n == ls@.len(),
                    lv == line_views(ls@),
                    expected_end(lv, k as int) == expected_end(lv, m as int),
                decreases n - m,
            {
                m = m + 1;
            }
            let mut m2: usize = m;
            while m2 > k && line_is_blank(&ls[m2 - 1])
                invariant
                    k <= m2 <= m <= n == ls@.len(),
                    lv == line_views(ls@),
                    strip_trailing_blank(lv.subrange(k as int, m as int)) == strip_trailing_blank(
                        lv.subrange(k as int, m2 as int),
                    ),
                decreases m2,
            {
                assert(lv.subrange(k as int, m2 as int).drop_last() =~= lv.subrange(
                    k as int,
                    m2 - 1,
                ));
                m2 = m2 - 1;
            }
            assert(strip_trailing_blank(lv.subrange(k as int, m2 as int)) == lv.subrange(
                k as int,
                m2 as int,
            ));
            let mut next: usize = m;
            if next < n && line_is_separator(&ls[next]) {
                next = next + 1;
            }
            let name = name_of(&ls[i]);
            let input_chars = join_range(ls, i + 1, j);
            let expected_chars = join_range(ls, k, m2);
            let input = string_of(input_chars.as_slice());
            let expected = string_of(expected_chars.as_slice());
            let tc = TestCase { name, input, expected, line_num: i + 2 };
            let ghost r0 = r@;
            r.push(tc);
            assert(tc.spec_view() == case_at(lv, i as int));
            assert(case_views(r@) =~= case_views(r0).push(case_at(lv, i as int)));
            assert(cases_from(lv, i as int) == seq![case_at(lv, i as int)] + cases_from(
                lv,
                next as int,
            ));
            assert(cases_from(lv, 0) =~= case_views(r@) + cases_from(lv, next as int));
            i = next;
        }
    }
    r
}

/// The cases of a corpus text, in file order. Never fails: where a separator
/// is missing, the section runs to the next marker or to the end of the text.
pub fn parse_test_content(content: &str) -> (r: Vec<TestCase>)
    ensures
        case_views(r@) == corpus_cases(content@),
{
    let chars = chars_of(content);
    let lines = split_lines(chars.as_slice());
    parse_lines(&lines)
}

/// The marker lines that open the cases found scanning from line `i`.
pub open spec fn case_starts(ls: Seq<Seq<char>>, i: int) -> Seq<int>
    decreases ls.len() - i,
{
    if i < 0 || i >= ls.len() {
        Seq::empty()
    } else if opens_case(ls[i]) {
        if i < case_end(ls, i) <= ls.len() {
            seq![i] + case_starts(ls, case_end(ls, i))
        } else {
            Seq::empty()
        }
    } else {
        case_starts(ls, i + 1)
    }
}

/// How many lines from `i` on are case markers.
pub open spec fn marker_count(ls: Seq<Seq<char>>, i: int) -> nat
    decreases ls.len() - i,
{
    if i < 0 || i >= ls.len() {
        0
    } else {
        (if is_marker(ls[i]) {
            1nat
        } else {
            0nat
        }) + marker_count(ls, i + 1)
    }
}

proof fn lemma_input_end_scan(ls: Seq<Seq<char>>, i: int)
    requires
        0 <= i <= ls.len(),
    ensures
        forall|k: int| i <= k < input_end(ls, i) ==> !is_marker(#[trigger] ls[k]),
        input_end(ls, i) < ls.len() ==> is_separator(ls[input_end(ls, i)]) || is_marker(
            ls[input_end(ls, i)],
        ),
    decreases ls.len() - i,
{
    if i < ls.len() && !is_separator(ls[i]) && !is_marker(ls[i]) {
        lemma_input_end_scan(ls, i + 1);
    }
}

proof fn lemma_expected_end_scan(ls: Seq<Seq<char>>, i: int)
    requires
        0 <= i <= ls.len(),
    ensures
        forall|k: int| i <= k < expected_end(ls, i) ==> !is_marker(#[trigger] ls[k]),
        expected_end(ls, i) < ls.len() ==> is_separator(ls[expected_end(ls, i)]) || is_marker(
            ls[expected_end(ls, i)],
        ),
    decreases ls.len() - i,
{
    if i < ls.len() && !is_separator(ls[i]) && !is_marker(ls[i]) {
        lemma_expected_end_scan(ls, i + 1);
    }
}

proof fn lemma_separator_not_marker(l: Seq<char>)
    requires
        is_separator(l),
    ensures
        !is_marker(l),
{
}

/// A marker line is neither a comment nor blank.
proof fn lemma_marker_opens(l: Seq<char>)
    requires
        is_marker(l),
    ensures
        opens_case(l),
{
    assert(l.subrange(0, 4)[0] == l[0]);
    assert(l[0] == '=');
    assert(!is_white_space(l[0]));
}

/// No line strictly inside a case is a marker.
proof fn lemma_case_interior(ls: Seq<Seq<char>>, i: int, k: int)
    requires
        0 <= i < k < case_end(ls, i),
    ensures
        !is_marker(ls[k]),
{
    lemma_case_end_bounds(ls, i);
    let j = input_end(ls, i + 1);
    let e = expected_start(ls, i);
    let m = expected_end(ls, e);
    lemma_input_end_scan(ls, i + 1);
    lemma_expected_end_scan(ls, e);
    if k == j {
        if is_marker(ls[j]) {
            assert(!is_separator(ls[j]));
            assert(e == j && m == j);
        } else {
            lemma_separator_not_marker(ls[j]);
        }
    } else if k > j && k == m {
        if is_marker(ls[m]) {
            assert(!is_separator(ls[m]));
        } else {
            lemma_separator_not_marker(ls[m]);
        }
    }
}

proof fn lemma_marker_count_skip(ls: Seq<Seq<char>>, a: int, b: int)
    requires
        0 <= a <= b <= ls.len(),
        forall|k: int| a <= k < b ==> !is_marker(#[trigger] ls[k]),
    ensures
        marker_count(ls, a) == marker_count(ls, b),
    decreases b - a,
{
    if a < b {
        lemma_marker_count_skip(ls, a + 1, b);
    }
}

proof fn lemma_cases_from_starts(ls: Seq<Seq<char>>, i: int)
    requires
        0 <= i <= ls.len(),
    ensures
        cases_from(ls, i).len() == case_starts(ls, i).len(),
        cases_from(ls, i).len() == marker_count(ls, i),
        forall|c: int|
            0 <= c < case_starts(ls, i).len() ==> i <= #[trigger] case_starts(ls, i)[c] < ls.len()
                && is_marker(ls[case_starts(ls, i)[c]]) && cases_from(ls, i)[c] == case_at(
                ls,
                case_starts(ls, i)[c],
            ),
        forall|c: int, d: int|
            0 <= c < d < case_starts(ls, i).len() ==> #[trigger] case_starts(ls, i)[c]
                < #[trigger] case_starts(ls, i)[d],
        forall|k: int|
            i <= k < ls.len() && is_marker(#[trigger] ls[k]) ==> exists|c: int|
                0 <= c < case_starts(ls, i).len() && #[trigger] case_starts(ls, i)[c] == k,
    decreases ls.len() - i,
{
    if i < ls.len() {
        if is_marker(ls[i]) {
            lemma_marker_opens(ls[i]);
            lemma_case_end_bounds(ls, i);
            let e = case_end(ls, i);
            lemma_cases_from_starts(ls, e);
            assert forall|k: int| i + 1 <= k < e implies !is_marker(#[trigger] ls[k]) by {
                lemma_case_interior(ls, i, k);
            }
            lemma_marker_count_skip(ls, i + 1, e);
            let st = case_starts(ls, i);
            let rest = case_starts(ls, e);
            assert(st == seq![i] + rest);
            assert forall|k: int| i <= k < ls.len() && is_marker(#[trigger] ls[k]) implies exists|
                c: int,
            | 0 <= c < st.len() && #[trigger] st[c] == k by {
                if k == i {
                    assert(st[0] == k);
                } else if k < e {
                    lemma_case_interior(ls, i, k);
                } else {
                    let c = choose|c: int| 0 <= c < rest.len() && #[trigger] rest[c] == k;
                    assert(st[c + 1] == rest[c]);
                }
            }
            assert forall|c: int| 0 <= c < st.len() implies i <= #[trigger] st[c] < ls.len()
                && is_marker(ls[st[c]]) && cases_from(ls, i)[c] == case_at(ls, st[c]) by {
                if c > 0 {
                    assert(st[c] == rest[c - 1]);
                }
            }
            assert forall|c: int, d: int| 0 <= c < d < st.len() implies #[trigger] st[c]
                < #[trigger] st[d] by {
                if c > 0 {
                    assert(st[c] == rest[c - 1]);
                }
                assert(st[d] == rest[d - 1]);
            }
        } else {
            lemma_cases_from_starts(ls, i + 1);
            let st = case_starts(ls, i);
            assert(st == case_starts(ls, i + 1));
            assert forall|k: int| i <= k < ls.len() && is_marker(#[trigger] ls[k]) implies exists|
                c: int,
            | 0 <= c < st.len() && #[trigger] st[c] == k by {
                assert(k != i);
            }
        }
    }
}

/// Reading a corpus text never fails, and its cases are exactly its marker
/// lines: there are as many cases as lines starting with `=== `, and each such
/// line opens its own case, in order, named by the line's text after `=== `,
/// trimmed, with the number of the line after the marker.
pub proof fn lemma_cases_are_markers(s: Seq<char>)
    ensures
        ({
            let ls = lines_of(s);
            let cs = corpus_cases(s);
            let st = case_starts(ls, 0);
            &&& cs.len() == marker_count(ls, 0)
            &&& cs.len() == st.len()
            &&& forall|c: int|
                0 <= c < st.len() ==> 0 <= #[trigger] st[c] < ls.len() && is_marker(ls[st[c]])
                    && cs[c].line_num == st[c] + 2 && cs[c].name == trimmed(
                    ls[st[c]].subrange(4, ls[st[c]].len() as int),
                )
            &&& forall|c: int, d: int| 0 <= c < d < st.len() ==> #[trigger] st[c] < #[trigger] st[d]
            &&& forall|k: int|
                0 <= k < ls.len() && is_marker(#[trigger] ls[k]) ==> exists|c: int|
                    0 <= c < st.len() && #[trigger] st[c] == k
        }),
{
    lemma_cases_from_starts(lines_of(s), 0);
}

} // verus!
