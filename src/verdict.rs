//! Deciding one case: sentinels, the extended-glob directive, the name/path
//! filter and the verdict for each outcome of the parser under test.

use vstd::prelude::*;
use crate::text::{normalized, has_prefix, is_substring, normalize, chars_of, string_of, append_chars, starts_with_chars, contains_chars};

verus! {

broadcast use vstd::string::group_string_axioms;

/// The expected text of a case that must not parse.
pub open spec fn error_sentinel() -> Seq<char> {
    "<error>"@
}

/// The expected text of a case known to make the parser run without bound;
/// it is judged as [`error_sentinel`].
pub open spec fn infinite_sentinel() -> Seq<char> {
    "<infinite>"@
}

/// The first line of an input that asks for extended-glob mode.
pub open spec fn extglob_directive() -> Seq<char> {
    "# @extglob\n"@
}

/// The expected text that a case is judged against.
pub open spec fn effective_expected_spec(expected: Seq<char>) -> Seq<char> {
    if normalized(expected) == infinite_sentinel() {
        error_sentinel()
    } else {
        expected
    }
}

/// The expected text that a case is judged against: `<error>` where the case
/// says `<infinite>`, else the text as written.
pub fn effective_expected(expected: &str) -> (r: String)
    ensures
        r@ == effective_expected_spec(expected@),
{
    if normalize(expected) == "<infinite>".to_string() {
        "<error>".to_string()
    } else {
        expected.to_string()
    }
}

/// Whether the input starts with the extended-glob directive line.
pub open spec fn wants_extglob(input: Seq<char>) -> bool {
    has_prefix(input, extglob_directive())
}

/// The text handed to the parser: the input without its directive line.
pub open spec fn parser_input(input: Seq<char>) -> Seq<char> {
    if wants_extglob(input) {
        input.subrange(extglob_directive().len() as int, input.len() as int)
    } else {
        input
    }
}

/// What the parser under test is called with, and what its result is judged
/// against.
pub struct PreparedCase {
    pub input: String,
    pub extglob: bool,
    pub expected: String,
}

/// Strips the extended-glob directive from the input, setting the mode flag,
/// and resolves the `<infinite>` sentinel.
pub fn prepare_case(input: &str, expected: &str) -> (r: PreparedCase)
    ensures
        r.extglob == wants_extglob(input@),
        r.input@ == parser_input(input@),
        r.expected@ == effective_expected_spec(expected@),
{
    let chars = chars_of(input);
    let directive = chars_of("# @extglob\n");
    let extglob = starts_with_chars(&chars, &directive);
    let mut rest: Vec<char> = Vec::new();
    let mut k: usize = if extglob { directive.len() } else { 0 };
    let start = k;
    while k < chars.len()
        invariant
            start <= k <= chars@.len(),
            start == (if extglob { directive@.len() } else { 0 }),
            rest@ == chars@.subrange(start as int, k as int),
        decreases chars@.len() - k,
    {
        rest.push(chars[k]);
        k = k + 1;
        assert(rest@ =~= chars@.subrange(start as int, k as int));
    }
    assert(chars@.subrange(0, chars@.len() as int) =~= chars@);
    PreparedCase {
        input: string_of(rest.as_slice()),
        extglob,
        expected: effective_expected(expected),
    }
}

/// Whether a case runs under a filter: the filter is empty, or it occurs in
/// the case's name or in its file's relative path.
pub open spec fn filter_admits(pattern: Seq<char>, name: Seq<char>, rel_path: Seq<char>) -> bool {
    pattern.len() == 0 || is_substring(pattern, name) || is_substring(pattern, rel_path)
}

/// Whether a case runs under the filter `pattern`.
pub fn matches_filter(pattern: &str, name: &str, rel_path: &str) -> (r: bool)
    ensures
        r == filter_admits(pattern@, name@, rel_path@),
{
    let p = chars_of(pattern);
    if p.len() == 0 {
        return true;
    }
    let n = chars_of(name);
    if contains_chars(&n, &p) {
        return true;
    }
    let f = chars_of(rel_path);
    contains_chars(&f, &p)
}

/// How a call of the parser under test ended.
pub enum ParseOutcome {
    /// It parsed; each node rendered to its canonical text.
    Parsed(Vec<String>),
    /// It reported a parse error, with this message.
    Failed(String),
    /// It stopped abnormally, with this message if the fault carried one.
    Fault(Option<String>),
    /// It did not finish within the time budget.
    TimedOut,
}

/// The judgement of one case: whether it passed, what the parser produced,
/// and a diagnostic (empty on a pass).
pub struct Verdict {
    pub passed: bool,
    pub actual: String,
    pub diagnostic: String,
}

/// The texts joined with one space between each two.
pub open spec fn join_spaced(ts: Seq<Seq<char>>) -> Seq<char>
    decreases ts.len(),
{
    if ts.len() == 0 {
        Seq::empty()
    } else if ts.len() == 1 {
        ts[0]
    } else {
        join_spaced(ts.drop_last()) + seq![' '] + ts.last()
    }
}

/// The rendering of a parsed input: its nodes joined by spaces.
pub open spec fn rendered(nodes: Seq<String>) -> Seq<char> {
    join_spaced(nodes.map_values(|n: String| n@))
}

/// Whether a case expects the parser to fail.
pub open spec fn expects_error(expected: Seq<char>) -> bool {
    normalized(expected) == error_sentinel()
}

/// The verdict, as (passed, actual, diagnostic), for an outcome judged
/// against an expected text.
pub open spec fn verdict_of(o: ParseOutcome, expected: Seq<char>) -> (bool, Seq<char>, Seq<char>) {
    match o {
        ParseOutcome::Parsed(nodes) => {
            let a = rendered(nodes@);
            if expects_error(expected) {
                (false, a, "Expected parse error but got successful parse"@)
            } else {
                (normalized(a) == normalized(expected), a, Seq::empty())
            }
        },
        ParseOutcome::Failed(msg) => {
            if expects_error(expected) {
                (true, "<error>"@, Seq::empty())
            } else {
                (false, "<parse error>"@, msg@)
            }
        },
        ParseOutcome::Fault(msg) => {
            if expects_error(expected) {
                (true, "<error>"@, Seq::empty())
            } else {
                (
                    false,
                    "<exception>"@,
                    match msg {
                        Some(m) => m@,
                        None => "Unknown panic"@,
                    },
                )
            }
        },
        ParseOutcome::TimedOut => (false, "<timeout>"@, "Test timed out after 10 seconds"@),
    }
}

/// The nodes' texts joined by single spaces.
pub fn render_nodes(nodes: &Vec<String>) -> (r: String)
    ensures
        r@ == rendered(nodes@),
{
    let ghost ts = nodes@.map_values(|n: String| n@);
    let mut out: Vec<char> = Vec::new();
    let mut k: usize = 0;
    assert(ts.subrange(0, 0) =~= Seq::<Seq<char>>::empty());
    while k < nodes.len()
        invariant
            k <= nodes@.len(),
            ts == nodes@.map_values(|n: String| n@),
            out@ == join_spaced(ts.subrange(0, k as int)),
        decreases nodes@.len() - k,
    {
        assert(ts.subrange(0, k + 1).drop_last() =~= ts.subrange(0, k as int));
        assert(ts.subrange(0, k + 1).last() == nodes@[k as int]@);
        if k > 0 {
            out.push(' ');
        } else {
            assert(out@ =~= Seq::<char>::empty());
        }
        let piece = chars_of(nodes[k].as_str());
        append_chars(&mut out, &piece);
        k = k + 1;
        if k == 1 {
            assert(out@ =~= ts.subrange(0, 1)[0]);
        }
    }
    assert(ts.subrange(0, nodes@.len() as int) =~= ts);
    string_of(out.as_slice())
}

/// Judges an outcome of the parser under test against a case's expected
/// text (after [`effective_expected`]).
pub fn judge(outcome: &ParseOutcome, expected: &str) -> (v: Verdict)
    ensures
        (v.passed, v.actual@, v.diagnostic@) == verdict_of(*outcome, expected@),
{
    let wants_error = normalize(expected) == "<error>".to_string();
    match outcome {
        ParseOutcome::Parsed(nodes) => {
            let actual = render_nodes(nodes);
            if wants_error {
                Verdict {
                    passed: false,
                    actual,
                    diagnostic: "Expected parse error but got successful parse".to_string(),
                }
            } else {
                let passed = normalize(actual.as_str()) == normalize(expected);
                Verdict { passed, actual, diagnostic: String::new() }
            }
        },
        ParseOutcome::Failed(msg) => {
            if wants_error {
                Verdict { passed: true, actual: "<error>".to_string(), diagnostic: String::new() }
            } else {
                Verdict { passed: false, actual: "<parse error>".to_string(), diagnostic: msg.clone() }
            }
        },
        ParseOutcome::Fault(msg) => {
            if wants_error {
                Verdict { passed: true, actual: "<error>".to_string(), diagnostic: String::new() }
            } else {
                let diagnostic = match msg {
                    Some(m) => m.clone(),
                    None => "Unknown panic".to_string(),
                };
                Verdict { passed: false, actual: "<exception>".to_string(), diagnostic }
            }
        },
        ParseOutcome::TimedOut => {
            Verdict {
                passed: false,
                actual: "<timeout>".to_string(),
                diagnostic: "Test timed out after 10 seconds".to_string(),
            }
        },
    }
}

/// When a case expects an error, it passes exactly when the parser fails or
/// faults, and never when it parses, whatever the rendering. (A timeout,
/// which always fails, is left out: it is judged on its own.)
pub proof fn lemma_error_expectation(o: ParseOutcome, expected: Seq<char>)
    requires
        expects_error(expected),
        !(o is TimedOut),
    ensures
        verdict_of(o, expected).0 <==> (o is Failed || o is Fault),
{
}

/// A timeout fails whatever the case expects.
pub proof fn lemma_timeout_fails(expected: Seq<char>)
    ensures
        !verdict_of(ParseOutcome::TimedOut, expected).0,
{
}

/// A case whose expected text normalises to `<infinite>` gets the same
/// verdict as one that expects `<error>`, for every outcome.
pub proof fn lemma_infinite_as_error(o: ParseOutcome, expected: Seq<char>)
    requires
        normalized(expected) == infinite_sentinel(),
    ensures
        verdict_of(o, effective_expected_spec(expected)) == verdict_of(o, error_sentinel()),
{
}

/// An input that asks for extended-glob mode is exactly the directive line
/// followed by the text handed to the parser.
pub proof fn lemma_directive_stripped(input: Seq<char>)
    requires
        wants_extglob(input),
    ensures
        extglob_directive() + parser_input(input) == input,
{
    let d = extglob_directive();
    assert(input.subrange(0, d.len() as int) == d);
    assert(d + input.subrange(d.len() as int, input.len() as int) =~= input);
}

} // verus!
