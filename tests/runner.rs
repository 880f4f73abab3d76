use corpus_runner::cli::{parse_args, parse_count, DEFAULT_MAX_FAILURES};
use corpus_runner::corpus::{parse_test_content, TestCase};
use corpus_runner::locate::{is_corpus_file_name, sort_paths};
use corpus_runner::summary::{RunSummary, TestResult};
use corpus_runner::text::{contains_chars, normalize, starts_with_chars, trim_chars};
use corpus_runner::verdict::{
    effective_expected, judge, matches_filter, prepare_case, render_nodes, ParseOutcome,
};

fn args(v: &[&str]) -> Vec<String> {
    v.iter().map(|s| s.to_string()).collect()
}

fn failure(name: &str) -> TestResult {
    TestResult {
        rel_path: "tests/x.tests".to_string(),
        line_num: 2,
        name: name.to_string(),
        input: "abc".to_string(),
        expected: "(lit abc)".to_string(),
        actual: "(lit abd)".to_string(),
        err: String::new(),
    }
}

fn check_case(c: &TestCase, name: &str, input: &str, expected: &str, line: usize) {
    assert_eq!(c.name, name);
    assert_eq!(c.input, input);
    assert_eq!(c.expected, expected);
    assert_eq!(c.line_num, line);
}

#[test]
fn basic_file_yields_one_passing_case() {
    let cases = parse_test_content("=== literal\nabc\n---\n(lit abc)\n");
    assert_eq!(cases.len(), 1);
    check_case(&cases[0], "literal", "abc", "(lit abc)", 2);
    let p = prepare_case(&cases[0].input, &cases[0].expected);
    assert!(!p.extglob);
    assert_eq!(p.input, "abc");
    let v = judge(&ParseOutcome::Parsed(vec!["(lit abc)".to_string()]), &p.expected);
    assert!(v.passed);
    assert_eq!(v.actual, "(lit abc)");
    assert_eq!(v.diagnostic, "");
}

#[test]
fn error_case_passes_only_when_parse_fails() {
    let cases = parse_test_content("=== bad\nabc{\n---\n<error>");
    assert_eq!(cases.len(), 1);
    check_case(&cases[0], "bad", "abc{", "<error>", 2);
    let e = &cases[0].expected;
    let v = judge(&ParseOutcome::Failed("unclosed brace".to_string()), e);
    assert!(v.passed);
    assert_eq!(v.actual, "<error>");
    assert_eq!(v.diagnostic, "");
    let v = judge(&ParseOutcome::Fault(Some("boom".to_string())), e);
    assert!(v.passed);
    let v = judge(&ParseOutcome::Parsed(vec!["(lit abc{)".to_string()]), e);
    assert!(!v.passed);
    assert_eq!(v.actual, "(lit abc{)");
    assert_eq!(v.diagnostic, "Expected parse error but got successful parse");
    let v = judge(&ParseOutcome::Parsed(vec!["<error>".to_string()]), e);
    assert!(!v.passed);
}

#[test]
fn timeout_always_fails() {
    for e in ["<error>", "(lit a)", ""] {
        let v = judge(&ParseOutcome::TimedOut, e);
        assert!(!v.passed);
        assert_eq!(v.actual, "<timeout>");
        assert_eq!(v.diagnostic, "Test timed out after 10 seconds");
    }
}

#[test]
fn failures_without_error_expectation() {
    let v = judge(&ParseOutcome::Failed("bad token".to_string()), "(lit a)");
    assert!(!v.passed);
    assert_eq!(v.actual, "<parse error>");
    assert_eq!(v.diagnostic, "bad token");
    let v = judge(&ParseOutcome::Fault(Some("index out of bounds".to_string())), "(lit a)");
    assert!(!v.passed);
    assert_eq!(v.actual, "<exception>");
    assert_eq!(v.diagnostic, "index out of bounds");
    let v = judge(&ParseOutcome::Fault(None), "(lit a)");
    assert_eq!(v.actual, "<exception>");
    assert_eq!(v.diagnostic, "Unknown panic");
}

#[test]
fn comparison_ignores_layout() {
    let nodes = vec!["(seq\n  (lit a)".to_string(), "(lit b))".to_string()];
    assert_eq!(render_nodes(&nodes), "(seq\n  (lit a) (lit b))");
    let v = judge(&ParseOutcome::Parsed(nodes), "  (seq (lit a)\n\t(lit b))\n\n");
    assert!(v.passed);
    assert_eq!(v.actual, "(seq\n  (lit a) (lit b))");
    let v = judge(&ParseOutcome::Parsed(vec!["(lit a)".to_string()]), "(lit  b)");
    assert!(!v.passed);
    assert_eq!(v.diagnostic, "");
    assert_eq!(render_nodes(&Vec::new()), "");
}

#[test]
fn normalize_collapses_and_trims() {
    assert_eq!(normalize("  a \t\n b\r\n\x0bc  "), "a b c");
    assert_eq!(normalize("a\u{a0}\u{2003}b\u{3000}"), "a b");
    assert_eq!(normalize(""), "");
    assert_eq!(normalize(" \n\t "), "");
    assert_eq!(normalize("<error>\n"), "<error>");
    assert_eq!(normalize("x"), "x");
}

#[test]
fn normalize_twice_is_normalize_once() {
    for s in ["", "  a  b ", "\n(seq\n\t(lit a)\u{2028}(lit b))\n\n", "x\u{85}\u{85}y", " \u{a0} "] {
        let once = normalize(s);
        assert_eq!(normalize(&once), once);
    }
}

#[test]
fn infinite_is_judged_as_error() {
    assert_eq!(effective_expected("<infinite>"), "<error>");
    assert_eq!(effective_expected("  <infinite>\n\n"), "<error>");
    assert_eq!(effective_expected("<Infinite>"), "<Infinite>");
    assert_eq!(effective_expected("(lit a)\n"), "(lit a)\n");
    let e = effective_expected("<infinite>");
    assert!(judge(&ParseOutcome::Failed("loop".to_string()), &e).passed);
    assert!(!judge(&ParseOutcome::Parsed(vec!["(lit a)".to_string()]), &e).passed);
    assert!(!judge(&ParseOutcome::TimedOut, &e).passed);
    let p = prepare_case("a", "<infinite>");
    assert_eq!(p.expected, "<error>");
}

#[test]
fn extglob_directive_sets_mode_and_is_stripped() {
    let p = prepare_case("# @extglob\n@(a|b)", "(x)");
    assert!(p.extglob);
    assert_eq!(p.input, "@(a|b)");
    assert_eq!(p.expected, "(x)");
    let p = prepare_case("# @extglob\n", "");
    assert!(p.extglob);
    assert_eq!(p.input, "");
    let p = prepare_case("# @extglob", "");
    assert!(!p.extglob);
    assert_eq!(p.input, "# @extglob");
    let p = prepare_case("a\n# @extglob\nb", "");
    assert!(!p.extglob);
    assert_eq!(p.input, "a\n# @extglob\nb");
}

#[test]
fn extglob_directive_in_corpus_input() {
    let cases = parse_test_content("=== ext\n# @extglob\n+(a)\n---\n(ext)\n");
    assert_eq!(cases.len(), 1);
    assert_eq!(cases[0].input, "# @extglob\n+(a)");
    let p = prepare_case(&cases[0].input, &cases[0].expected);
    assert!(p.extglob);
    assert_eq!(p.input, "+(a)");
}

#[test]
fn filter_matches_name_or_path() {
    assert!(matches_filter("foo", "foo_1", "x/foo.tests"));
    assert!(matches_filter("foo", "bar_2", "x/foo.tests"));
    assert!(matches_filter("foo", "foo_1", "x/baz.tests"));
    assert!(!matches_filter("foo", "bar_2", "x/baz.tests"));
    assert!(matches_filter("", "bar_2", "x/baz.tests"));
    assert!(!matches_filter("Foo", "foo_1", "x/baz.tests"));
    assert!(matches_filter("baz.tests", "a", "x/baz.tests"));
    assert!(!matches_filter("x/baz.testsy", "a", "x/baz.tests"));
}

#[test]
fn max_failures_zero_shows_all() {
    let mut s = RunSummary::new();
    for k in 0..5 {
        s.record(false, failure(&format!("case_{}", k)));
    }
    s.record(true, failure("ok"));
    assert_eq!(s.passed, 1);
    assert_eq!(s.failed, 5);
    assert_eq!(s.failures.len(), 5);
    assert_eq!(s.failures[4].name, "case_4");
    assert_eq!(s.shown_failures(0), 5);
    assert_eq!(s.omitted_failures(0), 0);
    assert_eq!(s.shown_failures(20), 5);
    assert_eq!(s.omitted_failures(20), 0);
    assert_eq!(s.shown_failures(3), 3);
    assert_eq!(s.omitted_failures(3), 2);
    assert_eq!(s.shown_failures(5), 5);
    assert_eq!(s.omitted_failures(5), 0);
    assert!(s.any_failed());
    assert_eq!(s.exit_code(), 1);
}

#[test]
fn clean_run_exits_zero() {
    let mut s = RunSummary::new();
    assert_eq!(s.exit_code(), 0);
    s.record(true, failure("a"));
    s.record(true, failure("b"));
    assert_eq!(s.passed, 2);
    assert_eq!(s.failed, 0);
    assert!(s.failures.is_empty());
    assert!(!s.any_failed());
    assert_eq!(s.exit_code(), 0);
}

#[test]
fn corpus_skips_comments_and_blanks() {
    let text = "# a comment\n\n   \n=== one\na\n---\n(a)\n---\n\nstray text\n# more\n=== two\nb\n---\n(b)";
    let cases = parse_test_content(text);
    assert_eq!(cases.len(), 2);
    check_case(&cases[0], "one", "a", "(a)", 5);
    check_case(&cases[1], "two", "b", "(b)", 13);
}

#[test]
fn corpus_multiline_sections_and_trailing_blanks() {
    let text = "===   spaced name  \nline1\n\nline3\n---\n(seq\n  (x))\n\n  \n=== next\nq\n---\nr\n";
    let cases = parse_test_content(text);
    assert_eq!(cases.len(), 2);
    check_case(&cases[0], "spaced name", "line1\n\nline3", "(seq\n  (x))", 2);
    check_case(&cases[1], "next", "q", "r", 11);
}

#[test]
fn corpus_marker_ends_open_input() {
    let text = "=== outer\n=== not a case\n# not a comment\n---\n(o)\n";
    let cases = parse_test_content(text);
    assert_eq!(cases.len(), 2);
    check_case(&cases[0], "outer", "", "", 2);
    check_case(&cases[1], "not a case", "# not a comment", "(o)", 3);
}

#[test]
fn corpus_every_marker_opens_a_case() {
    let cases = parse_test_content("=== \n=== ");
    assert_eq!(cases.len(), 2);
    check_case(&cases[0], "", "", "", 2);
    check_case(&cases[1], "", "", "", 3);
    let cases = parse_test_content("=== a\nx\ny\n=== b\n---\nz\n=== c\nw");
    assert_eq!(cases.len(), 3);
    check_case(&cases[0], "a", "x\ny", "", 2);
    check_case(&cases[1], "b", "", "z", 5);
    check_case(&cases[2], "c", "w", "", 8);
    let cases = parse_test_content("=== a\n=== b\n---\nz");
    assert_eq!(cases.len(), 2);
    check_case(&cases[0], "a", "", "", 2);
    check_case(&cases[1], "b", "", "z", 3);
}

#[test]
fn corpus_tolerates_missing_separators() {
    let cases = parse_test_content("=== open\nabc\ndef");
    assert_eq!(cases.len(), 1);
    check_case(&cases[0], "open", "abc\ndef", "", 2);
    let cases = parse_test_content("=== a\nx\n---\n=== b\ny\n---\n(y)");
    assert_eq!(cases.len(), 2);
    check_case(&cases[0], "a", "x", "", 2);
    check_case(&cases[1], "b", "y", "(y)", 5);
    let cases = parse_test_content("=== empty");
    assert_eq!(cases.len(), 1);
    check_case(&cases[0], "empty", "", "", 2);
}

#[test]
fn corpus_without_cases() {
    assert_eq!(parse_test_content("").len(), 0);
    assert_eq!(parse_test_content("# only\n\n===nospace\n---\n").len(), 0);
    assert_eq!(parse_test_content(" === indented\n").len(), 0);
}

#[test]
fn corpus_counts_every_outside_marker() {
    let text = "=== a\n1\n---\n(1)\n=== b\n2\n---\n(2)\n---\n=== c\n3\n---\n(3)\n";
    let cases = parse_test_content(text);
    let names: Vec<&str> = cases.iter().map(|c| c.name.as_str()).collect();
    assert_eq!(names, vec!["a", "b", "c"]);
    assert_eq!(cases[1].line_num, 6);
    assert_eq!(cases[2].line_num, 11);
}

#[test]
fn corpus_file_names() {
    assert!(is_corpus_file_name("basic.tests"));
    assert!(is_corpus_file_name("a.b.tests"));
    assert!(!is_corpus_file_name(".tests"));
    assert!(!is_corpus_file_name("tests"));
    assert!(!is_corpus_file_name("basic.test"));
    assert!(!is_corpus_file_name("basic.tests.bak"));
}

#[test]
fn arguments_are_read() {
    let o = parse_args(&args(&["-v", "--filter", "foo", "--max-failures", "0", "dir"]));
    assert!(o.verbose);
    assert_eq!(o.filter, "foo");
    assert_eq!(o.max_failures, 0);
    assert_eq!(o.test_dir, Some("dir".to_string()));
    assert!(!o.help);
    let o = parse_args(&args(&[]));
    assert!(!o.verbose);
    assert_eq!(o.filter, "");
    assert_eq!(o.max_failures, DEFAULT_MAX_FAILURES);
    assert_eq!(o.test_dir, None);
}

#[test]
fn arguments_fall_back_and_ignore() {
    let o = parse_args(&args(&["--max-failures", "many", "-x", "--weird", "-f"]));
    assert_eq!(o.max_failures, 20);
    assert_eq!(o.filter, "");
    assert_eq!(o.test_dir, None);
    let o = parse_args(&args(&["a", "b", "--verbose"]));
    assert_eq!(o.test_dir, Some("b".to_string()));
    assert!(o.verbose);
    let o = parse_args(&args(&["-h", "-v", "dir"]));
    assert!(o.help);
    assert!(!o.verbose);
    assert_eq!(o.test_dir, None);
    let o = parse_args(&args(&["--max-failures", "+7"]));
    assert_eq!(o.max_failures, 7);
}

#[test]
fn counts_parse_as_usize() {
    assert_eq!(parse_count("0"), Some(0));
    assert_eq!(parse_count("42"), Some(42));
    assert_eq!(parse_count("+42"), Some(42));
    assert_eq!(parse_count("007"), Some(7));
    assert_eq!(parse_count(""), None);
    assert_eq!(parse_count("+"), None);
    assert_eq!(parse_count("-1"), None);
    assert_eq!(parse_count("1a"), None);
    assert_eq!(parse_count(" 1"), None);
    assert_eq!(parse_count("18446744073709551615"), Some(usize::MAX));
    assert_eq!(parse_count("18446744073709551616"), None);
    assert_eq!(parse_count("99999999999999999999x"), None);
    for s in ["0", "+12", "x", "", "340282366920938463463374607431768211456"] {
        assert_eq!(parse_count(s), s.parse::<usize>().ok());
    }
}

#[test]
fn char_helpers() {
    let v: Vec<char> = " \tab c\n".chars().collect();
    assert_eq!(trim_chars(&v), vec!['a', 'b', ' ', 'c']);
    let p: Vec<char> = "ab".chars().collect();
    assert!(contains_chars(&v, &p));
    assert!(!starts_with_chars(&v, &p));
    let q: Vec<char> = "b c".chars().collect();
    assert!(contains_chars(&v, &q));
    assert!(contains_chars(&v, &Vec::new()));
    assert!(!contains_chars(&p, &v));
}

#[test]
fn paths_sort_as_strings() {
    let given = args(&[
        "tests/b/z.tests",
        "tests/a.tests",
        "tests/b.tests",
        "tests/B.tests",
        "tests/a.tests",
        "tests/\u{e9}.tests",
        "tests/b",
        "",
    ]);
    let mut expected = given.clone();
    expected.sort();
    assert_eq!(sort_paths(given), expected);
    assert_eq!(sort_paths(Vec::new()), Vec::<String>::new());
    let order = sort_paths(args(&["x/foo.tests", "x/baz.tests"]));
    assert_eq!(order, args(&["x/baz.tests", "x/foo.tests"]));
}
