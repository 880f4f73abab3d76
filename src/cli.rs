//! Command-line options of the runner.

use vstd::prelude::*;
use crate::text::chars_of;

verus! {

broadcast use vstd::string::group_string_axioms;

/// The failure-report cap used when none, or no valid one, is given.
pub const DEFAULT_MAX_FAILURES: usize = 20;

/// The runner's options. `max_failures` of 0 means no cap on the report.
pub struct Options {
    pub verbose: bool,
    pub filter: String,
    pub max_failures: usize,
    pub test_dir: Option<String>,
    pub help: bool,
}

/// The options, as plain values.
pub struct OptionsSpec {
    pub verbose: bool,
    pub filter: Seq<char>,
    pub max_failures: int,
    pub test_dir: Option<Seq<char>>,
    pub help: bool,
}

impl Options {
    pub open spec fn spec_view(&self) -> OptionsSpec {
        OptionsSpec {
            verbose: self.verbose,
            filter: self.filter@,
            max_failures: self.max_failures as int,
            test_dir: match self.test_dir {
                Some(d) => Some(d@),
                None => None,
            },
            help: self.help,
        }
    }
}

pub open spec fn is_digit(c: char) -> bool {
    '0' <= c && c <= '9'
}

/// The number written by a string of decimal digits.
pub open spec fn digits_value(s: Seq<char>) -> int
    decreases s.len(),
{
    if s.len() == 0 {
        0
    } else {
        digits_value(s.drop_last()) * 10 + (s.last() as int - '0' as int)
    }
}

/// The text after an optional leading `+`.
pub open spec fn unsigned_digits(s: Seq<char>) -> Seq<char> {
    if s.len() > 0 && s[0] == '+' {
        s.drop_first()
    } else {
        s
    }
}

pub open spec fn all_digits(d: Seq<char>) -> bool {
    forall|i: int| 0 <= i < d.len() ==> is_digit(#[trigger] d[i])
}

/// What `usize::from_str` accepts: an optional `+`, then one or more decimal
/// digits whose value fits.
pub open spec fn count_of(s: Seq<char>) -> Option<int> {
    let d = unsigned_digits(s);
    if d.len() > 0 && all_digits(d) && digits_value(d) <= usize::MAX {
        Some(digits_value(d))
    } else {
        None
    }
}

proof fn lemma_digits_value_grows(s: Seq<char>, k: int)
    requires
        0 <= k <= s.len(),
        forall|i: int| 0 <= i < s.len() ==> is_digit(#[trigger] s[i]),
    ensures
        digits_value(s.take(k)) <= digits_value(s),
        0 <= digits_value(s.take(k)),
    decreases s.len(),
{
    if k < s.len() {
        assert(s.drop_last().take(k) =~= s.take(k));
        lemma_digits_value_grows(s.drop_last(), k);
    } else {
        assert(s.take(k) =~= s);
        if s.len() > 0 {
            lemma_digits_value_grows(s.drop_last(), k - 1);
            assert(s.drop_last().take(k - 1) =~= s.drop_last());
        }
    }
}

/// Reads a count as `usize::from_str` does.
pub fn parse_count(s: &str) -> (r: Option<usize>)
    ensures
        r is Some <==> count_of(s@) is Some,
        r is Some ==> count_of(s@) == Some(r->0 as int),
{
    let c = chars_of(s);
    let start: usize = if c.len() > 0 && c[0] == '+' { 1 } else { 0 };
    let ghost d = unsigned_digits(s@);
    assert(d =~= c@.subrange(start as int, c@.len() as int));
    if start >= c.len() {
        return None;
    }
    let mut v: usize = 0;
    let mut k: usize = start;
    while k < c.len()
        invariant
            start <= k <= c@.len(),
            c@ == s@,
            d == unsigned_digits(s@),
            d =~= c@.subrange(start as int, c@.len() as int),
            forall|i: int| 0 <= i < k - start ==> is_digit(#[trigger] d[i]),
            v as int == digits_value(d.take(k - start)),
        decreases c@.len() - k,
    {
        let ch = c[k];
        if !('0' <= ch && ch <= '9') {
            assert(!is_digit(d[k - start]));
            return None;
        }
        assert(d.take(k + 1 - start).drop_last() =~= d.take(k - start));
        assert(d.take(k + 1 - start).last() == ch);
        let digit = (ch as u32 - '0' as u32) as usize;
        let next = match v.checked_mul(10) {
            Some(t) => t.checked_add(digit),
            None => None,
        };
        match next {
            Some(u) => {
                v = u;
            },
            None => {
                proof {
                    if all_digits(d) {
                        lemma_digits_value_grows(d, k + 1 - start);
                    }
                }
                return None;
            },
        }
        k = k + 1;
    }
    assert(d.take(d.len() as int) =~= d);
    Some(v)
}

/// The options before any argument is read.
pub open spec fn default_options() -> OptionsSpec {
    OptionsSpec {
        verbose: false,
        filter: Seq::empty(),
        max_failures: DEFAULT_MAX_FAILURES as int,
        test_dir: None,
        help: false,
    }
}

/// The options after reading the arguments from `i` on, starting from `o`.
/// Unknown flags are ignored; a flag missing its value is ignored; an invalid
/// cap falls back to the default; a help flag ends the reading.
pub open spec fn options_from(a: Seq<Seq<char>>, i: int, o: OptionsSpec) -> OptionsSpec
    decreases a.len() - i,
{
    if i < 0 || i >= a.len() {
        o
    } else {
        let x = a[i];
        if x == "-v"@ || x == "--verbose"@ {
            options_from(a, i + 1, OptionsSpec { verbose: true, ..o })
        } else if x == "-f"@ || x == "--filter"@ {
            if i + 1 < a.len() {
                options_from(a, i + 2, OptionsSpec { filter: a[i + 1], ..o })
            } else {
                options_from(a, i + 1, o)
            }
        } else if x == "--max-failures"@ {
            if i + 1 < a.len() {
                let m = match count_of(a[i + 1]) {
                    Some(v) => v,
                    None => DEFAULT_MAX_FAILURES as int,
                };
                options_from(a, i + 2, OptionsSpec { max_failures: m, ..o })
            } else {
                options_from(a, i + 1, o)
            }
        } else if x == "-h"@ || x == "--help"@ {
            OptionsSpec { help: true, ..o }
        } else if !(x.len() > 0 && x[0] == '-') {
            options_from(a, i + 1, OptionsSpec { test_dir: Some(x), ..o })
        } else {
            options_from(a, i + 1, o)
        }
    }
}

pub open spec fn arg_views(args: Seq<String>) -> Seq<Seq<char>> {
    args.map_values(|s: String| s@)
}

fn is_word(a: &String, w: &str) -> (r: bool)
    ensures
        r == (a@ == w@),
{
    *a == w.to_string()
}

/// Reads the command-line arguments (without the program name).
pub fn parse_args(args: &Vec<String>) -> (r: Options)
    ensures
        r.spec_view() == options_from(arg_views(args@), 0, default_options()),
{
    let ghost a = arg_views(args@);
    let mut o = Options {
        verbose: false,
        filter: String::new(),
        max_failures: DEFAULT_MAX_FAILURES,
        test_dir: None,
        help: false,
    };
    let mut i: usize = 0;
    while i < args.len()
        invariant
            i <= args@.len(),
            a == arg_views(args@),
            !o.help,
            options_from(a, 0, default_options()) == options_from(a, i as int, o.spec_view()),
        decreases args@.len() - i,
    {
        let x = &args[i];
        assert(a[i as int] == x@);
        if is_word(x, "-v") || is_word(x, "--verbose") {
            o.verbose = true;
            i = i + 1;
        } else if is_word(x, "-f") || is_word(x, "--filter") {
            if i + 1 < args.len() {
                o.filter = args[i + 1].clone();
                i = i + 2;
            } else {
                i = i + 1;
            }
        } else if is_word(x, "--max-failures") {
            if i + 1 < args.len() {
                o.max_failures = match parse_count(args[i + 1].as_str()) {
                    Some(v) => v,
                    None => DEFAULT_MAX_FAILURES,
                };
                i = i + 2;
            } else {
                i = i + 1;
            }
        } else if is_word(x, "-h") || is_word(x, "--help") {
            o.help = true;
            return o;
        } else {
            let c = chars_of(x.as_str());
            if !(c.len() > 0 && c[0] == '-') {
                o.test_dir = Some(x.clone());
            }
            i = i + 1;
        }
    }
    o
}

} // verus!
