//! The tally of a run: counts, the failures kept for the report, and what the
//! report shows.

use vstd::prelude::*;

verus! {

/// A failed case, as kept for the report.
pub struct TestResult {
    pub rel_path: String,
    pub line_num: usize,
    pub name: String,
    pub input: String,
    pub expected: String,
    pub actual: String,
    pub err: String,
}

/// Counts of passed and failed cases, and the failed ones in run order.
pub struct RunSummary {
    pub passed: usize,
    pub failed: usize,
    pub failures: Vec<TestResult>,
}

impl RunSummary {
    /// Each failure counted is kept.
    pub open spec fn wf(&self) -> bool {
        self.failed == self.failures@.len()
    }

    /// A summary of no cases.
    pub fn new() -> (r: RunSummary)
        ensures
            r.wf(),
            r.passed == 0,
            r.failed == 0,
            r.failures@.len() == 0,
    {
        RunSummary { passed: 0, failed: 0, failures: Vec::new() }
    }

    /// Counts one case. A pass is only counted; a failure is counted and kept.
    pub fn record(&mut self, passed: bool, result: TestResult)
        requires
            old(self).wf(),
            passed ==> old(self).passed < usize::MAX,
            !passed ==> old(self).failed < usize::MAX,
        ensures
            final(self).wf(),
            passed ==> final(self).passed == old(self).passed + 1 && final(self).failed
                == old(self).failed && final(self).failures@ == old(self).failures@,
            !passed ==> final(self).passed == old(self).passed && final(self).failed
                == old(self).failed + 1 && final(self).failures@ == old(self).failures@.push(
                result,
            ),
    {
        if passed {
            self.passed = self.passed + 1;
        } else {
            self.failed = self.failed + 1;
            self.failures.push(result);
        }
    }

    /// How many failures the report shows under a cap (0 = no cap).
    pub fn shown_failures(&self, max_failures: usize) -> (r: usize)
        ensures
            r == (if max_failures > 0 && self.failures@.len() > max_failures {
                max_failures as int
            } else {
                self.failures@.len() as int
            }),
    {
        if max_failures > 0 && self.failures.len() > max_failures {
            max_failures
        } else {
            self.failures.len()
        }
    }

    /// How many failures the report leaves out under a cap (0 = no cap).
    pub fn omitted_failures(&self, max_failures: usize) -> (r: usize)
        ensures
            r == (if max_failures > 0 && self.failed > max_failures {
                self.failed - max_failures
            } else {
                0
            }),
    {
        if max_failures > 0 && self.failed > max_failures {
            self.failed - max_failures
        } else {
            0
        }
    }

    /// Whether any case failed: the run then exits with a non-zero status.
    pub fn any_failed(&self) -> (r: bool)
        ensures
            r == (self.failed > 0),
    {
        self.failed > 0
    }

    /// The process exit status: 1 if any case failed, else 0.
    pub fn exit_code(&self) -> (r: i32)
        ensures
            r == (if self.failed > 0 { 1i32 } else { 0i32 }),
    {
        if self.failed > 0 {
            1
        } else {
            0
        }
    }
}

} // verus!
