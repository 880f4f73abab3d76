//! A conformance runner for a pattern parser: the corpus format, the
//! normalisation and comparison rule, case verdicts and the run summary.

pub mod text;
pub mod corpus;
pub mod locate;
pub mod verdict;
pub mod cli;
pub mod summary;
