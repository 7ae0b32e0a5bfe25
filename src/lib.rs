//! Commit counting across the Git repositories under a directory: finding the
//! repositories, keying each commit by a normalized author identity, and
//! merging per-repository counts and origin URLs into one report.

pub mod identity;
pub mod report;
pub mod scan;
pub mod tally;
