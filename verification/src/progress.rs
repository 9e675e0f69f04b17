//! Line and duplicate counters, and the metrics a run returns.
//!
//! The engine runs strictly sequentially, so the counters are plain
//! integers; rendering them to a terminal is left to the surrounding tool.

use vstd::prelude::*;

verus! {

/// What a finished run reports: how many nonempty lines were processed and
/// how many of them were dropped as duplicates.
#[derive(Clone, Copy, Debug, PartialEq, Eq, Structural)]
pub struct Metrics {
    pub lines_processed: u64,
    pub duplicates_removed: u64,
}

/// The progress collaborator the processor reports to: it accumulates the
/// line and duplicate counts of a run.
pub struct ProgressTracker {
    lines_processed: u64,
    duplicates_removed: u64,
}

impl ProgressTracker {
    /// How many lines have been counted so far.
    pub closed spec fn lines(self) -> u64 {
        self.lines_processed
    }

    /// How many duplicates have been counted so far.
    pub closed spec fn duplicates(self) -> u64 {
        self.duplicates_removed
    }

    /// A fresh tracker with both counters at zero.
    pub fn new() -> (t: ProgressTracker)
        ensures
            t.lines() == 0,
            t.duplicates() == 0,
    {
        ProgressTracker { lines_processed: 0, duplicates_removed: 0 }
    }

    /// Add `count` processed lines.
    pub fn increment_lines(&mut self, count: u64)
        requires
            old(self).lines() + count <= u64::MAX,
        ensures
            final(self).lines() == old(self).lines() + count,
            final(self).duplicates() == old(self).duplicates(),
    {
        self.lines_processed = self.lines_processed + count;
    }

    /// Add `count` removed duplicates.
    pub fn increment_duplicates(&mut self, count: u64)
        requires
            old(self).duplicates() + count <= u64::MAX,
        ensures
            final(self).duplicates() == old(self).duplicates() + count,
            final(self).lines() == old(self).lines(),
    {
        self.duplicates_removed = self.duplicates_removed + count;
    }

    /// Close the tracker and hand out the accumulated metrics.
    pub fn finish(&self) -> (m: Metrics)
        ensures
            m.lines_processed == self.lines(),
            m.duplicates_removed == self.duplicates(),
    {
        Metrics { lines_processed: self.lines_processed, duplicates_removed: self.duplicates_removed }
    }
}

} // verus!
