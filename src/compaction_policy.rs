//! Policies that decide when to compact the immutable log files.
//!
//! After each write the store describes its state in a [`CompactionContext`] and asks its
//! policy whether the immutable files should now be rewritten into one.

use vstd::prelude::*;

verus! {

/// What a policy sees of the store.
#[derive(Debug, Clone, Copy, PartialEq, Eq)]
pub struct CompactionContext {
    /// How many immutable log files are open.
    pub open_immutable_files: usize,
    /// How many records in immutable files have been superseded since the last compaction.
    pub dead_commands: usize,
}

/// A rule for when to compact.
pub trait CompactionPolicy {
    /// Whether the policy asks for a compaction in `context`.
    spec fn fires(&self, context: CompactionContext) -> bool;

    fn should_compact(&self, context: CompactionContext) -> (r: bool)
        ensures
            r == self.fires(context),
    ;
}

/// Compacts once more than a given number of immutable files are open.
#[derive(Debug, Clone, Copy)]
pub struct MaxFilePolicy {
    max_files: usize,
}

impl MaxFilePolicy {
    /// The number of immutable files that may be open without a compaction.
    pub closed spec fn limit(&self) -> usize {
        self.max_files
    }

    pub fn new(max_files: usize) -> (r: Self)
        ensures
            r.limit() == max_files,
    {
        MaxFilePolicy { max_files }
    }
}

impl Default for MaxFilePolicy {
    /// Eight files: few enough open files, without rewriting the index too often.
    fn default() -> (r: Self)
        ensures
            r.limit() == 8,
    {
        MaxFilePolicy { max_files: 8 }
    }
}

impl CompactionPolicy for MaxFilePolicy {
    open spec fn fires(&self, context: CompactionContext) -> bool {
        context.open_immutable_files > self.limit()
    }

    fn should_compact(&self, context: CompactionContext) -> (r: bool) {
        context.open_immutable_files > self.max_files
    }
}

/// Compacts once more than a given number of records in immutable files are dead.
#[derive(Debug, Clone, Copy)]
pub struct MaxDeadRecordPolicy {
    max_dead_records: usize,
}

impl MaxDeadRecordPolicy {
    /// The number of dead records that may pile up without a compaction.
    pub closed spec fn limit(&self) -> usize {
        self.max_dead_records
    }

    pub fn new(max_dead_records: usize) -> (r: Self)
        ensures
            r.limit() == max_dead_records,
    {
        MaxDeadRecordPolicy { max_dead_records }
    }
}

impl Default for MaxDeadRecordPolicy {
    fn default() -> (r: Self)
        ensures
            r.limit() == 1024,
    {
        MaxDeadRecordPolicy { max_dead_records: 1024 }
    }
}

impl CompactionPolicy for MaxDeadRecordPolicy {
    open spec fn fires(&self, context: CompactionContext) -> bool {
        context.dead_commands > self.limit()
    }

    fn should_compact(&self, context: CompactionContext) -> (r: bool) {
        context.dead_commands > self.max_dead_records
    }
}

/// Never compacts.
#[derive(Debug, Clone, Copy, Default)]
pub struct NeverPolicy;

impl CompactionPolicy for NeverPolicy {
    open spec fn fires(&self, context: CompactionContext) -> bool {
        false
    }

    fn should_compact(&self, context: CompactionContext) -> (r: bool) {
        false
    }
}

} // verus!
