//! Counters and refusals that describe what a merge did.
use vstd::prelude::*;
use crate::model::TimeRange;

verus! {

/// Counters describing what a merge actually did, so a caller can tell
/// "nothing to do" from "wrote three things".
#[derive(Debug, Clone, Copy, Default, PartialEq, Eq, Structural)]
pub struct MergeReport {
    pub created: usize,
    pub updated: usize,
    pub unchanged: usize,
    pub rejected: usize,
}

impl MergeReport {
    /// The sum of the four counters, as a mathematical integer.
    pub open spec fn spec_total(&self) -> int {
        self.created + self.updated + self.unchanged + self.rejected
    }

    /// A report with every counter at zero.
    pub fn empty() -> (r: MergeReport)
        ensures
            r.created == 0 && r.updated == 0 && r.unchanged == 0 && r.rejected == 0,
    {
        MergeReport { created: 0, updated: 0, unchanged: 0, rejected: 0 }
    }

    /// Number of patches the merge looked at.
    pub fn total(&self) -> (t: usize)
        requires
            self.spec_total() <= usize::MAX,
        ensures
            t == self.spec_total(),
    {
        self.created + self.updated + self.unchanged + self.rejected
    }

    /// True when the merge would change the file: it created or updated an
    /// annotation. The apply command reports from it whether anything changed
    /// (in a dry run, would change).
    pub fn is_noop(&self) -> (b: bool)
        ensures
            b == (self.created > 0 || self.updated > 0),
    {
        self.created > 0 || self.updated > 0
    }
}

/// Why a patch was refused. Kept as data so a caller can print every refusal
/// of a batch in one pass.
#[derive(Debug, Clone)]
pub struct Rejection {
    /// Position of the refused patch in the batch.
    pub index: usize,
    pub reason: String,
    /// For a range that does not fit the audio: that range. The reason is
    /// then left empty for the caller to word, since it quotes seconds.
    pub range: Option<TimeRange>,
}

} // verus!
