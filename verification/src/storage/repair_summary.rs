use vstd::prelude::*;
use crate::storage::repair_target::RepairTarget;

verus! {

/// The counts of the last repair, kept by the store.
#[derive(Debug, Clone, Copy, PartialEq, Eq, Structural)]
pub struct RepairSummary {
    pub target: RepairTarget,
    pub repaired_only_in_cache: usize,
    pub repaired_only_in_disk: usize,
    pub repaired_value_mismatches: usize,
}

impl RepairSummary {
    /// All repairs made.
    pub fn total_repairs(&self) -> (r: usize)
        requires
            self.repaired_only_in_cache + self.repaired_only_in_disk
                + self.repaired_value_mismatches <= usize::MAX,
        ensures
            r == self.repaired_only_in_cache + self.repaired_only_in_disk
                + self.repaired_value_mismatches,
    {
        self.repaired_only_in_cache + self.repaired_only_in_disk + self.repaired_value_mismatches
    }
}

} // verus!
