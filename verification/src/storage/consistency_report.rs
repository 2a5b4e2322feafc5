use vstd::prelude::*;
use crate::storage::consistency_diff::ConsistencyDiff;

verus! {

/// What a comparison of cache and disk found.
#[derive(Debug, Clone, PartialEq, Eq)]
pub struct ConsistencyReport {
    pub cache_keys: usize,
    pub disk_keys: usize,
    pub only_in_cache: usize,
    pub only_in_disk: usize,
    pub value_mismatches: usize,
    pub samples: Vec<ConsistencyDiff>,
}

impl ConsistencyReport {
    /// All disagreements found.
    pub fn total_issues(&self) -> (r: usize)
        requires
            self.only_in_cache + self.only_in_disk + self.value_mismatches <= usize::MAX,
        ensures
            r == self.only_in_cache + self.only_in_disk + self.value_mismatches,
    {
        self.only_in_cache + self.only_in_disk + self.value_mismatches
    }
}

} // verus!
