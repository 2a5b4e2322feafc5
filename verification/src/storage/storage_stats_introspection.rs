use vstd::prelude::*;
use crate::storage::{zero_stats, EngineStats};

verus! {

/// An engine that reports its counters. By default they are all zero.
pub trait StorageStatsIntrospection {
    fn stats(&self) -> (r: EngineStats)
        default_ensures
            r == zero_stats(),
    {
        EngineStats::default()
    }
}

} // verus!
