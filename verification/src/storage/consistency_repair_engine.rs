use vstd::prelude::*;
use crate::storage::io_failure::{io_error, IoFailure};
use crate::storage::repair_summary::RepairSummary;
use crate::storage::repair_target::RepairTarget;
use crate::storage::RepairReport;

verus! {

/// An engine that can make its cache and disk agree. By default it cannot, and has no
/// last repair.
pub trait ConsistencyRepairEngine {
    fn repair_consistency(&mut self, target: RepairTarget) -> (r: Result<RepairReport, std::io::Error>)
        default_ensures
            r is Err,
    {
        Err(io_error(IoFailure::Unsupported, "consistency repair is not supported by this engine"))
    }

    fn last_repair_summary(&self) -> (r: Option<RepairSummary>)
        default_ensures
            r is None,
    {
        None
    }
}

} // verus!
