use vstd::prelude::*;
use crate::storage::consistency_report::ConsistencyReport;
use crate::storage::io_failure::{io_error, IoFailure};

verus! {

/// An engine that can compare its cache with its disk. By default it cannot.
pub trait ConsistencyEngine {
    fn verify_consistency(&mut self) -> (r: Result<ConsistencyReport, std::io::Error>)
        default_ensures
            r is Err,
    {
        Err(io_error(IoFailure::Unsupported, "consistency verify is not supported by this engine"))
    }
}

} // verus!
