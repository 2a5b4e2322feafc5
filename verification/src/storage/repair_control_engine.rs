use vstd::prelude::*;
use crate::storage::io_failure::{io_error, IoFailure};
use crate::storage::repair_mode::RepairMode;

verus! {

/// An engine whose automatic repairs can be switched. By default they cannot.
pub trait RepairControlEngine {
    fn set_repair_mode(&mut self, mode: RepairMode) -> (r: Result<(), std::io::Error>)
        default_ensures
            r is Err,
    {
        Err(io_error(IoFailure::Unsupported, "repair mode is not supported by this engine"))
    }

    fn repair_mode(&self) -> (r: Option<RepairMode>)
        default_ensures
            r is None,
    {
        None
    }
}

} // verus!
