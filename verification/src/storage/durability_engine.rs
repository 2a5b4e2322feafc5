use vstd::prelude::*;
use crate::storage::io_failure::{io_error, IoFailure};

verus! {

/// An engine that can flush its log and take checkpoints. By default it cannot.
pub trait DurabilityEngine {
    fn sync(&mut self) -> (r: Result<(), std::io::Error>)
        default_ensures
            r is Err,
    {
        Err(io_error(IoFailure::Unsupported, "durability sync is not supported by this engine"))
    }

    fn checkpoint(&mut self) -> (r: Result<(), std::io::Error>)
        default_ensures
            r is Err,
    {
        Err(io_error(IoFailure::Unsupported, "durability checkpoint is not supported by this engine"))
    }
}

} // verus!
