use vstd::prelude::*;
use crate::key_codec::KeyEncoding;
use crate::storage::fault_target::FaultTarget;
use crate::storage::io_failure::{io_error, IoFailure};

verus! {

/// An engine that can write to its cache or its disk alone, to make them disagree. By
/// default it cannot.
pub trait FaultInjectionEngine {
    fn inject_fault(&mut self, target: FaultTarget, key: KeyEncoding, value: Vec<u8>) -> (r: Result<
        (),
        std::io::Error,
    >)
        default_ensures
            r is Err,
    {
        Err(io_error(IoFailure::Unsupported, "fault injection is not supported by this engine"))
    }
}

} // verus!
