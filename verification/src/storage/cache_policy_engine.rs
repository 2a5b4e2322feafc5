use vstd::prelude::*;
use crate::storage::io_failure::{io_error, IoFailure};

verus! {

/// An engine whose cache policy can be chosen by name. By default it has none.
pub trait CachePolicyEngine {
    fn set_cache_policy(&mut self, policy: &str) -> (r: Result<(), std::io::Error>)
        default_ensures
            r is Err,
    {
        Err(io_error(IoFailure::Unsupported, "cache policy is not supported by this engine"))
    }

    fn cache_policy(&self) -> (r: Option<&'static str>)
        default_ensures
            r is None,
    {
        None
    }
}

} // verus!
