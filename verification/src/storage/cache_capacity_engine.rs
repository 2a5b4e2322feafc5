use vstd::prelude::*;
use crate::storage::io_failure::{io_error, IoFailure};

verus! {

/// An engine whose cache has a bounded number of keys. By default it has no cache.
pub trait CacheCapacityEngine {
    fn set_cache_max_keys(&mut self, max_keys: usize) -> (r: Result<(), std::io::Error>)
        default_ensures
            r is Err,
    {
        Err(io_error(IoFailure::Unsupported, "cache max keys is not supported by this engine"))
    }

    fn cache_max_keys(&self) -> (r: Option<usize>)
        default_ensures
            r is None,
    {
        None
    }

    fn cache_current_keys(&self) -> (r: Option<usize>)
        default_ensures
            r is None,
    {
        None
    }
}

} // verus!
