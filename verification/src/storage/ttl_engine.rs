use vstd::prelude::*;
use crate::key_codec::KeyEncoding;
use crate::storage::ttl_state::TtlState;

verus! {

/// An engine whose keys can expire. By default nothing expires and no key is found.
pub trait TtlEngine {
    fn expire(&mut self, key: &KeyEncoding, seconds: u64) -> (r: Result<bool, std::io::Error>)
        default_ensures
            r == Ok::<bool, std::io::Error>(false),
    {
        Ok(false)
    }

    fn ttl(&mut self, key: &KeyEncoding) -> (r: Result<TtlState, std::io::Error>)
        default_ensures
            r == Ok::<TtlState, std::io::Error>(TtlState::NotFound),
    {
        Ok(TtlState::NotFound)
    }
}

} // verus!
