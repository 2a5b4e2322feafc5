use vstd::prelude::*;
use crate::key_codec::KeyEncoding;
use crate::storage::io_failure::{io_error, IoFailure};

verus! {

/// An engine that can list the pairs of a key range. By default it cannot.
pub trait RangeReadEngine {
    fn range(&mut self, start: &KeyEncoding, end: &KeyEncoding) -> (r: Result<
        Vec<(KeyEncoding, Vec<u8>)>,
        std::io::Error,
    >)
        default_ensures
            r is Err,
    {
        Err(io_error(IoFailure::Unsupported, "range read is not supported by this engine"))
    }
}

} // verus!
