use vstd::prelude::*;

verus! {

/// Which side a test fault writes to.
#[derive(Debug, Clone, Copy, PartialEq, Eq, Structural)]
pub enum FaultTarget {
    CacheOnly,
    DiskOnly,
}

} // verus!
