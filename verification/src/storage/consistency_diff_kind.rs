use vstd::prelude::*;

verus! {

/// How a key differs between cache and disk.
#[derive(Debug, Clone, Copy, PartialEq, Eq, Structural)]
pub enum ConsistencyDiffKind {
    OnlyInCache,
    OnlyInDisk,
    ValueMismatch,
}

} // verus!
