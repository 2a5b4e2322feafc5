use vstd::prelude::*;

verus! {

/// Which side a repair makes agree with the other.
#[derive(Debug, Clone, Copy, PartialEq, Eq, Structural)]
pub enum RepairTarget {
    Disk,
    Cache,
}

} // verus!
