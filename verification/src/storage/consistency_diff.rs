use vstd::prelude::*;
use crate::key_codec::KeyEncoding;
use crate::storage::consistency_diff_kind::ConsistencyDiffKind;

verus! {

/// One key on which cache and disk disagree, and how.
#[derive(Debug, Clone, PartialEq, Eq)]
pub struct ConsistencyDiff {
    pub key: KeyEncoding,
    pub kind: ConsistencyDiffKind,
}

} // verus!
