use vstd::prelude::*;

verus! {

/// How long a key has left to live.
#[derive(Debug, Clone, Copy, PartialEq, Eq, Structural)]
pub enum TtlState {
    NotFound,
    NoExpire,
    Seconds(i64),
}

} // verus!
