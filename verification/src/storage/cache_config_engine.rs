use vstd::prelude::*;
use crate::storage::cache_capacity_engine::CacheCapacityEngine;
use crate::storage::cache_policy_engine::CachePolicyEngine;

verus! {

/// An engine whose cache capacity and policy can both be set.
pub trait CacheConfigEngine: CacheCapacityEngine + CachePolicyEngine {}

impl<T: CacheCapacityEngine + CachePolicyEngine> CacheConfigEngine for T {}

} // verus!
