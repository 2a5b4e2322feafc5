use vstd::prelude::*;
use crate::storage::storage_path_introspection::StoragePathIntrospection;
use crate::storage::storage_stats_introspection::StorageStatsIntrospection;

verus! {

/// An engine that reports its paths and its counters.
pub trait StorageIntrospection: StoragePathIntrospection + StorageStatsIntrospection {}

impl<T: StoragePathIntrospection + StorageStatsIntrospection> StorageIntrospection for T {}

} // verus!
