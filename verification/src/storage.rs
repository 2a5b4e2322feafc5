pub mod buffer_pool;
pub mod cache_capacity_engine;
pub mod cache_config_engine;
pub mod cache_policy_engine;
pub mod consistency_diff;
pub mod consistency_diff_kind;
pub mod consistency_engine;
pub mod consistency_repair_engine;
pub mod consistency_report;
pub mod db_state;
pub mod disk_manager;
pub mod disk_read_engine;
pub mod durability_engine;
pub mod fault_injection_engine;
pub mod fault_target;
pub mod hybrid_store;
pub mod io_failure;
pub mod kv_engine;
pub mod memory_store;
mod memory_engine;
pub mod range_read_engine;
pub mod reconcile;
pub mod repair_control_engine;
pub mod repair_mode;
pub mod repair_summary;
pub mod repair_target;
pub mod snapshot;
pub mod storage_engine;
pub mod storage_introspection;
pub mod storage_path_introspection;
pub mod storage_stats_introspection;
pub mod ttl_engine;
pub mod ttl_state;
pub mod wal_log;
pub mod wal_store;
pub use cache_capacity_engine::CacheCapacityEngine;
pub use cache_config_engine::CacheConfigEngine;
pub use cache_policy_engine::CachePolicyEngine;
pub use consistency_engine::ConsistencyEngine;
pub use consistency_repair_engine::ConsistencyRepairEngine;
pub use disk_read_engine::DiskReadEngine;
pub use durability_engine::DurabilityEngine;
pub use fault_injection_engine::FaultInjectionEngine;
pub use hybrid_store::HybridStore;
pub use kv_engine::KvEngine;
pub use memory_store::MemoryStore;
pub use range_read_engine::RangeReadEngine;
pub use repair_control_engine::RepairControlEngine;
pub use storage_engine::StorageEngine;
pub use storage_introspection::StorageIntrospection;
pub use storage_path_introspection::StoragePathIntrospection;
pub use storage_stats_introspection::StorageStatsIntrospection;
pub use ttl_engine::TtlEngine;
pub use wal_store::WalStore;
pub use consistency_diff::ConsistencyDiff;
pub use consistency_diff_kind::ConsistencyDiffKind;
pub use consistency_report::ConsistencyReport;
pub use fault_target::FaultTarget;
pub use repair_mode::RepairMode;
pub use repair_summary::RepairSummary;
pub use repair_target::RepairTarget;
pub use ttl_state::TtlState;

use vstd::prelude::*;

verus! {

/// When the log is flushed to the device.
#[derive(Debug, Clone, Copy, PartialEq, Eq, Structural)]
pub enum SyncPolicy {
    Always,
    Manual,
}

/// The counts of one repair run.
#[derive(Debug, Clone, PartialEq, Eq)]
pub struct RepairReport {
    pub target: RepairTarget,
    pub repaired_only_in_cache: usize,
    pub repaired_only_in_disk: usize,
    pub repaired_value_mismatches: usize,
}

impl RepairReport {
    /// All repairs made.
    pub fn total_repairs(&self) -> (r: usize)
        requires
            self.repaired_only_in_cache + self.repaired_only_in_disk
                + self.repaired_value_mismatches <= usize::MAX,
        ensures
            r == self.repaired_only_in_cache + self.repaired_only_in_disk
                + self.repaired_value_mismatches,
    {
        self.repaired_only_in_cache + self.repaired_only_in_disk + self.repaired_value_mismatches
    }
}

/// Operation counters of a storage engine.
#[derive(Debug, Clone, Copy, PartialEq, Eq)]
pub struct EngineStats {
    pub reads: u64,
    pub writes: u64,
    pub deletes: u64,
    pub cache_hits: u64,
    pub cache_misses: u64,
    pub disk_reads: u64,
    pub disk_writes: u64,
    pub wal_appends: u64,
    pub fsync_count: u64,
    pub ttl_expired_in_cache: u64,
    pub ttl_expired_on_disk: u64,
    pub ttl_loaded_on_startup: u64,
    pub ttl_pruned_on_startup: u64,
    pub cache_repaired: u64,
    pub cache_invalidated: u64,
    pub cache_evictions: u64,
    pub auto_repairs: u64,
    pub auto_repairs_read: u64,
    pub auto_repairs_write: u64,
}

/// All counters zero.
pub open spec fn zero_stats() -> EngineStats {
    EngineStats {
        reads: 0,
        writes: 0,
        deletes: 0,
        cache_hits: 0,
        cache_misses: 0,
        disk_reads: 0,
        disk_writes: 0,
        wal_appends: 0,
        fsync_count: 0,
        ttl_expired_in_cache: 0,
        ttl_expired_on_disk: 0,
        ttl_loaded_on_startup: 0,
        ttl_pruned_on_startup: 0,
        cache_repaired: 0,
        cache_invalidated: 0,
        cache_evictions: 0,
        auto_repairs: 0,
        auto_repairs_read: 0,
        auto_repairs_write: 0,
    }
}

impl Default for EngineStats {
    fn default() -> (r: Self)
        ensures
            r == zero_stats(),
    {
        EngineStats {
            reads: 0,
            writes: 0,
            deletes: 0,
            cache_hits: 0,
            cache_misses: 0,
            disk_reads: 0,
            disk_writes: 0,
            wal_appends: 0,
            fsync_count: 0,
            ttl_expired_in_cache: 0,
            ttl_expired_on_disk: 0,
            ttl_loaded_on_startup: 0,
            ttl_pruned_on_startup: 0,
            cache_repaired: 0,
            cache_invalidated: 0,
            cache_evictions: 0,
            auto_repairs: 0,
            auto_repairs_read: 0,
            auto_repairs_write: 0,
        }
    }
}

} // verus!
