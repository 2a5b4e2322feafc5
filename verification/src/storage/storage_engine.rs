use vstd::prelude::*;
use crate::storage::cache_config_engine::CacheConfigEngine;
use crate::storage::consistency_engine::ConsistencyEngine;
use crate::storage::consistency_repair_engine::ConsistencyRepairEngine;
use crate::storage::disk_read_engine::DiskReadEngine;
use crate::storage::durability_engine::DurabilityEngine;
use crate::storage::fault_injection_engine::FaultInjectionEngine;
use crate::storage::kv_engine::KvEngine;
use crate::storage::range_read_engine::RangeReadEngine;
use crate::storage::repair_control_engine::RepairControlEngine;
use crate::storage::storage_introspection::StorageIntrospection;
use crate::storage::ttl_engine::TtlEngine;

verus! {

/// Everything a storage engine offers.
pub trait StorageEngine: KvEngine + DiskReadEngine + RangeReadEngine + ConsistencyEngine +
    ConsistencyRepairEngine + RepairControlEngine + FaultInjectionEngine + TtlEngine +
    DurabilityEngine + CacheConfigEngine + StorageIntrospection {

}

impl<
    T: KvEngine + DiskReadEngine + RangeReadEngine + ConsistencyEngine + ConsistencyRepairEngine +
    RepairControlEngine + FaultInjectionEngine + TtlEngine + DurabilityEngine + CacheConfigEngine +
    StorageIntrospection,
> StorageEngine for T {

}

} // verus!
