use vstd::prelude::*;
use crate::key_codec::KeyEncoding;
use crate::storage::kv_engine::KvEngine;
use crate::text::copy_range;

verus! {

/// An engine that can read the disk alone, past any cache. By default that is a plain
/// read.
pub trait DiskReadEngine: KvEngine {
    fn get_disk_only(&mut self, key: &KeyEncoding) -> Option<Vec<u8>> {
        match self.get(key) {
            Some(v) => Some(copy_range(v, 0, v.len())),
            None => None,
        }
    }
}

} // verus!
