use vstd::prelude::*;
use crate::key_codec::{KeyEncoding, KeyModel};
use crate::storage::memory_store::{bytes_view, keep_deadlines, trim_oldest, without_key, MemoryStore};
use crate::storage::KvEngine;

verus! {

impl KvEngine for MemoryStore {
    fn engine_name(&self) -> (r: &'static str)
        ensures
            r@ == "memory"@,
    {
        "memory"
    }

    /// The number of keys, after purging those whose deadline has passed.
    fn len(&mut self) -> (r: usize)
        ensures
            exists|now: u64| #[trigger] old(self).purged_to(*final(self), now),
            r == final(self).kv().len(),
    {
        self.count_live()
    }

    /// The value of `key` after purging it if its deadline has passed; a hit makes it the
    /// most recently used pair.
    fn get(&mut self, key: &KeyEncoding) -> (r: Option<&[u8]>)
        ensures
            exists|now: u64| #[trigger] old(self).read_to(*final(self), key@, now, bytes_view(r)),
    {
        self.read_live(key)
    }

    /// Sets `key` to `value` (see `LruCache::set`). It cannot fail.
    fn set(&mut self, key: KeyEncoding, value: Vec<u8>) -> (r: Result<(), std::io::Error>)
        ensures
            r is Ok,
            final(self).lru() == trim_oldest(
                without_key(old(self).lru(), key@).push((key@, value@)),
                old(self).max_keys_spec(),
            ),
            final(self).deadlines() == keep_deadlines(
                old(self).deadlines().remove(key@),
                final(self).lru(),
            ),
            final(self).max_keys_spec() == old(self).max_keys_spec(),
            final(self).kv().contains_key(key@) && final(self).kv()[key@] == value@,
            forall|j: KeyModel|
                #[trigger] final(self).kv().contains_key(j) && j != key@ ==> old(self).kv().contains_key(j)
                    && final(self).kv()[j] == old(self).kv()[j],
            old(self).kv().contains_key(key@) ==> final(self).kv() == old(self).kv().insert(key@, value@),
            old(self).max_keys_spec() == 0 ==> final(self).kv() == old(self).kv().insert(key@, value@),
    {
        MemoryStore::set(self, key, value)
    }

    /// Removes `key`, giving the value stored under it if it was there (see `lemma_stored`
    /// and `take_key`). It cannot fail.
    fn delete(&mut self, key: &KeyEncoding) -> Result<Option<Vec<u8>>, std::io::Error>
        returns
            Ok::<Option<Vec<u8>>, std::io::Error>(old(self).stored(key@)),
    {
        Ok(self.take_key(key))
    }
}

} // verus!
