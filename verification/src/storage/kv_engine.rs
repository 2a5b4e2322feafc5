use vstd::prelude::*;
use crate::key_codec::KeyEncoding;

verus! {

/// A key-value engine: its name, and reads, writes and deletes of keys.
pub trait KvEngine {
    fn engine_name(&self) -> (r: &'static str);

    fn len(&mut self) -> (r: usize);

    fn get(&mut self, key: &KeyEncoding) -> (r: Option<&[u8]>);

    fn set(&mut self, key: KeyEncoding, value: Vec<u8>) -> (r: Result<(), std::io::Error>);

    fn delete(&mut self, key: &KeyEncoding) -> (r: Result<Option<Vec<u8>>, std::io::Error>);
}

} // verus!
