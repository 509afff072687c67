//! A storage engine that keeps everything in memory.
use vstd::prelude::*;

use crate::bytes::copy_bytes;
use crate::engine::Engine;
use crate::error::KvResult;
use crate::table::KvTable;

verus! {

/// An engine whose contents live in an ordered in-memory table.
pub struct MemoryEngine {
    data: KvTable,
}

impl MemoryEngine {
    /// An empty engine.
    pub fn new() -> (e: Self)
        ensures
            e.wf(),
            e.contents() == Map::<Seq<u8>, Seq<u8>>::empty(),
    {
        Self { data: KvTable::new() }
    }
}

impl Default for MemoryEngine {
    fn default() -> (e: Self)
        ensures
            e.wf(),
            e.contents() == Map::<Seq<u8>, Seq<u8>>::empty(),
    {
        Self::new()
    }
}

impl Engine for MemoryEngine {
    closed spec fn wf(&self) -> bool {
        self.data.wf()
    }

    closed spec fn contents(&self) -> Map<Seq<u8>, Seq<u8>> {
        self.data@
    }

    fn get(&self, key: &[u8]) -> (r: KvResult<Option<Vec<u8>>>)
        ensures
            r is Ok,
    {
        match self.data.get(key) {
            Some(value) => Ok(Some(copy_bytes(value.as_slice()))),
            None => Ok(None),
        }
    }

    fn put(&mut self, key: Vec<u8>, value: Vec<u8>) -> (r: KvResult<()>)
        ensures
            r is Ok,
    {
        self.data.insert(key, value);
        Ok(())
    }

    fn delete(&mut self, key: &[u8]) -> (r: KvResult<()>)
        ensures
            r is Ok,
    {
        self.data.remove(key);
        Ok(())
    }
}

} // verus!
