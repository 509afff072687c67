//! The interface of a key-value storage engine.
use vstd::prelude::*;

use crate::error::KvResult;

verus! {

/// A key-value store over byte strings.
pub trait Engine: Sized {
    /// The engine's internal invariant.
    spec fn wf(&self) -> bool;

    /// What the engine stores: each key with its value.
    spec fn contents(&self) -> Map<Seq<u8>, Seq<u8>>;

    /// The value stored under `key`, or `None` when the key is absent.
    fn get(&self, key: &[u8]) -> (r: KvResult<Option<Vec<u8>>>)
        requires
            self.wf(),
        ensures
            match r {
                Ok(Some(v)) => self.contents().contains_key(key@) && v@ == self.contents()[key@],
                Ok(None) => !self.contents().contains_key(key@),
                Err(_) => true,
            },
    ;

    /// Stores `value` under `key`, replacing any earlier value.
    fn put(&mut self, key: Vec<u8>, value: Vec<u8>) -> (r: KvResult<()>)
        requires
            old(self).wf(),
        ensures
            final(self).wf(),
            r is Ok ==> final(self).contents() == old(self).contents().insert(key@, value@),
    ;

    /// Removes `key` and its value; removing an absent key succeeds.
    fn delete(&mut self, key: &[u8]) -> (r: KvResult<()>)
        requires
            old(self).wf(),
        ensures
            final(self).wf(),
            r is Ok ==> final(self).contents() == old(self).contents().remove(key@),
    ;
}

/// A successful `put(key, value)` is seen by the next `get`: `key` maps to
/// `value`, and every other key keeps what it had.
pub proof fn lemma_get_after_put<E: Engine>(before: E, after: E, key: Seq<u8>, value: Seq<u8>)
    requires
        after.contents() == before.contents().insert(key, value),
    ensures
        after.contents().contains_key(key),
        after.contents()[key] == value,
        forall|k: Seq<u8>|
            k != key ==> (#[trigger] after.contents().contains_key(k) <==> before.contents().contains_key(k)),
        forall|k: Seq<u8>|
            k != key && before.contents().contains_key(k) ==> #[trigger] after.contents()[k]
                == before.contents()[k],
{
}

/// A successful `delete(key)` is seen by the next `get`: `key` is absent,
/// and every other key keeps what it had; deleting an absent key changes
/// nothing.
pub proof fn lemma_get_after_delete<E: Engine>(before: E, after: E, key: Seq<u8>)
    requires
        after.contents() == before.contents().remove(key),
    ensures
        !after.contents().contains_key(key),
        forall|k: Seq<u8>|
            k != key ==> (#[trigger] after.contents().contains_key(k) <==> before.contents().contains_key(k)),
        forall|k: Seq<u8>|
            k != key && before.contents().contains_key(k) ==> #[trigger] after.contents()[k]
                == before.contents()[k],
        !before.contents().contains_key(key) ==> after.contents() == before.contents(),
{
    if !before.contents().contains_key(key) {
        assert(before.contents().remove(key) =~= before.contents());
    }
}

} // verus!
