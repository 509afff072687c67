//! The decisions of the persistent engine: its in-memory table, how many
//! records its log file holds, and when to compact. The file work (append,
//! load, rewrite) is done by its caller, which hands the records it read or
//! wrote to these functions.
use vstd::prelude::*;

use crate::bytes::copy_bytes;
use crate::engine::Engine;
use crate::order::bytes_lt;
use crate::table::KvTable;
use crate::wal::{
    apply_record, decode_all, encode_all, lemma_decode_all_encode_all, lengths_fit,
    lemma_replay_snapshot, record_key, record_value, records_view, replay, replay_records, snapshot_records,
    snapshot_view, RecordView, WalRecord,
};

verus! {

/// Number of log records after which the log is compacted.
pub const COMPACTION_THRESHOLD: usize = 100;

/// State of a persistent engine between file operations.
pub struct PersistentState {
    data: KvTable,
    record_count: usize,
    compaction_threshold: usize,
    log: Ghost<Seq<RecordView>>,
}

impl PersistentState {
    /// The records that the log file holds, in order.
    pub closed spec fn log(self) -> Seq<RecordView> {
        self.log@
    }

    /// Each key with its value.
    pub closed spec fn contents(self) -> Map<Seq<u8>, Seq<u8>> {
        self.data@
    }

    /// The number of records counted in the log file.
    pub closed spec fn spec_record_count(self) -> usize {
        self.record_count
    }

    /// The record count at which the log is compacted.
    pub closed spec fn spec_threshold(self) -> usize {
        self.compaction_threshold
    }

    /// The log that a compaction writes: one put per key, in key order.
    pub closed spec fn compacted_log(self) -> Seq<RecordView> {
        snapshot_view(self.data)
    }

    /// The compacted log holds each key once, in increasing order, with its
    /// value, and replaying it gives the contents.
    pub proof fn lemma_compacted_log(self)
        requires
            self.wf(),
        ensures
            replay(self.compacted_log()) == self.contents(),
            self.compacted_log().len() == self.contents().len(),
            forall|i: int|
                0 <= i < self.compacted_log().len() ==> (#[trigger] self.compacted_log()[i]) is Put
                    && self.contents().contains_key(record_key(self.compacted_log()[i]))
                    && self.contents()[record_key(self.compacted_log()[i])] == record_value(
                    self.compacted_log()[i],
                ),
            forall|i: int, j: int|
                0 <= i < j < self.compacted_log().len() ==> bytes_lt(
                    record_key(#[trigger] self.compacted_log()[i]),
                    record_key(#[trigger] self.compacted_log()[j]),
                ),
    {
        lemma_replay_snapshot(self.data);
        self.data.lemma_keys();
    }

    /// The table is what replaying the log gives, and the count is the
    /// log's length.
    pub closed spec fn wf(self) -> bool {
        &&& self.data.wf()
        &&& self.data@ == replay(self.log@)
        &&& self.record_count == self.log@.len()
    }

    /// In a well-formed state, replaying the log gives the contents, and the
    /// record count is the log's length.
    pub proof fn lemma_log_replays_to_contents(self)
        requires
            self.wf(),
        ensures
            replay(self.log()) == self.contents(),
            self.spec_record_count() == self.log().len(),
    {
    }

    /// The state of an engine whose log file holds `records`.
    pub fn recover(records: Vec<WalRecord>) -> (s: Self)
        ensures
            s.wf(),
            s.log() == records_view(records@),
            s.contents() == replay(records_view(records@)),
            s.spec_record_count() == records@.len(),
            s.spec_threshold() == COMPACTION_THRESHOLD,
    {
        let record_count = records.len();
        let ghost log = records_view(records@);
        let data = replay_records(records);
        PersistentState {
            data,
            record_count,
            compaction_threshold: COMPACTION_THRESHOLD,
            log: Ghost(log),
        }
    }

    /// The value stored under `key`, or `None`.
    pub fn get(&self, key: &[u8]) -> (r: Option<Vec<u8>>)
        requires
            self.wf(),
        ensures
            match r {
                Some(v) => self.contents().contains_key(key@) && v@ == self.contents()[key@],
                None => !self.contents().contains_key(key@),
            },
    {
        match self.data.get(key) {
            Some(value) => Some(copy_bytes(value.as_slice())),
            None => None,
        }
    }

    /// Takes in `record` after it has been appended to the log file.
    pub fn apply(&mut self, record: WalRecord)
        requires
            old(self).wf(),
            old(self).spec_record_count() < usize::MAX,
        ensures
            final(self).wf(),
            final(self).log() == old(self).log().push(record@),
            final(self).contents() == apply_record(old(self).contents(), record@),
            final(self).spec_record_count() == old(self).spec_record_count() + 1,
            final(self).spec_threshold() == old(self).spec_threshold(),
    {
        let ghost old_log = self.log@;
        let ghost r = record@;
        match record {
            WalRecord::Put { key, value } => {
                self.data.insert(key, value);
            },
            WalRecord::Delete { key } => {
                self.data.remove(key.as_slice());
            },
        }
        self.record_count = self.record_count + 1;
        self.log = Ghost(old_log.push(r));
        assert(self.log@.drop_last() =~= old_log);
    }

    /// The number of records counted in the log file.
    pub fn record_count(&self) -> (n: usize)
        ensures
            n == self.spec_record_count(),
    {
        self.record_count
    }

    /// The record count at which the log is compacted.
    pub fn compaction_threshold(&self) -> (n: usize)
        ensures
            n == self.spec_threshold(),
    {
        self.compaction_threshold
    }

    /// Sets the record count at which the log is compacted.
    pub fn set_compaction_threshold(&mut self, threshold: usize)
        requires
            old(self).wf(),
        ensures
            final(self).wf(),
            final(self).spec_threshold() == threshold,
            final(self).log() == old(self).log(),
            final(self).contents() == old(self).contents(),
            final(self).spec_record_count() == old(self).spec_record_count(),
    {
        self.compaction_threshold = threshold;
    }

    /// Whether the log has grown enough to be compacted.
    pub fn needs_compaction(&self) -> (b: bool)
        ensures
            b == (self.spec_record_count() >= self.spec_threshold()),
    {
        self.record_count >= self.compaction_threshold
    }

    /// The records of a compacted log: one put per key, in key order.
    /// Replaying them gives the current contents.
    pub fn compacted_records(&self) -> (records: Vec<WalRecord>)
        requires
            self.wf(),
        ensures
            records_view(records@) == self.compacted_log(),
            replay(records_view(records@)) == self.contents(),
            records@.len() == self.contents().len(),
    {
        snapshot_records(&self.data)
    }

    /// Takes in that the log file now holds the records that
    /// `compacted_records` gave.
    pub fn finish_compaction(&mut self)
        requires
            old(self).wf(),
        ensures
            final(self).wf(),
            final(self).log() == old(self).compacted_log(),
            final(self).contents() == old(self).contents(),
            final(self).spec_record_count() == old(self).contents().len(),
            final(self).spec_threshold() == old(self).spec_threshold(),
    {
        proof {
            lemma_replay_snapshot(self.data);
        }
        self.record_count = self.data.len();
        self.log = Ghost(self.compacted_log());
    }
}

/// Recovery gives back what was stored: a log file that holds the
/// encodings of the state's log records decodes to those records, and
/// replaying them rebuilds the state's contents.
pub proof fn lemma_recovery_restores_contents(s: PersistentState)
    requires
        s.wf(),
        forall|i: int| 0 <= i < s.log().len() ==> lengths_fit(#[trigger] s.log()[i]),
    ensures
        decode_all(encode_all(s.log())) == Some(s.log()),
        replay(s.log()) == s.contents(),
{
    lemma_decode_all_encode_all(s.log());
}

/// One step of the persistent engine: appending a record to the log and
/// taking it in, then compacting when the count reached the threshold. The
/// state stays well-formed, its contents change as the record says, its log
/// still replays to its contents, and after the step either the count is
/// below the threshold or the log holds exactly one record per key.
pub proof fn lemma_step_keeps_log_invariant(
    before: PersistentState,
    applied: PersistentState,
    after: PersistentState,
    r: RecordView,
)
    requires
        before.wf(),
        applied.wf(),
        applied.log() == before.log().push(r),
        applied.contents() == apply_record(before.contents(), r),
        applied.spec_record_count() == before.spec_record_count() + 1,
        applied.spec_threshold() == before.spec_threshold(),
        applied.spec_record_count() < applied.spec_threshold() ==> after == applied,
        applied.spec_record_count() >= applied.spec_threshold() ==> {
            &&& after.wf()
            &&& after.log() == applied.compacted_log()
            &&& after.contents() == applied.contents()
            &&& after.spec_record_count() == applied.contents().len()
            &&& after.spec_threshold() == applied.spec_threshold()
        },
    ensures
        after.wf(),
        after.contents() == apply_record(before.contents(), r),
        replay(after.log()) == after.contents(),
        after.spec_record_count() == after.log().len(),
        after.spec_record_count() < after.spec_threshold() || after.spec_record_count()
            == after.contents().len(),
{
}

/// The effect of a record on the contents of an engine: a put stores, a
/// delete removes.
pub open spec fn engine_step<E: Engine>(before: E, after: E, r: RecordView) -> bool {
    match r {
        RecordView::Put { key, value } => after.contents() == before.contents().insert(key, value),
        RecordView::Delete { key } => after.contents() == before.contents().remove(key),
    }
}

/// The persistent engine and any other engine (such as `MemoryEngine`) that
/// start with the same contents and take the same successful put or delete
/// end with the same contents.
pub proof fn lemma_agrees_with_engine<E: Engine>(
    state: PersistentState,
    engine: E,
    r: RecordView,
    state_after: PersistentState,
    engine_after: E,
)
    requires
        state.contents() == engine.contents(),
        state_after.contents() == apply_record(state.contents(), r),
        engine_step(engine, engine_after, r),
    ensures
        state_after.contents() == engine_after.contents(),
{
}

/// An engine opened on an empty log starts with no keys, as a new
/// `MemoryEngine` does.
pub proof fn lemma_empty_log_is_empty()
    ensures
        replay(Seq::<RecordView>::empty()) == Map::<Seq<u8>, Seq<u8>>::empty(),
{
}

/// Engines that start empty and take the same successful puts and deletes,
/// in the same order, end with the contents that replaying those records
/// gives: the persistent engine (whose contents are the replay of its log)
/// and an in-memory engine agree key by key.
pub proof fn lemma_engine_contents_are_replay<E: Engine>(engines: Seq<E>, rs: Seq<RecordView>)
    requires
        engines.len() == rs.len() + 1,
        engines[0].contents() == Map::<Seq<u8>, Seq<u8>>::empty(),
        forall|i: int| 0 <= i < rs.len() ==> engine_step(#[trigger] engines[i], engines[i + 1], rs[i]),
    ensures
        engines.last().contents() == replay(rs),
    decreases rs.len(),
{
    if rs.len() > 0 {
        let n = rs.len() - 1;
        lemma_engine_contents_are_replay(engines.drop_last(), rs.drop_last());
        assert(engines.drop_last().last() == engines[n]);
        assert(engine_step(engines[n], engines[n + 1], rs[n]));
    }
}

} // verus!
