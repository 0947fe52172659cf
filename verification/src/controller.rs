//! The controller: the engine with the threshold at which the memtable is
//! due for a flush, and the flag that makes shutting down idempotent. It
//! decides; who owns it serializes the writers and runs the flushes that it
//! asks for.
use vstd::prelude::*;
use vstd::utf8::encode_utf8;
use crate::engine::{
    compaction_outcome, probe_one, staged_table_of, step_after, value_result_view, DatabaseImpl,
    ReadStep, ReadStepView, StagedCompaction, StagedTable,
};
use crate::error::StoreError;
use crate::record::{record_wf, MemValue, RecordView, SlotView, Value};
use crate::table::find_slot;

verus! {

/// An engine under control.
#[derive(Debug)]
pub struct Controller {
    db: DatabaseImpl,
    flush_threshold: usize,
    is_shutdown: bool,
}

impl Controller {
    /// The engine.
    pub closed spec fn inner(&self) -> DatabaseImpl {
        self.db
    }

    /// The size above which the memtable is due for a flush.
    pub closed spec fn threshold(&self) -> usize {
        self.flush_threshold
    }

    /// Whether the controller was shut down.
    pub closed spec fn shut(&self) -> bool {
        self.is_shutdown
    }

    /// Puts an engine under control. A memtable greater than
    /// `flush_threshold` bytes is due for a flush.
    pub fn new(inner: DatabaseImpl, flush_threshold: usize) -> (c: Controller)
        ensures
            c.inner() == inner,
            c.threshold() == flush_threshold,
            !c.shut(),
    {
        Controller { db: inner, flush_threshold, is_shutdown: false }
    }

    /// The engine, to read its state and stage its tables.
    pub fn engine(&self) -> (db: &DatabaseImpl)
        ensures
            *db == self.inner(),
    {
        &self.db
    }

    /// Whether `shutdown` was called.
    pub fn is_shutdown(&self) -> (b: bool)
        ensures
            b == self.shut(),
    {
        self.is_shutdown
    }

    /// Tells whether `slot` can be written under `key`, as the engine does.
    pub fn accepts(&self, key: &str, slot: &MemValue) -> (b: bool)
        requires
            self.inner().wf(),
        ensures
            b == (record_wf(RecordView { key: encode_utf8(key@), value: slot@ })
                && self.inner().size_after(encode_utf8(key@), slot@) <= usize::MAX),
    {
        self.db.accepts(key, slot)
    }

    /// Starts a read of `key` that asks for one data file at a time, as the
    /// engine does.
    pub fn begin_read(&self, key: &str) -> (r: ReadStep)
        requires
            self.inner().wf(),
        ensures
            r@ == match find_slot(self.inner().buffered(), encode_utf8(key@)) {
                Some(SlotView::Value(v)) => ReadStepView::Done(Some(v)),
                Some(SlotView::Tombstone) => ReadStepView::Done(None),
                None => if self.inner().tables().len() > 0 {
                    ReadStepView::Open(0)
                } else {
                    ReadStepView::Done(None)
                },
            },
    {
        self.db.begin_read(key)
    }

    /// Goes on with a read of `key` at the table at place `table`, as the
    /// engine does.
    pub fn continue_read(&self, key: &str, table: usize, data: Option<&[u8]>) -> (r: Result<
        ReadStep,
        StoreError,
    >)
        requires
            self.inner().wf(),
            table < self.inner().tables().len(),
        ensures
            match probe_one(
                self.inner().tables()[table as int],
                match data {
                    Some(bytes) => Some(bytes@),
                    None => None,
                },
                encode_utf8(key@),
            ) {
                Err(e) => r == Err::<ReadStep, StoreError>(e),
                Ok(found) => r is Ok && r->Ok_0@ == step_after(
                    self.inner().tables().len() as int,
                    table as int,
                    found,
                ),
            },
    {
        self.db.continue_read(key, table, data)
    }

    /// Reads `key` through the engine.
    pub fn get(&self, key: &str, files: &Vec<Option<Vec<u8>>>) -> (r: Result<
        Option<Value>,
        StoreError,
    >)
        requires
            self.inner().wf(),
        ensures
            value_result_view(r) == self.inner().read(files@, encode_utf8(key@)),
    {
        self.db.get(key, files)
    }

    /// Writes `value` under `key` and tells whether the memtable is now due
    /// for a flush: whether its size is above the threshold.
    pub fn set(&mut self, key: String, value: Value) -> (flush_due: bool)
        requires
            old(self).inner().wf(),
            record_wf(RecordView { key: encode_utf8(key@), value: SlotView::Value(value@) }),
            old(self).inner().size_after(encode_utf8(key@), SlotView::Value(value@))
                <= usize::MAX,
        ensures
            final(self).inner().is_write_of(
                &old(self).inner(),
                encode_utf8(key@),
                SlotView::Value(value@),
            ),
            final(self).threshold() == old(self).threshold(),
            final(self).shut() == old(self).shut(),
            flush_due == (final(self).inner().size() > final(self).threshold()),
    {
        self.db.set(key, value);
        self.db.current_size() > self.flush_threshold
    }

    /// Deletes `key` and tells whether the memtable is now due for a flush.
    pub fn delete(&mut self, key: String) -> (flush_due: bool)
        requires
            old(self).inner().wf(),
            record_wf(RecordView { key: encode_utf8(key@), value: SlotView::Tombstone }),
            old(self).inner().size_after(encode_utf8(key@), SlotView::Tombstone) <= usize::MAX,
        ensures
            final(self).inner().is_write_of(
                &old(self).inner(),
                encode_utf8(key@),
                SlotView::Tombstone,
            ),
            final(self).threshold() == old(self).threshold(),
            final(self).shut() == old(self).shut(),
            flush_due == (final(self).inner().size() > final(self).threshold()),
    {
        self.db.delete(key);
        self.db.current_size() > self.flush_threshold
    }

    /// Makes the table of a flush, as the engine does; nothing for an empty
    /// memtable, whose flush is a no-op.
    pub fn stage_flush(&self) -> (r: Option<StagedTable>)
        requires
            self.inner().wf(),
            self.inner().last_sequence() < usize::MAX,
        ensures
            match r {
                None => self.inner().buffered().len() == 0,
                Some(staged) => self.inner().buffered().len() > 0 && staged_table_of(
                    staged,
                    self.inner().buffered(),
                    self.inner().last_sequence() + 1,
                    self.inner().stride() as int,
                ),
            },
    {
        self.db.stage_flush()
    }

    /// Takes in the table of a flush, as the engine does.
    pub fn commit_flush(&mut self, staged: StagedTable)
        requires
            old(self).inner().wf(),
            old(self).inner().buffered().len() > 0,
            staged_table_of(
                staged,
                old(self).inner().buffered(),
                old(self).inner().last_sequence() + 1,
                old(self).inner().stride() as int,
            ),
        ensures
            final(self).inner().is_flush_of(&old(self).inner(), &staged),
            final(self).threshold() == old(self).threshold(),
            final(self).shut() == old(self).shut(),
    {
        self.db.commit_flush(staged);
    }

    /// Makes the table of a compaction, as the engine does.
    pub fn stage_compaction(&self, files: &Vec<Option<Vec<u8>>>) -> (r: Result<
        Option<StagedCompaction>,
        StoreError,
    >)
        requires
            self.inner().wf(),
        ensures
            compaction_outcome(
                self.inner().tables().len() as int,
                self.inner().stride() as int,
                files@,
                r,
            ),
    {
        self.db.stage_compaction(files)
    }

    /// Takes in the outcome of a compaction, as the engine does.
    pub fn commit_compaction(&mut self, staged: StagedCompaction)
        requires
            old(self).inner().wf(),
            staged.table matches Some(table) ==> table.index.wf(),
        ensures
            final(self).inner().is_compaction_of(&old(self).inner(), &staged),
            final(self).threshold() == old(self).threshold(),
            final(self).shut() == old(self).shut(),
    {
        self.db.commit_compaction(staged);
    }

    /// Shuts the controller down. The first call stages the last flush,
    /// where the memtable holds anything; every later call finds the
    /// controller shut down and does nothing.
    pub fn shutdown(&mut self) -> (r: Option<StagedTable>)
        requires
            old(self).inner().wf(),
            old(self).inner().last_sequence() < usize::MAX,
        ensures
            final(self).shut(),
            final(self).inner() == old(self).inner(),
            final(self).threshold() == old(self).threshold(),
            old(self).shut() ==> r is None,
            !old(self).shut() ==> match r {
                None => old(self).inner().buffered().len() == 0,
                Some(staged) => old(self).inner().buffered().len() > 0 && staged_table_of(
                    staged,
                    old(self).inner().buffered(),
                    old(self).inner().last_sequence() + 1,
                    old(self).inner().stride() as int,
                ),
            },
    {
        if self.is_shutdown {
            return None;
        }
        self.is_shutdown = true;
        self.db.stage_flush()
    }
}

} // verus!
