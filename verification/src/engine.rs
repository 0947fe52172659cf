//! The engine: a memtable over a set of tables. It reads through both,
//! writes into the memtable, and prepares the tables that a flush or a
//! compaction makes. It never touches a file: the caller hands it what the
//! files hold and writes what it has staged.
use vstd::prelude::*;
use vstd::utf8::encode_utf8;
use crate::compact::{
    all_present, all_readable, compact_sstable_set, input_data, merge_result, parsed_tables,
};
use crate::config::Config;
use crate::error::StoreError;
use crate::manifest::Manifest;
use crate::memtable::{
    footprint, lemma_footprint_insert, lemma_footprint_update, lemma_memtable_slot,
    lemma_sampled_index_valid, memtable_records, memtable_wf, record_size, sampled, write_table,
    MemTable,
};
use crate::merge::{all_sorted, is_merge_of, newest_slot, visible};
use crate::model::{
    apply_op, lemma_compaction_transparent, lemma_flush_transparent,
    lemma_newest_slot_is_stack_slot, lemma_table_layer, lemma_write_visible, merged_layer,
    stack_get, table_layer, table_layers, Layer, StoreOp,
};
use crate::naming::{data_file_bytes, data_file_name, index_file_bytes, index_file_name};
use crate::ordered::{ascending, position_of, OrderedMap};
use crate::record::{
    entry_fits, lemma_payload_len, record_wf, MemValue, RecordView, SlotView, Value, ValueView,
};
use crate::sparse_index::{entry_keys, entry_offsets, serialize_index, write_to, SparseIndex};
use crate::sstable_set::{
    build_outcome, file_at, index_valid_for, lemma_lookup_finds, table_lookup, SSTable, SSTableSet,
};
use crate::table::{
    find_slot, lemma_parse_table_roundtrip, lemma_records_len, parse_table, record_keys,
    serialize_records, sorted_records,
};

verus! {

/// The storage engine of one data directory.
#[derive(Debug)]
pub struct DatabaseImpl {
    memtable: MemTable,
    sstable_set: SSTableSet,
    config: Config,
    current_size: usize,
}

/// A table that is ready to be written: the names of its two files, what
/// goes into them, and the sparse index for the engine to keep.
#[derive(Debug)]
pub struct StagedTable {
    pub sequence: usize,
    pub data_path: String,
    pub index_path: String,
    pub data: Vec<u8>,
    pub index_data: Vec<u8>,
    pub index: SparseIndex,
}

/// The outcome of a merge that is ready to be written: the one table that
/// takes the place of all others, or none where the merge left no record.
#[derive(Debug)]
pub struct StagedCompaction {
    pub table: Option<StagedTable>,
}

/// The outcome of a read as mathematics.
pub open spec fn value_result_view(r: Result<Option<Value>, StoreError>) -> Result<
    Option<ValueView>,
    StoreError,
> {
    match r {
        Ok(Some(v)) => Ok(Some(v@)),
        Ok(None) => Ok(None),
        Err(e) => Err(e),
    }
}

/// A data file that is the file of a table, with the index that belongs to
/// it: the file holds well-formed records in strictly ascending key order
/// and nothing else, and the index is a valid sparse index of them.
pub open spec fn table_valid(index: SparseIndex, data: Seq<u8>) -> bool {
    &&& data.len() <= u64::MAX
    &&& parse_table(data, 0) is Some
    &&& data == serialize_records(parse_table(data, 0)->0)
    &&& sorted_records(parse_table(data, 0)->0)
    &&& index.wf()
    &&& index_valid_for(index.keys(), index.values(), parse_table(data, 0)->0)
}

/// What one table gives for `key`, when its data file holds `data`: what the
/// lookup in the table gives, or `NotFound` where the file is missing.
pub open spec fn probe_one(table: SSTable, data: Option<Seq<u8>>, key: Seq<u8>) -> Result<
    Option<SlotView>,
    StoreError,
> {
    match data {
        None => Err(StoreError::NotFound),
        Some(bytes) => table_lookup(table.index.keys(), table.index.values(), bytes, key),
    }
}

/// What the tables from `i` on give for `key`, the newest first: the first
/// table that holds the key decides, a value is returned and a tombstone
/// reads as absent. A table whose data file is missing stops the read with
/// `NotFound`, one that cannot be read with the error of the lookup.
pub open spec fn probe(
    tables: Seq<SSTable>,
    files: Seq<Option<Vec<u8>>>,
    i: int,
    key: Seq<u8>,
) -> Result<Option<ValueView>, StoreError>
    decreases tables.len() - i,
{
    if i < 0 || i >= tables.len() {
        Ok(None)
    } else {
        match probe_one(tables[i], file_at(files, i), key) {
            Err(e) => Err(e),
            Ok(Some(SlotView::Value(v))) => Ok(Some(v)),
            Ok(Some(SlotView::Tombstone)) => Ok(None),
            Ok(None) => probe(tables, files, i + 1, key),
        }
    }
}

/// Where a read stands that asks for one data file at a time.
#[derive(Debug)]
pub enum ReadStep {
    /// The read is over, with this outcome.
    Done(Option<Value>),
    /// The data file of the table at this place is needed next.
    Open(usize),
}

/// A step of a read as mathematics.
pub enum ReadStepView {
    Done(Option<ValueView>),
    Open(int),
}

impl View for ReadStep {
    type V = ReadStepView;

    open spec fn view(&self) -> ReadStepView {
        match self {
            ReadStep::Done(Some(v)) => ReadStepView::Done(Some(v@)),
            ReadStep::Done(None) => ReadStepView::Done(None),
            ReadStep::Open(i) => ReadStepView::Open(*i as int),
        }
    }
}

/// The step after table `i` has given `found` for the key: a slot ends the
/// read, a value as itself and a tombstone as absent; without one the next
/// older table is asked, and the key is absent where there is none.
pub open spec fn step_after(tables: int, i: int, found: Option<SlotView>) -> ReadStepView {
    match found {
        Some(SlotView::Value(v)) => ReadStepView::Done(Some(v)),
        Some(SlotView::Tombstone) => ReadStepView::Done(None),
        None => if i + 1 < tables {
            ReadStepView::Open(i + 1)
        } else {
            ReadStepView::Done(None)
        },
    }
}

/// Whether `staged` is the table of `records` under the given sequence
/// number: its files are named after the number, its data file holds the
/// records, its index has an entry for every `stride`-th of them, and its
/// index file holds that index.
pub open spec fn staged_table_of(
    staged: StagedTable,
    records: Seq<RecordView>,
    sequence: int,
    stride: int,
) -> bool {
    &&& staged.sequence == sequence
    &&& encode_utf8(staged.data_path@) == data_file_bytes(sequence as nat)
    &&& encode_utf8(staged.index_path@) == index_file_bytes(sequence as nat)
    &&& staged.data@ == serialize_records(records)
    &&& staged.index.wf()
    &&& staged.index.keys() == entry_keys(sampled(records, stride, 0))
    &&& staged.index.values() == entry_offsets(sampled(records, stride, 0))
    &&& staged.index_data@ == serialize_index(staged.index.keys(), staged.index.values())
}

impl DatabaseImpl {
    /// The records of the memtable, in key order.
    pub closed spec fn buffered(&self) -> Seq<RecordView> {
        memtable_records(self.memtable)
    }

    /// The descriptors of the live tables, the newest first.
    pub closed spec fn tables(&self) -> Seq<SSTable> {
        self.sstable_set.tables@
    }

    /// The sequence number of the file names handed out last.
    pub closed spec fn last_sequence(&self) -> usize {
        self.sstable_set.last_sequence
    }

    /// The size of the memtable as the engine counts it.
    pub closed spec fn size(&self) -> usize {
        self.current_size
    }

    /// The options that the engine was set up with.
    pub closed spec fn settings(&self) -> Config {
        self.config
    }

    /// The stride of the sparse indexes that the engine makes.
    pub open spec fn stride(&self) -> usize {
        self.settings().sparse_stride
    }

    /// The engine's invariant: the memtable is in key order and its records
    /// fit the binary form; the size is the sum of the sizes of its records;
    /// the indexes of the tables are in key order; the stride is positive.
    pub closed spec fn wf(&self) -> bool {
        &&& memtable_wf(self.memtable)
        &&& self.sstable_set.wf()
        &&& self.config.sparse_stride >= 1
        &&& self.current_size == footprint(memtable_records(self.memtable))
    }

    /// Whether `files` are the data files of the live tables, in their
    /// order, each a valid table with the index that the engine holds.
    pub open spec fn valid(&self, files: Seq<Option<Vec<u8>>>) -> bool {
        &&& self.wf()
        &&& files.len() == self.tables().len()
        &&& all_present(files)
        &&& forall|i: int|
            0 <= i < files.len() ==> table_valid(
                (#[trigger] self.tables()[i]).index,
                input_data(files, i),
            )
    }

    /// The store as a stack of layers: the memtable, then the tables.
    pub open spec fn layers(&self, files: Seq<Option<Vec<u8>>>) -> Seq<Layer> {
        seq![table_layer(self.buffered())] + table_layers(parsed_tables(files))
    }

    /// What a read of `key` gives when the data files hold `files`: the
    /// memtable decides where it holds the key, else the tables do, the
    /// newest first.
    pub open spec fn read(&self, files: Seq<Option<Vec<u8>>>, key: Seq<u8>) -> Result<
        Option<ValueView>,
        StoreError,
    > {
        match find_slot(self.buffered(), key) {
            Some(SlotView::Value(v)) => Ok(Some(v)),
            Some(SlotView::Tombstone) => Ok(None),
            None => probe(self.tables(), files, 0, key),
        }
    }

    /// The size that the memtable has once `slot` stands under `key`: the
    /// record that the key had before no longer counts, the new one does.
    pub open spec fn size_after(&self, key: Seq<u8>, slot: SlotView) -> int {
        footprint(self.buffered()) - match find_slot(self.buffered(), key) {
            Some(old) => record_size(RecordView { key, value: old }) as int,
            None => 0,
        } + record_size(RecordView { key, value: slot })
    }

    /// Whether this engine is `before` with `slot` written under `key`.
    pub open spec fn is_write_of(&self, before: &DatabaseImpl, key: Seq<u8>, slot: SlotView) -> bool {
        &&& self.wf()
        &&& self.tables() == before.tables()
        &&& self.last_sequence() == before.last_sequence()
        &&& self.settings() == before.settings()
        &&& self.size() == before.size_after(key, slot)
        &&& sorted_records(self.buffered())
        &&& forall|k: Seq<u8>| #[trigger]
            find_slot(self.buffered(), k) == if k == key {
                Some(slot)
            } else {
                find_slot(before.buffered(), k)
            }
    }

    /// Sets up an engine on the tables that `manifest` names. `index_files`
    /// holds, for every table of the manifest and in its order, the content
    /// of the table's index file, or nothing where the file is missing. The
    /// memtable starts empty.
    pub fn build(config: Config, manifest: &Manifest, index_files: &Vec<Option<Vec<u8>>>) -> (r:
        Result<DatabaseImpl, StoreError>)
        requires
            config.sparse_stride >= 1,
        ensures
            match r {
                Ok(db) => {
                    &&& db.wf()
                    &&& db.buffered().len() == 0
                    &&& db.size() == 0
                    &&& db.settings() == config
                    &&& db.last_sequence() == manifest.last_sequence
                    &&& exists|set: SSTableSet|
                        set.tables@ == db.tables() && #[trigger] build_outcome(
                            manifest,
                            index_files@,
                            Ok(set),
                        )
                },
                Err(e) => build_outcome(manifest, index_files@, Err(e)),
            },
    {
        let sstable_set = match SSTableSet::build(manifest, index_files) {
            Ok(set) => set,
            Err(e) => {
                return Err(e);
            },
        };
        let memtable: MemTable = OrderedMap::new();
        proof {
            assert(memtable_records(memtable) =~= Seq::<RecordView>::empty());
            if manifest.version@ == crate::manifest::VERSION@ {
                assert(manifest.describes(&sstable_set));
            }
            assert(build_outcome(manifest, index_files@, Ok(sstable_set)));
        }
        Ok(DatabaseImpl { config, sstable_set, memtable, current_size: 0 })
    }

    /// The size of the memtable: for each of its keys, the bytes of the key
    /// and of the payload of its slot.
    pub fn current_size(&self) -> (n: usize)
        ensures
            n == self.size(),
    {
        self.current_size
    }

    /// Number of keys in the memtable.
    pub fn memtable_len(&self) -> (n: usize)
        ensures
            n == self.buffered().len(),
    {
        self.memtable.len()
    }

    /// Number of live tables.
    pub fn table_count(&self) -> (n: usize)
        ensures
            n == self.tables().len(),
    {
        self.sstable_set.tables.len()
    }

    /// The options that the engine was set up with.
    pub fn config(&self) -> (c: &Config)
        ensures
            *c == self.settings(),
    {
        &self.config
    }

    /// The live tables and the sequence number handed out last.
    pub fn sstable_set(&self) -> (set: &SSTableSet)
        ensures
            set.tables@ == self.tables(),
            set.last_sequence == self.last_sequence(),
    {
        &self.sstable_set
    }

    /// The manifest that describes the live tables as they are now.
    pub fn manifest(&self) -> (m: Manifest)
        ensures
            m.version@ == crate::manifest::VERSION@,
            m.last_sequence == self.last_sequence(),
            m.sstables@.len() == self.tables().len(),
            forall|i: int|
                0 <= i < m.sstables@.len() ==> (#[trigger] m.sstables@[i]).data_path@
                    == self.tables()[i].data_path@ && m.sstables@[i].index_path@
                    == self.tables()[i].index_path@,
    {
        Manifest::new(&self.sstable_set)
    }

    /// Tells whether `slot` can be written under `key`: whether the two make
    /// a record that fits the binary form, and the size of the memtable with
    /// it can still be counted.
    pub fn accepts(&self, key: &str, slot: &MemValue) -> (b: bool)
        requires
            self.wf(),
        ensures
            b == (record_wf(RecordView { key: encode_utf8(key@), value: slot@ })
                && self.size_after(encode_utf8(key@), slot@) <= usize::MAX),
    {
        let ghost kb = encode_utf8(key@);
        if !entry_fits(key, slot) {
            return false;
        }
        proof {
            lemma_memtable_slot(self.memtable, kb);
            lemma_payload_len(slot@);
        }
        let key_len = key.as_bytes().len();
        let slot_len = slot.len();
        let removed: usize = match self.memtable.get(key) {
            Some(old) => {
                proof {
                    let records = memtable_records(self.memtable);
                    let p = position_of(self.memtable.keys(), kb);
                    assert(self.memtable.keys()[p] == kb);
                    assert(records[p] == (RecordView { key: kb, value: old@ }));
                    lemma_footprint_update(records, p, records[p]);
                }
                key_len + old.len()
            },
            None => 0,
        };
        self.current_size - removed <= usize::MAX - key_len - slot_len
    }

    /// Reads `key`. `files` holds, for every live table and in the order of
    /// the tables, the content of the table's data file, or nothing where
    /// the file is missing.
    ///
    /// The memtable is looked into first: a value there is the answer, a
    /// tombstone there means absent. Else the tables are asked, the newest
    /// first, and the first that holds the key decides in the same way.
    pub fn get(&self, key: &str, files: &Vec<Option<Vec<u8>>>) -> (r: Result<
        Option<Value>,
        StoreError,
    >)
        requires
            self.wf(),
        ensures
            value_result_view(r) == self.read(files@, encode_utf8(key@)),
    {
        let ghost wanted = encode_utf8(key@);
        proof {
            lemma_memtable_slot(self.memtable, wanted);
        }
        match self.memtable.get(key) {
            Some(slot) => Ok(slot.duplicate().to_value()),
            None => self.probe_tables(key, files),
        }
    }

    /// Starts a read of `key` that asks for one data file at a time. The
    /// memtable decides where it holds the key; else the newest table is
    /// asked, and the key is absent where there is no table.
    pub fn begin_read(&self, key: &str) -> (r: ReadStep)
        requires
            self.wf(),
        ensures
            r@ == match find_slot(self.buffered(), encode_utf8(key@)) {
                Some(SlotView::Value(v)) => ReadStepView::Done(Some(v)),
                Some(SlotView::Tombstone) => ReadStepView::Done(None),
                None => if self.tables().len() > 0 {
                    ReadStepView::Open(0)
                } else {
                    ReadStepView::Done(None)
                },
            },
    {
        proof {
            lemma_memtable_slot(self.memtable, encode_utf8(key@));
        }
        match self.memtable.get(key) {
            Some(slot) => ReadStep::Done(slot.duplicate().to_value()),
            None => {
                if self.sstable_set.tables.len() > 0 {
                    ReadStep::Open(0)
                } else {
                    ReadStep::Done(None)
                }
            },
        }
    }

    /// Goes on with a read of `key` at the table at place `table`, whose
    /// data file holds `data`, or is missing where `data` is nothing. The
    /// table decides where it holds the key; else the next older table is
    /// asked, and the key is absent where there is none.
    pub fn continue_read(&self, key: &str, table: usize, data: Option<&[u8]>) -> (r: Result<
        ReadStep,
        StoreError,
    >)
        requires
            self.wf(),
            table < self.tables().len(),
        ensures
            match probe_one(
                self.tables()[table as int],
                match data {
                    Some(bytes) => Some(bytes@),
                    None => None,
                },
                encode_utf8(key@),
            ) {
                Err(e) => r == Err::<ReadStep, StoreError>(e),
                Ok(found) => r is Ok && r->Ok_0@ == step_after(
                    self.tables().len() as int,
                    table as int,
                    found,
                ),
            },
    {
        let bytes = match data {
            Some(bytes) => bytes,
            None => {
                return Err(StoreError::NotFound);
            },
        };
        let n = self.sstable_set.tables.len();
        let descriptor = &self.sstable_set.tables[table];
        assert(descriptor.wf());
        match descriptor.lookup(bytes, key) {
            Err(e) => Err(e),
            Ok(Some(slot)) => Ok(ReadStep::Done(slot.to_value())),
            Ok(None) => {
                if table + 1 < n {
                    Ok(ReadStep::Open(table + 1))
                } else {
                    Ok(ReadStep::Done(None))
                }
            },
        }
    }

    /// Asks the tables for `key`, the newest first.
    fn probe_tables(&self, key: &str, files: &Vec<Option<Vec<u8>>>) -> (r: Result<
        Option<Value>,
        StoreError,
    >)
        requires
            self.wf(),
        ensures
            value_result_view(r) == probe(self.tables(), files@, 0, encode_utf8(key@)),
    {
        let ghost wanted = encode_utf8(key@);
        let n = self.sstable_set.tables.len();
        let mut i: usize = 0;
        while i < n
            invariant
                self.sstable_set.wf(),
                n == self.sstable_set.tables@.len(),
                wanted == encode_utf8(key@),
                i <= n,
                probe(self.sstable_set.tables@, files@, 0, wanted) == probe(
                    self.sstable_set.tables@,
                    files@,
                    i as int,
                    wanted,
                ),
            decreases n - i,
        {
            if i >= files.len() {
                return Err(StoreError::NotFound);
            }
            let table = &self.sstable_set.tables[i];
            assert(table.wf());
            match &files[i] {
                None => {
                    return Err(StoreError::NotFound);
                },
                Some(data) => {
                    match table.lookup(data.as_slice(), key) {
                        Err(e) => {
                            return Err(e);
                        },
                        Ok(Some(slot)) => {
                            return Ok(slot.to_value());
                        },
                        Ok(None) => {},
                    }
                },
            }
            i = i + 1;
        }
        Ok(None)
    }

    /// Puts `slot` under `key` into the memtable and keeps the size.
    fn put(&mut self, key: String, slot: MemValue)
        requires
            old(self).wf(),
            record_wf(RecordView { key: encode_utf8(key@), value: slot@ }),
            old(self).size_after(encode_utf8(key@), slot@) <= usize::MAX,
        ensures
            final(self).is_write_of(old(self), encode_utf8(key@), slot@),
    {
        let ghost kb = encode_utf8(key@);
        let ghost before = *self;
        let ghost old_records = memtable_records(self.memtable);
        let ghost record = RecordView { key: kb, value: slot@ };
        proof {
            lemma_memtable_slot(self.memtable, kb);
        }
        let key_len = key.as_str().as_bytes().len();
        let slot_len = slot.len();
        let removed: usize = match self.memtable.get(key.as_str()) {
            Some(old) => {
                proof {
                    let p = position_of(self.memtable.keys(), kb);
                    assert(self.memtable.keys()[p] == kb);
                    assert(old_records[p] == (RecordView { key: kb, value: old@ }));
                    lemma_footprint_update(old_records, p, record);
                }
                key_len + old.len()
            },
            None => 0,
        };
        self.current_size = self.current_size - removed + key_len + slot_len;
        let replaced = self.memtable.insert(key, slot);
        proof {
            let new_records = memtable_records(self.memtable);
            if replaced {
                let p = position_of(before.memtable.keys(), kb);
                assert(before.memtable.keys()[p] == kb);
                assert(new_records =~= old_records.update(p, record));
                lemma_footprint_update(old_records, p, record);
            } else {
                let p = choose|p: int|
                    {
                        &&& 0 <= p <= before.memtable.keys().len()
                        &&& self.memtable.keys() == #[trigger] before.memtable.keys().insert(p, kb)
                        &&& self.memtable.values() == before.memtable.values().insert(p, slot)
                    };
                assert(new_records =~= old_records.insert(p, record));
                lemma_footprint_insert(old_records, p, record);
            }
            assert forall|i: int| 0 <= i < new_records.len() implies record_wf(
                #[trigger] new_records[i],
            ) by {
                if replaced {
                    let p = position_of(before.memtable.keys(), kb);
                    if i != p {
                        assert(new_records[i] == old_records[i]);
                    }
                } else {
                    let p = choose|p: int|
                        {
                            &&& 0 <= p <= before.memtable.keys().len()
                            &&& self.memtable.keys() == #[trigger] before.memtable.keys().insert(
                                p,
                                kb,
                            )
                            &&& self.memtable.values() == before.memtable.values().insert(p, slot)
                        };
                    if i < p {
                        assert(new_records[i] == old_records[i]);
                    } else if i > p {
                        assert(new_records[i] == old_records[i - 1]);
                    }
                }
            }
            assert(record_keys(new_records) =~= self.memtable.keys());
            assert forall|k: Seq<u8>| #[trigger]
                find_slot(self.buffered(), k) == if k == kb {
                    Some(slot@)
                } else {
                    find_slot(before.buffered(), k)
                } by {
                lemma_memtable_slot(self.memtable, k);
                lemma_memtable_slot(before.memtable, k);
            }
        }
    }

    /// Writes `value` under `key`. The key and a string value may be at
    /// most 65535 bytes long.
    pub fn set(&mut self, key: String, value: Value)
        requires
            old(self).wf(),
            record_wf(RecordView { key: encode_utf8(key@), value: SlotView::Value(value@) }),
            old(self).size_after(encode_utf8(key@), SlotView::Value(value@)) <= usize::MAX,
        ensures
            final(self).is_write_of(old(self), encode_utf8(key@), SlotView::Value(value@)),
    {
        self.put(key, MemValue::Value(value));
    }

    /// Deletes `key`: a tombstone is written under it, which hides what the
    /// tables hold for the key. The key may be at most 65535 bytes long.
    pub fn delete(&mut self, key: String)
        requires
            old(self).wf(),
            record_wf(RecordView { key: encode_utf8(key@), value: SlotView::Tombstone }),
            old(self).size_after(encode_utf8(key@), SlotView::Tombstone) <= usize::MAX,
        ensures
            final(self).is_write_of(old(self), encode_utf8(key@), SlotView::Tombstone),
    {
        self.put(key, MemValue::Tombstone);
    }
}

/// Whether `staged` is what a merge with the outcome `out` stages: nothing
/// where the merge left no record, else the table of `out` under the
/// sequence number 1.
pub open spec fn staged_compaction_of(
    staged: StagedCompaction,
    out: Seq<RecordView>,
    stride: int,
) -> bool {
    match staged.table {
        None => out.len() == 0,
        Some(table) => out.len() > 0 && staged_table_of(table, out, 1, stride),
    }
}

/// What staging a compaction of `tables` tables gives, when the data files
/// hold `files`.
///
/// Fewer than two tables are left alone. A missing data file fails the
/// compaction with `NotFound`, an unreadable one with `CorruptRecord`. Else
/// the merge of the tables is staged; for tables in key order it is the one
/// table that holds the newest value of every key and no tombstone.
pub open spec fn compaction_outcome(
    tables: int,
    stride: int,
    files: Seq<Option<Vec<u8>>>,
    r: Result<Option<StagedCompaction>, StoreError>,
) -> bool {
    if tables < 2 {
        r matches Ok(None)
    } else if files.len() < tables || !all_present(files.take(tables)) {
        r matches Err(StoreError::NotFound)
    } else if !all_readable(files.take(tables)) {
        r matches Err(StoreError::CorruptRecord)
    } else {
        &&& r matches Ok(Some(staged))
        &&& staged.table matches Some(table) ==> table.index.wf()
        &&& all_sorted(parsed_tables(files.take(tables))) ==> exists|out: Seq<RecordView>|
            is_merge_of(out, parsed_tables(files.take(tables))) && #[trigger] staged_compaction_of(
                staged,
                out,
                stride,
            )
    }
}

impl DatabaseImpl {
    /// Whether this engine is `before` after the flush that `staged` holds:
    /// the memtable is empty, the staged table is the newest table, and its
    /// sequence number is the last one handed out.
    pub open spec fn is_flush_of(&self, before: &DatabaseImpl, staged: &StagedTable) -> bool {
        &&& self.wf()
        &&& self.buffered().len() == 0
        &&& self.size() == 0
        &&& self.settings() == before.settings()
        &&& self.last_sequence() == staged.sequence
        &&& self.tables().len() == before.tables().len() + 1
        &&& self.tables()[0].index == staged.index
        &&& self.tables()[0].data_path == staged.data_path
        &&& self.tables()[0].index_path == staged.index_path
        &&& forall|i: int|
            0 <= i < before.tables().len() ==> #[trigger] self.tables()[i + 1] == before.tables()[i]
    }

    /// Whether this engine is `before` after the compaction that `staged`
    /// holds: the memtable is as it was, and the staged table, if there is
    /// one, is the only table.
    pub open spec fn is_compaction_of(&self, before: &DatabaseImpl, staged: &StagedCompaction) -> bool {
        &&& self.wf()
        &&& self.buffered() == before.buffered()
        &&& self.size() == before.size()
        &&& self.settings() == before.settings()
        &&& match staged.table {
            None => self.tables().len() == 0 && self.last_sequence() == 0,
            Some(table) => {
                &&& self.tables().len() == 1
                &&& self.last_sequence() == table.sequence
                &&& self.tables()[0].index == table.index
                &&& self.tables()[0].data_path == table.data_path
                &&& self.tables()[0].index_path == table.index_path
            },
        }
    }

    /// Makes the table that a flush writes: the records of the memtable and
    /// their sparse index, under the next sequence number. Nothing is staged
    /// for an empty memtable. The engine is left as it is; `commit_flush`
    /// takes the table in once its files are written.
    pub fn stage_flush(&self) -> (r: Option<StagedTable>)
        requires
            self.wf(),
            self.last_sequence() < usize::MAX,
        ensures
            match r {
                None => self.buffered().len() == 0,
                Some(staged) => self.buffered().len() > 0 && staged_table_of(
                    staged,
                    self.buffered(),
                    self.last_sequence() + 1,
                    self.stride() as int,
                ),
            },
    {
        if self.memtable.is_empty() {
            return None;
        }
        let sequence = self.sstable_set.last_sequence + 1;
        let mut data: Vec<u8> = Vec::new();
        let index = write_table(&self.memtable, &mut data, self.config.sparse_stride);
        let mut index_data: Vec<u8> = Vec::new();
        write_to(&index, &mut index_data);
        proof {
            assert(data@ =~= serialize_records(self.buffered()));
            assert(index_data@ =~= serialize_index(index.keys(), index.values()));
        }
        Some(
            StagedTable {
                sequence,
                data_path: data_file_name(sequence),
                index_path: index_file_name(sequence),
                data,
                index_data,
                index,
            },
        )
    }

    /// Takes in the table of a flush: the memtable is emptied, the table
    /// becomes the newest one, and its sequence number the last one handed
    /// out.
    pub fn commit_flush(&mut self, staged: StagedTable)
        requires
            old(self).wf(),
            old(self).buffered().len() > 0,
            staged_table_of(
                staged,
                old(self).buffered(),
                old(self).last_sequence() + 1,
                old(self).stride() as int,
            ),
        ensures
            final(self).is_flush_of(old(self), &staged),
    {
        let ghost before = *self;
        let _ = self.memtable.take_entries();
        self.current_size = 0;
        self.sstable_set.tables.insert(
            0,
            SSTable {
                index: staged.index,
                index_path: staged.index_path,
                data_path: staged.data_path,
            },
        );
        self.sstable_set.last_sequence = staged.sequence;
        proof {
            assert(memtable_records(self.memtable) =~= Seq::<RecordView>::empty());
            assert forall|i: int| 0 <= i < self.sstable_set.tables@.len() implies (
            #[trigger] self.sstable_set.tables@[i]).wf() by {
                if i > 0 {
                    assert(self.sstable_set.tables@[i] == before.sstable_set.tables@[i - 1]);
                }
            }
        }
    }

    /// Makes the table that a compaction writes: the merge of all live
    /// tables, whose data files hold `files`, in the order of the tables.
    /// The engine is left as it is; `commit_compaction` takes the outcome in
    /// once the files are written.
    pub fn stage_compaction(&self, files: &Vec<Option<Vec<u8>>>) -> (r: Result<
        Option<StagedCompaction>,
        StoreError,
    >)
        requires
            self.wf(),
        ensures
            compaction_outcome(self.tables().len() as int, self.stride() as int, files@, r),
    {
        let n = self.sstable_set.tables.len();
        if n < 2 {
            return Ok(None);
        }
        if files.len() < n {
            return Err(StoreError::NotFound);
        }
        let inputs = vstd::slice::slice_subrange(files.as_slice(), 0, n);
        assert(inputs@ =~= files@.take(n as int));
        let mut data: Vec<u8> = Vec::new();
        let index = match compact_sstable_set(inputs, &mut data, self.config.sparse_stride) {
            Ok(index) => index,
            Err(e) => {
                return Err(e);
            },
        };
        let ghost tables = parsed_tables(inputs@);
        let ghost stride = self.config.sparse_stride as int;
        if data.len() == 0 {
            let staged = StagedCompaction { table: None };
            proof {
                if all_sorted(tables) {
                    let out = choose|out: Seq<RecordView>| #[trigger]
                        merge_result(
                            out,
                            tables,
                            Seq::<u8>::empty(),
                            data@,
                            index.keys(),
                            index.values(),
                            stride,
                        );
                    lemma_records_len(out);
                    assert(staged_compaction_of(staged, out, stride));
                }
            }
            return Ok(Some(staged));
        }
        let mut index_data: Vec<u8> = Vec::new();
        write_to(&index, &mut index_data);
        let table = StagedTable {
            sequence: 1,
            data_path: data_file_name(1),
            index_path: index_file_name(1),
            data,
            index_data,
            index,
        };
        let staged = StagedCompaction { table: Some(table) };
        proof {
            assert(table.index_data@ =~= serialize_index(table.index.keys(), table.index.values()));
            if all_sorted(tables) {
                let out = choose|out: Seq<RecordView>| #[trigger]
                    merge_result(
                        out,
                        tables,
                        Seq::<u8>::empty(),
                        table.data@,
                        table.index.keys(),
                        table.index.values(),
                        stride,
                    );
                assert(table.data@ =~= serialize_records(out));
                assert(staged_compaction_of(staged, out, stride));
            }
        }
        Ok(Some(staged))
    }

    /// Takes in the outcome of a compaction: the staged table takes the
    /// place of all tables and the sequence starts again at 1; where the
    /// merge left no record, no table is left and the sequence starts again
    /// at 0. The memtable is not touched.
    pub fn commit_compaction(&mut self, staged: StagedCompaction)
        requires
            old(self).wf(),
            staged.table matches Some(table) ==> table.index.wf(),
        ensures
            final(self).is_compaction_of(old(self), &staged),
    {
        self.sstable_set.tables.clear();
        match staged.table {
            None => {
                self.sstable_set.last_sequence = 0;
            },
            Some(table) => {
                self.sstable_set.last_sequence = table.sequence;
                self.sstable_set.tables.push(
                    SSTable {
                        index: table.index,
                        index_path: table.index_path,
                        data_path: table.data_path,
                    },
                );
            },
        }
    }
}

/// On valid data files the tables from `i` on give what their records hold.
proof fn lemma_probe_valid(tables: Seq<SSTable>, files: Seq<Option<Vec<u8>>>, i: int, key: Seq<u8>)
    requires
        0 <= i <= tables.len(),
        files.len() == tables.len(),
        all_present(files),
        forall|j: int|
            0 <= j < files.len() ==> table_valid((#[trigger] tables[j]).index, input_data(files, j)),
    ensures
        probe(tables, files, i, key) == Ok::<Option<ValueView>, StoreError>(
            match newest_slot(parsed_tables(files).skip(i), key) {
                Some(SlotView::Value(v)) => Some(v),
                _ => None,
            },
        ),
    decreases tables.len() - i,
{
    let parsed = parsed_tables(files);
    if i < tables.len() {
        assert(files[i] is Some);
        assert(table_valid(tables[i].index, input_data(files, i)));
        let data = input_data(files, i);
        let records = parsed[i];
        assert(file_at(files, i) == Some(data));
        lemma_lookup_finds(tables[i].index.keys(), tables[i].index.values(), records, key);
        assert(parsed.skip(i)[0] == records);
        assert(parsed.skip(i).drop_first() =~= parsed.skip(i + 1));
        lemma_probe_valid(tables, files, i + 1, key);
    } else {
        assert(parsed.skip(i) =~= Seq::<Seq<RecordView>>::empty());
    }
}

/// On valid data files a read gives what the stack of layers holds: the
/// engine is the map that the model describes.
pub proof fn lemma_read_valid(db: DatabaseImpl, files: Seq<Option<Vec<u8>>>, key: Seq<u8>)
    requires
        db.valid(files),
    ensures
        db.read(files, key) == Ok::<Option<ValueView>, StoreError>(
            stack_get(db.layers(files), key),
        ),
{
    let layers = db.layers(files);
    let parsed = parsed_tables(files);
    lemma_probe_valid(db.tables(), files, 0, key);
    assert(parsed.skip(0) =~= parsed);
    lemma_newest_slot_is_stack_slot(parsed, key);
    lemma_table_layer(db.buffered(), key);
    assert(layers[0] == table_layer(db.buffered()));
    assert(layers.drop_first() =~= table_layers(parsed));
}

/// A write is the model's write: the memtable layer gets the slot under the
/// key, nothing else changes, and valid data files stay valid.
pub proof fn lemma_write_is_op(
    before: DatabaseImpl,
    after: DatabaseImpl,
    files: Seq<Option<Vec<u8>>>,
    key: Seq<u8>,
    slot: SlotView,
)
    requires
        after.is_write_of(&before, key, slot),
    ensures
        after.layers(files) == before.layers(files).update(
            0,
            before.layers(files)[0].insert(key, slot),
        ),
        slot matches SlotView::Value(value) ==> after.layers(files) == apply_op(
            before.layers(files),
            StoreOp::Put { key, value },
        ),
        slot is Tombstone ==> after.layers(files) == apply_op(
            before.layers(files),
            StoreOp::Delete { key },
        ),
        before.valid(files) ==> after.valid(files),
{
    let old_layer = table_layer(before.buffered());
    let new_layer = table_layer(after.buffered());
    let target = old_layer.insert(key, slot);
    assert forall|k: Seq<u8>| #[trigger] new_layer.dom().contains(k) == target.dom().contains(k) by {
        lemma_table_layer(before.buffered(), k);
        lemma_table_layer(after.buffered(), k);
        assert(find_slot(after.buffered(), k) == if k == key {
            Some(slot)
        } else {
            find_slot(before.buffered(), k)
        });
    }
    assert forall|k: Seq<u8>| new_layer.dom().contains(k) implies #[trigger] new_layer[k]
        == target[k] by {
        lemma_table_layer(before.buffered(), k);
        lemma_table_layer(after.buffered(), k);
        assert(find_slot(after.buffered(), k) == if k == key {
            Some(slot)
        } else {
            find_slot(before.buffered(), k)
        });
    }
    assert(new_layer.dom() =~= target.dom());
    assert(new_layer =~= target);
    assert(after.layers(files) =~= before.layers(files).update(
        0,
        before.layers(files)[0].insert(key, slot),
    ));
}

/// The table that a flush or a compaction stages is a valid table.
proof fn lemma_staged_valid(staged: StagedTable, records: Seq<RecordView>, sequence: int, stride: int)
    requires
        staged_table_of(staged, records, sequence, stride),
        sorted_records(records),
        records.len() > 0,
        stride >= 1,
    ensures
        table_valid(staged.index, staged.data@),
        parse_table(staged.data@, 0) == Some(records),
{
    lemma_parse_table_roundtrip(records);
    assert(staged.data.len() == staged.data@.len());
    lemma_sampled_index_valid(records, stride);
}

/// A flush is the model's flush: with the staged data file in front of the
/// others, the data files are valid for the engine after the flush, and the
/// stack of layers is that of the model.
pub proof fn lemma_flush_is_op(
    before: DatabaseImpl,
    after: DatabaseImpl,
    staged: StagedTable,
    files: Seq<Option<Vec<u8>>>,
)
    requires
        before.valid(files),
        before.buffered().len() > 0,
        staged_table_of(
            staged,
            before.buffered(),
            before.last_sequence() + 1,
            before.stride() as int,
        ),
        after.is_flush_of(&before, &staged),
    ensures
        after.valid(seq![Some(staged.data)] + files),
        after.layers(seq![Some(staged.data)] + files) == apply_op(
            before.layers(files),
            StoreOp::Flush,
        ),
{
    let records = before.buffered();
    let new_files = seq![Some(staged.data)] + files;
    lemma_staged_valid(staged, records, before.last_sequence() + 1, before.stride() as int);
    assert forall|i: int| 0 <= i < new_files.len() implies (#[trigger] new_files[i]) is Some by {
        if i > 0 {
            assert(new_files[i] == files[i - 1]);
        }
    }
    assert forall|i: int| 0 <= i < new_files.len() implies table_valid(
        (#[trigger] after.tables()[i]).index,
        input_data(new_files, i),
    ) by {
        if i > 0 {
            assert(after.tables()[(i - 1) + 1] == before.tables()[i - 1]);
            assert(new_files[i] == files[i - 1]);
            assert(input_data(new_files, i) == input_data(files, i - 1));
            assert(table_valid(before.tables()[i - 1].index, input_data(files, i - 1)));
        }
    }
    let parsed = parsed_tables(files);
    let new_parsed = parsed_tables(new_files);
    assert(new_parsed =~= seq![records] + parsed) by {
        assert forall|i: int| 0 <= i < new_parsed.len() implies new_parsed[i] == (seq![records]
            + parsed)[i] by {
            if i > 0 {
                assert(new_files[i] == files[i - 1]);
                assert(input_data(new_files, i) == input_data(files, i - 1));
            }
        }
    }
    assert(table_layer(after.buffered()) =~= Map::<Seq<u8>, SlotView>::empty()) by {
        assert(record_keys(after.buffered()) =~= Seq::<Seq<u8>>::empty());
    }
    assert(table_layers(new_parsed) =~= seq![table_layer(records)] + table_layers(parsed));
    let layers = before.layers(files);
    assert(layers[0].dom().contains(records[0].key)) by {
        assert(record_keys(records)[0] == records[0].key);
    }
    assert(!(layers[0].dom() =~= Set::<Seq<u8>>::empty()));
    assert(after.layers(new_files) =~= seq![Map::<Seq<u8>, SlotView>::empty()] + layers);
}

/// The layer of the merge of tables is the merge of their layers.
proof fn lemma_merge_layer(out: Seq<RecordView>, tables: Seq<Seq<RecordView>>)
    requires
        is_merge_of(out, tables),
    ensures
        table_layer(out) == merged_layer(table_layers(tables)),
{
    let layer = table_layer(out);
    let merged = merged_layer(table_layers(tables));
    assert forall|k: Seq<u8>| #[trigger] layer.dom().contains(k) == merged.dom().contains(k) by {
        lemma_table_layer(out, k);
        lemma_newest_slot_is_stack_slot(tables, k);
        assert(find_slot(out, k) == visible(newest_slot(tables, k)));
    }
    assert forall|k: Seq<u8>| layer.dom().contains(k) implies #[trigger] layer[k] == merged[k] by {
        lemma_table_layer(out, k);
        lemma_newest_slot_is_stack_slot(tables, k);
        assert(find_slot(out, k) == visible(newest_slot(tables, k)));
    }
    assert(layer.dom() =~= merged.dom());
    assert(layer =~= merged);
}

/// A compaction is the model's compaction: with the staged data file as
/// the only one, or no file where the merge left no record, the data files
/// are valid for the engine after the compaction, and the stack of layers
/// is that of the model.
pub proof fn lemma_compaction_is_op(
    before: DatabaseImpl,
    after: DatabaseImpl,
    staged: StagedCompaction,
    files: Seq<Option<Vec<u8>>>,
    out: Seq<RecordView>,
)
    requires
        before.valid(files),
        before.tables().len() >= 2,
        is_merge_of(out, parsed_tables(files)),
        staged_compaction_of(staged, out, before.stride() as int),
        after.is_compaction_of(&before, &staged),
    ensures
        after.valid(
            match staged.table {
                Some(table) => seq![Some(table.data)],
                None => Seq::empty(),
            },
        ),
        after.layers(
            match staged.table {
                Some(table) => seq![Some(table.data)],
                None => Seq::empty(),
            },
        ) == apply_op(before.layers(files), StoreOp::Compact),
{
    let layers = before.layers(files);
    let parsed = parsed_tables(files);
    let new_files: Seq<Option<Vec<u8>>> = match staged.table {
        Some(table) => seq![Some(table.data)],
        None => Seq::empty(),
    };
    let new_parsed = parsed_tables(new_files);
    lemma_merge_layer(out, parsed);
    assert(layers.drop_first() =~= table_layers(parsed));
    assert(layers[0] == table_layer(after.buffered()));
    let merged = merged_layer(layers.drop_first());
    match staged.table {
        None => {
            assert(record_keys(out) =~= Seq::<Seq<u8>>::empty());
            assert(merged.dom() =~= Set::<Seq<u8>>::empty());
            assert(new_parsed =~= Seq::<Seq<RecordView>>::empty());
            assert(after.layers(new_files) =~= seq![layers[0]]);
        },
        Some(table) => {
            lemma_staged_valid(table, out, 1, before.stride() as int);
            assert(new_files[0] is Some);
            assert(input_data(new_files, 0) == table.data@);
            assert(new_parsed =~= seq![out]);
            assert(merged.dom().contains(out[0].key)) by {
                assert(record_keys(out)[0] == out[0].key);
            }
            assert(!(merged.dom() =~= Set::<Seq<u8>>::empty()));
            assert(table_layers(new_parsed) =~= seq![merged]);
            assert(after.layers(new_files) =~= seq![layers[0], merged]);
        },
    }
}

/// Shadowing: after a write a read of the key gives what was written, the
/// value of a set and nothing after a delete, and a read of any other key
/// gives what it gave before.
pub proof fn lemma_write_shadows(
    before: DatabaseImpl,
    after: DatabaseImpl,
    files: Seq<Option<Vec<u8>>>,
    key: Seq<u8>,
    slot: SlotView,
    other: Seq<u8>,
)
    requires
        before.valid(files),
        after.is_write_of(&before, key, slot),
    ensures
        after.read(files, other) == if other == key {
            Ok::<Option<ValueView>, StoreError>(
                match slot {
                    SlotView::Value(v) => Some(v),
                    SlotView::Tombstone => None,
                },
            )
        } else {
            before.read(files, other)
        },
{
    lemma_write_is_op(before, after, files, key, slot);
    lemma_read_valid(before, files, other);
    lemma_read_valid(after, files, other);
    match slot {
        SlotView::Value(value) => {
            lemma_write_visible(before.layers(files), StoreOp::Put { key, value }, other);
        },
        SlotView::Tombstone => {
            lemma_write_visible(before.layers(files), StoreOp::Delete { key }, other);
        },
    }
}

/// Flush transparency: with the staged data file in front of the others, a
/// read of any key gives after the flush what it gave before.
pub proof fn lemma_flush_keeps_reads(
    before: DatabaseImpl,
    after: DatabaseImpl,
    staged: StagedTable,
    files: Seq<Option<Vec<u8>>>,
    key: Seq<u8>,
)
    requires
        before.valid(files),
        before.buffered().len() > 0,
        staged_table_of(
            staged,
            before.buffered(),
            before.last_sequence() + 1,
            before.stride() as int,
        ),
        after.is_flush_of(&before, &staged),
    ensures
        after.read(seq![Some(staged.data)] + files, key) == before.read(files, key),
{
    lemma_flush_is_op(before, after, staged, files);
    lemma_read_valid(before, files, key);
    lemma_read_valid(after, seq![Some(staged.data)] + files, key);
    lemma_flush_transparent(before.layers(files), key);
}

/// Compaction transparency: with the staged data file as the only one, a
/// read of any key gives after the compaction what it gave before.
pub proof fn lemma_compaction_keeps_reads(
    before: DatabaseImpl,
    after: DatabaseImpl,
    staged: StagedCompaction,
    files: Seq<Option<Vec<u8>>>,
    out: Seq<RecordView>,
    key: Seq<u8>,
)
    requires
        before.valid(files),
        before.tables().len() >= 2,
        is_merge_of(out, parsed_tables(files)),
        staged_compaction_of(staged, out, before.stride() as int),
        after.is_compaction_of(&before, &staged),
    ensures
        after.read(
            match staged.table {
                Some(table) => seq![Some(table.data)],
                None => Seq::empty(),
            },
            key,
        ) == before.read(files, key),
{
    let new_files: Seq<Option<Vec<u8>>> = match staged.table {
        Some(table) => seq![Some(table.data)],
        None => Seq::empty(),
    };
    lemma_compaction_is_op(before, after, staged, files, out);
    lemma_read_valid(before, files, key);
    lemma_read_valid(after, new_files, key);
    lemma_compaction_transparent(before.layers(files), key);
}

/// A read that asks for one data file at a time gives what a read with all
/// data files at hand gives: a step that ends the read ends it with the
/// outcome of the tables from `i` on, a step that fails fails as they do,
/// and a step that goes on leaves the outcome to the tables behind `i`.
pub proof fn lemma_step_is_probe(
    tables: Seq<SSTable>,
    files: Seq<Option<Vec<u8>>>,
    i: int,
    key: Seq<u8>,
)
    requires
        0 <= i < tables.len(),
    ensures
        match probe_one(tables[i], file_at(files, i), key) {
            Err(e) => probe(tables, files, i, key) == Err::<Option<ValueView>, StoreError>(e),
            Ok(found) => match step_after(tables.len() as int, i, found) {
                ReadStepView::Done(outcome) => probe(tables, files, i, key) == Ok::<
                    Option<ValueView>,
                    StoreError,
                >(outcome),
                ReadStepView::Open(next) => next == i + 1 && probe(tables, files, i, key) == probe(
                    tables,
                    files,
                    next,
                    key,
                ),
            },
        },
{
    if i + 1 >= tables.len() {
        assert(probe(tables, files, i + 1, key) == Ok::<Option<ValueView>, StoreError>(None));
    }
}

} // verus!
