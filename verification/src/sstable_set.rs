//! Tables on disk: the descriptor of one table, the ordered set of the live
//! tables, and the point lookup in the data file of a table.
use vstd::prelude::*;
use vstd::string::StringExecFns;
use vstd::slice::{slice_subrange, slice_to_vec};
use vstd::utf8::encode_utf8;
use crate::bytes::{
    compare_bytes, lemma_utf8_injective, lemma_lex_asymmetric, lemma_lex_irreflexive,
    lemma_lex_total, lemma_lex_transitive, lex_le, lex_lt, read_u16_be, string_from_utf8, KeyOrder,
};
use crate::error::StoreError;
use crate::ordered::{ascending, has_key, lemma_ascending_order, lemma_position_of, position_of};
use crate::record::{parse_record, MemValue, Record, RecordView, SlotView, HEADER_LEN};
use crate::manifest::{Manifest, VERSION};
use crate::sparse_index::{
    bounds, bracket, count_before, entry_keys, entry_offsets, index_keys_wf, last_offset,
    lemma_count_before_splits, parse_index, read_from, ScanRange, SparseIndex,
};
use crate::table::{
    find_slot, lemma_offset_monotonic, lemma_parse_at_offset, lemma_scan_finds, offset_of,
    record_keys, scan, serialize_records, sorted_records,
};

verus! {

/// One immutable table: the names of its two files and its sparse index.
#[derive(Debug)]
pub struct SSTable {
    pub index: SparseIndex,
    pub index_path: String,
    pub data_path: String,
}

/// The live tables, newest first, and the sequence number of the newest file
/// names handed out.
#[derive(Debug)]
pub struct SSTableSet {
    pub last_sequence: usize,
    pub tables: Vec<SSTable>,
}

/// The outcome of a lookup as mathematics.
pub open spec fn slot_result_view(r: Result<Option<MemValue>, StoreError>) -> Result<
    Option<SlotView>,
    StoreError,
> {
    match r {
        Ok(Some(v)) => Ok(Some(v@)),
        Ok(None) => Ok(None),
        Err(e) => Err(e),
    }
}

/// What a lookup within `range` gives. For `Exact` the record at the offset
/// is read and must have the key, else the table is corrupt; for the others
/// the range is scanned.
pub open spec fn seek(data: Seq<u8>, key: Seq<u8>, range: ScanRange) -> Result<
    Option<SlotView>,
    StoreError,
> {
    match range {
        ScanRange::Exact { offset } => match parse_record(data, offset as int) {
            None => Err(StoreError::CorruptRecord),
            Some((record, _)) => if record.key == key {
                Ok(Some(record.value))
            } else {
                Err(StoreError::CorruptTable)
            },
        },
        ScanRange::FromBegin { end } => scan(data, key, 0, end as int),
        ScanRange::ToEnd { start } => scan(data, key, start as int, u64::MAX as int),
        ScanRange::Range { start, end } => scan(data, key, start as int, end as int),
    }
}

/// What a table gives for a key: the index brackets the key, the data file
/// is read within the bracket. A table without any index entry cannot be
/// looked into.
pub open spec fn table_lookup(
    index_keys: Seq<Seq<u8>>,
    index_offsets: Seq<u64>,
    data: Seq<u8>,
    key: Seq<u8>,
) -> Result<Option<SlotView>, StoreError> {
    if index_keys.len() == 0 {
        Err(StoreError::InvariantViolation)
    } else {
        seek(data, key, bracket(index_keys, index_offsets, key))
    }
}

/// Every index entry holds a key of the table and the offset at which the
/// record of that key starts.
pub open spec fn index_points_at(
    index_keys: Seq<Seq<u8>>,
    index_offsets: Seq<u64>,
    records: Seq<RecordView>,
) -> bool {
    &&& index_keys.len() == index_offsets.len()
    &&& forall|i: int|
        0 <= i < index_keys.len() ==> has_key(record_keys(records), #[trigger] index_keys[i])
            && offset_of(records, position_of(record_keys(records), index_keys[i]))
            == index_offsets[i]
}

/// A sparse index that belongs to the table of `records`: it has an entry,
/// its keys ascend strictly, and every entry points at the record with its
/// key.
pub open spec fn index_valid_for(
    index_keys: Seq<Seq<u8>>,
    index_offsets: Seq<u64>,
    records: Seq<RecordView>,
) -> bool {
    &&& index_keys.len() > 0
    &&& ascending(index_keys)
    &&& index_points_at(index_keys, index_offsets, records)
}

/// Sparse index correctness: in a table with a valid index, the lookup by
/// bracket and scan finds every key that the table holds, with its slot, and
/// reports every other key as absent.
pub proof fn lemma_lookup_finds(
    index_keys: Seq<Seq<u8>>,
    index_offsets: Seq<u64>,
    records: Seq<RecordView>,
    key: Seq<u8>,
)
    requires
        sorted_records(records),
        index_valid_for(index_keys, index_offsets, records),
        serialize_records(records).len() <= u64::MAX,
    ensures
        table_lookup(index_keys, index_offsets, serialize_records(records), key) == Ok::<
            Option<SlotView>,
            StoreError,
        >(find_slot(records, key)),
{
    let data = serialize_records(records);
    let rkeys = record_keys(records);
    let n = records.len() as int;
    let p = count_before(index_keys, key);
    lemma_count_before_splits(index_keys, key);
    lemma_lex_irreflexive(key);
    lemma_offset_monotonic(records, 0, n);
    // where the key's record starts, if the table has the key
    let q = position_of(rkeys, key);
    if has_key(rkeys, key) {
        lemma_offset_monotonic(records, q, n);
    }
    if p < index_keys.len() && index_keys[p] == key {
        assert(has_key(rkeys, index_keys[p]));
        lemma_parse_at_offset(records, q);
    } else {
        // the record at which the scan starts: that of the lower bound, or the first
        let jl = if p == 0 {
            0
        } else {
            position_of(rkeys, index_keys[p - 1])
        };
        if p > 0 {
            assert(has_key(rkeys, index_keys[p - 1]));
            assert(lex_lt(index_keys[p - 1], key));
            assert forall|i: int| 0 <= i < jl implies lex_lt(#[trigger] rkeys[i], key) by {
                assert(lex_lt(rkeys[i], rkeys[jl]));
                lemma_lex_transitive(rkeys[i], rkeys[jl], key);
            }
        }
        // the record at which it ends: that of the upper bound, or none
        let end = if p == index_keys.len() {
            u64::MAX as int
        } else {
            index_offsets[p] as int
        };
        if has_key(rkeys, key) {
            if p < index_keys.len() {
                assert(has_key(rkeys, index_keys[p]));
                let ju = position_of(rkeys, index_keys[p]);
                assert(lex_le(key, index_keys[p]));
                assert(lex_lt(rkeys[q], rkeys[ju]));
                lemma_ascending_order(rkeys, q, ju);
                lemma_offset_monotonic(records, q, ju);
            }
        }
        lemma_scan_finds(records, key, jl, end);
        if p == 0 {
            lemma_offset_monotonic(records, 0, 0);
            assert(records.take(0) =~= Seq::<RecordView>::empty());
        }
    }
}

/// Reads the record that starts at `offset`.
fn read_exact(data: &[u8], offset: u64) -> (r: Result<Record, StoreError>)
    ensures
        match parse_record(data@, offset as int) {
            Some((record, _)) => r is Ok && r->Ok_0@ == record,
            None => r == Err::<Record, StoreError>(StoreError::CorruptRecord),
        },
{
    if offset > data.len() as u64 {
        return Err(StoreError::CorruptRecord);
    }
    match Record::read_from(data, offset as usize) {
        Ok((record, _)) => Ok(record),
        Err(e) => Err(e),
    }
}

/// Looks for `key` in `data` from `start` (or the start of the data) on, up
/// to the record at `end` (or the end of the data). One of the two bounds
/// must be given.
fn scan_file_for_key(data: &[u8], key: &str, start: Option<u64>, end: Option<u64>) -> (r: Result<
    Option<MemValue>,
    StoreError,
>)
    requires
        start is Some || end is Some,
    ensures
        slot_result_view(r) == scan(
            data@,
            encode_utf8(key@),
            match start {
                Some(s) => s as int,
                None => 0,
            },
            match end {
                Some(e) => e as int,
                None => u64::MAX as int,
            },
        ),
{
    let len = data.len();
    let wanted = key.as_bytes();
    let first: u64 = match start {
        Some(s) => s,
        None => 0,
    };
    let last: u64 = match end {
        Some(e) => e,
        None => u64::MAX,
    };
    if first > last || first > len as u64 {
        return Ok(None);
    }
    let mut pos: usize = first as usize;
    loop
        invariant
            len == data@.len(),
            wanted@ == encode_utf8(key@),
            pos <= len,
            first as int == match start {
                Some(s) => s as int,
                None => 0,
            },
            last as int == match end {
                Some(e) => e as int,
                None => u64::MAX as int,
            },
            scan(data@, wanted@, first as int, last as int) == scan(
                data@,
                wanted@,
                pos as int,
                last as int,
            ),
        decreases len - pos,
    {
        if pos as u64 > last || len - pos < 2 {
            return Ok(None);
        }
        let key_len = read_u16_be(data, pos) as usize;
        if len - pos < HEADER_LEN + key_len {
            return Err(StoreError::CorruptRecord);
        }
        let val_len = read_u16_be(data, pos + 2) as usize;
        let key_start = pos + HEADER_LEN;
        let read_key = slice_subrange(data, key_start, key_start + key_len);
        if string_from_utf8(slice_to_vec(read_key)).is_none() {
            return Err(StoreError::CorruptRecord);
        }
        match compare_bytes(read_key, wanted) {
            KeyOrder::Equal => {
                return match Record::read_from(data, pos) {
                    Ok((record, _)) => Ok(Some(record.value)),
                    Err(e) => Err(e),
                };
            },
            KeyOrder::Greater => {
                proof {
                    lemma_lex_total(read_key@, wanted@);
                }
                return Ok(None);
            },
            KeyOrder::Less => {
                proof {
                    lemma_lex_asymmetric(read_key@, wanted@);
                }
                if len - key_start - key_len < val_len {
                    return Ok(None);
                }
                pos = key_start + key_len + val_len;
            },
        }
    }
}

/// Looks for `key` in the data file `file` within `scan_range`. Gives the
/// key's slot, which may be a tombstone, or nothing where the file does not
/// hold the key there. Fails with `CorruptRecord` on a malformed record in
/// its way and with `CorruptTable` where the record at an `Exact` offset has
/// another key.
pub fn seek_and_read(file: &[u8], key: &str, scan_range: ScanRange) -> (r: Result<
    Option<MemValue>,
    StoreError,
>)
    ensures
        slot_result_view(r) == seek(file@, encode_utf8(key@), scan_range),
{
    match scan_range {
        ScanRange::Exact { offset } => {
            match read_exact(file, offset) {
                Ok(record) => {
                    match compare_bytes(record.key.as_str().as_bytes(), key.as_bytes()) {
                        KeyOrder::Equal => Ok(Some(record.value)),
                        _ => Err(StoreError::CorruptTable),
                    }
                },
                Err(e) => Err(e),
            }
        },
        ScanRange::FromBegin { end } => scan_file_for_key(file, key, None, Some(end)),
        ScanRange::ToEnd { start } => scan_file_for_key(file, key, Some(start), None),
        ScanRange::Range { start, end } => scan_file_for_key(file, key, Some(start), Some(end)),
    }
}

impl SSTable {
    /// The descriptor's invariant: the index keeps its keys in order.
    pub open spec fn wf(&self) -> bool {
        self.index.wf()
    }

    /// Looks for `key` in this table, whose data file holds `data`. Gives
    /// the key's slot, which may be a tombstone, or nothing where the table
    /// does not hold the key. Fails with `InvariantViolation` where the
    /// index has no entry.
    pub fn lookup(&self, data: &[u8], key: &str) -> (r: Result<Option<MemValue>, StoreError>)
        requires
            self.wf(),
        ensures
            slot_result_view(r) == table_lookup(
                self.index.keys(),
                self.index.values(),
                data@,
                encode_utf8(key@),
            ),
    {
        if self.index.is_empty() {
            return Err(StoreError::InvariantViolation);
        }
        let range = bounds(&self.index, key);
        seek_and_read(data, key, range)
    }
}

/// What index file `i` holds, if it is there.
pub open spec fn file_at(files: Seq<Option<Vec<u8>>>, i: int) -> Option<Seq<u8>> {
    if 0 <= i < files.len() {
        match files[i] {
            Some(bytes) => Some(bytes@),
            None => None,
        }
    } else {
        None
    }
}

/// What loading an index file gives: its entries, or `NotFound` where the
/// file is missing, or `CorruptIndex` where it cannot be read or holds no
/// entry.
pub open spec fn load_index(file: Option<Seq<u8>>) -> Result<Seq<(Seq<u8>, u64)>, StoreError> {
    match file {
        None => Err(StoreError::NotFound),
        Some(data) => match parse_index(data, 0) {
            None => Err(StoreError::CorruptIndex),
            Some(entries) => if entries.len() == 0 {
                Err(StoreError::CorruptIndex)
            } else {
                Ok(entries)
            },
        },
    }
}

/// Whether `index` is what the entries of an index file make: every key
/// maps to the offset of its last entry, and entries in ascending key order
/// are kept as they stand.
pub open spec fn index_holds(index: SparseIndex, entries: Seq<(Seq<u8>, u64)>) -> bool {
    &&& index.wf()
    &&& index.keys().len() > 0
    &&& index_keys_wf(index.keys())
    &&& forall|k: Seq<u8>| #[trigger] index.lookup(k) == last_offset(entries, k)
    &&& ascending(entry_keys(entries)) ==> index.keys() == entry_keys(entries) && index.values()
        == entry_offsets(entries)
}

/// An index is empty exactly when it was made of no entry.
proof fn lemma_index_empty(index: SparseIndex, entries: Seq<(Seq<u8>, u64)>)
    requires
        index.wf(),
        forall|k: Seq<u8>| #[trigger] index.lookup(k) == last_offset(entries, k),
    ensures
        (index.keys().len() == 0) == (entries.len() == 0),
{
    if entries.len() > 0 {
        let k = entries.last().0;
        assert(index.lookup(k) is Some);
    }
    if index.keys().len() > 0 {
        let k = index.keys()[0];
        lemma_position_of(index.keys(), 0);
        assert(index.lookup(k) is Some);
    }
}

/// What building a set of tables from a manifest gives.
///
/// A manifest of another version is refused with `VersionMismatch`. Else the
/// set has the tables of the manifest, in its order, each with the index that
/// its index file holds; and where an index cannot be loaded, the first such
/// table decides the error.
pub open spec fn build_outcome(
    manifest: &Manifest,
    index_files: Seq<Option<Vec<u8>>>,
    r: Result<SSTableSet, StoreError>,
) -> bool {
    if manifest.version@ != VERSION@ {
        r == Err::<SSTableSet, StoreError>(StoreError::VersionMismatch)
    } else {
        match r {
            Ok(set) => {
                &&& set.wf()
                &&& manifest.describes(&set)
                &&& forall|i: int|
                    0 <= i < set.tables@.len() ==> load_index(file_at(index_files, i)) is Ok
                        && index_holds(
                        (#[trigger] set.tables@[i]).index,
                        load_index(file_at(index_files, i))->Ok_0,
                    )
            },
            Err(e) => exists|i: int|
                {
                    &&& 0 <= i < manifest.sstables@.len()
                    &&& #[trigger] load_index(file_at(index_files, i)) == Err::<
                        Seq<(Seq<u8>, u64)>,
                        StoreError,
                    >(e)
                    &&& forall|j: int|
                        0 <= j < i ==> (#[trigger] load_index(file_at(index_files, j))) is Ok
                },
        }
    }
}

impl SSTableSet {
    /// The set's invariant: that of each table.
    pub open spec fn wf(&self) -> bool {
        forall|i: int| 0 <= i < self.tables@.len() ==> (#[trigger] self.tables@[i]).wf()
    }

    /// Builds the set of tables that `manifest` names. `index_files` holds,
    /// for every table of the manifest and in its order, the content of the
    /// table's index file, or nothing where the file is missing.
    ///
    /// A manifest of another version is refused with `VersionMismatch`. The
    /// first table whose index cannot be loaded decides the error:
    /// `NotFound` for a missing file, `CorruptIndex` for one that ends in
    /// the middle of an entry or holds no entry.
    pub fn build(manifest: &Manifest, index_files: &Vec<Option<Vec<u8>>>) -> (r: Result<
        SSTableSet,
        StoreError,
    >)
        ensures
            build_outcome(manifest, index_files@, r),
    {
        let version = String::from_str(VERSION);
        proof {
            if encode_utf8(manifest.version@) == encode_utf8(version@) {
                lemma_utf8_injective(manifest.version@, version@);
            }
        }
        match compare_bytes(manifest.version.as_str().as_bytes(), version.as_str().as_bytes()) {
            KeyOrder::Equal => {},
            _ => {
                return Err(StoreError::VersionMismatch);
            },
        }
        let mut tables: Vec<SSTable> = Vec::new();
        let mut i: usize = 0;
        while i < manifest.sstables.len()
            invariant
                i <= manifest.sstables@.len(),
                tables@.len() == i,
                manifest.version@ == VERSION@,
                forall|j: int|
                    0 <= j < i ==> {
                        &&& (#[trigger] tables@[j]).wf()
                        &&& tables@[j].data_path@ == manifest.sstables@[j].data_path@
                        &&& tables@[j].index_path@ == manifest.sstables@[j].index_path@
                        &&& index_holds(tables@[j].index, load_index(file_at(index_files@, j))->Ok_0)
                    },
                forall|j: int| 0 <= j < i ==> (#[trigger] load_index(file_at(index_files@, j))) is Ok,
            decreases manifest.sstables@.len() - i,
        {
            let entry = &manifest.sstables[i];
            let ghost loaded = load_index(file_at(index_files@, i as int));
            if i >= index_files.len() {
                assert(loaded == Err::<Seq<(Seq<u8>, u64)>, StoreError>(StoreError::NotFound));
                return Err(StoreError::NotFound);
            }
            let index = match &index_files[i] {
                None => {
                    assert(loaded == Err::<Seq<(Seq<u8>, u64)>, StoreError>(StoreError::NotFound));
                    return Err(StoreError::NotFound);
                },
                Some(bytes) => match read_from(bytes.as_slice()) {
                    Ok(index) => index,
                    Err(e) => {
                        assert(loaded == Err::<Seq<(Seq<u8>, u64)>, StoreError>(e));
                        return Err(e);
                    },
                },
            };
            proof {
                lemma_index_empty(index, parse_index(index_files@[i as int]->0@, 0)->0);
            }
            if index.len() == 0 {
                assert(loaded == Err::<Seq<(Seq<u8>, u64)>, StoreError>(StoreError::CorruptIndex));
                return Err(StoreError::CorruptIndex);
            }
            assert(loaded is Ok);
            let ghost tables_before = tables@;
            tables.push(
                SSTable {
                    index,
                    data_path: entry.data_path.clone(),
                    index_path: entry.index_path.clone(),
                },
            );
            proof {
                assert forall|j: int| 0 <= j < i + 1 implies {
                    &&& (#[trigger] tables@[j]).wf()
                    &&& tables@[j].data_path@ == manifest.sstables@[j].data_path@
                    &&& tables@[j].index_path@ == manifest.sstables@[j].index_path@
                    &&& index_holds(tables@[j].index, load_index(file_at(index_files@, j))->Ok_0)
                } by {
                    if j < i {
                        assert(tables@[j] == tables_before[j]);
                    }
                }
            }
            i = i + 1;
        }
        let set = SSTableSet { last_sequence: manifest.last_sequence, tables };
        proof {
            assert forall|k: int| 0 <= k < set.tables@.len() implies load_index(
                file_at(index_files@, k),
            ) is Ok && index_holds(
                (#[trigger] set.tables@[k]).index,
                load_index(file_at(index_files@, k))->Ok_0,
            ) by {
                assert(load_index(file_at(index_files@, k)) is Ok);
            }
        }
        Ok(set)
    }
}

} // verus!
