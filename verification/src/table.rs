//! What the bytes of a data file mean: a run of records, one behind the
//! other, in strictly ascending key order. This module holds the model and
//! the facts that reading and merging rest on.
use vstd::prelude::*;
use crate::bytes::{lemma_lex_asymmetric, lemma_lex_irreflexive, lemma_lex_total, lex_lt};
use crate::ordered::{ascending, has_key, lemma_ascending_order, lemma_position_of, position_of};
use crate::record::{
    frame_at, frame_end, frame_key, lemma_record_roundtrip, parse_record, record_wf,
    serialize_record, RecordView, SlotView, HEADER_LEN,
};

verus! {

/// The bytes of a data file that holds `records` in this order.
pub open spec fn serialize_records(records: Seq<RecordView>) -> Seq<u8>
    decreases records.len(),
{
    if records.len() == 0 {
        Seq::empty()
    } else {
        serialize_records(records.drop_last()) + serialize_record(records.last())
    }
}

/// The byte offset at which record `i` starts in the file of `records`;
/// for `i == records.len()`, the length of the file.
pub open spec fn offset_of(records: Seq<RecordView>, i: int) -> int {
    serialize_records(records.take(i)).len() as int
}

/// The keys of `records`, in file order.
pub open spec fn record_keys(records: Seq<RecordView>) -> Seq<Seq<u8>> {
    Seq::new(records.len(), |i: int| records[i].key)
}

/// Every record fits the binary form.
pub open spec fn records_wf(records: Seq<RecordView>) -> bool {
    forall|i: int| 0 <= i < records.len() ==> record_wf(#[trigger] records[i])
}

/// The records of a table: well-formed, in strictly ascending key order, so
/// no key twice.
pub open spec fn sorted_records(records: Seq<RecordView>) -> bool {
    &&& records_wf(records)
    &&& ascending(record_keys(records))
}

/// The slot that `records` hold for `key`, if they hold the key.
pub open spec fn find_slot(records: Seq<RecordView>, key: Seq<u8>) -> Option<SlotView> {
    if has_key(record_keys(records), key) {
        Some(records[position_of(record_keys(records), key)].value)
    } else {
        None
    }
}

/// The bytes of a file are those of its first records followed by those of
/// the others.
pub proof fn lemma_serialize_records_concat(a: Seq<RecordView>, b: Seq<RecordView>)
    ensures
        serialize_records(a + b) == serialize_records(a) + serialize_records(b),
    decreases b.len(),
{
    if b.len() == 0 {
        assert(a + b =~= a);
        assert(serialize_records(a) + Seq::<u8>::empty() =~= serialize_records(a));
    } else {
        assert((a + b).drop_last() =~= a + b.drop_last());
        assert((a + b).last() == b.last());
        lemma_serialize_records_concat(a, b.drop_last());
        assert(serialize_records(a + b) =~= serialize_records(a) + serialize_records(b));
    }
}

/// The bytes of a file with one record more.
pub proof fn lemma_serialize_records_push(a: Seq<RecordView>, r: RecordView)
    ensures
        serialize_records(a.push(r)) == serialize_records(a) + serialize_record(r),
{
    assert(a.push(r).drop_last() =~= a);
}

/// Record `i` starts where record `i - 1` ends, and takes at least a header.
pub proof fn lemma_offset_step(records: Seq<RecordView>, i: int)
    requires
        0 <= i < records.len(),
    ensures
        offset_of(records, i + 1) == offset_of(records, i) + serialize_record(records[i]).len(),
        offset_of(records, i + 1) >= offset_of(records, i) + HEADER_LEN,
        offset_of(records, 0) == 0,
{
    assert(records.take(i + 1) =~= records.take(i).push(records[i]));
    lemma_serialize_records_push(records.take(i), records[i]);
    assert(records.take(0) =~= Seq::<RecordView>::empty());
}

/// Later records start at greater offsets.
pub proof fn lemma_offset_monotonic(records: Seq<RecordView>, i: int, j: int)
    requires
        0 <= i <= j <= records.len(),
    ensures
        offset_of(records, i) <= offset_of(records, j),
        i < j ==> offset_of(records, i) < offset_of(records, j),
        offset_of(records, records.len() as int) == serialize_records(records).len(),
    decreases j - i,
{
    assert(records.take(records.len() as int) =~= records);
    if i < j {
        lemma_offset_step(records, j - 1);
        lemma_offset_monotonic(records, i, j - 1);
    }
}

/// In the file of well-formed records, parsing at the start of record `i`
/// gives record `i` and ends at the start of the next.
pub proof fn lemma_parse_at_offset(records: Seq<RecordView>, i: int)
    requires
        records_wf(records),
        0 <= i < records.len(),
    ensures
        parse_record(serialize_records(records), offset_of(records, i)) == Some(
            (records[i], offset_of(records, i + 1)),
        ),
        frame_at(serialize_records(records), offset_of(records, i)),
        frame_key(serialize_records(records), offset_of(records, i)) == records[i].key,
        frame_end(serialize_records(records), offset_of(records, i)) == offset_of(
            records,
            i + 1,
        ),
{
    let front = records.take(i);
    let back = records.skip(i + 1);
    assert(records =~= front.push(records[i]) + back);
    lemma_serialize_records_concat(front.push(records[i]), back);
    lemma_serialize_records_push(front, records[i]);
    lemma_record_roundtrip(serialize_records(front), records[i], serialize_records(back));
    lemma_offset_step(records, i);
}

/// Looks for `key` from byte `pos` on, record by record, up to the record
/// that starts at `end`. It stops with the key's slot where it finds the key;
/// without one where it reaches a greater key, a record that starts behind
/// `end`, or the end of the data. The payload of a record with another key is
/// stepped over, not read.
pub open spec fn scan(data: Seq<u8>, key: Seq<u8>, pos: int, end: int) -> Result<
    Option<SlotView>,
    crate::error::StoreError,
>
    decreases data.len() - pos,
{
    if pos > end || pos < 0 || data.len() - pos < 2 {
        Ok(None)
    } else if data.len() - pos < HEADER_LEN + crate::record::header_key_len(data, pos) {
        Err(crate::error::StoreError::CorruptRecord)
    } else if !vstd::utf8::valid_utf8(frame_key(data, pos)) {
        Err(crate::error::StoreError::CorruptRecord)
    } else if frame_key(data, pos) == key {
        match parse_record(data, pos) {
            Some((record, _)) => Ok(Some(record.value)),
            None => Err(crate::error::StoreError::CorruptRecord),
        }
    } else if lex_lt(key, frame_key(data, pos)) || frame_end(data, pos) > data.len() {
        Ok(None)
    } else {
        scan(data, key, frame_end(data, pos), end)
    }
}

/// Scanning the file of a table from the start of record `j`, when every
/// record before `j` has a smaller key and the key's record, if there is
/// one, does not start behind `end`, finds what the table holds for the key.
pub proof fn lemma_scan_finds(
    records: Seq<RecordView>,
    key: Seq<u8>,
    j: int,
    end: int,
)
    requires
        sorted_records(records),
        0 <= j <= records.len(),
        forall|i: int| 0 <= i < j ==> lex_lt(#[trigger] record_keys(records)[i], key),
        has_key(record_keys(records), key) ==> offset_of(
            records,
            position_of(record_keys(records), key),
        ) <= end,
    ensures
        scan(serialize_records(records), key, offset_of(records, j), end) == Ok::<
            Option<SlotView>,
            crate::error::StoreError,
        >(find_slot(records, key)),
    decreases records.len() - j,
{
    let data = serialize_records(records);
    let keys = record_keys(records);
    let pos = offset_of(records, j);
    let n = records.len() as int;
    lemma_offset_monotonic(records, j, n);
    lemma_lex_irreflexive(key);
    if has_key(keys, key) {
        let q = position_of(keys, key);
        assert(keys[q] == key);
        assert(q >= j);
        lemma_offset_monotonic(records, j, q);
    }
    if j == n {
        assert(!has_key(keys, key));
    } else if pos > end {
        assert(!has_key(keys, key));
    } else {
        lemma_parse_at_offset(records, j);
        lemma_offset_step(records, j);
        assert(keys[j] == records[j].key);
        if keys[j] == key {
            lemma_position_of(keys, j);
        } else if lex_lt(key, keys[j]) {
            if has_key(keys, key) {
                let q = position_of(keys, key);
                lemma_ascending_order(keys, j, q);
                lemma_lex_asymmetric(key, keys[j]);
            }
        } else {
            lemma_lex_total(key, keys[j]);
            assert forall|i: int| 0 <= i < j + 1 implies lex_lt(#[trigger] keys[i], key) by {}
            lemma_scan_finds(records, key, j + 1, end);
        }
    }
}

/// The record that starts at `pos`, where one does.
pub open spec fn record_at(data: Seq<u8>, pos: int) -> RecordView {
    match parse_record(data, pos) {
        Some((record, _)) => record,
        None => RecordView { key: Seq::empty(), value: SlotView::Tombstone },
    }
}

/// The records that stand in `data` from `pos` to its end. Fewer than two
/// bytes left end the table; anything else that is no record makes the whole
/// unreadable, which is `None`.
pub open spec fn parse_table(data: Seq<u8>, pos: int) -> Option<Seq<RecordView>>
    decreases data.len() - pos,
{
    if pos < 0 || data.len() - pos < 2 {
        Some(Seq::empty())
    } else if !frame_at(data, pos) || parse_record(data, pos) is None {
        None
    } else {
        match parse_table(data, frame_end(data, pos)) {
            None => None,
            Some(rest) => Some(seq![record_at(data, pos)] + rest),
        }
    }
}

/// `records`, then what `rest` holds, if it holds anything.
pub open spec fn prepend_records(records: Seq<RecordView>, rest: Option<Seq<RecordView>>) -> Option<
    Seq<RecordView>,
> {
    match rest {
        None => None,
        Some(r) => Some(records + r),
    }
}

/// Every record takes at least its header.
pub proof fn lemma_records_len(records: Seq<RecordView>)
    ensures
        serialize_records(records).len() >= HEADER_LEN * records.len(),
    decreases records.len(),
{
    if records.len() > 0 {
        lemma_records_len(records.drop_last());
    }
}

/// In the file of well-formed records, the records from record `j` on are
/// what stands there.
pub proof fn lemma_parse_table_from(records: Seq<RecordView>, j: int)
    requires
        records_wf(records),
        0 <= j <= records.len(),
    ensures
        parse_table(serialize_records(records), offset_of(records, j)) == Some(records.skip(j)),
    decreases records.len() - j,
{
    let data = serialize_records(records);
    let n = records.len() as int;
    lemma_offset_monotonic(records, j, n);
    if j == n {
        assert(records.skip(j) =~= Seq::<RecordView>::empty());
    } else {
        lemma_parse_at_offset(records, j);
        lemma_offset_step(records, j);
        lemma_offset_monotonic(records, j + 1, n);
        lemma_parse_table_from(records, j + 1);
        assert(seq![records[j]] + records.skip(j + 1) =~= records.skip(j));
    }
}

/// Round trip of a table: the file of well-formed records reads back as
/// those records.
pub proof fn lemma_parse_table_roundtrip(records: Seq<RecordView>)
    requires
        records_wf(records),
    ensures
        parse_table(serialize_records(records), 0) == Some(records),
{
    lemma_parse_table_from(records, 0);
    lemma_offset_step_zero(records);
    assert(records.skip(0) =~= records);
}

/// The first record starts at offset zero.
pub proof fn lemma_offset_step_zero(records: Seq<RecordView>)
    ensures
        offset_of(records, 0) == 0,
{
    assert(records.take(0) =~= Seq::<RecordView>::empty());
}

} // verus!
