//! The memtable: the ordered write buffer in memory, and how it is drained
//! into the data file and the sparse index of a new table.
use vstd::prelude::*;
use vstd::string::StringExecFns;
use vstd::utf8::valid_utf8;
use crate::bytes::lex_lt;
use crate::ordered::{ascending, has_key, lemma_position_of, position_of, OrderedMap};
use crate::record::{
    record_wf, slot_payload, write_record, MemValue, RecordView, SlotView, MAX_FIELD_LEN,
};
use crate::sparse_index::{entry_keys, entry_offsets, index_keys_wf, SparseIndex};
use crate::sstable_set::index_valid_for;
use crate::table::{
    find_slot, lemma_offset_monotonic, lemma_serialize_records_push, offset_of, record_keys,
    records_wf, serialize_records, sorted_records,
};

verus! {

/// The write buffer: keys in ascending order, each with its newest slot.
pub type MemTable = OrderedMap<MemValue>;

/// The records that keys and slots make, place by place.
pub open spec fn records_of(keys: Seq<Seq<u8>>, slots: Seq<MemValue>) -> Seq<RecordView> {
    Seq::new(keys.len(), |i: int| RecordView { key: keys[i], value: slots[i]@ })
}

/// The records that a memtable holds, in key order.
pub open spec fn memtable_records(memtable: MemTable) -> Seq<RecordView> {
    records_of(memtable.keys(), memtable.values())
}

/// A memtable whose keys are in order and whose entries all fit the binary
/// form of a record.
pub open spec fn memtable_wf(memtable: MemTable) -> bool {
    &&& memtable.wf()
    &&& records_wf(memtable_records(memtable))
}

/// The slot that a memtable holds for a key, as mathematics.
pub open spec fn memtable_slot(memtable: MemTable, key: Seq<u8>) -> Option<SlotView> {
    match memtable.lookup(key) {
        Some(slot) => Some(slot@),
        None => None,
    }
}

/// The index entries that a stride selects from `records`: one for every
/// `stride`-th record, counting from zero, with the offset of the record in a
/// file whose first record starts at `base`.
pub open spec fn sampled(records: Seq<RecordView>, stride: int, base: int) -> Seq<
    (Seq<u8>, u64),
>
    decreases records.len(),
{
    if records.len() == 0 {
        Seq::empty()
    } else {
        let front = sampled(records.drop_last(), stride, base);
        let i = records.len() - 1;
        if i % stride == 0 {
            front.push((records[i].key, (base + offset_of(records, i)) as u64))
        } else {
            front
        }
    }
}

/// Whether `entry` is what a stride selects for some record of the run: the
/// key of a record at a place that the stride divides, with the offset of
/// that record.
pub open spec fn sampled_from(
    records: Seq<RecordView>,
    stride: int,
    base: int,
    entry: (Seq<u8>, u64),
) -> bool {
    exists|i: int|
        {
            &&& 0 <= i < records.len()
            &&& i % stride == 0
            &&& (#[trigger] records[i]).key == entry.0
            &&& (base + offset_of(records, i)) as u64 == entry.1
        }
}

/// Every sampled entry belongs to a record of the run, at a place that the
/// stride selects; and a run that is not empty has a sampled entry.
pub proof fn lemma_sampled_entries(records: Seq<RecordView>, stride: int, base: int)
    requires
        stride >= 1,
    ensures
        records.len() > 0 ==> sampled(records, stride, base).len() > 0,
        forall|e: int|
            0 <= e < sampled(records, stride, base).len() ==> sampled_from(
                records,
                stride,
                base,
                #[trigger] sampled(records, stride, base)[e],
            ),
    decreases records.len(),
{
    let s = sampled(records, stride, base);
    if records.len() > 0 {
        let front_records = records.drop_last();
        let front = sampled(front_records, stride, base);
        let last = records.len() - 1;
        lemma_sampled_entries(front_records, stride, base);
        if last == 0 {
            assert(0int % stride == 0);
        }
        assert forall|e: int| 0 <= e < s.len() implies sampled_from(
            records,
            stride,
            base,
            #[trigger] s[e],
        ) by {
            if e < front.len() {
                assert(sampled_from(front_records, stride, base, front[e]));
                let i = choose|i: int|
                    {
                        &&& 0 <= i < front_records.len()
                        &&& i % stride == 0
                        &&& (#[trigger] front_records[i]).key == front[e].0
                        &&& (base + offset_of(front_records, i)) as u64 == front[e].1
                    };
                assert(front_records[i] == records[i]);
                assert(front_records.take(i) =~= records.take(i));
                assert(s[e] == front[e]);
            } else {
                assert(records[last].key == s[e].0);
            }
        }
    }
}

/// The keys that a stride selects from well-formed records fit an index.
pub proof fn lemma_sampled_keys_wf(records: Seq<RecordView>, stride: int, base: int)
    requires
        stride >= 1,
        records_wf(records),
    ensures
        index_keys_wf(entry_keys(sampled(records, stride, base))),
{
    let s = sampled(records, stride, base);
    let keys = entry_keys(s);
    lemma_sampled_entries(records, stride, base);
    assert forall|e: int| 0 <= e < keys.len() implies (#[trigger] keys[e]).len() <= MAX_FIELD_LEN
        && valid_utf8(keys[e]) by {
        assert(sampled_from(records, stride, base, s[e]));
        let i = choose|i: int|
            {
                &&& 0 <= i < records.len()
                &&& i % stride == 0
                &&& (#[trigger] records[i]).key == s[e].0
                &&& (base + offset_of(records, i)) as u64 == s[e].1
            };
        assert(record_wf(records[i]));
    }
}

/// Sparse index correctness, first part: the entries that a stride selects
/// from the records of a table form a valid index of the table. Every entry
/// holds the offset at which the record of its key starts, the keys ascend
/// strictly, and the first record is indexed.
pub proof fn lemma_sampled_index_valid(records: Seq<RecordView>, stride: int)
    requires
        stride >= 1,
        records.len() > 0,
        sorted_records(records),
        serialize_records(records).len() <= u64::MAX,
    ensures
        index_valid_for(
            entry_keys(sampled(records, stride, 0)),
            entry_offsets(sampled(records, stride, 0)),
            records,
        ),
        ascending(entry_keys(sampled(records, stride, 0))),
{
    let s = sampled(records, stride, 0);
    let ikeys = entry_keys(s);
    let ioffsets = entry_offsets(s);
    let rkeys = record_keys(records);
    lemma_sampled_entries(records, stride, 0);
    // the record that each entry was taken from
    assert forall|e: int| 0 <= e < ikeys.len() implies has_key(rkeys, #[trigger] ikeys[e])
        && offset_of(records, position_of(rkeys, ikeys[e])) == ioffsets[e] by {
        assert(sampled_from(records, stride, 0, s[e]));
        let i = choose|i: int|
            {
                &&& 0 <= i < records.len()
                &&& i % stride == 0
                &&& (#[trigger] records[i]).key == s[e].0
                &&& (0 + offset_of(records, i)) as u64 == s[e].1
            };
        assert(rkeys[i] == ikeys[e]);
        lemma_position_of(rkeys, i);
        lemma_offset_monotonic(records, i, records.len() as int);
    }
    lemma_sampled_ascending(records, stride, 0);
}

/// The keys that a stride selects from ascending records ascend.
pub proof fn lemma_sampled_ascending(records: Seq<RecordView>, stride: int, base: int)
    requires
        stride >= 1,
        ascending(record_keys(records)),
    ensures
        ascending(entry_keys(sampled(records, stride, base))),
        sampled(records, stride, base).len() > 0 ==> exists|i: int|
            0 <= i < records.len() && #[trigger] records[i].key == sampled(
                records,
                stride,
                base,
            ).last().0,
    decreases records.len(),
{
    let s = sampled(records, stride, base);
    let keys = entry_keys(s);
    if records.len() > 0 {
        let front_records = records.drop_last();
        let front = sampled(front_records, stride, base);
        let last = records.len() - 1;
        let rkeys = record_keys(records);
        assert forall|i: int, j: int| 0 <= i < j < front_records.len() implies lex_lt(
            #[trigger] record_keys(front_records)[i],
            #[trigger] record_keys(front_records)[j],
        ) by {
            assert(rkeys[i] == record_keys(front_records)[i]);
            assert(rkeys[j] == record_keys(front_records)[j]);
        }
        lemma_sampled_ascending(front_records, stride, base);
        if front.len() > 0 {
            let i = choose|i: int|
                0 <= i < front_records.len() && #[trigger] front_records[i].key == front.last().0;
            assert(front_records[i] == records[i]);
        }
        if last % stride == 0 {
            assert forall|a: int, b: int| 0 <= a < b < keys.len() implies lex_lt(
                #[trigger] keys[a],
                #[trigger] keys[b],
            ) by {
                if b < front.len() {
                    assert(keys[a] == entry_keys(front)[a]);
                    assert(keys[b] == entry_keys(front)[b]);
                } else {
                    // the new entry comes after every earlier one
                    let i = choose|i: int|
                        0 <= i < front_records.len() && #[trigger] front_records[i].key
                            == front.last().0;
                    assert(rkeys[i] == front.last().0);
                    assert(rkeys[last] == keys[b]);
                    assert(lex_lt(rkeys[i], rkeys[last]));
                    if a < front.len() - 1 {
                        assert(entry_keys(front)[a] == keys[a]);
                        assert(entry_keys(front)[front.len() - 1] == front.last().0);
                        assert(lex_lt(entry_keys(front)[a], entry_keys(front)[front.len() - 1]));
                        crate::bytes::lemma_lex_transitive(keys[a], front.last().0, keys[b]);
                    }
                }
            }
            assert(records[last].key == s.last().0);
        } else {
            assert(keys =~= entry_keys(front));
        }
    }
}

/// Writes the records of the memtable, in key order, to `writer`, and
/// returns a sparse index with an entry for every `index_stride`-th record,
/// counting from zero, that holds the offset at which the record starts in
/// `writer`. The memtable is left as it is.
pub fn write_table(memtable: &MemTable, writer: &mut Vec<u8>, index_stride: usize) -> (index:
    SparseIndex)
    requires
        memtable_wf(*memtable),
        index_stride >= 1,
    ensures
        final(writer)@ == old(writer)@ + serialize_records(memtable_records(*memtable)),
        index.wf(),
        index_keys_wf(index.keys()),
        index.keys() == entry_keys(
            sampled(memtable_records(*memtable), index_stride as int, old(writer)@.len() as int),
        ),
        index.values() == entry_offsets(
            sampled(memtable_records(*memtable), index_stride as int, old(writer)@.len() as int),
        ),
{
    let ghost records = memtable_records(*memtable);
    let ghost base = old(writer)@.len() as int;
    let ghost stride = index_stride as int;
    let mut index: SparseIndex = OrderedMap::new();
    let n = memtable.len();
    let mut i: usize = 0;
    proof {
        assert(records.take(0) =~= Seq::<RecordView>::empty());
        assert(writer@ =~= old(writer)@ + serialize_records(records.take(0)));
        assert(entry_keys(sampled(records.take(0), stride, base)) =~= index.keys());
        assert(entry_offsets(sampled(records.take(0), stride, base)) =~= index.values());
        assert(record_keys(records) =~= memtable.keys());
    }
    while i < n
        invariant
            i <= n,
            n == memtable.keys().len(),
            n == records.len(),
            stride == index_stride,
            stride >= 1,
            base == old(writer)@.len(),
            memtable.wf(),
            records == memtable_records(*memtable),
            sorted_records(records),
            writer@ == old(writer)@ + serialize_records(records.take(i as int)),
            index.wf(),
            index.keys() == entry_keys(sampled(records.take(i as int), stride, base)),
            index.values() == entry_offsets(sampled(records.take(i as int), stride, base)),
        decreases n - i,
    {
        let key = memtable.key_at(i);
        let value = memtable.value_at(i);
        let offset = writer.len() as u64;
        proof {
            assert(record_wf(records[i as int]));
            let now = records.take(i + 1);
            assert(now.drop_last() =~= records.take(i as int));
            assert(now.last() == records[i as int]);
            assert(now.take(i as int) =~= records.take(i as int));
            lemma_serialize_records_push(records.take(i as int), records[i as int]);
            assert(records.take(i + 1) =~= records.take(i as int).push(records[i as int]));
            assert(ascending(record_keys(now))) by {
                assert forall|a: int, b: int| 0 <= a < b < now.len() implies lex_lt(
                    #[trigger] record_keys(now)[a],
                    #[trigger] record_keys(now)[b],
                ) by {
                    assert(record_keys(now)[a] == record_keys(records)[a]);
                    assert(record_keys(now)[b] == record_keys(records)[b]);
                }
            }
            lemma_sampled_ascending(now, stride, base);
        }
        write_record(key, value, writer);
        if i % index_stride == 0 {
            proof {
                let now = records.take(i + 1);
                let s = sampled(now, stride, base);
                let front = sampled(records.take(i as int), stride, base);
                assert(s == front.push(
                    (records[i as int].key, (base + offset_of(now, i as int)) as u64),
                ));
                assert(entry_keys(s) =~= entry_keys(front).push(records[i as int].key));
                assert(entry_offsets(s) =~= entry_offsets(front).push(offset));
                if front.len() > 0 {
                    assert(entry_keys(front).last() == entry_keys(s)[front.len() - 1]);
                    assert(entry_keys(s)[front.len() as int] == records[i as int].key);
                    assert(lex_lt(
                        entry_keys(s)[front.len() - 1],
                        entry_keys(s)[front.len() as int],
                    ));
                }
            }
            index.append(string_of(key), offset);
        }
        i = i + 1;
    }
    proof {
        assert(records.take(n as int) =~= records);
        lemma_sampled_keys_wf(records, stride, base);
    }
    index
}

/// An owned copy of a string slice.
fn string_of(s: &str) -> (r: String)
    ensures
        r@ == s@,
{
    String::from_str(s)
}

/// Writes the memtable as one table: its records, in key order, go to
/// `writer`, and every `index_stride`-th record, counting from zero, gets an
/// entry in the sparse index that is returned, with the offset at which the
/// record starts in `writer`. The memtable is empty afterwards.
pub fn flush_to(memtable: &mut MemTable, writer: &mut Vec<u8>, index_stride: usize) -> (index:
    SparseIndex)
    requires
        memtable_wf(*old(memtable)),
        index_stride >= 1,
    ensures
        final(memtable).wf(),
        final(memtable).keys().len() == 0,
        final(memtable).values().len() == 0,
        final(writer)@ == old(writer)@ + serialize_records(memtable_records(*old(memtable))),
        index.wf(),
        index_keys_wf(index.keys()),
        index.keys() == entry_keys(
            sampled(
                memtable_records(*old(memtable)),
                index_stride as int,
                old(writer)@.len() as int,
            ),
        ),
        index.values() == entry_offsets(
            sampled(
                memtable_records(*old(memtable)),
                index_stride as int,
                old(writer)@.len() as int,
            ),
        ),
{
    let index = write_table(memtable, writer, index_stride);
    let _ = memtable.take_entries();
    index
}

/// Bytes that a record counts for in the size of a memtable: those of its
/// key and those of its payload.
pub open spec fn record_size(record: RecordView) -> nat {
    record.key.len() + slot_payload(record.value).len()
}

/// The size of a memtable that holds `records`: the sum of the sizes of its
/// records.
pub open spec fn footprint(records: Seq<RecordView>) -> nat
    decreases records.len(),
{
    if records.len() == 0 {
        0
    } else {
        footprint(records.drop_last()) + record_size(records.last())
    }
}

/// A record more makes the size greater by the size of the record.
pub proof fn lemma_footprint_insert(records: Seq<RecordView>, p: int, record: RecordView)
    requires
        0 <= p <= records.len(),
    ensures
        footprint(records.insert(p, record)) == footprint(records) + record_size(record),
    decreases records.len(),
{
    let next = records.insert(p, record);
    if p == records.len() {
        assert(next.drop_last() =~= records);
    } else {
        assert(next.drop_last() =~= records.drop_last().insert(p, record));
        assert(next.last() == records.last());
        lemma_footprint_insert(records.drop_last(), p, record);
    }
}

/// A record in place of another changes the size by the difference of the
/// two.
pub proof fn lemma_footprint_update(records: Seq<RecordView>, p: int, record: RecordView)
    requires
        0 <= p < records.len(),
    ensures
        footprint(records.update(p, record)) + record_size(records[p]) == footprint(records)
            + record_size(record),
        footprint(records) >= record_size(records[p]),
    decreases records.len(),
{
    let next = records.update(p, record);
    if p == records.len() - 1 {
        assert(next.drop_last() =~= records.drop_last());
    } else {
        assert(next.drop_last() =~= records.drop_last().update(p, record));
        assert(next.last() == records.last());
        lemma_footprint_update(records.drop_last(), p, record);
    }
}

/// The layer of a memtable holds what the memtable maps each key to.
pub proof fn lemma_memtable_slot(memtable: MemTable, key: Seq<u8>)
    requires
        memtable.wf(),
    ensures
        memtable_slot(memtable, key) == find_slot(memtable_records(memtable), key),
        record_keys(memtable_records(memtable)) == memtable.keys(),
{
    assert(record_keys(memtable_records(memtable)) =~= memtable.keys());
}

} // verus!
