use my_database::error::StoreError;
use my_database::memtable::{flush_to, write_table, MemTable};
use my_database::ordered::OrderedMap;
use my_database::record::{MemValue, Record, Value};
use my_database::sparse_index::{bounds, read_from, write_to, ScanRange, SparseIndex};
use my_database::sstable_set::{seek_and_read, SSTable};

fn str_slot(s: &str) -> MemValue {
    MemValue::Value(Value::Str(s.to_string()))
}

fn memtable_of(entries: &[(&str, MemValue)]) -> MemTable {
    let mut m: MemTable = OrderedMap::new();
    for (k, v) in entries {
        m.insert(k.to_string(), v.clone());
    }
    m
}

fn five_keys() -> MemTable {
    memtable_of(&[
        ("c", str_slot("vc")),
        ("a", str_slot("va")),
        ("e", str_slot("ve")),
        ("b", str_slot("vb")),
        ("d", str_slot("vd")),
    ])
}

fn as_text(r: Result<Option<MemValue>, StoreError>) -> Option<String> {
    match r.unwrap() {
        Some(MemValue::Value(Value::Str(s))) => Some(s),
        Some(MemValue::Tombstone) => Some("<tombstone>".to_string()),
        Some(_) => Some("<other>".to_string()),
        None => None,
    }
}

#[test]
fn ordered_map_keeps_keys_in_byte_order() {
    let mut m: OrderedMap<u64> = OrderedMap::new();
    assert!(m.is_empty());
    assert!(!m.insert("m".to_string(), 1));
    assert!(!m.insert("a".to_string(), 2));
    assert!(!m.insert("z".to_string(), 3));
    assert!(!m.insert("Z".to_string(), 4));
    assert!(m.insert("m".to_string(), 5));
    assert_eq!(m.len(), 4);
    let keys: Vec<&str> = (0..m.len()).map(|i| m.key_at(i)).collect();
    assert_eq!(keys, vec!["Z", "a", "m", "z"]);
    let values: Vec<u64> = (0..m.len()).map(|i| *m.value_at(i)).collect();
    assert_eq!(values, vec![4, 2, 5, 3]);
    assert_eq!(m.get("m"), Some(&5));
    assert_eq!(m.get("q"), None);
    assert_eq!(m.search(b"m"), (true, 2));
    assert_eq!(m.search(b"b"), (false, 2));
    assert_eq!(m.search(b"zz"), (false, 4));
    assert_eq!(m.search(b"A"), (false, 0));
    m.append("zz".to_string(), 6);
    assert_eq!(m.len(), 5);
    assert_eq!(m.key_at(4), "zz");
    let taken = m.take_entries();
    assert_eq!(taken.len(), 5);
    assert_eq!(taken[0].key, "Z");
    assert_eq!(taken[4].value, 6);
    assert!(m.is_empty());
}

#[test]
fn flush_writes_records_in_key_order_and_indexes_every_stride() {
    let mut m = five_keys();
    let mut data = Vec::new();
    let index = flush_to(&mut m, &mut data, 2);
    assert!(m.is_empty());
    assert_eq!(data.len(), 40);
    let mut pos = 0;
    for key in ["a", "b", "c", "d", "e"] {
        let (record, next) = Record::read_from(&data, pos).unwrap();
        assert_eq!(record.key, key);
        assert_eq!(next, pos + 8);
        pos = next;
    }
    assert_eq!(index.len(), 3);
    assert_eq!(index.key_at(0), "a");
    assert_eq!(*index.value_at(0), 0);
    assert_eq!(index.key_at(1), "c");
    assert_eq!(*index.value_at(1), 16);
    assert_eq!(index.key_at(2), "e");
    assert_eq!(*index.value_at(2), 32);
}

#[test]
fn stride_one_indexes_every_record_and_a_large_stride_only_the_first() {
    let m = five_keys();
    let mut data = Vec::new();
    let index = write_table(&m, &mut data, 1);
    assert_eq!(m.len(), 5);
    assert_eq!(index.len(), 5);
    for i in 0..5 {
        assert_eq!(*index.value_at(i), 8 * i as u64);
    }
    let mut data = Vec::new();
    let index = write_table(&m, &mut data, 50);
    assert_eq!(index.len(), 1);
    assert_eq!(index.key_at(0), "a");
    assert_eq!(*index.value_at(0), 0);
}

#[test]
fn offsets_count_from_the_start_of_the_writer() {
    let m = five_keys();
    let mut data = vec![0u8; 3];
    let index = write_table(&m, &mut data, 2);
    assert_eq!(data.len(), 43);
    assert_eq!(*index.value_at(0), 3);
    assert_eq!(*index.value_at(1), 19);
}

#[test]
fn bounds_brackets_a_key() {
    let mut m = five_keys();
    let mut data = Vec::new();
    let index = flush_to(&mut m, &mut data, 2);
    assert_eq!(bounds(&index, "a"), ScanRange::Exact { offset: 0 });
    assert_eq!(bounds(&index, "c"), ScanRange::Exact { offset: 16 });
    assert_eq!(bounds(&index, "e"), ScanRange::Exact { offset: 32 });
    assert_eq!(bounds(&index, "b"), ScanRange::Range { start: 0, end: 16 });
    assert_eq!(bounds(&index, "d"), ScanRange::Range { start: 16, end: 32 });
    assert_eq!(bounds(&index, "!"), ScanRange::FromBegin { end: 0 });
    assert_eq!(bounds(&index, "z"), ScanRange::ToEnd { start: 32 });
    assert_eq!(bounds(&index, "ab"), ScanRange::Range { start: 0, end: 16 });
}

#[test]
fn lookup_by_bracket_finds_present_keys_and_no_others() {
    for stride in [1usize, 2, 3, 5, 9] {
        let mut m = five_keys();
        let mut data = Vec::new();
        let index = flush_to(&mut m, &mut data, stride);
        for (key, value) in [("a", "va"), ("b", "vb"), ("c", "vc"), ("d", "vd"), ("e", "ve")] {
            let range = bounds(&index, key);
            assert_eq!(as_text(seek_and_read(&data, key, range)), Some(value.to_string()));
        }
        for key in ["", "!", "aa", "bb", "cz", "dd", "ee", "z"] {
            let range = bounds(&index, key);
            assert_eq!(as_text(seek_and_read(&data, key, range)), None);
        }
    }
}

#[test]
fn lookup_returns_a_tombstone_as_a_slot() {
    let mut m = memtable_of(&[("a", str_slot("1")), ("b", MemValue::Tombstone)]);
    let mut data = Vec::new();
    let index = flush_to(&mut m, &mut data, 1);
    let table = SSTable { index, index_path: "00001.idx".into(), data_path: "00001.db".into() };
    assert_eq!(as_text(table.lookup(&data, "b")), Some("<tombstone>".to_string()));
    assert_eq!(as_text(table.lookup(&data, "a")), Some("1".to_string()));
    assert_eq!(as_text(table.lookup(&data, "c")), None);
}

#[test]
fn scan_stops_at_a_greater_key_and_at_the_end_of_the_range() {
    let mut m = five_keys();
    let mut data = Vec::new();
    flush_to(&mut m, &mut data, 2);
    let found = seek_and_read(&data, "d", ScanRange::Range { start: 16, end: 32 });
    assert_eq!(as_text(found), Some("vd".to_string()));
    let missed = seek_and_read(&data, "d", ScanRange::Range { start: 0, end: 16 });
    assert_eq!(as_text(missed), None);
    let from_begin = seek_and_read(&data, "b", ScanRange::FromBegin { end: 8 });
    assert_eq!(as_text(from_begin), Some("vb".to_string()));
    let short = seek_and_read(&data, "b", ScanRange::FromBegin { end: 7 });
    assert_eq!(as_text(short), None);
    let to_end = seek_and_read(&data, "e", ScanRange::ToEnd { start: 24 });
    assert_eq!(as_text(to_end), Some("ve".to_string()));
    let past = seek_and_read(&data, "e", ScanRange::ToEnd { start: 40 });
    assert_eq!(as_text(past), None);
    let beyond = seek_and_read(&data, "e", ScanRange::ToEnd { start: 4000 });
    assert_eq!(as_text(beyond), None);
    let inverted = seek_and_read(&data, "a", ScanRange::Range { start: 8, end: 0 });
    assert_eq!(as_text(inverted), None);
}

#[test]
fn scan_of_one_stray_byte_reads_as_the_end() {
    let mut m = five_keys();
    let mut data = Vec::new();
    flush_to(&mut m, &mut data, 2);
    data.push(0);
    let r = seek_and_read(&data, "z", ScanRange::ToEnd { start: 32 });
    assert_eq!(as_text(r), None);
}

#[test]
fn scan_of_a_cut_header_is_a_corrupt_record() {
    let mut m = five_keys();
    let mut data = Vec::new();
    flush_to(&mut m, &mut data, 2);
    data.extend_from_slice(&[0, 1, 0]);
    let r = seek_and_read(&data, "z", ScanRange::ToEnd { start: 32 });
    assert_eq!(r.err(), Some(StoreError::CorruptRecord));
    let found = seek_and_read(&data, "e", ScanRange::ToEnd { start: 32 });
    assert_eq!(as_text(found), Some("ve".to_string()));
}

#[test]
fn scan_steps_over_the_payload_of_other_keys() {
    let mut data = vec![0, 1, 0, 1, 0x77, b'a', 0xff];
    let record = Record { key: "b".to_string(), value: str_slot("vb") };
    record.write_to(&mut data);
    let r = seek_and_read(&data, "b", ScanRange::FromBegin { end: 100 });
    assert_eq!(as_text(r), Some("vb".to_string()));
    let bad = seek_and_read(&data, "a", ScanRange::FromBegin { end: 100 });
    assert_eq!(bad.err(), Some(StoreError::CorruptRecord));
}

#[test]
fn exact_offset_with_another_key_is_a_corrupt_table() {
    let mut m = five_keys();
    let mut data = Vec::new();
    flush_to(&mut m, &mut data, 2);
    let r = seek_and_read(&data, "c", ScanRange::Exact { offset: 8 });
    assert_eq!(r.err(), Some(StoreError::CorruptTable));
    let r = seek_and_read(&data, "c", ScanRange::Exact { offset: 9 });
    assert_eq!(r.err(), Some(StoreError::CorruptRecord));
    let r = seek_and_read(&data, "c", ScanRange::Exact { offset: 999 });
    assert_eq!(r.err(), Some(StoreError::CorruptRecord));
    let mut index: SparseIndex = OrderedMap::new();
    index.insert("zz".to_string(), 0);
    let table = SSTable { index, index_path: "i".into(), data_path: "d".into() };
    assert_eq!(table.lookup(&data, "zz").err(), Some(StoreError::CorruptTable));
}

#[test]
fn a_table_without_index_entries_cannot_be_looked_into() {
    let table = SSTable { index: OrderedMap::new(), index_path: "i".into(), data_path: "d".into() };
    assert_eq!(table.lookup(&[], "a").err(), Some(StoreError::InvariantViolation));
}

#[test]
fn index_has_the_documented_layout() {
    let mut index: SparseIndex = OrderedMap::new();
    index.insert("b".to_string(), 258);
    index.insert("a".to_string(), 0);
    let mut out = Vec::new();
    write_to(&index, &mut out);
    assert_eq!(
        out,
        vec![
            0, 1, b'a', 0, 0, 0, 0, 0, 0, 0, 0, //
            0, 1, b'b', 0, 0, 0, 0, 0, 0, 1, 2,
        ]
    );
}

#[test]
fn index_round_trip() {
    let mut index: SparseIndex = OrderedMap::new();
    index.insert("alpha".to_string(), 0);
    index.insert("m\u{00fc}".to_string(), 4096);
    index.insert("omega".to_string(), u64::MAX);
    index.insert("".to_string(), 7);
    let mut out = Vec::new();
    write_to(&index, &mut out);
    let back = read_from(&out).unwrap();
    assert_eq!(back.len(), 4);
    for i in 0..4 {
        assert_eq!(back.key_at(i), index.key_at(i));
        assert_eq!(back.value_at(i), index.value_at(i));
    }
    assert_eq!(read_from(&[]).unwrap().len(), 0);
}

#[test]
fn index_that_ends_in_an_entry_is_corrupt() {
    let mut index: SparseIndex = OrderedMap::new();
    index.insert("a".to_string(), 1);
    index.insert("b".to_string(), 2);
    let mut out = Vec::new();
    write_to(&index, &mut out);
    for len in 1..out.len() {
        if len == 11 {
            assert_eq!(read_from(&out[..len]).unwrap().len(), 1);
        } else {
            assert_eq!(read_from(&out[..len]).err(), Some(StoreError::CorruptIndex));
        }
    }
    assert_eq!(read_from(&[0, 1, 0xff, 0, 0, 0, 0, 0, 0, 0, 0]).err(), Some(StoreError::CorruptIndex));
}

#[test]
fn later_index_entries_replace_earlier_ones_and_order_is_restored() {
    let bytes = vec![
        0, 1, b'b', 0, 0, 0, 0, 0, 0, 0, 1, //
        0, 1, b'a', 0, 0, 0, 0, 0, 0, 0, 2, //
        0, 1, b'b', 0, 0, 0, 0, 0, 0, 0, 3,
    ];
    let index = read_from(&bytes).unwrap();
    assert_eq!(index.len(), 2);
    assert_eq!(index.key_at(0), "a");
    assert_eq!(*index.value_at(0), 2);
    assert_eq!(index.key_at(1), "b");
    assert_eq!(*index.value_at(1), 3);
}
