use my_database::compact::compact_sstable_set;
use my_database::config::Config;
use my_database::controller::Controller;
use my_database::engine::{DatabaseImpl, ReadStep, StagedCompaction};
use my_database::error::StoreError;
use my_database::manifest::{get_or_create_manifest, Manifest, ManifestFile, SSTableEntry, VERSION};
use my_database::record::{MemValue, Record, Value};
use my_database::sparse_index::{bounds, ScanRange};
use my_database::sstable_set::SSTableSet;

/// The data directory of a test: the files of the live tables, newest first.
struct Disk {
    data: Vec<Option<Vec<u8>>>,
    index: Vec<Option<Vec<u8>>>,
}

fn config(stride: usize) -> Config {
    Config {
        data_dir: "data".to_string(),
        sparse_stride: stride,
        memtable_capacity: 1000,
        create_if_missing: true,
    }
}

fn fresh(stride: usize) -> (DatabaseImpl, Disk) {
    let (manifest, must_write) = get_or_create_manifest(ManifestFile::Missing, true).unwrap();
    assert!(must_write);
    let db = DatabaseImpl::build(config(stride), &manifest, &Vec::new()).unwrap();
    (db, Disk { data: Vec::new(), index: Vec::new() })
}

fn flush(db: &mut DatabaseImpl, disk: &mut Disk) -> bool {
    match db.stage_flush() {
        None => false,
        Some(staged) => {
            disk.data.insert(0, Some(staged.data.clone()));
            disk.index.insert(0, Some(staged.index_data.clone()));
            db.commit_flush(staged);
            true
        }
    }
}

fn compact(db: &mut DatabaseImpl, disk: &mut Disk) -> bool {
    match db.stage_compaction(&disk.data).unwrap() {
        None => false,
        Some(staged) => {
            disk.data.clear();
            disk.index.clear();
            if let Some(table) = &staged.table {
                disk.data.push(Some(table.data.clone()));
                disk.index.push(Some(table.index_data.clone()));
            }
            db.commit_compaction(staged);
            true
        }
    }
}

fn text(s: &str) -> Value {
    Value::Str(s.to_string())
}

fn get_text(db: &DatabaseImpl, disk: &Disk, key: &str) -> Option<String> {
    match db.get(key, &disk.data).unwrap() {
        Some(Value::Str(s)) => Some(s),
        Some(Value::Int64(i)) => Some(format!("i:{}", i)),
        Some(Value::Float64(b)) => Some(format!("f:{:016x}", b)),
        None => None,
    }
}

fn keys_of(data: &[u8]) -> Vec<String> {
    let mut keys = Vec::new();
    let mut pos = 0;
    while pos < data.len() {
        let (record, next) = Record::read_from(data, pos).unwrap();
        keys.push(record.key);
        pos = next;
    }
    keys
}

#[test]
fn basic_set_get_delete() {
    let (mut db, disk) = fresh(50);
    db.set("a".to_string(), text("1"));
    db.set("b".to_string(), text("2"));
    assert_eq!(get_text(&db, &disk, "a"), Some("1".to_string()));
    db.delete("a".to_string());
    assert_eq!(get_text(&db, &disk, "a"), None);
    assert_eq!(get_text(&db, &disk, "b"), Some("2".to_string()));
    assert_eq!(get_text(&db, &disk, "c"), None);
}

#[test]
fn flush_persistence() {
    let (mut db, mut disk) = fresh(50);
    db.set("k".to_string(), Value::Int64(-7));
    assert!(flush(&mut db, &mut disk));
    let manifest = db.manifest();
    assert_eq!(manifest.version, VERSION);
    assert_eq!(manifest.last_sequence, 1);
    assert_eq!(manifest.sstables.len(), 1);
    assert_eq!(manifest.sstables[0].data_path, "00001.db");
    assert_eq!(manifest.sstables[0].index_path, "00001.idx");
    drop(db);
    let restarted = DatabaseImpl::build(config(50), &manifest, &disk.index).unwrap();
    assert_eq!(restarted.memtable_len(), 0);
    assert_eq!(restarted.table_count(), 1);
    match restarted.get("k", &disk.data).unwrap() {
        Some(Value::Int64(-7)) => {}
        other => panic!("unexpected {:?}", other),
    }
}

#[test]
fn tombstone_survives_flush_and_is_erased_by_compaction() {
    let (mut db, mut disk) = fresh(50);
    db.set("x".to_string(), text("v"));
    assert!(flush(&mut db, &mut disk));
    db.delete("x".to_string());
    assert!(flush(&mut db, &mut disk));
    assert_eq!(db.table_count(), 2);
    assert_eq!(get_text(&db, &disk, "x"), None);
    let newest = disk.data[0].clone().unwrap();
    let (record, _) = Record::read_from(&newest, 0).unwrap();
    assert_eq!(record.key, "x");
    assert!(matches!(record.value, MemValue::Tombstone));
    db.set("y".to_string(), text("w"));
    assert!(flush(&mut db, &mut disk));
    assert!(compact(&mut db, &mut disk));
    assert_eq!(db.table_count(), 1);
    assert_eq!(disk.data.len(), 1);
    let merged = disk.data[0].clone().unwrap();
    assert_eq!(keys_of(&merged), vec!["y".to_string()]);
    assert_eq!(get_text(&db, &disk, "x"), None);
    assert_eq!(get_text(&db, &disk, "y"), Some("w".to_string()));
}

#[test]
fn compaction_that_leaves_nothing_registers_no_table() {
    let (mut db, mut disk) = fresh(50);
    db.set("x".to_string(), text("v"));
    assert!(flush(&mut db, &mut disk));
    db.delete("x".to_string());
    assert!(flush(&mut db, &mut disk));
    let staged: StagedCompaction = db.stage_compaction(&disk.data).unwrap().unwrap();
    assert!(staged.table.is_none());
    db.commit_compaction(staged);
    disk.data.clear();
    disk.index.clear();
    assert_eq!(db.table_count(), 0);
    assert_eq!(db.manifest().last_sequence, 0);
    assert_eq!(get_text(&db, &disk, "x"), None);
    db.set("x".to_string(), text("again"));
    assert!(flush(&mut db, &mut disk));
    assert_eq!(db.manifest().sstables[0].data_path, "00001.db");
    assert_eq!(get_text(&db, &disk, "x"), Some("again".to_string()));
}

#[test]
fn shadowing_across_tables() {
    let (mut db, mut disk) = fresh(50);
    db.set("k".to_string(), text("old"));
    assert!(flush(&mut db, &mut disk));
    db.set("k".to_string(), text("new"));
    assert!(flush(&mut db, &mut disk));
    assert_eq!(db.manifest().last_sequence, 2);
    assert_eq!(db.manifest().sstables[0].data_path, "00002.db");
    assert_eq!(db.manifest().sstables[1].data_path, "00001.db");
    assert_eq!(get_text(&db, &disk, "k"), Some("new".to_string()));
    assert!(compact(&mut db, &mut disk));
    assert_eq!(get_text(&db, &disk, "k"), Some("new".to_string()));
    let manifest = db.manifest();
    assert_eq!(manifest.last_sequence, 1);
    assert_eq!(manifest.sstables.len(), 1);
    assert_eq!(manifest.sstables[0].data_path, "00001.db");
    assert_eq!(manifest.sstables[0].index_path, "00001.idx");
    assert_eq!(keys_of(&disk.data[0].clone().unwrap()), vec!["k".to_string()]);
}

#[test]
fn sparse_index_bracketing_edges() {
    let (mut db, mut disk) = fresh(2);
    for key in ["d", "a", "e", "c", "b"] {
        db.set(key.to_string(), text(&format!("v{}", key)));
    }
    assert!(flush(&mut db, &mut disk));
    let index = &db.sstable_set().tables[0].index;
    assert!(matches!(bounds(index, "a"), ScanRange::Exact { .. }));
    assert!(matches!(bounds(index, "c"), ScanRange::Exact { .. }));
    assert!(matches!(bounds(index, "b"), ScanRange::Range { .. }));
    assert!(matches!(bounds(index, "!"), ScanRange::FromBegin { .. }));
    assert!(matches!(bounds(index, "z"), ScanRange::ToEnd { .. }));
    assert_eq!(get_text(&db, &disk, "a"), Some("va".to_string()));
    assert_eq!(get_text(&db, &disk, "c"), Some("vc".to_string()));
    assert_eq!(get_text(&db, &disk, "b"), Some("vb".to_string()));
    assert_eq!(get_text(&db, &disk, "!"), None);
    assert_eq!(get_text(&db, &disk, "z"), None);
    assert_eq!(get_text(&db, &disk, "d"), Some("vd".to_string()));
    assert_eq!(get_text(&db, &disk, "e"), Some("ve".to_string()));
}

#[test]
fn typed_values() {
    let (mut db, mut disk) = fresh(50);
    db.set("i".to_string(), Value::Int64(9223372036854775807));
    db.set("f".to_string(), Value::Float64((-0.0f64).to_bits()));
    assert!(flush(&mut db, &mut disk));
    match db.get("i", &disk.data).unwrap() {
        Some(Value::Int64(9223372036854775807)) => {}
        other => panic!("unexpected {:?}", other),
    }
    match db.get("f", &disk.data).unwrap() {
        Some(Value::Float64(bits)) => {
            assert_eq!(bits, (-0.0f64).to_bits());
            assert_eq!(bits, 0x8000_0000_0000_0000);
        }
        other => panic!("unexpected {:?}", other),
    }
}

#[test]
fn get_returns_the_most_recent_write() {
    let (mut db, mut disk) = fresh(3);
    db.set("k".to_string(), text("1"));
    db.set("other".to_string(), text("o"));
    assert_eq!(get_text(&db, &disk, "k"), Some("1".to_string()));
    db.set("k".to_string(), text("2"));
    assert_eq!(get_text(&db, &disk, "k"), Some("2".to_string()));
    flush(&mut db, &mut disk);
    db.delete("k".to_string());
    assert_eq!(get_text(&db, &disk, "k"), None);
    flush(&mut db, &mut disk);
    assert_eq!(get_text(&db, &disk, "k"), None);
    db.set("k".to_string(), Value::Int64(3));
    assert_eq!(get_text(&db, &disk, "k"), Some("i:3".to_string()));
    flush(&mut db, &mut disk);
    compact(&mut db, &mut disk);
    assert_eq!(get_text(&db, &disk, "k"), Some("i:3".to_string()));
    assert_eq!(get_text(&db, &disk, "other"), Some("o".to_string()));
    db.delete("other".to_string());
    assert_eq!(get_text(&db, &disk, "other"), None);
    assert_eq!(get_text(&db, &disk, "k"), Some("i:3".to_string()));
}

#[test]
fn flush_does_not_change_what_is_read() {
    let (mut db, mut disk) = fresh(2);
    let keys = ["a", "b", "c", "d", "e", "f", "g"];
    for (i, key) in keys.iter().enumerate() {
        db.set(key.to_string(), Value::Int64(i as i64));
    }
    flush(&mut db, &mut disk);
    db.delete("c".to_string());
    db.set("e".to_string(), text("changed"));
    db.set("h".to_string(), text("added"));
    let probe = ["", "a", "b", "c", "d", "e", "f", "g", "h", "zz"];
    let before: Vec<Option<String>> = probe.iter().map(|k| get_text(&db, &disk, k)).collect();
    assert!(flush(&mut db, &mut disk));
    assert_eq!(db.memtable_len(), 0);
    assert_eq!(db.current_size(), 0);
    assert_eq!(db.table_count(), 2);
    let after: Vec<Option<String>> = probe.iter().map(|k| get_text(&db, &disk, k)).collect();
    assert_eq!(before, after);
    assert_eq!(after[3], None);
    assert_eq!(after[5], Some("changed".to_string()));
}

#[test]
fn compaction_does_not_change_what_is_read() {
    let (mut db, mut disk) = fresh(2);
    for round in 0..4i64 {
        for (i, key) in ["a", "b", "c", "d", "e", "f"].iter().enumerate() {
            if (i as i64 + round) % 3 == 0 {
                db.delete(key.to_string());
            } else if (i as i64 + round) % 3 == 1 {
                db.set(key.to_string(), Value::Int64(round * 10 + i as i64));
            }
        }
        db.set(format!("only-{}", round), text("x"));
        assert!(flush(&mut db, &mut disk));
    }
    db.set("a".to_string(), text("in memory"));
    let probe = ["a", "b", "c", "d", "e", "f", "only-0", "only-3", "nope"];
    let before: Vec<Option<String>> = probe.iter().map(|k| get_text(&db, &disk, k)).collect();
    assert_eq!(db.table_count(), 4);
    assert!(compact(&mut db, &mut disk));
    assert_eq!(db.table_count(), 1);
    assert_eq!(db.memtable_len(), 1);
    let after: Vec<Option<String>> = probe.iter().map(|k| get_text(&db, &disk, k)).collect();
    assert_eq!(before, after);
}

#[test]
fn merged_table_is_ascending_without_duplicates_and_tombstones() {
    let (mut db, mut disk) = fresh(2);
    db.set("b".to_string(), text("old b"));
    db.set("d".to_string(), text("old d"));
    db.set("a".to_string(), text("a"));
    flush(&mut db, &mut disk);
    db.set("b".to_string(), text("new b"));
    db.delete("d".to_string());
    db.set("c".to_string(), text("c"));
    db.delete("never".to_string());
    flush(&mut db, &mut disk);
    let mut out = Vec::new();
    let index = compact_sstable_set(&disk.data, &mut out, 2).unwrap();
    assert_eq!(keys_of(&out), vec!["a".to_string(), "b".to_string(), "c".to_string()]);
    let (b, _) = Record::read_from(&out, 7).unwrap();
    assert_eq!(b.key, "b");
    assert!(matches!(b.value, MemValue::Value(Value::Str(ref s)) if s == "new b"));
    assert_eq!(index.len(), 2);
    assert_eq!(index.key_at(0), "a");
    assert_eq!(*index.value_at(0), 0);
    assert_eq!(index.key_at(1), "c");
    assert_eq!(*index.value_at(1), 18);
}

#[test]
fn merge_of_nothing_is_empty() {
    let mut out = Vec::new();
    let index = compact_sstable_set(&Vec::new(), &mut out, 3).unwrap();
    assert!(out.is_empty());
    assert_eq!(index.len(), 0);
    let mut out = Vec::new();
    let index = compact_sstable_set(&vec![Some(Vec::new()), Some(Vec::new())], &mut out, 3).unwrap();
    assert!(out.is_empty());
    assert_eq!(index.len(), 0);
}

#[test]
fn merge_fails_on_a_missing_or_unreadable_table() {
    let good = {
        let mut out = Vec::new();
        Record { key: "a".to_string(), value: MemValue::Tombstone }.write_to(&mut out);
        out
    };
    let mut cut = good.clone();
    cut.extend_from_slice(&[0, 9, 0, 0, 0]);
    let mut out = Vec::new();
    let r = compact_sstable_set(&vec![Some(good.clone()), None], &mut out, 1);
    assert_eq!(r.err(), Some(StoreError::NotFound));
    let mut out = Vec::new();
    let r = compact_sstable_set(&vec![Some(good.clone()), Some(cut.clone())], &mut out, 1);
    assert_eq!(r.err(), Some(StoreError::CorruptRecord));
    let mut out = Vec::new();
    let r = compact_sstable_set(&vec![None, Some(cut)], &mut out, 1);
    assert_eq!(r.err(), Some(StoreError::NotFound));
}

#[test]
fn compaction_of_fewer_than_two_tables_is_a_no_op() {
    let (mut db, mut disk) = fresh(2);
    assert!(!compact(&mut db, &mut disk));
    db.set("a".to_string(), text("1"));
    flush(&mut db, &mut disk);
    let before = disk.data.clone();
    assert!(!compact(&mut db, &mut disk));
    assert_eq!(disk.data, before);
    assert_eq!(db.manifest().last_sequence, 1);
}

#[test]
fn compaction_reports_missing_and_corrupt_files() {
    let (mut db, mut disk) = fresh(2);
    db.set("a".to_string(), text("1"));
    flush(&mut db, &mut disk);
    db.set("b".to_string(), text("2"));
    flush(&mut db, &mut disk);
    let short = vec![disk.data[0].clone()];
    assert_eq!(db.stage_compaction(&short).err(), Some(StoreError::NotFound));
    let missing = vec![disk.data[0].clone(), None];
    assert_eq!(db.stage_compaction(&missing).err(), Some(StoreError::NotFound));
    let corrupt = vec![disk.data[0].clone(), Some(vec![0, 1, 0, 0, 0x55, b'a'])];
    assert_eq!(db.stage_compaction(&corrupt).err(), Some(StoreError::CorruptRecord));
    assert_eq!(db.table_count(), 2);
    assert_eq!(get_text(&db, &disk, "a"), Some("1".to_string()));
}

#[test]
fn empty_memtable_is_not_flushed() {
    let (mut db, mut disk) = fresh(2);
    assert!(db.stage_flush().is_none());
    assert!(!flush(&mut db, &mut disk));
    assert_eq!(db.table_count(), 0);
    assert_eq!(db.manifest().last_sequence, 0);
}

#[test]
fn staging_a_flush_leaves_the_engine_as_it_is() {
    let (mut db, disk) = fresh(2);
    db.set("a".to_string(), text("1"));
    let staged = db.stage_flush().unwrap();
    assert_eq!(staged.sequence, 1);
    assert_eq!(staged.data_path, "00001.db");
    assert_eq!(staged.index_path, "00001.idx");
    assert_eq!(staged.data, vec![0, 1, 0, 1, 0, b'a', b'1']);
    assert_eq!(staged.index_data, vec![0, 1, b'a', 0, 0, 0, 0, 0, 0, 0, 0]);
    assert_eq!(db.memtable_len(), 1);
    assert_eq!(db.table_count(), 0);
    assert_eq!(db.manifest().last_sequence, 0);
    assert_eq!(get_text(&db, &disk, "a"), Some("1".to_string()));
}

#[test]
fn size_counts_key_and_payload_bytes() {
    let (mut db, _disk) = fresh(2);
    assert_eq!(db.current_size(), 0);
    db.set("ab".to_string(), text("xyz"));
    assert_eq!(db.current_size(), 5);
    db.set("c".to_string(), Value::Int64(1));
    assert_eq!(db.current_size(), 14);
    db.set("ab".to_string(), Value::Float64(0));
    assert_eq!(db.current_size(), 19);
    db.delete("ab".to_string());
    assert_eq!(db.current_size(), 11);
    db.delete("zzz".to_string());
    assert_eq!(db.current_size(), 14);
    db.set("c".to_string(), text(""));
    assert_eq!(db.current_size(), 6);
    assert_eq!(db.memtable_len(), 3);
}

#[test]
fn read_fails_on_a_missing_data_file_only_when_it_is_reached() {
    let (mut db, mut disk) = fresh(2);
    db.set("old".to_string(), text("1"));
    flush(&mut db, &mut disk);
    db.set("new".to_string(), text("2"));
    flush(&mut db, &mut disk);
    db.set("mem".to_string(), text("3"));
    let files = vec![disk.data[0].clone(), None];
    assert_eq!(db.get("mem", &files).unwrap().is_some(), true);
    assert_eq!(db.get("new", &files).unwrap().is_some(), true);
    assert_eq!(db.get("old", &files).err(), Some(StoreError::NotFound));
    let short = vec![disk.data[0].clone()];
    assert_eq!(db.get("old", &short).err(), Some(StoreError::NotFound));
    assert_eq!(db.get("new", &short).unwrap().is_some(), true);
}

#[test]
fn read_reports_a_corrupt_table() {
    let (mut db, mut disk) = fresh(1);
    db.set("a".to_string(), text("1"));
    db.set("b".to_string(), text("2"));
    flush(&mut db, &mut disk);
    let mut swapped = Vec::new();
    Record { key: "x".to_string(), value: MemValue::Tombstone }.write_to(&mut swapped);
    assert_eq!(db.get("a", &vec![Some(swapped)]).err(), Some(StoreError::CorruptTable));
    assert_eq!(db.get("a", &vec![Some(vec![1, 2, 3])]).err(), Some(StoreError::CorruptRecord));
}

#[test]
fn manifest_is_created_only_where_that_is_allowed() {
    let (m, must_write) = get_or_create_manifest(ManifestFile::Missing, true).unwrap();
    assert!(must_write);
    assert_eq!(m.version, VERSION);
    assert_eq!(m.last_sequence, 0);
    assert!(m.sstables.is_empty());
    let r = get_or_create_manifest(ManifestFile::Missing, false);
    assert_eq!(r.err(), Some(StoreError::NotFound));
    let r = get_or_create_manifest(ManifestFile::Unreadable, true);
    assert_eq!(r.err(), Some(StoreError::CorruptManifest));
    let found = Manifest { version: "9.9".to_string(), last_sequence: 4, sstables: Vec::new() };
    let (m, must_write) = get_or_create_manifest(ManifestFile::Found(found), false).unwrap();
    assert!(!must_write);
    assert_eq!(m.version, "9.9");
    assert_eq!(m.last_sequence, 4);
}

#[test]
fn build_refuses_another_version() {
    let manifest = Manifest { version: "0.0.0-other".to_string(), last_sequence: 0, sstables: Vec::new() };
    assert_eq!(SSTableSet::build(&manifest, &Vec::new()).err(), Some(StoreError::VersionMismatch));
    let r = DatabaseImpl::build(config(2), &manifest, &Vec::new());
    assert_eq!(r.err(), Some(StoreError::VersionMismatch));
}

#[test]
fn build_loads_the_indexes_in_manifest_order() {
    let entry = |n: &str| SSTableEntry { data_path: format!("{}.db", n), index_path: format!("{}.idx", n) };
    let manifest = Manifest {
        version: VERSION.to_string(),
        last_sequence: 7,
        sstables: vec![entry("00007"), entry("00003")],
    };
    let first = vec![0, 1, b'a', 0, 0, 0, 0, 0, 0, 0, 0];
    let second = vec![0, 1, b'q', 0, 0, 0, 0, 0, 0, 0, 9];
    let set = SSTableSet::build(&manifest, &vec![Some(first.clone()), Some(second.clone())]).unwrap();
    assert_eq!(set.last_sequence, 7);
    assert_eq!(set.tables.len(), 2);
    assert_eq!(set.tables[0].data_path, "00007.db");
    assert_eq!(set.tables[0].index_path, "00007.idx");
    assert_eq!(set.tables[0].index.key_at(0), "a");
    assert_eq!(set.tables[1].data_path, "00003.db");
    assert_eq!(set.tables[1].index.key_at(0), "q");
    assert_eq!(*set.tables[1].index.value_at(0), 9);
    let back = Manifest::new(&set);
    assert_eq!(back.version, VERSION);
    assert_eq!(back.last_sequence, 7);
    assert_eq!(back.sstables.len(), 2);
    assert_eq!(back.sstables[1].index_path, "00003.idx");

    let r = SSTableSet::build(&manifest, &vec![Some(first.clone()), None]);
    assert_eq!(r.err(), Some(StoreError::NotFound));
    let r = SSTableSet::build(&manifest, &vec![Some(first.clone())]);
    assert_eq!(r.err(), Some(StoreError::NotFound));
    let r = SSTableSet::build(&manifest, &vec![Some(first.clone()), Some(Vec::new())]);
    assert_eq!(r.err(), Some(StoreError::CorruptIndex));
    let r = SSTableSet::build(&manifest, &vec![Some(first.clone()), Some(vec![0, 1, b'q', 0])]);
    assert_eq!(r.err(), Some(StoreError::CorruptIndex));
    let r = SSTableSet::build(&manifest, &vec![Some(Vec::new()), None]);
    assert_eq!(r.err(), Some(StoreError::CorruptIndex));
    let r = SSTableSet::build(&manifest, &vec![None, Some(Vec::new())]);
    assert_eq!(r.err(), Some(StoreError::NotFound));
}

#[test]
fn default_config() {
    let c = Config::default();
    assert_eq!(c.data_dir, "./data");
    assert_eq!(c.sparse_stride, 50);
    assert_eq!(c.memtable_capacity, 1000);
    assert!(c.create_if_missing);
}

#[test]
fn controller_tells_when_a_flush_is_due() {
    let (db, mut disk) = fresh(2);
    let mut c = Controller::new(db, 10);
    assert!(!c.is_shutdown());
    assert!(!c.set("ab".to_string(), text("xyz")));
    assert!(!c.set("cd".to_string(), text("xyz")));
    assert_eq!(c.engine().current_size(), 10);
    assert!(c.set("e".to_string(), text("")));
    assert_eq!(c.engine().current_size(), 11);
    assert!(!c.delete("ab".to_string()));
    assert_eq!(c.engine().current_size(), 8);
    assert!(c.set("long".to_string(), Value::Int64(0)));
    assert_eq!(c.engine().current_size(), 20);
    assert!(c.delete("f".to_string()));
    let staged = c.stage_flush().unwrap();
    disk.data.insert(0, Some(staged.data.clone()));
    c.commit_flush(staged);
    assert_eq!(c.engine().current_size(), 0);
    assert!(c.stage_flush().is_none());
    assert_eq!(c.get("e", &disk.data).unwrap().is_some(), true);
    assert_eq!(c.get("ab", &disk.data).unwrap().is_none(), true);
}

#[test]
fn shutdown_is_idempotent_and_stages_the_last_flush() {
    let (db, _disk) = fresh(2);
    let mut c = Controller::new(db, 1000);
    c.set("k".to_string(), text("v"));
    let staged = c.shutdown();
    assert!(c.is_shutdown());
    let staged = staged.unwrap();
    assert_eq!(staged.data_path, "00001.db");
    c.commit_flush(staged);
    assert!(c.shutdown().is_none());
    assert!(c.is_shutdown());

    let (db, _disk) = fresh(2);
    let mut idle = Controller::new(db, 1000);
    assert!(idle.shutdown().is_none());
    assert!(idle.is_shutdown());
    idle.set("late".to_string(), text("v"));
    assert!(idle.shutdown().is_none());
}

#[test]
fn engine_tells_which_writes_it_accepts() {
    let (mut db, _disk) = fresh(2);
    let long = "k".repeat(65536);
    assert!(db.accepts("k", &MemValue::Tombstone));
    assert!(db.accepts("", &MemValue::Value(text(""))));
    assert!(db.accepts(&"k".repeat(65535), &MemValue::Value(text(&"v".repeat(65535)))));
    assert!(!db.accepts(&long, &MemValue::Tombstone));
    assert!(!db.accepts("k", &MemValue::Value(text(&long))));
    assert!(db.accepts("k", &MemValue::Value(Value::Int64(1))));
    db.set("k".to_string(), text("v"));
    assert!(db.accepts("k", &MemValue::Value(Value::Float64(7))));
}

#[test]
fn a_read_asks_for_one_data_file_at_a_time() {
    let (mut db, mut disk) = fresh(2);
    assert!(matches!(db.begin_read("a"), ReadStep::Done(None)));
    db.set("old".to_string(), text("1"));
    db.set("both".to_string(), text("first"));
    flush(&mut db, &mut disk);
    db.set("both".to_string(), text("second"));
    db.delete("old".to_string());
    flush(&mut db, &mut disk);
    db.set("mem".to_string(), text("3"));
    db.delete("gone".to_string());

    assert!(matches!(db.begin_read("mem"), ReadStep::Done(Some(Value::Str(ref s))) if s == "3"));
    assert!(matches!(db.begin_read("gone"), ReadStep::Done(None)));
    assert!(matches!(db.begin_read("both"), ReadStep::Open(0)));

    let newest = disk.data[0].clone().unwrap();
    let oldest = disk.data[1].clone().unwrap();
    let step = db.continue_read("both", 0, Some(&newest)).unwrap();
    assert!(matches!(step, ReadStep::Done(Some(Value::Str(ref s))) if s == "second"));
    let step = db.continue_read("old", 0, Some(&newest)).unwrap();
    assert!(matches!(step, ReadStep::Done(None)));
    let step = db.continue_read("nowhere", 0, Some(&newest)).unwrap();
    assert!(matches!(step, ReadStep::Open(1)));
    let step = db.continue_read("nowhere", 1, Some(&oldest)).unwrap();
    assert!(matches!(step, ReadStep::Done(None)));
    let step = db.continue_read("old", 1, Some(&oldest)).unwrap();
    assert!(matches!(step, ReadStep::Done(Some(Value::Str(ref s))) if s == "1"));
    assert_eq!(db.continue_read("old", 1, None).err(), Some(StoreError::NotFound));
    assert_eq!(db.continue_read("old", 1, Some(&[9, 9, 9])).err(), Some(StoreError::CorruptRecord));

    for key in ["mem", "gone", "both", "old", "nowhere"] {
        let mut step = db.begin_read(key);
        let by_steps = loop {
            match step {
                ReadStep::Done(found) => break found,
                ReadStep::Open(i) => {
                    step = db.continue_read(key, i, disk.data[i].as_deref()).unwrap();
                }
            }
        };
        let at_once = db.get(key, &disk.data).unwrap();
        assert_eq!(format!("{:?}", by_steps), format!("{:?}", at_once));
    }

    let c = Controller::new(db, 10);
    assert!(matches!(c.begin_read("both"), ReadStep::Open(0)));
    let step = c.continue_read("both", 0, Some(&newest)).unwrap();
    assert!(matches!(step, ReadStep::Done(Some(_))));
    assert!(c.accepts("a", &MemValue::Tombstone));
}
