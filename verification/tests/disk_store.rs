//! The store in tables of a file.
use std::error::Error;
use std::fmt;
use std::path::Path;

use mangle::codec::{deserialize_tuple, serialize_tuple};
use mangle::disk_store::DiskStore;
use mangle::mem_tables::MemTables;
use mangle::store::Store;
use mangle::tables::{Db, StoreError, Tables, Write};
use mangle::value::{CompoundKind, Value};
use redb::{Database, ReadableDatabase, ReadableTable, TableDefinition, TableError, TableHandle};

/// The relations and the number of the next row of each.
const META_TABLE: TableDefinition<&str, u64> = TableDefinition::new("__meta__");

/// The version of the format of rows.
const FORMAT_TABLE: TableDefinition<&str, u64> = TableDefinition::new("__format__");

/// The key of the version.
const FORMAT_VERSION_KEY: &str = "tuple_format_version";

/// Tables that `redb` keeps in a file.
struct RedbTables {
    db: Database,
}

fn failed<E: std::fmt::Display>(e: E) -> StoreError {
    StoreError::Tables(e.to_string())
}

fn rows_of(table: &str) -> TableDefinition<'_, u64, &'static [u8]> {
    TableDefinition::new(table)
}

fn entries_of(table: &str) -> TableDefinition<'_, (&'static [u8], u64), ()> {
    TableDefinition::new(table)
}

impl RedbTables {
    /// Opens the tables in a file, or makes it.
    fn create(path: &Path) -> Result<RedbTables, StoreError> {
        let db = Database::create(path).map_err(failed)?;
        let txn = db.begin_write().map_err(failed)?;
        txn.open_table(META_TABLE).map_err(failed)?;
        txn.open_table(FORMAT_TABLE).map_err(failed)?;
        txn.commit().map_err(failed)?;
        Ok(RedbTables { db })
    }

    fn write(&self, txn: &redb::WriteTransaction, write: &Write) -> Result<(), StoreError> {
        match write {
            Write::PutRow { table, id, data } => {
                let mut rows = txn.open_table(rows_of(table)).map_err(failed)?;
                rows.insert(*id, data.as_slice()).map_err(failed)?;
            }
            Write::RemoveRow { table, id } => {
                let mut rows = txn.open_table(rows_of(table)).map_err(failed)?;
                rows.remove(*id).map_err(failed)?;
            }
            Write::PutEntry { table, key, id } => {
                let mut entries = txn.open_table(entries_of(table)).map_err(failed)?;
                entries.insert((key.as_slice(), *id), ()).map_err(failed)?;
            }
            Write::RemoveEntry { table, key, id } => {
                let mut entries = txn.open_table(entries_of(table)).map_err(failed)?;
                entries.remove((key.as_slice(), *id)).map_err(failed)?;
            }
            Write::DropRows { table } => {
                txn.delete_table(rows_of(table)).map_err(failed)?;
            }
            Write::DropEntries { table } => {
                txn.delete_table(entries_of(table)).map_err(failed)?;
            }
            Write::PutMeta { relation, next_id } => {
                let mut meta = txn.open_table(META_TABLE).map_err(failed)?;
                meta.insert(relation.as_str(), *next_id).map_err(failed)?;
            }
            Write::PutVersion { version } => {
                let mut format = txn.open_table(FORMAT_TABLE).map_err(failed)?;
                format.insert(FORMAT_VERSION_KEY, *version).map_err(failed)?;
            }
        }
        Ok(())
    }
}

impl Tables for RedbTables {
    // What the tables hold is only spoken of in contracts.
    fn contents(&self) -> Db {
        unreachable!()
    }

    fn wf(&self) -> bool {
        true
    }

    fn reliable(&self) -> bool {
        false
    }

    fn version(&self) -> Result<Option<u64>, StoreError> {
        let txn = self.db.begin_read().map_err(failed)?;
        let format = txn.open_table(FORMAT_TABLE).map_err(failed)?;
        let found = format.get(FORMAT_VERSION_KEY).map_err(failed)?;
        Ok(found.map(|v| v.value()))
    }

    fn meta(&self) -> Result<Vec<(String, u64)>, StoreError> {
        let txn = self.db.begin_read().map_err(failed)?;
        let meta = txn.open_table(META_TABLE).map_err(failed)?;
        let mut out = Vec::new();
        for entry in meta.iter().map_err(failed)? {
            let (name, next_id) = entry.map_err(failed)?;
            out.push((name.value().to_string(), next_id.value()));
        }
        Ok(out)
    }

    fn rows(&self, table: &str) -> Result<Vec<(u64, Vec<u8>)>, StoreError> {
        let txn = self.db.begin_read().map_err(failed)?;
        let rows = match txn.open_table(rows_of(table)) {
            Ok(rows) => rows,
            Err(TableError::TableDoesNotExist(_)) => return Ok(Vec::new()),
            Err(e) => return Err(failed(e)),
        };
        let mut out = Vec::new();
        for entry in rows.iter().map_err(failed)? {
            let (id, data) = entry.map_err(failed)?;
            out.push((id.value(), data.value().to_vec()));
        }
        Ok(out)
    }

    fn row(&self, table: &str, id: u64) -> Result<Option<Vec<u8>>, StoreError> {
        let txn = self.db.begin_read().map_err(failed)?;
        let rows = match txn.open_table(rows_of(table)) {
            Ok(rows) => rows,
            Err(TableError::TableDoesNotExist(_)) => return Ok(None),
            Err(e) => return Err(failed(e)),
        };
        let found = rows.get(id).map_err(failed)?;
        Ok(found.map(|data| data.value().to_vec()))
    }

    fn entries(&self, table: &str, key: &Vec<u8>) -> Result<Vec<u64>, StoreError> {
        let txn = self.db.begin_read().map_err(failed)?;
        let entries = match txn.open_table(entries_of(table)) {
            Ok(entries) => entries,
            Err(TableError::TableDoesNotExist(_)) => return Ok(Vec::new()),
            Err(e) => return Err(failed(e)),
        };
        let mut out = Vec::new();
        let range = (key.as_slice(), 0u64)..=(key.as_slice(), u64::MAX);
        for entry in entries.range(range).map_err(failed)? {
            let (place, _) = entry.map_err(failed)?;
            out.push(place.value().1);
        }
        Ok(out)
    }

    fn entry_tables(&self) -> Result<Vec<String>, StoreError> {
        let txn = self.db.begin_read().map_err(failed)?;
        let tables = txn.list_tables().map_err(failed)?;
        Ok(tables.map(|table| table.name().to_string()).collect())
    }

    fn commit(&mut self, writes: &Vec<Write>) -> Result<(), StoreError> {
        let txn = self.db.begin_write().map_err(failed)?;
        for write in writes {
            self.write(&txn, write)?;
        }
        txn.commit().map_err(failed)
    }
}

/// An error that can be shown.
#[derive(Debug)]
struct Failure(StoreError);

impl fmt::Display for Failure {
    fn fmt(&self, f: &mut fmt::Formatter<'_>) -> fmt::Result {
        f.write_str(&self.0.message())
    }
}

impl Error for Failure {}

/// A store whose errors can be shown.
struct Shown<T: Tables>(DiskStore<T>);

impl<T: Tables> Shown<T> {
    fn create_relation(&mut self, relation: &str) {
        self.0.create_relation(relation);
    }

    fn insert(&mut self, relation: &str, tuple: Vec<Value>) -> Result<bool, Failure> {
        self.0.insert(relation, tuple).map_err(Failure)
    }

    fn retract(&mut self, relation: &str, tuple: &Vec<Value>) -> Result<bool, Failure> {
        self.0.retract(relation, tuple).map_err(Failure)
    }

    fn merge_deltas(&mut self) {
        self.0.merge_deltas();
    }

    fn clear(&mut self, relation: &str) {
        self.0.clear(relation);
    }

    fn scan(&self, relation: &str) -> Result<Vec<Vec<Value>>, Failure> {
        self.0.scan(relation).map_err(Failure)
    }

    fn scan_delta(&self, relation: &str) -> Result<Vec<Vec<Value>>, Failure> {
        self.0.scan_delta(relation).map_err(Failure)
    }

    fn scan_index(&self, relation: &str, col: usize, key: &Value) -> Result<Vec<Vec<Value>>, Failure> {
        self.0.scan_index(relation, col, key).map_err(Failure)
    }

    fn scan_delta_index(&self, relation: &str, col: usize, key: &Value) -> Result<Vec<Vec<Value>>, Failure> {
        self.0.scan_delta_index(relation, col, key).map_err(Failure)
    }
}

impl Failure {
    fn message(&self) -> String {
        self.0.message()
    }
}

fn open(path: &Path) -> Result<Shown<RedbTables>, Failure> {
    let tables = RedbTables::create(path).map_err(Failure)?;
    Ok(Shown(DiskStore::open(tables).map_err(Failure)?))
}

fn bits(x: f64) -> u64 {
    x.to_bits()
}

fn roundtrip(tuple: Vec<Value>) -> Vec<Value> {
    let bytes = serialize_tuple(&tuple);
    deserialize_tuple(&bytes).expect("roundtrip should succeed")
}

#[test]
fn test_tuple_roundtrip_number() {
    let t = vec![Value::Number(0), Value::Number(-1), Value::Number(i64::MAX)];
    assert_eq!(roundtrip(t.clone()), t);
}

#[test]
fn test_tuple_roundtrip_float_incl_nan() {
    let nan_payload = f64::from_bits(0x7ff8_0000_1234_5678);
    let t = vec![
        Value::Float(bits(1.5)),
        Value::Float(bits(-0.0)),
        Value::Float(bits(f64::INFINITY)),
        Value::Float(bits(f64::NEG_INFINITY)),
        Value::Float(bits(nan_payload)),
    ];
    let out = roundtrip(t.clone());
    // Float PartialEq on Value compares by bits, so NaN payload must match.
    assert_eq!(out, t);
    if let (Value::Float(a), Value::Float(b)) = (&out[4], &t[4]) {
        assert_eq!(a, b, "NaN payload must roundtrip bit-exact");
    } else {
        panic!("expected Float at index 4");
    }
}

#[test]
fn test_tuple_roundtrip_string_and_name() {
    let t = vec![
        Value::String("hello".to_string()),
        Value::Name("/foo/bar".to_string()),
        Value::String("".to_string()),
    ];
    assert_eq!(roundtrip(t.clone()), t);
}

#[test]
fn test_tuple_roundtrip_time_duration() {
    let t = vec![Value::Time(1_700_000_000_123_456_789), Value::Duration(-42)];
    assert_eq!(roundtrip(t.clone()), t);
}

#[test]
fn test_tuple_roundtrip_compound_all_kinds() {
    let t = vec![
        Value::Compound(CompoundKind::List, vec![Value::Number(1), Value::Number(2)]),
        Value::Compound(
            CompoundKind::Pair,
            vec![Value::String("k".to_string()), Value::Number(3)],
        ),
        Value::Compound(
            CompoundKind::Dict,
            vec![
                Value::Name("/key1".to_string()),
                Value::Number(1),
                Value::Name("/key2".to_string()),
                Value::Number(2),
            ],
        ),
        Value::Compound(
            CompoundKind::Struct,
            vec![Value::Name("/x".to_string()), Value::Number(10)],
        ),
    ];
    assert_eq!(roundtrip(t.clone()), t);
}

#[test]
fn test_tuple_roundtrip_nested_compound() {
    let inner = Value::Compound(CompoundKind::List, vec![Value::Number(1)]);
    let t = vec![Value::Compound(CompoundKind::List, vec![inner.clone(), inner])];
    assert_eq!(roundtrip(t.clone()), t);
}

#[test]
fn test_tuple_roundtrip_null_and_mixed() {
    let t = vec![
        Value::Null,
        Value::Number(1),
        Value::Null,
        Value::String("end".to_string()),
    ];
    assert_eq!(roundtrip(t.clone()), t);
}

#[test]
fn test_tuple_roundtrip_empty() {
    assert_eq!(roundtrip(vec![]), Vec::<Value>::new());
}

/// Simulate a legacy DB: meta table has relation entries but no recorded
/// format version. Reopening should bail.
#[test]
fn test_open_rejects_legacy_db() -> Result<(), Box<dyn Error>> {
    let dir = tempfile::tempdir()?;
    let db_path = dir.path().join("legacy.redb");

    // Hand-build a legacy-shaped DB without going through DiskStore::open.
    {
        let db = Database::create(&db_path)?;
        let write_txn = db.begin_write()?;
        {
            let mut meta = write_txn.open_table(META_TABLE)?;
            meta.insert("some_relation", 0u64)?;
            // Note: FORMAT_TABLE is intentionally not populated.
        }
        write_txn.commit()?;
    }

    let err = open(&db_path).err().expect("open should fail");
    assert!(
        err.message().contains("legacy JSON"),
        "expected legacy-format error, got: {}",
        err.message()
    );
    Ok(())
}

/// A DB with a format version we don't recognize must be rejected on open.
#[test]
fn test_open_rejects_unknown_format_version() -> Result<(), Box<dyn Error>> {
    let dir = tempfile::tempdir()?;
    let db_path = dir.path().join("future.redb");

    {
        let db = Database::create(&db_path)?;
        let write_txn = db.begin_write()?;
        {
            let mut format = write_txn.open_table(FORMAT_TABLE)?;
            format.insert(FORMAT_VERSION_KEY, 9999u64)?;
        }
        write_txn.commit()?;
    }

    let err = open(&db_path).err().expect("open should fail");
    assert!(
        err.message()
            .contains("database tuple format version is 9999"),
        "expected unknown-version error, got: {}",
        err.message()
    );
    Ok(())
}

/// A fresh DB created by DiskStore::open must reopen cleanly with the
/// matching format version recorded.
#[test]
fn test_open_records_format_version_on_fresh_db() -> Result<(), Box<dyn Error>> {
    let dir = tempfile::tempdir()?;
    let db_path = dir.path().join("fresh.redb");
    {
        let mut store = open(&db_path)?;
        store.create_relation("r");
        store.insert("r", vec![Value::Number(1)])?;
        store.merge_deltas();
    }
    // Reopen — should succeed, no format errors.
    let store = open(&db_path)?;
    let facts: Vec<_> = store.scan("r")?;
    assert_eq!(facts.len(), 1);
    Ok(())
}

#[test]
fn test_deserialize_rejects_empty() {
    let err = deserialize_tuple(&[]).unwrap_err();
    assert!(
        err.message().contains("failed to decode tuple"),
        "got: {}",
        err.message()
    );
}

#[test]
fn test_disk_store_basic() -> Result<(), Box<dyn Error>> {
    let dir = tempfile::tempdir()?;
    let db_path = dir.path().join("test.redb");

    let mut store = open(&db_path)?;
    store.create_relation("edge");

    store.insert("edge", vec![Value::Number(1), Value::Number(2)])?;
    store.insert("edge", vec![Value::Number(2), Value::Number(3)])?;
    store.merge_deltas();

    let facts: Vec<_> = store.scan("edge")?;
    assert_eq!(facts.len(), 2);

    Ok(())
}

#[test]
fn test_disk_store_dedup() -> Result<(), Box<dyn Error>> {
    let dir = tempfile::tempdir()?;
    let db_path = dir.path().join("test.redb");

    let mut store = open(&db_path)?;
    store.create_relation("r");

    let inserted1 = store.insert("r", vec![Value::Number(1)])?;
    assert!(inserted1);

    let inserted2 = store.insert("r", vec![Value::Number(1)])?;
    assert!(!inserted2);

    store.merge_deltas();

    let inserted3 = store.insert("r", vec![Value::Number(1)])?;
    assert!(!inserted3);

    let facts: Vec<_> = store.scan("r")?;
    assert_eq!(facts.len(), 1);

    Ok(())
}

#[test]
fn test_disk_store_retract() -> Result<(), Box<dyn Error>> {
    let dir = tempfile::tempdir()?;
    let db_path = dir.path().join("test.redb");

    let mut store = open(&db_path)?;
    store.create_relation("r");

    store.insert("r", vec![Value::Number(1)])?;
    store.insert("r", vec![Value::Number(2)])?;
    store.merge_deltas();

    let removed = store.retract("r", &vec![Value::Number(1)])?;
    assert!(removed);

    let facts: Vec<_> = store.scan("r")?;
    assert_eq!(facts.len(), 1);
    assert_eq!(facts[0], vec![Value::Number(2)]);

    Ok(())
}

#[test]
fn test_disk_store_with_strings() -> Result<(), Box<dyn Error>> {
    let dir = tempfile::tempdir()?;
    let db_path = dir.path().join("test.redb");

    let mut store = open(&db_path)?;
    store.create_relation("user");

    store.insert(
        "user",
        vec![Value::String("Alice".to_string()), Value::Number(30)],
    )?;
    store.insert(
        "user",
        vec![Value::String("Bob".to_string()), Value::Number(25)],
    )?;
    store.merge_deltas();

    let facts: Vec<_> = store.scan("user")?;
    assert_eq!(facts.len(), 2);

    Ok(())
}

#[test]
fn test_disk_store_semi_naive() -> Result<(), Box<dyn Error>> {
    let dir = tempfile::tempdir()?;
    let db_path = dir.path().join("test.redb");

    let mut store = open(&db_path)?;
    store.create_relation("r");

    // Insert and merge (simulating semi-naive iteration)
    store.insert("r", vec![Value::Number(1)])?;
    store.merge_deltas();

    // Delta should now have the fact, next insert goes to next_delta
    let delta: Vec<_> = store.scan_delta("r")?;
    assert_eq!(delta.len(), 1);

    store.insert("r", vec![Value::Number(2)])?;
    store.merge_deltas();

    // Now both facts should be in stable or delta
    let all: Vec<_> = store.scan("r")?;
    assert_eq!(all.len(), 2);

    Ok(())
}

/// A sorted multiset of tuples — scan order is not stable across tiers, so
/// tests that care about content (not order) must sort.
fn sorted(mut v: Vec<Vec<Value>>) -> Vec<Vec<Value>> {
    v.sort_by_key(|row| format!("{:?}", row));
    v
}

#[test]
fn test_scan_index_returns_only_matching_rows() -> Result<(), Box<dyn Error>> {
    let dir = tempfile::tempdir()?;
    let db_path = dir.path().join("idx.redb");
    let mut store = open(&db_path)?;
    store.create_relation("edge");

    store.insert("edge", vec![Value::Number(1), Value::Number(2)])?;
    store.insert("edge", vec![Value::Number(1), Value::Number(3)])?;
    store.insert("edge", vec![Value::Number(2), Value::Number(3)])?;
    store.merge_deltas();
    store.merge_deltas();

    // Index on column 0, value 1 → two matching rows.
    let got: Vec<_> = store.scan_index("edge", 0, &Value::Number(1))?;
    assert_eq!(
        sorted(got),
        sorted(vec![
            vec![Value::Number(1), Value::Number(2)],
            vec![Value::Number(1), Value::Number(3)],
        ])
    );

    // Index on column 1, value 3 → two matching rows.
    let got: Vec<_> = store.scan_index("edge", 1, &Value::Number(3))?;
    assert_eq!(
        sorted(got),
        sorted(vec![
            vec![Value::Number(1), Value::Number(3)],
            vec![Value::Number(2), Value::Number(3)],
        ])
    );

    // Non-matching key → empty.
    let got: Vec<_> = store.scan_index("edge", 0, &Value::Number(999))?;
    assert!(got.is_empty());

    Ok(())
}

#[test]
fn test_scan_index_across_all_value_variants() -> Result<(), Box<dyn Error>> {
    let dir = tempfile::tempdir()?;
    let db_path = dir.path().join("variants.redb");
    let mut store = open(&db_path)?;
    store.create_relation("r");

    let compound = Value::Compound(
        CompoundKind::Struct,
        vec![Value::Name("/f".to_string()), Value::Number(7)],
    );
    let rows = vec![
        vec![Value::Number(42)],
        vec![Value::Float(bits(1.25))],
        vec![Value::String("hello".to_string())],
        vec![Value::Name("/foo".to_string())],
        vec![Value::Time(1_700_000_000)],
        vec![Value::Duration(-1)],
        vec![compound.clone()],
        vec![Value::Null],
    ];
    for r in &rows {
        store.insert("r", r.clone())?;
    }
    store.merge_deltas();
    store.merge_deltas();

    for r in &rows {
        let got: Vec<_> = store.scan_index("r", 0, &r[0])?;
        assert_eq!(got, vec![r.clone()], "variant lookup failed: {:?}", r[0]);
    }
    Ok(())
}

#[test]
fn test_scan_delta_index_is_delta_only() -> Result<(), Box<dyn Error>> {
    let dir = tempfile::tempdir()?;
    let db_path = dir.path().join("delta.redb");
    let mut store = open(&db_path)?;
    store.create_relation("r");

    // Two merges → row is in stable.
    store.insert("r", vec![Value::Number(1), Value::String("s".to_string())])?;
    store.merge_deltas();
    store.merge_deltas();

    // One more insert + one merge → row is in delta.
    store.insert("r", vec![Value::Number(2), Value::String("d".to_string())])?;
    store.merge_deltas();

    let in_all: Vec<_> = store.scan_index("r", 0, &Value::Number(1))?;
    assert_eq!(in_all.len(), 1, "stable row must be reachable via scan_index");

    let in_delta_only: Vec<_> = store
        .scan_delta_index("r", 0, &Value::Number(1))?;
    assert!(
        in_delta_only.is_empty(),
        "stable row must not surface in scan_delta_index"
    );

    let delta_row: Vec<_> = store
        .scan_delta_index("r", 0, &Value::Number(2))?;
    assert_eq!(delta_row.len(), 1);
    Ok(())
}

#[test]
fn test_retract_removes_from_index() -> Result<(), Box<dyn Error>> {
    let dir = tempfile::tempdir()?;
    let db_path = dir.path().join("retract.redb");
    let mut store = open(&db_path)?;
    store.create_relation("r");

    store.insert("r", vec![Value::Number(1), Value::Number(10)])?;
    store.insert("r", vec![Value::Number(1), Value::Number(20)])?;
    store.merge_deltas();
    store.merge_deltas();

    assert!(store.retract("r", &vec![Value::Number(1), Value::Number(10)])?);

    let via_col0: Vec<_> = store.scan_index("r", 0, &Value::Number(1))?;
    assert_eq!(via_col0, vec![vec![Value::Number(1), Value::Number(20)]]);

    let via_col1: Vec<_> = store.scan_index("r", 1, &Value::Number(10))?;
    assert!(
        via_col1.is_empty(),
        "retracted row must be absent from every column's index"
    );

    let still_there: Vec<_> = store.scan_index("r", 1, &Value::Number(20))?;
    assert_eq!(
        still_there,
        vec![vec![Value::Number(1), Value::Number(20)]]
    );
    Ok(())
}

#[test]
fn test_index_matches_filtered_full_scan() -> Result<(), Box<dyn Error>> {
    let dir = tempfile::tempdir()?;
    let db_path = dir.path().join("consistency.redb");
    let mut store = open(&db_path)?;
    store.create_relation("t");

    // Three-column relation with deliberate value overlap across columns.
    let tuples = vec![
        vec![Value::Number(1), Value::String("a".to_string()), Value::Number(7)],
        vec![Value::Number(2), Value::String("a".to_string()), Value::Number(7)],
        vec![Value::Number(2), Value::String("b".to_string()), Value::Number(8)],
        vec![Value::Number(3), Value::String("b".to_string()), Value::Number(7)],
    ];
    for t in &tuples {
        store.insert("t", t.clone())?;
    }
    store.merge_deltas();
    store.insert(
        "t",
        vec![Value::Number(1), Value::String("b".to_string()), Value::Number(9)],
    )?;
    store.merge_deltas();

    let all: Vec<_> = store.scan("t")?;
    assert_eq!(all.len(), 5);

    let queries: Vec<(usize, Value)> = vec![
        (0, Value::Number(1)),
        (0, Value::Number(2)),
        (1, Value::String("a".to_string())),
        (1, Value::String("b".to_string())),
        (2, Value::Number(7)),
        (2, Value::Number(9)),
    ];
    for (col, key) in queries {
        let via_index: Vec<_> = store.scan_index("t", col, &key)?;
        let via_scan: Vec<_> = all
            .iter()
            .filter(|row| row.get(col) == Some(&key))
            .cloned()
            .collect();
        assert_eq!(
            sorted(via_index),
            sorted(via_scan),
            "index disagrees with filtered scan for col={col}, key={key:?}"
        );
    }
    Ok(())
}

#[test]
fn test_crash_safety_no_partial_index() -> Result<(), Box<dyn Error>> {
    let dir = tempfile::tempdir()?;
    let db_path = dir.path().join("crash.redb");
    {
        let mut store = open(&db_path)?;
        store.create_relation("r");
        store.insert("r", vec![Value::Number(1), Value::Number(2)])?;
        store.insert("r", vec![Value::Number(3), Value::Number(4)])?;
        store.merge_deltas();
        store.merge_deltas();
        // Simulate crash: drop the store without an explicit flush beyond
        // the per-op commits already performed. redb's mmap + WAL guarantees
        // each committed op is durable; in-progress ones are discarded.
    }

    let store = open(&db_path)?;
    // Every committed row must be fully reachable via every column's index.
    let got: Vec<_> = store.scan_index("r", 0, &Value::Number(1))?;
    assert_eq!(got, vec![vec![Value::Number(1), Value::Number(2)]]);
    let got: Vec<_> = store.scan_index("r", 1, &Value::Number(4))?;
    assert_eq!(got, vec![vec![Value::Number(3), Value::Number(4)]]);
    Ok(())
}

#[test]
fn test_insert_dedup_uses_index_path() -> Result<(), Box<dyn Error>> {
    // Not a direct observation of the index being used, but a functional
    // check of what it is used for.
    let dir = tempfile::tempdir()?;
    let db_path = dir.path().join("dedup.redb");
    let mut store = open(&db_path)?;
    store.create_relation("r");

    assert!(store.insert("r", vec![Value::Number(1), Value::Number(2)])?);
    assert!(!store.insert("r", vec![Value::Number(1), Value::Number(2)])?);
    store.merge_deltas();
    assert!(!store.insert("r", vec![Value::Number(1), Value::Number(2)])?);
    store.merge_deltas();
    assert!(!store.insert("r", vec![Value::Number(1), Value::Number(2)])?);

    let all: Vec<_> = store.scan("r")?;
    assert_eq!(all.len(), 1);
    Ok(())
}

#[test]
fn test_clear_removes_index_tables() -> Result<(), Box<dyn Error>> {
    let dir = tempfile::tempdir()?;
    let db_path = dir.path().join("clear.redb");
    let mut store = open(&db_path)?;
    store.create_relation("r");
    store.insert("r", vec![Value::Number(1), Value::Number(2)])?;
    store.insert("r", vec![Value::Number(3), Value::Number(4)])?;
    store.merge_deltas();
    store.merge_deltas();

    store.clear("r");

    let got: Vec<_> = store.scan_index("r", 0, &Value::Number(1))?;
    assert!(got.is_empty(), "after clear, index must return nothing");
    let got: Vec<_> = store.scan("r")?;
    assert!(got.is_empty(), "after clear, primary must be empty");
    Ok(())
}

fn in_memory() -> Shown<MemTables> {
    Shown(DiskStore::open(MemTables::new()).unwrap())
}

#[test]
fn a_relation_that_is_not_known_cannot_be_scanned() {
    let mut store = in_memory();
    assert_eq!(store.scan("r").unwrap_err().message(), "relation does not exist");
    store.create_relation("r");
    assert!(store.scan("r").unwrap().is_empty());
    assert_eq!(store.0.relation_names(), vec!["r".to_string()]);
}

#[test]
fn rows_go_through_the_tiers() {
    let mut store = in_memory();
    store.create_relation("r");
    store.insert("r", vec![Value::Number(1)]).unwrap();
    assert_eq!(store.0.scan_next_delta("r").unwrap(), vec![vec![Value::Number(1)]]);
    assert!(store.scan("r").unwrap().is_empty());
    store.merge_deltas();
    assert!(store.0.scan_next_delta("r").unwrap().is_empty());
    assert_eq!(store.scan_delta("r").unwrap(), vec![vec![Value::Number(1)]]);
    store.merge_deltas();
    assert!(store.scan_delta("r").unwrap().is_empty());
    assert_eq!(store.scan("r").unwrap(), vec![vec![Value::Number(1)]]);
}

#[test]
fn memory_and_files_hold_the_same() {
    let dir = tempfile::tempdir().unwrap();
    let mut file = open(&dir.path().join("same.redb")).unwrap();
    let mut memory = in_memory();
    file.create_relation("r");
    memory.create_relation("r");
    for n in [3, 1, 2, 3, 1] {
        let row = vec![Value::Number(n), Value::String(n.to_string())];
        assert_eq!(file.insert("r", row.clone()).unwrap(), memory.insert("r", row).unwrap());
        file.merge_deltas();
        memory.merge_deltas();
    }
    let row = vec![Value::Number(1), Value::String("1".to_string())];
    assert!(file.retract("r", &row).unwrap());
    assert!(memory.retract("r", &row).unwrap());
    assert!(!memory.retract("r", &row).unwrap());
    assert_eq!(file.scan("r").unwrap(), memory.scan("r").unwrap());
    assert_eq!(file.scan("r").unwrap().len(), 2);
}

#[test]
fn clearing_leaves_relations_of_longer_names() {
    let mut store = in_memory();
    for relation in ["r", "r:0", "rr"] {
        store.create_relation(relation);
        store.insert(relation, vec![Value::Number(7), Value::Number(8)]).unwrap();
    }
    store.merge_deltas();
    store.clear("r");
    assert!(store.scan("r").unwrap().is_empty());
    for relation in ["r:0", "rr"] {
        assert_eq!(store.scan(relation).unwrap().len(), 1);
        assert_eq!(store.scan_index(relation, 1, &Value::Number(8)).unwrap().len(), 1);
    }
}

#[test]
fn rounds_of_a_store() {
    let mut store = in_memory();
    store.create_relation("r");
    let row = |n: i64| vec![Value::Number(n)];
    for n in 0..5 {
        assert!(store.insert("r", row(n)).unwrap());
        store.merge_deltas();
        // What was written in an earlier round is refused, and stays.
        for m in 0..=n {
            assert!(!store.insert("r", row(m)).unwrap());
        }
        assert_eq!(store.scan_delta("r").unwrap(), vec![row(n)]);
        assert_eq!(store.scan("r").unwrap().len() as i64, n + 1);
    }
    for _ in 0..3 {
        store.merge_deltas();
        assert!(!store.insert("r", row(2)).unwrap());
    }
    assert_eq!(sorted(store.scan("r").unwrap()), (0..5).map(row).collect::<Vec<_>>());
}

#[test]
fn reopening_without_a_merge_keeps_the_rows() {
    let dir = tempfile::tempdir().unwrap();
    let path = dir.path().join("reopened.redb");
    let row = |n: i64| vec![Value::Number(n)];
    {
        let mut store = open(&path).unwrap();
        store.create_relation("r");
        assert!(store.insert("r", row(1)).unwrap());
    }
    {
        let mut store = open(&path).unwrap();
        assert!(store.insert("r", row(2)).unwrap());
        assert!(!store.insert("r", row(1)).unwrap());
        assert_eq!(sorted(store.0.scan_next_delta("r").unwrap()), vec![row(1), row(2)]);
        store.merge_deltas();
    }
    let mut store = open(&path).unwrap();
    assert!(store.insert("r", row(3)).unwrap());
    assert_eq!(sorted(store.scan("r").unwrap()), vec![row(1), row(2)]);
    store.merge_deltas();
    assert_eq!(sorted(store.scan("r").unwrap()), vec![row(1), row(2), row(3)]);
}

#[test]
fn clearing_after_two_merges() {
    let mut store = in_memory();
    store.create_relation("r");
    store.create_relation("r:x");
    store.insert("r:x", vec![Value::Number(1)]).unwrap();
    store.merge_deltas();
    store.merge_deltas();
    store.clear("r");
    assert_eq!(store.scan("r:x").unwrap(), vec![vec![Value::Number(1)]]);
    assert_eq!(store.scan_index("r:x", 0, &Value::Number(1)).unwrap(), vec![vec![Value::Number(1)]]);
    assert!(store.scan("r").unwrap().is_empty());
}

#[test]
fn an_index_lists_rows_as_a_filter_does() {
    let mut store = in_memory();
    store.create_relation("r");
    for (a, b) in [(1, 2), (2, 2), (1, 3), (3, 2), (1, 2)] {
        store.insert("r", vec![Value::Number(a), Value::Number(b)]).unwrap();
    }
    store.merge_deltas();
    for key in 1..=4 {
        let key = Value::Number(key);
        for col in 0..2 {
            let kept: Vec<Vec<Value>> = store.scan("r").unwrap().into_iter().filter(|row| row[col] == key).collect();
            assert_eq!(store.scan_index("r", col, &key).unwrap(), kept);
        }
    }
}

#[test]
fn a_store_opens_again_with_all_its_tiers() {
    let row = |n: i64| vec![Value::Number(n)];
    let mut tables = MemTables::new();
    for round in 0..3 {
        let mut store = DiskStore::open(tables).unwrap();
        store.create_relation("r");
        assert!(store.insert("r", row(round)).unwrap());
        assert!(!store.insert("r", row(round)).unwrap());
        if round < 2 {
            store.merge_deltas();
        }
        tables = store.tables;
    }
    let store = DiskStore::open(tables).unwrap();
    assert_eq!(store.scan_next_delta("r").unwrap(), vec![row(2)]);
    assert_eq!(store.scan_delta("r").unwrap(), vec![row(1)]);
    let mut seen = store.scan("r").unwrap();
    seen.sort_by_key(|row| format!("{:?}", row));
    assert_eq!(seen, vec![row(0), row(1)]);
}
