//! The binary snapshot: serialization round trips, byte-identical
//! re-serialization, and the lossy-recovery fallback.

use hypervault::parser::Predicate;
use hypervault::schema::Row;
use hypervault::storage_engine::{FileSystem, StorageEngine};

fn row(pairs: &[(&str, &str)]) -> Row {
    let mut r = Row::new();
    for (k, v) in pairs {
        r.set(k.to_string(), v.to_string());
    }
    r
}

fn populated_engine() -> StorageEngine {
    let mut e = StorageEngine::new();
    e.create_table(
        "users",
        vec!["id".to_string(), "name".to_string(), "age".to_string()],
        Some("id"),
    )
    .expect("create");
    e.create_table("logs", vec!["at".to_string(), "line".to_string()], None)
        .expect("create");
    e.insert_row("users", row(&[("id", "1"), ("name", "Ann"), ("age", "25")]))
        .expect("insert");
    e.insert_row("users", row(&[("id", "2"), ("name", "Bo b"), ("age", "30")]))
        .expect("insert");
    e.insert_row("logs", row(&[("at", "0"), ("line", "hello 'world'")]))
        .expect("insert");
    e
}

#[test]
fn snapshot_round_trip_restores_the_engine() {
    let e = populated_engine();
    let mut bytes = Vec::new();
    e.serialize(&mut bytes).expect("serialize");
    let back = StorageEngine::deserialize(&bytes).expect("deserialize");
    assert_eq!(back.metadata.version, e.metadata.version);
    assert_eq!(back.metadata.created_at, e.metadata.created_at);
    assert_eq!(back.metadata.total_operations, e.metadata.total_operations);
    assert_eq!(back.metadata.total_rows_inserted, e.metadata.total_rows_inserted);
    assert_eq!(back.get_table_names(), e.get_table_names());
    let users = back.get_table_info("users").expect("users");
    assert_eq!(users.columns, vec!["id", "name", "age"]);
    assert_eq!(users.primary_key, Some("id".to_string()));
    assert_eq!(users.rows.len(), 2);
    assert_eq!(users.rows[1].get("name"), Some(&"Bo b".to_string()));
    let logs = back.get_table_info("logs").expect("logs");
    assert_eq!(logs.rows[0].get("line"), Some(&"hello 'world'".to_string()));
    assert!(logs.primary_key.is_none());
}

#[test]
fn reserialization_is_byte_identical() {
    let e = populated_engine();
    let mut first = Vec::new();
    e.serialize(&mut first).expect("serialize");
    let back = StorageEngine::deserialize(&first).expect("deserialize");
    let mut second = Vec::new();
    back.serialize(&mut second).expect("serialize");
    assert_eq!(first, second);
}

#[test]
fn empty_engine_round_trips() {
    let e = StorageEngine::new();
    let mut bytes = Vec::new();
    e.serialize(&mut bytes).expect("serialize");
    let back = StorageEngine::deserialize(&bytes).expect("deserialize");
    assert_eq!(back.tables.len(), 0);
    assert_eq!(back.metadata.last_modified, e.metadata.last_modified);
}

#[test]
fn round_trip_survives_further_operations() {
    let mut e = populated_engine();
    let mut bytes = Vec::new();
    e.serialize(&mut bytes).expect("serialize");
    let mut back = StorageEngine::deserialize(&bytes).expect("deserialize");
    // Both copies accept the same further work.
    e.insert_row("users", row(&[("id", "3")])).expect("insert");
    back.insert_row("users", row(&[("id", "3")])).expect("insert");
    back.delete_rows("users", &Predicate::MatchNone).expect("delete");
    assert_eq!(
        back.get_table_info("users").expect("users").rows.len(),
        e.get_table_info("users").expect("users").rows.len(),
    );
}

#[test]
fn deserialize_rejects_truncated_bytes() {
    let e = populated_engine();
    let mut bytes = Vec::new();
    e.serialize(&mut bytes).expect("serialize");
    bytes.truncate(bytes.len() - 1);
    assert!(StorageEngine::deserialize(&bytes).is_err());
}

#[test]
fn deserialize_rejects_trailing_bytes() {
    let e = populated_engine();
    let mut bytes = Vec::new();
    e.serialize(&mut bytes).expect("serialize");
    bytes.push(0);
    assert!(StorageEngine::deserialize(&bytes).is_err());
}

#[test]
fn deserialize_rejects_garbage() {
    let bytes: Vec<u8> = vec![7, 7, 7, 7];
    assert!(StorageEngine::deserialize(&bytes).is_err());
}

#[test]
fn from_snapshot_restores_a_good_snapshot() {
    let e = populated_engine();
    let mut bytes = Vec::new();
    e.serialize(&mut bytes).expect("serialize");
    let fs = FileSystem::from_snapshot(&bytes);
    assert_eq!(fs.storage_engine.get_table_names(), e.get_table_names());
}

#[test]
fn from_snapshot_falls_back_to_empty_on_garbage() {
    let bytes: Vec<u8> = vec![1, 2, 3];
    let fs = FileSystem::from_snapshot(&bytes);
    assert_eq!(fs.storage_engine.tables.len(), 0, "the lossy-recovery policy");
}
