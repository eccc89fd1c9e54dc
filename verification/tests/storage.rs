//! The storage engine: table creation, row mutation, invariants,
//! statistics, and the error texts.

use hypervault::executor::{format_execution_error, ExecutionError};
use hypervault::parser::{Predicate, WhereCondition};
use hypervault::schema::Row;
use hypervault::storage_engine::{FileSystem, StorageEngine, StorageError};

fn row(pairs: &[(&str, &str)]) -> Row {
    let mut r = Row::new();
    for (k, v) in pairs {
        r.set(k.to_string(), v.to_string());
    }
    r
}

fn users_engine() -> StorageEngine {
    let mut e = StorageEngine::new();
    e.create_table(
        "users",
        vec!["id".to_string(), "name".to_string(), "age".to_string()],
        Some("id"),
    )
    .expect("create");
    e
}

fn eq_cond(column: &str, value: &str) -> Predicate {
    Predicate::Cond(WhereCondition {
        column: column.to_string(),
        operator: "=".to_string(),
        value: value.to_string(),
    })
}

#[test]
fn create_table_rejects_blank_name() {
    let mut e = StorageEngine::new();
    let r = e.create_table("   ", vec!["a".to_string()], None);
    assert!(matches!(r, Err(StorageError::InvalidTableName(_))));
}

#[test]
fn create_table_rejects_duplicate_name() {
    let mut e = users_engine();
    let r = e.create_table("users", vec!["a".to_string()], None);
    assert!(matches!(r, Err(StorageError::TableAlreadyExists(_))));
}

#[test]
fn create_table_rejects_empty_and_duplicate_columns() {
    let mut e = StorageEngine::new();
    assert!(matches!(
        e.create_table("t", vec![], None),
        Err(StorageError::InvalidSchema(_))
    ));
    assert!(matches!(
        e.create_table("t", vec!["a".to_string(), "a".to_string()], None),
        Err(StorageError::InvalidSchema(_))
    ));
}

#[test]
fn create_table_rejects_primary_key_outside_columns() {
    let mut e = StorageEngine::new();
    let r = e.create_table("t", vec!["a".to_string()], Some("b"));
    assert!(matches!(r, Err(StorageError::InvalidSchema(_))));
}

#[test]
fn insert_rejects_unknown_column() {
    let mut e = users_engine();
    let r = e.insert_row("users", row(&[("id", "1"), ("shoe", "43")]));
    assert!(matches!(r, Err(StorageError::ColumnNotFound { .. })));
}

#[test]
fn insert_rejects_missing_primary_key() {
    let mut e = users_engine();
    let r = e.insert_row("users", row(&[("name", "Ann")]));
    assert!(matches!(r, Err(StorageError::MissingPrimaryKey { .. })));
}

#[test]
fn insert_rejects_missing_table() {
    let mut e = StorageEngine::new();
    let r = e.insert_row("ghost", row(&[("a", "1")]));
    assert!(matches!(r, Err(StorageError::TableNotFound(_))));
}

#[test]
fn duplicate_primary_key_leaves_table_byte_identical() {
    let mut e = users_engine();
    e.insert_row("users", row(&[("id", "1"), ("name", "Ann")]))
        .expect("insert");
    let mut before = Vec::new();
    e.serialize(&mut before).expect("serialize");
    let r = e.insert_row("users", row(&[("id", "1"), ("name", "Bob")]));
    assert!(matches!(r, Err(StorageError::PrimaryKeyViolation { .. })));
    let mut after = Vec::new();
    e.serialize(&mut after).expect("serialize");
    assert_eq!(before, after, "a failed insert changes nothing");
}

#[test]
fn update_rows_reports_match_count() {
    let mut e = users_engine();
    e.insert_row("users", row(&[("id", "1"), ("age", "25")])).expect("insert");
    e.insert_row("users", row(&[("id", "2"), ("age", "25")])).expect("insert");
    e.insert_row("users", row(&[("id", "3"), ("age", "30")])).expect("insert");
    let updates = row(&[("age", "26")]);
    let n = e
        .update_rows("users", &updates, &eq_cond("age", "25"))
        .expect("update");
    assert_eq!(n, 2);
    let again = e
        .update_rows("users", &updates, &eq_cond("age", "25"))
        .expect("update");
    assert_eq!(again, 0, "the same update finds nothing left to match");
}

#[test]
fn update_applied_twice_leaves_table_as_once() {
    let mut e = users_engine();
    e.insert_row("users", row(&[("id", "1"), ("age", "25")])).expect("insert");
    e.insert_row("users", row(&[("id", "2"), ("age", "30")])).expect("insert");
    let updates = row(&[("name", "x")]);
    e.update_rows("users", &updates, &eq_cond("age", "25")).expect("update");
    let mut once = Vec::new();
    e.serialize(&mut once).expect("serialize");
    e.update_rows("users", &updates, &eq_cond("age", "25")).expect("update");
    let mut twice = Vec::new();
    e.serialize(&mut twice).expect("serialize");
    // Only the metadata counters move; the tables are identical.
    let t_once = e.get_table_info("users").expect("users");
    assert_eq!(t_once.rows.len(), 2);
    assert_eq!(
        t_once.rows[0].get("name"),
        Some(&"x".to_string())
    );
    assert_ne!(once, twice, "counters still move");
}

#[test]
fn update_rejects_pk_value_held_by_unmatched_row() {
    let mut e = users_engine();
    e.insert_row("users", row(&[("id", "1")])).expect("insert");
    e.insert_row("users", row(&[("id", "2")])).expect("insert");
    let updates = row(&[("id", "2")]);
    let r = e.update_rows("users", &updates, &eq_cond("id", "1"));
    assert!(matches!(r, Err(StorageError::PrimaryKeyViolation { .. })));
    assert_eq!(e.get_table_info("users").expect("users").rows.len(), 2);
}

#[test]
fn update_rejects_pk_assignment_over_many_rows() {
    let mut e = users_engine();
    e.insert_row("users", row(&[("id", "1"), ("age", "9")])).expect("insert");
    e.insert_row("users", row(&[("id", "2"), ("age", "9")])).expect("insert");
    let updates = row(&[("id", "7")]);
    let r = e.update_rows("users", &updates, &eq_cond("age", "9"));
    assert!(
        matches!(r, Err(StorageError::PrimaryKeyViolation { .. })),
        "one value cannot key two rows"
    );
}

#[test]
fn delete_rows_counts_and_keeps_the_rest() {
    let mut e = users_engine();
    e.insert_row("users", row(&[("id", "1"), ("age", "25")])).expect("insert");
    e.insert_row("users", row(&[("id", "2"), ("age", "30")])).expect("insert");
    e.insert_row("users", row(&[("id", "3"), ("age", "25")])).expect("insert");
    let n = e.delete_rows("users", &eq_cond("age", "25")).expect("delete");
    assert_eq!(n, 2);
    let t = e.get_table_info("users").expect("users");
    assert_eq!(t.rows.len(), 1);
    assert_eq!(t.rows[0].get("id"), Some(&"2".to_string()));
}

#[test]
fn insert_then_matching_delete_restores_rows() {
    let mut e = users_engine();
    e.insert_row("users", row(&[("id", "1"), ("age", "25")])).expect("insert");
    e.insert_row("users", row(&[("id", "9"), ("age", "77")])).expect("insert");
    let n = e.delete_rows("users", &eq_cond("id", "9")).expect("delete");
    assert_eq!(n, 1);
    let t = e.get_table_info("users").expect("users");
    assert_eq!(t.rows.len(), 1);
    assert_eq!(t.rows[0].get("id"), Some(&"1".to_string()));
}

#[test]
fn drop_table_removes_it() {
    let mut e = users_engine();
    e.drop_table("users").expect("drop");
    assert!(e.get_table_info("users").is_none());
    assert!(matches!(
        e.drop_table("users"),
        Err(StorageError::TableNotFound(_))
    ));
}

#[test]
fn table_names_lists_catalog_order() {
    let mut e = users_engine();
    e.create_table("logs", vec!["at".to_string()], None).expect("create");
    assert_eq!(e.get_table_names(), vec!["users".to_string(), "logs".to_string()]);
}

#[test]
fn validate_table_schema_names_first_missing_column() {
    let e = users_engine();
    assert!(e
        .validate_table_schema("users", &vec!["id".to_string(), "age".to_string()])
        .is_ok());
    match e.validate_table_schema("users", &vec!["id".to_string(), "wat".to_string()]) {
        Err(StorageError::ColumnNotFound { table, column }) => {
            assert_eq!(table, "users");
            assert_eq!(column, "wat");
        }
        other => panic!("unexpected: {:?}", other),
    }
    assert!(matches!(
        e.validate_table_schema("ghost", &vec![]),
        Err(StorageError::TableNotFound(_))
    ));
}

#[test]
fn table_stats_count_totals_and_distinct_values() {
    let mut e = users_engine();
    e.insert_row("users", row(&[("id", "1"), ("age", "25")])).expect("insert");
    e.insert_row("users", row(&[("id", "2"), ("age", "25")])).expect("insert");
    e.insert_row("users", row(&[("id", "3")])).expect("insert");
    let st = e.get_table_stats("users").expect("stats");
    assert_eq!(st.row_count, 3);
    assert_eq!(st.column_stats.len(), 3);
    let by_name = |name: &str| {
        st.column_stats
            .iter()
            .find(|(n, _)| n == name)
            .expect("column present")
            .1
            .total_values
    };
    assert_eq!(by_name("id"), 3);
    assert_eq!(by_name("age"), 2, "one row has no age");
    let age = &st
        .column_stats
        .iter()
        .find(|(n, _)| n == "age")
        .expect("age")
        .1;
    assert_eq!(age.unique_values, 1, "both ages read 25");
    assert!(e.get_table_stats("ghost").is_none());
}

#[test]
fn explicit_insert_with_extra_values_drops_them() {
    let mut e = users_engine();
    let mut fs = FileSystem { storage_engine: e };
    let ast = hypervault::parser::Parser::parse("INSERT INTO users (id) VALUES ('1','2','3')")
        .expect("parse");
    let mut executor = hypervault::executor::QueryExecutor::new();
    executor.execute(&mut fs, ast).expect("insert");
    let t = fs.storage_engine.get_table_info("users").expect("users");
    assert_eq!(t.rows.len(), 1);
    assert_eq!(t.rows[0].cells.len(), 1, "extra values are silently dropped");
    assert_eq!(t.rows[0].get("id"), Some(&"1".to_string()));
    e = fs.storage_engine;
    assert!(e.check_wf());
}

#[test]
fn repeated_assignment_keeps_the_last_value() {
    let mut fs = FileSystem::new();
    fs.create_table("t", vec!["id".to_string(), "a".to_string()], None)
        .expect("create");
    fs.insert_row("t", row(&[("id", "1"), ("a", "x")])).expect("insert");
    let ast = hypervault::parser::Parser::parse("UPDATE t SET a = '1', a = '2'")
        .expect("parse");
    let mut executor = hypervault::executor::QueryExecutor::new();
    executor.execute(&mut fs, ast).expect("update");
    let t = fs.storage_engine.get_table_info("t").expect("t");
    assert_eq!(t.rows[0].get("a"), Some(&"2".to_string()));
}

#[test]
fn metadata_counters_never_decrease() {
    let mut e = users_engine();
    let before = (
        e.metadata.total_operations,
        e.metadata.total_tables_created,
        e.metadata.total_rows_inserted,
    );
    e.insert_row("users", row(&[("id", "1")])).expect("insert");
    e.insert_row("users", row(&[("id", "2")])).expect("insert");
    let updates = row(&[("name", "n")]);
    e.update_rows("users", &updates, &Predicate::MatchAll).expect("update");
    e.delete_rows("users", &eq_cond("id", "1")).expect("delete");
    assert!(e.metadata.total_operations > before.0);
    assert_eq!(e.metadata.total_tables_created, before.1);
    assert_eq!(e.metadata.total_rows_inserted, before.2 + 2);
    assert_eq!(e.metadata.total_rows_updated, 2);
    assert_eq!(e.metadata.total_rows_deleted, 1);
    assert!(e.metadata.last_modified >= e.metadata.created_at);
}

#[test]
fn storage_error_messages_read_as_one_line() {
    let e = StorageError::TableNotFound("users".to_string());
    assert_eq!(e.message(), "Table 'users' not found");
    let e = StorageError::PrimaryKeyViolation {
        table: "users".to_string(),
        key: "id".to_string(),
        value: "1".to_string(),
    };
    assert_eq!(
        e.message(),
        "Primary key violation in table 'users': duplicate value '1' for key 'id'"
    );
    let e = StorageError::MissingPrimaryKey {
        table: "users".to_string(),
        key: "id".to_string(),
    };
    assert_eq!(e.message(), "Missing primary key 'id' in table 'users'");
}

#[test]
fn execution_error_text_matches_the_shell() {
    assert_eq!(
        format_execution_error(&ExecutionError::TableNotFound),
        "Table not found"
    );
    assert_eq!(
        format_execution_error(&ExecutionError::InsertFailed),
        "Insert operation failed"
    );
    assert_eq!(
        format_execution_error(&ExecutionError::UpdateFailed),
        "Update operation failed"
    );
    assert_eq!(
        format_execution_error(&ExecutionError::InvalidQuery),
        "Invalid query structure"
    );
}

#[test]
fn filesystem_facade_collapses_errors_to_text() {
    let mut fs = FileSystem::new();
    fs.create_table("users", vec!["id".to_string()], Some("id"))
        .expect("create");
    let err = fs
        .insert_row("users", row(&[("wat", "1")]))
        .expect_err("unknown column");
    assert_eq!(err, "Column 'wat' not found in table 'unknown'");
    let echoed = fs
        .update_rows("users", &row(&[("id", "3")]), &Predicate::MatchNone)
        .expect("update");
    assert_eq!(echoed.len(), 1, "the facade echoes the updates as one row");
    assert_eq!(echoed[0].get("id"), Some(&"3".to_string()));
}

#[test]
fn fetch_rows_projects_with_empty_default() {
    let mut fs = FileSystem::new();
    fs.create_table("t", vec!["a".to_string(), "b".to_string()], None)
        .expect("create");
    fs.insert_row("t", row(&[("a", "1")])).expect("insert");
    let table = fs.storage_engine.get_table_info("t").expect("t");
    let fetched = fs
        .fetch_rows(
            table,
            vec![
                hypervault::query::Identifier("a".to_string()),
                hypervault::query::Identifier("b".to_string()),
            ],
        )
        .expect("fetch");
    assert_eq!(fetched.len(), 1);
    assert_eq!(fetched[0].get("a"), Some(&"1".to_string()));
    assert_eq!(fetched[0].get("b"), Some(&"".to_string()));
}

#[test]
fn check_wf_accepts_engine_states_the_operations_build() {
    let mut e = users_engine();
    e.insert_row("users", row(&[("id", "1")])).expect("insert");
    assert!(e.check_wf());
    let t = e.get_table_info("users").expect("users");
    assert!(t.check_wf());
}
