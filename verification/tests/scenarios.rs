//! End-to-end scenarios: one statement at a time through the parser and
//! the executor against a fresh engine.

use hypervault::executor::{ExecutionError, QueryExecutor};
use hypervault::parser::Parser;
use hypervault::schema::Row;
use hypervault::storage_engine::FileSystem;

fn fresh_users(fs: &mut FileSystem) {
    fs.create_table(
        "users",
        vec!["id".to_string(), "name".to_string(), "age".to_string()],
        Some("id"),
    )
    .expect("create users");
}

fn run(fs: &mut FileSystem, sql: &str) -> Result<Vec<Row>, ExecutionError> {
    let ast = Parser::parse(sql).expect("statement should parse");
    let mut executor = QueryExecutor::new();
    executor.execute(fs, ast)
}

fn cell(row: &Row, name: &str) -> String {
    row.get(name).expect("cell should exist").clone()
}

fn row_count(fs: &FileSystem) -> usize {
    fs.storage_engine
        .get_table_info("users")
        .expect("users exists")
        .rows
        .len()
}

#[test]
fn scenario_insert_and_select_one_row() {
    let mut fs = FileSystem::new();
    fresh_users(&mut fs);
    run(
        &mut fs,
        "INSERT INTO users (id,name,age) VALUES ('1','Ann','25')",
    )
    .expect("insert");
    let rows = run(&mut fs, "SELECT * FROM users").expect("select");
    assert_eq!(rows.len(), 1);
    assert_eq!(cell(&rows[0], "id"), "1");
    assert_eq!(cell(&rows[0], "name"), "Ann");
    assert_eq!(cell(&rows[0], "age"), "25");
}

#[test]
fn scenario_duplicate_primary_key_fails() {
    let mut fs = FileSystem::new();
    fresh_users(&mut fs);
    run(
        &mut fs,
        "INSERT INTO users (id,name,age) VALUES ('1','Ann','25')",
    )
    .expect("insert");
    let second = run(
        &mut fs,
        "INSERT INTO users (id,name,age) VALUES ('1','Bob','40')",
    );
    assert!(matches!(second, Err(ExecutionError::InsertFailed)));
    assert_eq!(row_count(&fs), 1);
}

fn three_rows(fs: &mut FileSystem) {
    run(fs, "INSERT INTO users (id,name,age) VALUES ('1','Ann','25')").expect("insert");
    run(fs, "INSERT INTO users (id,name,age) VALUES ('2','Bob','30')").expect("insert");
    run(fs, "INSERT INTO users (id,name,age) VALUES ('3','Cid','35')").expect("insert");
}

#[test]
fn scenario_select_with_numeric_condition() {
    let mut fs = FileSystem::new();
    fresh_users(&mut fs);
    three_rows(&mut fs);
    let rows = run(&mut fs, "SELECT id FROM users WHERE age >= '30'").expect("select");
    assert_eq!(rows.len(), 2);
    for row in &rows {
        assert_eq!(row.cells.len(), 1, "only the id field is projected");
    }
    let mut ids: Vec<String> = rows.iter().map(|r| cell(r, "id")).collect();
    ids.sort();
    assert_eq!(ids, vec!["2".to_string(), "3".to_string()]);
}

#[test]
fn scenario_update_without_where_touches_all_rows() {
    let mut fs = FileSystem::new();
    fresh_users(&mut fs);
    three_rows(&mut fs);
    run(&mut fs, "UPDATE users SET age = '99'").expect("update");
    let rows = run(&mut fs, "SELECT * FROM users").expect("select");
    assert_eq!(rows.len(), 3);
    for row in &rows {
        assert_eq!(cell(row, "age"), "99");
    }
}

#[test]
fn scenario_delete_without_where_is_a_guardrail() {
    let mut fs = FileSystem::new();
    fresh_users(&mut fs);
    three_rows(&mut fs);
    run(&mut fs, "UPDATE users SET age = '99'").expect("update");
    run(&mut fs, "DELETE FROM users").expect("delete");
    assert_eq!(row_count(&fs), 3, "an unconditional DELETE removes nothing");
}

#[test]
fn scenario_delete_with_where_removes_matching_rows() {
    let mut fs = FileSystem::new();
    fresh_users(&mut fs);
    three_rows(&mut fs);
    run(&mut fs, "UPDATE users SET age = '99'").expect("update");
    run(&mut fs, "DELETE FROM users").expect("guardrail delete");
    run(&mut fs, "DELETE FROM users WHERE age = '99'").expect("delete");
    assert_eq!(row_count(&fs), 0);
    let rows = run(&mut fs, "SELECT * FROM users").expect("select");
    assert!(rows.is_empty());
}

#[test]
fn scenario_condition_on_unknown_column_yields_empty_result() {
    let mut fs = FileSystem::new();
    fresh_users(&mut fs);
    three_rows(&mut fs);
    let rows = run(&mut fs, "SELECT name FROM users WHERE nonexistent = 'x'").expect("select");
    assert!(rows.is_empty());
}

#[test]
fn select_on_empty_table_returns_empty_vector() {
    let mut fs = FileSystem::new();
    fresh_users(&mut fs);
    let rows = run(&mut fs, "SELECT * FROM users").expect("select");
    assert_eq!(rows.len(), 0);
}

#[test]
fn select_from_missing_table_is_table_not_found() {
    let mut fs = FileSystem::new();
    let r = run(&mut fs, "SELECT * FROM nowhere");
    assert!(matches!(r, Err(ExecutionError::TableNotFound)));
}

#[test]
fn delete_from_missing_table_is_swallowed() {
    let mut fs = FileSystem::new();
    let r = run(&mut fs, "DELETE FROM nowhere WHERE a = '1'");
    assert!(r.is_ok(), "the executor swallows delete failures");
}

#[test]
fn update_on_missing_table_is_update_failed() {
    let mut fs = FileSystem::new();
    let r = run(&mut fs, "UPDATE nowhere SET a = '1'");
    assert!(matches!(r, Err(ExecutionError::UpdateFailed)));
}

#[test]
fn positional_insert_follows_table_column_order() {
    let mut fs = FileSystem::new();
    fresh_users(&mut fs);
    run(&mut fs, "INSERT INTO users VALUES ('7','Deb','41')").expect("insert");
    let rows = run(&mut fs, "SELECT * FROM users").expect("select");
    assert_eq!(rows.len(), 1);
    assert_eq!(cell(&rows[0], "id"), "7");
    assert_eq!(cell(&rows[0], "name"), "Deb");
    assert_eq!(cell(&rows[0], "age"), "41");
}

#[test]
fn positional_insert_with_fewer_values_leaves_columns_missing() {
    let mut fs = FileSystem::new();
    fresh_users(&mut fs);
    run(&mut fs, "INSERT INTO users VALUES ('8','Eve')").expect("insert");
    let rows = run(&mut fs, "SELECT * FROM users").expect("select");
    assert_eq!(rows.len(), 1);
    assert_eq!(cell(&rows[0], "id"), "8");
    assert_eq!(cell(&rows[0], "name"), "Eve");
    assert!(rows[0].get("age").is_none(), "the missing value leaves no cell");
}

#[test]
fn update_of_primary_key_to_taken_value_fails_whole_statement() {
    let mut fs = FileSystem::new();
    fresh_users(&mut fs);
    three_rows(&mut fs);
    let r = run(&mut fs, "UPDATE users SET id = '2' WHERE id = '1'");
    assert!(matches!(r, Err(ExecutionError::UpdateFailed)));
    let rows = run(&mut fs, "SELECT id FROM users WHERE id = '1'").expect("select");
    assert_eq!(rows.len(), 1, "the failed update changed nothing");
}

#[test]
fn update_of_primary_key_over_many_rows_fails_whole_statement() {
    let mut fs = FileSystem::new();
    fresh_users(&mut fs);
    three_rows(&mut fs);
    let r = run(&mut fs, "UPDATE users SET id = '9'");
    assert!(matches!(r, Err(ExecutionError::UpdateFailed)));
    assert_eq!(row_count(&fs), 3);
}

#[test]
fn projection_of_missing_column_reads_empty_string() {
    let mut fs = FileSystem::new();
    fresh_users(&mut fs);
    run(&mut fs, "INSERT INTO users VALUES ('8','Eve')").expect("insert");
    let rows = run(&mut fs, "SELECT age FROM users").expect("select");
    assert_eq!(rows.len(), 1);
    assert_eq!(cell(&rows[0], "age"), "");
}
