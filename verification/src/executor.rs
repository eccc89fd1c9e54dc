//! The executor: interpreting a parsed statement against the storage
//! engine through the persistence façade.
//!
//! SELECT filters and projects rows; INSERT builds a row from its
//! column and value lists; UPDATE touches every row its condition
//! admits, or all rows when it has none; DELETE with no condition
//! deliberately removes nothing, a guardrail against an accidental
//! `DELETE FROM t` wiping a table.

use vstd::prelude::*;

use crate::parser::{cond_holds, ASTNode, CondV, PredV, Predicate, WhereCondition};
use crate::query::Identifier;
use crate::schema::{assoc_set, project_row, Cells, Row, TableV};
use crate::storage_engine::{
    insert_ok,
    rows_kept,
    tbl_get,
    tbl_has,
    tbl_index,
    update_ok,
    updated_rows,
    FileSystem,
};

verus! {

/// What the executor reports: the statement kinds that can fail, and
/// how.
#[derive(PartialEq, Eq, Structural, Clone, Copy, Debug)]
pub enum ExecutionError {
    TableNotFound,
    InsertFailed,
    UpdateFailed,
    InvalidQuery,
}

/// Whether a row passes an optional condition; no condition admits
/// every row.
pub open spec fn row_admitted(cond: Option<CondV>, cells: Cells) -> bool {
    match cond {
        Some(c) => cond_holds(c, cells),
        None => true,
    }
}

/// Whether the projection is the wildcard: the single column `*`.
pub open spec fn is_star(projection: Seq<Seq<char>>) -> bool {
    projection.len() == 1 && projection[0] == "*"@
}

/// What one selected row looks like: the row itself under the wildcard,
/// its projection otherwise.
pub open spec fn output_row(projection: Seq<Seq<char>>, cells: Cells) -> Cells {
    if is_star(projection) {
        cells
    } else {
        project_row(cells, projection)
    }
}

/// The rows a SELECT returns: the admitted rows in table order, each
/// shaped by the projection.
pub open spec fn selected(rows: Seq<Cells>, projection: Seq<Seq<char>>, cond: Option<CondV>) -> Seq<
    Cells,
>
    decreases rows.len(),
{
    if rows.len() == 0 {
        Seq::empty()
    } else {
        let rest = selected(rows.drop_last(), projection, cond);
        if row_admitted(cond, rows.last()) {
            rest.push(output_row(projection, rows.last()))
        } else {
            rest
        }
    }
}

/// The row an INSERT builds: the given columns zipped with the values,
/// the lists read together up to the shorter length.
pub open spec fn zip_upto(cols: Seq<Seq<char>>, vals: Seq<Seq<char>>, n: int) -> Cells
    decreases n,
{
    if n <= 0 {
        Seq::empty()
    } else {
        assoc_set(zip_upto(cols, vals, n - 1), cols[n - 1], vals[n - 1])
    }
}

pub open spec fn min_len(a: int, b: int) -> int {
    if a <= b {
        a
    } else {
        b
    }
}

/// The row an INSERT builds: explicit columns are zipped with the
/// values; with no explicit columns the table's own column order is
/// used, and a missing table leaves the row empty.
pub open spec fn built_insert_row(
    e: crate::storage_engine::EngineV,
    table: Seq<char>,
    columns: Seq<Seq<char>>,
    values: Seq<Seq<char>>,
) -> Cells {
    if columns.len() == 0 {
        if tbl_has(e.tables, table) {
            let tc = tbl_get(e.tables, table).columns;
            zip_upto(tc, values, min_len(tc.len() as int, values.len() as int))
        } else {
            Seq::empty()
        }
    } else {
        zip_upto(columns, values, min_len(columns.len() as int, values.len() as int))
    }
}

/// The update map an UPDATE builds from its assignment list: bound in
/// order, a repeated column keeping the value assigned last.
pub open spec fn assigns_cells(asgs: Seq<(Seq<char>, Seq<char>)>) -> Cells
    decreases asgs.len(),
{
    if asgs.len() == 0 {
        Seq::empty()
    } else {
        assoc_set(assigns_cells(asgs.drop_last()), asgs.last().0, asgs.last().1)
    }
}

/// The predicate an UPDATE hands to the engine: the condition when one
/// is given, otherwise every row.
pub open spec fn update_predicate(cond: Option<CondV>) -> PredV {
    match cond {
        Some(c) => PredV::Cond(c),
        None => PredV::All,
    }
}

/// The predicate a DELETE hands to the engine: the condition when one
/// is given, otherwise no row.
pub open spec fn delete_predicate(cond: Option<CondV>) -> PredV {
    match cond {
        Some(c) => PredV::Cond(c),
        None => PredV::NoRow,
    }
}

/// The statement interpreter.
pub struct QueryExecutor {}

impl QueryExecutor {
    /// A fresh executor.
    pub fn new() -> QueryExecutor {
        QueryExecutor {}
    }

    /// Run a SELECT: admitted rows of the named table, shaped by the
    /// projection; a missing table is the one error.
    pub fn execute_select(
        &self,
        fs: &FileSystem,
        projection: Vec<Identifier>,
        table: Identifier,
        condition: Option<WhereCondition>,
    ) -> (r: Result<Vec<Row>, ExecutionError>)
        requires
            fs.storage_engine.wf(),
        ensures
            ({
                let ts = fs.storage_engine@.tables;
                let pv = projection@.map_values(|i: Identifier| i@);
                let cv = match condition {
                    Some(c) => Some(c@),
                    None => None,
                };
                match r {
                    Ok(out) => tbl_has(ts, table@) && out@.map_values(|row: Row| row@) == selected(
                        tbl_get(ts, table@).rows,
                        pv,
                        cv,
                    ),
                    Err(e) => e is TableNotFound && !tbl_has(ts, table@),
                }
            }),
    {
        let ghost ts = fs.storage_engine@.tables;
        let ghost pv = projection@.map_values(|i: Identifier| i@);
        let ghost cv = match &condition {
            Some(c) => Some(c@),
            None => None,
        };
        let tref = match fs.storage_engine.get_table_info(table.0.as_str()) {
            Some(t) => t,
            None => {
                return Err(ExecutionError::TableNotFound);
            },
        };
        let ghost t = tbl_get(ts, table@);
        proof {
            assert(tref@ == t);
            crate::storage_engine::lemma_tbl_index(ts, table@);
            let i = tbl_index(ts, table@);
            assert(fs.storage_engine@.tables[i].1.wf());
            assert(t.wf());
        }
        // Is the projection the wildcard?
        let star = if projection.len() == 1 {
            crate::text::str_eq(projection[0].0.as_str(), "*")
        } else {
            false
        };
        proof {
            assert(pv.len() == projection@.len());
            if projection@.len() == 1 {
                assert(pv[0int] == projection@[0int]@);
            }
            assert(star == is_star(pv));
        }
        let nrows = tref.rows.len();
        let mut out: Vec<Row> = Vec::new();
        let mut i: usize = 0;
        proof {
            assert(t.rows.take(0int) =~= Seq::<Cells>::empty());
            assert(out@.map_values(|row: Row| row@) =~= Seq::<Cells>::empty());
        }
        while i < nrows
            invariant
                i <= nrows,
                nrows == tref.rows@.len(),
                nrows == t.rows.len(),
                tref@ == t,
                t.wf(),
                star == is_star(pv),
                pv == projection@.map_values(|ident: Identifier| ident@),
                cv == (match condition {
                    Some(c) => Some(c@),
                    None => None,
                }),
                out@.map_values(|row: Row| row@) == selected(t.rows.take(i as int), pv, cv),
            decreases nrows - i,
        {
            proof {
                assert(tref@.rows[i as int] == tref.rows@[i as int]@);
                assert(crate::schema::keys_distinct(t.rows[i as int]));
                assert(t.rows.take(i + 1).drop_last() =~= t.rows.take(i as int));
                assert(t.rows.take(i + 1).last() == t.rows[i as int]);
            }
            let admitted = match &condition {
                Some(c) => c.evaluate(&tref.rows[i]),
                None => true,
            };
            if admitted {
                let ghost out_before = out@;
                let produced = if star {
                    tref.rows[i].clone()
                } else {
                    crate::storage_engine::project_columns(&tref.rows[i], &projection)
                };
                out.push(produced);
                proof {
                    assert(out@ == out_before.push(out@[out_before.len() as int]));
                    assert(out@[out_before.len() as int]@ == output_row(pv, t.rows[i as int]));
                    assert(out@.map_values(|row: Row| row@) =~= out_before.map_values(
                        |row: Row| row@,
                    ).push(output_row(pv, t.rows[i as int])));
                }
            }
            i = i + 1;
        }
        proof {
            assert(t.rows.take(nrows as int) =~= t.rows);
        }
        Ok(out)
    }

    /// Run an INSERT: build the row as [`built_insert_row`] says and
    /// hand it to the engine; any failure reads `InsertFailed`.
    pub fn execute_insert(
        &self,
        fs: &mut FileSystem,
        table: Identifier,
        columns: Vec<Identifier>,
        values: Vec<String>,
    ) -> (r: Result<(), ExecutionError>)
        requires
            old(fs).storage_engine.wf(),
        ensures
            final(fs).storage_engine.wf(),
            ({
                let e = old(fs).storage_engine@;
                let ts = e.tables;
                let cells = built_insert_row(
                    e,
                    table@,
                    columns@.map_values(|i: Identifier| i@),
                    values@.map_values(|v: String| v@),
                );
                match r {
                    Ok(_) => {
                        &&& insert_ok(e, table@, cells)
                        &&& ({
                            let t = tbl_get(ts, table@);
                            final(fs).storage_engine@.tables == ts.update(
                                tbl_index(ts, table@),
                                (table@, TableV { rows: t.rows.push(cells), ..t }),
                            )
                        })
                        &&& final(fs).storage_engine@.metadata.counters_geq(e.metadata)
                    },
                    Err(err) => {
                        &&& err is InsertFailed
                        &&& final(fs).storage_engine@ == old(fs).storage_engine@
                        &&& !insert_ok(e, table@, cells)
                    },
                }
            }),
    {
        let ghost e = fs.storage_engine@;
        let ghost colsv = columns@.map_values(|i: Identifier| i@);
        let ghost valsv = values@.map_values(|v: String| v@);
        let mut row = Row::new();
        proof {
            assert(zip_upto(colsv, valsv, 0int) =~= Seq::<(Seq<char>, Seq<char>)>::empty());
        }
        if columns.len() == 0 {
            match fs.storage_engine.get_table_info(table.0.as_str()) {
                Some(tref) => {
                    proof {
                        crate::storage_engine::lemma_tbl_index(e.tables, table@);
                    }
                    let ghost tc = tbl_get(e.tables, table@).columns;
                    proof {
                        assert(tref@.columns == tc);
                        assert(zip_upto(tc, valsv, 0int) =~= Seq::<
                            (Seq<char>, Seq<char>),
                        >::empty());
                    }
                    let n = if tref.columns.len() <= values.len() {
                        tref.columns.len()
                    } else {
                        values.len()
                    };
                    let mut k: usize = 0;
                    while k < n
                        invariant
                            k <= n,
                            n == min_len(tc.len() as int, valsv.len() as int),
                            n <= tref.columns@.len(),
                            n <= values@.len(),
                            tref@.columns == tc,
                            valsv == values@.map_values(|v: String| v@),
                            row@ == zip_upto(tc, valsv, k as int),
                            row.wf(),
                        decreases n - k,
                    {
                        proof {
                            assert(tc[k as int] == tref.columns@[k as int]@);
                            assert(valsv[k as int] == values@[k as int]@);
                        }
                        row.set(tref.columns[k].clone(), values[k].clone());
                        k = k + 1;
                    }
                },
                None => {},
            }
        } else {
            let n = if columns.len() <= values.len() {
                columns.len()
            } else {
                values.len()
            };
            let mut k: usize = 0;
            while k < n
                invariant
                    k <= n,
                    n == min_len(colsv.len() as int, valsv.len() as int),
                    n <= columns@.len(),
                    n <= values@.len(),
                    colsv == columns@.map_values(|i: Identifier| i@),
                    valsv == values@.map_values(|v: String| v@),
                    row@ == zip_upto(colsv, valsv, k as int),
                    row.wf(),
                decreases n - k,
            {
                proof {
                    assert(colsv[k as int] == columns@[k as int]@);
                    assert(valsv[k as int] == values@[k as int]@);
                }
                row.set(columns[k].0.clone(), values[k].clone());
                k = k + 1;
            }
        }
        proof {
            assert(row@ == built_insert_row(e, table@, colsv, valsv));
        }
        match fs.insert_row(table.0.as_str(), row) {
            Ok(_) => Ok(()),
            Err(_) => Err(ExecutionError::InsertFailed),
        }
    }

    /// Run an UPDATE: assignments become the update map, a missing
    /// WHERE touches every row; any failure reads `UpdateFailed`.
    pub fn execute_update(
        &self,
        fs: &mut FileSystem,
        table: Identifier,
        assignments: Vec<(Identifier, String)>,
        condition: Option<WhereCondition>,
    ) -> (r: Result<(), ExecutionError>)
        requires
            old(fs).storage_engine.wf(),
        ensures
            final(fs).storage_engine.wf(),
            ({
                let e = old(fs).storage_engine@;
                let ts = e.tables;
                let ups = assigns_cells(
                    assignments@.map_values(|a: (Identifier, String)| (a.0@, a.1@)),
                );
                let cv = match condition {
                    Some(c) => Some(c@),
                    None => None,
                };
                let p = update_predicate(cv);
                match r {
                    Ok(_) => {
                        &&& update_ok(e, table@, ups, p)
                        &&& ({
                            let t = tbl_get(ts, table@);
                            final(fs).storage_engine@.tables == ts.update(
                                tbl_index(ts, table@),
                                (table@, TableV { rows: updated_rows(t.rows, ups, p), ..t }),
                            )
                        })
                        &&& final(fs).storage_engine@.metadata.counters_geq(e.metadata)
                    },
                    Err(err) => {
                        &&& err is UpdateFailed
                        &&& final(fs).storage_engine@ == old(fs).storage_engine@
                        &&& !update_ok(e, table@, ups, p)
                    },
                }
            }),
    {
        let ghost asgv = assignments@.map_values(|a: (Identifier, String)| (a.0@, a.1@));
        let mut updates = Row::new();
        proof {
            assert(assigns_cells(asgv.take(0int)) =~= Seq::<(Seq<char>, Seq<char>)>::empty());
            assert(asgv.take(0int) =~= Seq::<(Seq<char>, Seq<char>)>::empty());
        }
        let n = assignments.len();
        let mut k: usize = 0;
        while k < n
            invariant
                k <= n,
                n == assignments@.len(),
                asgv == assignments@.map_values(|a: (Identifier, String)| (a.0@, a.1@)),
                updates@ == assigns_cells(asgv.take(k as int)),
                updates.wf(),
            decreases n - k,
        {
            proof {
                assert(asgv[k as int] == (assignments@[k as int].0@, assignments@[k as int].1@));
                assert(asgv.take(k + 1).drop_last() =~= asgv.take(k as int));
                assert(asgv.take(k + 1).last() == asgv[k as int]);
            }
            let pair = &assignments[k];
            updates.set(pair.0.0.clone(), pair.1.clone());
            k = k + 1;
        }
        proof {
            assert(asgv.take(n as int) =~= asgv);
        }
        let pred = match condition {
            Some(c) => Predicate::Cond(c),
            None => Predicate::MatchAll,
        };
        proof {
            assert(pred@ == update_predicate(
                match condition {
                    Some(c) => Some(c@),
                    None => None,
                },
            ));
        }
        match fs.update_rows(table.0.as_str(), &updates, &pred) {
            Ok(_) => Ok(()),
            Err(_) => Err(ExecutionError::UpdateFailed),
        }
    }

    /// Run a DELETE: a missing WHERE removes no row (the guardrail);
    /// a missing table is reported by the façade and swallowed here,
    /// as the shell expects.
    pub fn execute_delete(
        &self,
        fs: &mut FileSystem,
        table: Identifier,
        condition: Option<WhereCondition>,
    ) -> (r: Result<(), ExecutionError>)
        requires
            old(fs).storage_engine.wf(),
        ensures
            final(fs).storage_engine.wf(),
            r is Ok,
            ({
                let e = old(fs).storage_engine@;
                let ts = e.tables;
                let cv = match condition {
                    Some(c) => Some(c@),
                    None => None,
                };
                let p = delete_predicate(cv);
                if tbl_has(ts, table@) {
                    let t = tbl_get(ts, table@);
                    final(fs).storage_engine@.tables == ts.update(
                        tbl_index(ts, table@),
                        (table@, TableV { rows: rows_kept(t.rows, p), ..t }),
                    ) && final(fs).storage_engine@.metadata.counters_geq(e.metadata)
                } else {
                    final(fs).storage_engine@ == old(fs).storage_engine@
                }
            }),
    {
        let pred = match condition {
            Some(c) => Predicate::Cond(c),
            None => Predicate::MatchNone,
        };
        proof {
            assert(pred@ == delete_predicate(
                match condition {
                    Some(c) => Some(c@),
                    None => None,
                },
            ));
        }
        let _ = fs.delete_rows(table.0.as_str(), &pred);
        Ok(())
    }

    /// Run one statement: SELECT returns its rows, the mutating
    /// statements return an empty row set, and a bare identifier is an
    /// invalid query.
    pub fn execute(&mut self, fs: &mut FileSystem, query: ASTNode) -> (r: Result<
        Vec<Row>,
        ExecutionError,
    >)
        requires
            old(fs).storage_engine.wf(),
        ensures
            final(fs).storage_engine.wf(),
            final(fs).storage_engine@.metadata.counters_geq(old(fs).storage_engine@.metadata),
            ({
                let e = old(fs).storage_engine@;
                let ts = e.tables;
                match query@ {
                    crate::parser::AstV::Select { projection, table, condition } => match r {
                        Ok(out) => tbl_has(ts, table) && out@.map_values(|row: Row| row@)
                            == selected(tbl_get(ts, table).rows, projection, condition)
                            && final(fs).storage_engine@ == e,
                        Err(err) => err is TableNotFound && !tbl_has(ts, table)
                            && final(fs).storage_engine@ == e,
                    },
                    crate::parser::AstV::Insert { table, columns, values } => {
                        let cells = built_insert_row(e, table, columns, values);
                        match r {
                            Ok(out) => out@.len() == 0 && insert_ok(e, table, cells) && ({
                                let t = tbl_get(ts, table);
                                final(fs).storage_engine@.tables == ts.update(
                                    tbl_index(ts, table),
                                    (table, TableV { rows: t.rows.push(cells), ..t }),
                                )
                            }),
                            Err(err) => err is InsertFailed && final(fs).storage_engine@ == e
                                && !insert_ok(e, table, cells),
                        }
                    },
                    crate::parser::AstV::Update { table, assignments, condition } => {
                        let ups = assigns_cells(assignments);
                        let p = update_predicate(condition);
                        match r {
                            Ok(out) => out@.len() == 0 && update_ok(e, table, ups, p) && ({
                                let t = tbl_get(ts, table);
                                final(fs).storage_engine@.tables == ts.update(
                                    tbl_index(ts, table),
                                    (table, TableV { rows: updated_rows(t.rows, ups, p), ..t }),
                                )
                            }),
                            Err(err) => err is UpdateFailed && final(fs).storage_engine@ == e
                                && !update_ok(e, table, ups, p),
                        }
                    },
                    crate::parser::AstV::Delete { table, condition } => {
                        let p = delete_predicate(condition);
                        match r {
                            Ok(out) => out@.len() == 0 && if tbl_has(ts, table) {
                                let t = tbl_get(ts, table);
                                final(fs).storage_engine@.tables == ts.update(
                                    tbl_index(ts, table),
                                    (table, TableV { rows: rows_kept(t.rows, p), ..t }),
                                )
                            } else {
                                final(fs).storage_engine@ == e
                            },
                            Err(_) => false,
                        }
                    },
                    crate::parser::AstV::Ident(_) => r matches Err(
                        ExecutionError::InvalidQuery,
                    ) && final(fs).storage_engine@ == e,
                }
            }),
    {
        match query {
            ASTNode::SelectStatement { projection, table, condition } => {
                match self.execute_select(fs, projection, table, condition) {
                    Ok(out) => Ok(out),
                    Err(e) => Err(e),
                }
            },
            ASTNode::DeleteStatement { table, condition } => {
                match self.execute_delete(fs, table, condition) {
                    Ok(_) => {
                        let out: Vec<Row> = Vec::new();
                        Ok(out)
                    },
                    Err(e) => Err(e),
                }
            },
            ASTNode::InsertStatement { table, columns, values } => {
                match self.execute_insert(fs, table, columns, values) {
                    Ok(_) => {
                        let out: Vec<Row> = Vec::new();
                        Ok(out)
                    },
                    Err(e) => Err(e),
                }
            },
            ASTNode::UpdateStatement { table, assignments, condition } => {
                match self.execute_update(fs, table, assignments, condition) {
                    Ok(_) => {
                        let out: Vec<Row> = Vec::new();
                        Ok(out)
                    },
                    Err(e) => Err(e),
                }
            },
            ASTNode::Identifier(_) => Err(ExecutionError::InvalidQuery),
        }
    }
}

/// The error as one line of text, as the shell prints it.
pub fn format_execution_error(error: &ExecutionError) -> (r: String)
    ensures
        match error {
            ExecutionError::TableNotFound => r@ == "Table not found"@,
            ExecutionError::InsertFailed => r@ == "Insert operation failed"@,
            ExecutionError::UpdateFailed => r@ == "Update operation failed"@,
            ExecutionError::InvalidQuery => r@ == "Invalid query structure"@,
        },
{
    match error {
        ExecutionError::TableNotFound => String::from_str("Table not found"),
        ExecutionError::InsertFailed => String::from_str("Insert operation failed"),
        ExecutionError::UpdateFailed => String::from_str("Update operation failed"),
        ExecutionError::InvalidQuery => String::from_str("Invalid query structure"),
    }
}

} // verus!
