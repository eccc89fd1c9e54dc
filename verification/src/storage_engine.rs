//! The storage engine: the catalog of tables, the schema and primary-key
//! invariants, metadata counters, and per-table statistics.

use vstd::prelude::*;

use crate::schema::{Cells, Row, Table, TableV};

verus! {

/// Saturating addition on counters: a counter never wraps.
pub open spec fn sat_add64(a: u64, b: u64) -> u64 {
    if a + b > u64::MAX {
        u64::MAX
    } else {
        (a + b) as u64
    }
}

/// Snapshot bookkeeping: a format version string, timestamps, and
/// monotone operation counters.
pub struct StorageMetadata {
    pub version: String,
    pub created_at: u64,
    pub last_modified: u64,
    pub total_operations: u64,
    pub total_tables_created: u64,
    pub total_rows_inserted: u64,
    pub total_rows_updated: u64,
    pub total_rows_deleted: u64,
}

/// The mathematical shape of the metadata record.
pub struct MetaV {
    pub version: Seq<char>,
    pub created_at: u64,
    pub last_modified: u64,
    pub total_operations: u64,
    pub total_tables_created: u64,
    pub total_rows_inserted: u64,
    pub total_rows_updated: u64,
    pub total_rows_deleted: u64,
}

impl View for StorageMetadata {
    type V = MetaV;

    open spec fn view(&self) -> MetaV {
        MetaV {
            version: self.version@,
            created_at: self.created_at,
            last_modified: self.last_modified,
            total_operations: self.total_operations,
            total_tables_created: self.total_tables_created,
            total_rows_inserted: self.total_rows_inserted,
            total_rows_updated: self.total_rows_updated,
            total_rows_deleted: self.total_rows_deleted,
        }
    }
}

impl MetaV {
    /// The record never claims to have been modified before it was
    /// created.
    pub open spec fn wf(self) -> bool {
        self.last_modified >= self.created_at
    }

    /// The counters of `self` are at least those of `m` (metadata
    /// monotonicity).
    pub open spec fn counters_geq(self, m: MetaV) -> bool {
        &&& self.total_operations >= m.total_operations
        &&& self.total_tables_created >= m.total_tables_created
        &&& self.total_rows_inserted >= m.total_rows_inserted
        &&& self.total_rows_updated >= m.total_rows_updated
        &&& self.total_rows_deleted >= m.total_rows_deleted
        &&& self.last_modified >= m.last_modified
        &&& self.created_at == m.created_at
        &&& self.version == m.version
    }

    /// The metadata after one successful operation: the modification
    /// time never goes backwards, the operation counter grows by one
    /// (saturating), and identity fields are kept.  The five row and
    /// table counters are constrained by each operation separately.
    pub open spec fn touched_from(self, m: MetaV) -> bool {
        &&& self.total_operations == sat_add64(m.total_operations, 1)
        &&& self.last_modified >= m.last_modified
        &&& self.created_at == m.created_at
        &&& self.version == m.version
    }
}

/// Relies on `std::time::SystemTime::now`: the seconds since the Unix
/// epoch, or zero when the clock reads before the epoch.  Nothing can be
/// promised of a clock reading, so the contract is empty.
#[verifier::external_body]
fn now_seconds() -> u64 {
    match std::time::SystemTime::now().duration_since(std::time::UNIX_EPOCH) {
        Ok(d) => d.as_secs(),
        Err(_) => 0,
    }
}

impl Default for StorageMetadata {
    /// A fresh record: version `1.0.0`, both timestamps at the present
    /// clock reading, all counters zero.
    fn default() -> (m: StorageMetadata)
        ensures
            m@.version == "1.0.0"@,
            m@.created_at == m@.last_modified,
            m@.total_operations == 0,
            m@.total_tables_created == 0,
            m@.total_rows_inserted == 0,
            m@.total_rows_updated == 0,
            m@.total_rows_deleted == 0,
            m@.wf(),
    {
        let now = now_seconds();
        StorageMetadata {
            version: String::from_str("1.0.0"),
            created_at: now,
            last_modified: now,
            total_operations: 0,
            total_tables_created: 0,
            total_rows_inserted: 0,
            total_rows_updated: 0,
            total_rows_deleted: 0,
        }
    }
}

impl StorageMetadata {
    /// Mark one more operation at the present clock reading.
    pub fn update_timestamp(&mut self)
        ensures
            final(self)@.touched_from(old(self)@),
            final(self)@.total_tables_created == old(self)@.total_tables_created,
            final(self)@.total_rows_inserted == old(self)@.total_rows_inserted,
            final(self)@.total_rows_updated == old(self)@.total_rows_updated,
            final(self)@.total_rows_deleted == old(self)@.total_rows_deleted,
            final(self)@.counters_geq(old(self)@),
            old(self)@.wf() ==> final(self)@.wf(),
    {
        let now = now_seconds();
        if now > self.last_modified {
            self.last_modified = now;
        }
        self.total_operations = self.total_operations.saturating_add(1);
    }
}

// ---------------------------------------------------------------------
// The catalog: an association list from table name to table.
// ---------------------------------------------------------------------
/// The mathematical shape of the catalog.
pub type TablesV = Seq<(Seq<char>, TableV)>;

/// Whether some table carries the name.
pub open spec fn tbl_has(ts: TablesV, name: Seq<char>) -> bool {
    exists|i: int| 0 <= i < ts.len() && ts[i].0 == name
}

/// The index of the first table with the name (meaningful only when
/// [`tbl_has`] holds).
pub open spec fn tbl_index(ts: TablesV, name: Seq<char>) -> int
    decreases ts.len(),
{
    if ts.len() == 0 {
        0
    } else if ts[0].0 == name {
        0
    } else {
        1 + tbl_index(ts.drop_first(), name)
    }
}

/// The first table with the name (meaningful only when [`tbl_has`]
/// holds).
pub open spec fn tbl_get(ts: TablesV, name: Seq<char>) -> TableV {
    ts[tbl_index(ts, name)].1
}

/// No two tables share a name.
pub open spec fn tbl_names_distinct(ts: TablesV) -> bool {
    forall|i: int, j: int| 0 <= i < j < ts.len() ==> ts[i].0 != ts[j].0
}

/// When a table with the name exists, its index is in range, carries the
/// name, and no earlier entry does.
pub proof fn lemma_tbl_index(ts: TablesV, name: Seq<char>)
    requires
        tbl_has(ts, name),
    ensures
        0 <= tbl_index(ts, name) < ts.len(),
        ts[tbl_index(ts, name)].0 == name,
        forall|j: int| 0 <= j < tbl_index(ts, name) ==> ts[j].0 != name,
    decreases ts.len(),
{
    if ts.len() == 0 {
    } else if ts[0].0 == name {
    } else {
        assert(tbl_has(ts.drop_first(), name)) by {
            let i = choose|i: int| 0 <= i < ts.len() && ts[i].0 == name;
            assert(ts.drop_first()[i - 1].0 == name);
        }
        lemma_tbl_index(ts.drop_first(), name);
        assert forall|j: int| 0 <= j < tbl_index(ts, name) implies ts[j].0 != name by {
            if j > 0 {
                assert(ts.drop_first()[j - 1].0 != name);
            }
        }
    }
}

// ---------------------------------------------------------------------
// The storage engine.
// ---------------------------------------------------------------------
/// The mathematical shape of the whole engine.
pub struct EngineV {
    pub tables: TablesV,
    pub metadata: MetaV,
}

impl EngineV {
    /// The engine invariant: distinct table names, each table
    /// well-formed, coherent metadata.
    pub open spec fn wf(self) -> bool {
        &&& tbl_names_distinct(self.tables)
        &&& forall|i: int| 0 <= i < self.tables.len() ==> (#[trigger] self.tables[i]).1.wf()
        &&& self.metadata.wf()
    }
}

/// Primary-key uniqueness: in a well-formed engine, no two rows of a
/// table with a declared primary key share its value.  Every mutating
/// operation keeps the engine well-formed, so this holds after any
/// sequence of operations.
pub proof fn lemma_wf_pk_unique(e: EngineV, name: Seq<char>)
    requires
        e.wf(),
        tbl_has(e.tables, name),
    ensures
        ({
            let t = tbl_get(e.tables, name);
            match t.primary_key {
                Some(k) => forall|i: int, j: int|
                    0 <= i < j < t.rows.len() ==> crate::schema::assoc_get(
                        #[trigger] t.rows[i],
                        k,
                    ) != crate::schema::assoc_get(#[trigger] t.rows[j], k),
                None => true,
            }
        }),
{
    lemma_tbl_index(e.tables, name);
    assert(e.tables[tbl_index(e.tables, name)].1.wf());
}

/// Schema closure: in a well-formed engine, every key of every row of a
/// table is one of its schema columns.  Every mutating operation keeps
/// the engine well-formed, so this holds after any sequence of
/// operations.
pub proof fn lemma_wf_schema_closure(e: EngineV, name: Seq<char>)
    requires
        e.wf(),
        tbl_has(e.tables, name),
    ensures
        ({
            let t = tbl_get(e.tables, name);
            forall|i: int|
                0 <= i < t.rows.len() ==> crate::schema::row_in_schema(
                    #[trigger] t.rows[i],
                    t.columns,
                )
        }),
{
    lemma_tbl_index(e.tables, name);
    assert(e.tables[tbl_index(e.tables, name)].1.wf());
}

/// The catalog of tables plus the metadata record.
pub struct StorageEngine {
    pub tables: Vec<(String, Table)>,
    pub metadata: StorageMetadata,
}

impl View for StorageEngine {
    type V = EngineV;

    open spec fn view(&self) -> EngineV {
        EngineV {
            tables: self.tables@.map_values(|p: (String, Table)| (p.0@, p.1@)),
            metadata: self.metadata@,
        }
    }
}

/// The checks a new table must pass: a non-blank name not yet taken, at
/// least one column, no duplicate columns, and a primary key (when
/// declared) among the columns.
pub open spec fn valid_new_table(
    e: EngineV,
    name: Seq<char>,
    cols: Seq<Seq<char>>,
    pk: Option<Seq<char>>,
) -> bool {
    &&& !crate::text::is_blank(name)
    &&& !tbl_has(e.tables, name)
    &&& cols.len() > 0
    &&& (forall|i: int, j: int| 0 <= i < j < cols.len() ==> cols[i] != cols[j])
    &&& (match pk {
        Some(k) => cols.contains(k),
        None => true,
    })
}

impl StorageEngine {
    pub open spec fn wf(self) -> bool {
        self@.wf()
    }

    /// An empty engine with fresh metadata.
    pub fn new() -> (e: StorageEngine)
        ensures
            e@.tables.len() == 0,
            e@.metadata.total_operations == 0,
            e@.metadata.total_tables_created == 0,
            e@.metadata.total_rows_inserted == 0,
            e@.metadata.total_rows_updated == 0,
            e@.metadata.total_rows_deleted == 0,
            e.wf(),
    {
        let e = StorageEngine { tables: Vec::new(), metadata: StorageMetadata::default() };
        proof {
            assert(e@.tables =~= Seq::<(Seq<char>, TableV)>::empty());
        }
        e
    }

    /// The position of the named table in the catalog, if any.
    fn find_table(&self, name: &str) -> (r: Option<usize>)
        ensures
            match r {
                Some(i) => tbl_has(self@.tables, name@) && i == tbl_index(self@.tables, name@),
                None => !tbl_has(self@.tables, name@),
            },
    {
        let n = self.tables.len();
        let mut i: usize = 0;
        while i < n
            invariant
                i <= n,
                n == self.tables@.len(),
                forall|j: int| 0 <= j < i ==> self@.tables[j].0 != name@,
            decreases n - i,
    {
            if crate::text::str_eq(self.tables[i].0.as_str(), name) {
                proof {
                    assert(self@.tables[i as int].0 == name@);
                    lemma_tbl_index(self@.tables, name@);
                    let ti = tbl_index(self@.tables, name@);
                    if ti < i as int {
                        assert(self@.tables[ti].0 != name@);
                    }
                    if ti > i as int {
                        assert(self@.tables[i as int].0 != name@);
                    }
                }
                return Some(i);
            }
            i = i + 1;
        }
        proof {
            if tbl_has(self@.tables, name@) {
                let j = choose|j: int| 0 <= j < self@.tables.len() && self@.tables[j].0 == name@;
                assert(self@.tables[j].0 != name@);
            }
        }
        None
    }

    /// Create a new table.  On success the table is appended to the
    /// catalog and the metadata is touched; on failure nothing changes,
    /// and the error says which check failed, the checks being made in
    /// the order: blank name, name taken, empty or duplicated columns,
    /// primary key not a column.
    pub fn create_table(
        &mut self,
        name: &str,
        columns: Vec<String>,
        primary_key: Option<&str>,
    ) -> (r: Result<(), StorageError>)
        requires
            old(self).wf(),
        ensures
            final(self).wf(),
            ({
                let colsv = columns@.map_values(|s: String| s@);
                let pkv = match primary_key {
                    Some(k) => Some(k@),
                    None => None,
                };
                match r {
                    Ok(_) => {
                        &&& valid_new_table(old(self)@, name@, colsv, pkv)
                        &&& final(self)@.tables == old(self)@.tables.push(
                            (
                                name@,
                                TableV {
                                    columns: colsv,
                                    rows: Seq::empty(),
                                    primary_key: pkv,
                                },
                            ),
                        )
                        &&& final(self)@.metadata.touched_from(old(self)@.metadata)
                        &&& final(self)@.metadata.total_tables_created == sat_add64(
                            old(self)@.metadata.total_tables_created,
                            1,
                        )
                        &&& final(self)@.metadata.total_rows_inserted == old(
                            self,
                        )@.metadata.total_rows_inserted
                        &&& final(self)@.metadata.total_rows_updated == old(
                            self,
                        )@.metadata.total_rows_updated
                        &&& final(self)@.metadata.total_rows_deleted == old(
                            self,
                        )@.metadata.total_rows_deleted
                        &&& final(self)@.metadata.counters_geq(old(self)@.metadata)
                    },
                    Err(e) => {
                        &&& final(self)@ == old(self)@
                        &&& match e {
                            StorageError::InvalidTableName(n) => n@ == name@
                                && crate::text::is_blank(name@),
                            StorageError::TableAlreadyExists(n) => n@ == name@ && !crate::text::is_blank(
                                name@,
                            ) && tbl_has(old(self)@.tables, name@),
                            StorageError::InvalidSchema(_) => !crate::text::is_blank(name@)
                                && !tbl_has(old(self)@.tables, name@) && !(colsv.len() > 0
                                && (forall|i: int, j: int|
                                    0 <= i < j < colsv.len() ==> colsv[i] != colsv[j]) && (
                                match pkv {
                                    Some(k) => colsv.contains(k),
                                    None => true,
                                })),
                            _ => false,
                        }
                    },
                }
            }),
    {
        let ghost colsv = columns@.map_values(|s: String| s@);
        if crate::text::str_is_blank(name) {
            return Err(StorageError::InvalidTableName(String::from_str(name)));
        }
        match self.find_table(name) {
            Some(_) => {
                return Err(StorageError::TableAlreadyExists(String::from_str(name)));
            },
            None => {},
        }
        if columns.len() == 0 {
            return Err(
                StorageError::InvalidSchema(
                    String::from_str("Table must have at least one column"),
                ),
            );
        }
        // Look for a duplicate column name; report the first second
        // occurrence.
        let ncols = columns.len();
        let mut j: usize = 1;
        while j < ncols
            invariant
                1 <= j <= ncols,
                ncols == columns@.len(),
                colsv == columns@.map_values(|s: String| s@),
                forall|a: int, b: int| 0 <= a < b < j ==> colsv[a] != colsv[b],
                self@ == old(self)@,
                old(self).wf(),
                !crate::text::is_blank(name@),
                !tbl_has(old(self)@.tables, name@),
            decreases ncols - j,
        {
            let mut i: usize = 0;
            while i < j
                invariant
                    0 <= i <= j < ncols,
                    ncols == columns@.len(),
                    colsv == columns@.map_values(|s: String| s@),
                    forall|a: int| 0 <= a < i ==> colsv[a] != colsv[j as int],
                    self@ == old(self)@,
                    old(self).wf(),
                    !crate::text::is_blank(name@),
                    !tbl_has(old(self)@.tables, name@),
                decreases j - i,
            {
                if crate::text::str_eq(columns[i].as_str(), columns[j].as_str()) {
                    proof {
                        assert(colsv[i as int] == columns@[i as int]@);
                        assert(colsv[j as int] == columns@[j as int]@);
                    }
                    let mut msg = String::from_str("Duplicate column name: ");
                    msg.append(columns[j].as_str());
                    return Err(StorageError::InvalidSchema(msg));
                }
                i = i + 1;
            }
            j = j + 1;
        }
        // The primary key must be one of the columns.
        match primary_key {
            Some(pk) => {
                if !crate::schema::vec_contains_string(&columns, pk) {
                    let mut msg = String::from_str("Primary key '");
                    msg.append(pk);
                    msg.append("' must be one of the table columns");
                    return Err(StorageError::InvalidSchema(msg));
                }
            },
            None => {},
        }
        let pk_owned: Option<String> = match primary_key {
            Some(pk) => Some(String::from_str(pk)),
            None => None,
        };
        let table = Table { columns, rows: Vec::new(), primary_key: pk_owned };
        proof {
            assert(table@.rows =~= Seq::<crate::schema::Cells>::empty());
        }
        let ghost old_tables = self@.tables;
        self.tables.push((String::from_str(name), table));
        proof {
            assert forall|k: int| 0 <= k < old_tables.len() implies self@.tables[k]
                == old_tables[k] by {
                assert(self.tables@[k] == old(self).tables@[k]);
            }
            assert(self@.tables =~= old_tables.push(
                (
                    name@,
                    TableV {
                        columns: colsv,
                        rows: Seq::empty(),
                        primary_key: match primary_key {
                            Some(k) => Some(k@),
                            None => None,
                        },
                    },
                ),
            ));
        }
        self.metadata.update_timestamp();
        self.metadata.total_tables_created = self.metadata.total_tables_created.saturating_add(1);
        proof {
            let newt = self@.tables[old_tables.len() as int];
            assert forall|i: int, j: int| 0 <= i < j < self@.tables.len() implies self@.tables[i].0
                != self@.tables[j].0 by {
                if j == old_tables.len() as int {
                    if self@.tables[i].0 == name@ {
                        assert(tbl_has(old_tables, name@));
                    }
                }
            }
            assert(newt.1.wf());
        }
        Ok(())
    }
}

/// Whether some row of the table already carries the primary-key value
/// of `cells` (under key `k` declared for the table).
pub open spec fn pk_conflict(t: TableV, cells: Cells) -> bool {
    match t.primary_key {
        Some(k) => exists|i: int|
            0 <= i < t.rows.len() && crate::schema::assoc_has(#[trigger] t.rows[i], k)
                && crate::schema::assoc_get(t.rows[i], k) == crate::schema::assoc_get(cells, k),
        None => false,
    }
}

impl StorageEngine {
    /// Check that every key of the row is a schema column.  The error
    /// names the first offending key; the table field reads `unknown`,
    /// the table name not being at hand here.
    pub fn validate_row_data(&self, row: &Row, table: &Table) -> (r: Result<(), StorageError>)
        requires
            row.wf(),
        ensures
            match r {
                Ok(_) => crate::schema::row_in_schema(row@, table@.columns),
                Err(e) => !crate::schema::row_in_schema(row@, table@.columns) && match e {
                    StorageError::ColumnNotFound { table: t, column: c } => t@ == "unknown"@
                        && exists|j: int|
                        0 <= j < row@.len() && (#[trigger] row@[j]).0 == c@
                            && !table@.columns.contains(c@) && (forall|j2: int|
                            0 <= j2 < j ==> table@.columns.contains(#[trigger] row@[j2].0)),
                    _ => false,
                },
            },
    {
        let n = row.cells.len();
        let mut k: usize = 0;
        while k < n
            invariant
                k <= n,
                n == row@.len(),
                forall|j: int| 0 <= j < k ==> table@.columns.contains(#[trigger] row@[j].0),
            decreases n - k,
        {
            if !table.has_column(row.cells[k].0.as_str()) {
                proof {
                    assert(row@[k as int].0 == row.cells@[k as int].0@);
                }
                return Err(
                    StorageError::ColumnNotFound {
                        table: String::from_str("unknown"),
                        column: row.cells[k].0.clone(),
                    },
                );
            }
            k = k + 1;
        }
        Ok(())
    }

    /// Insert a row.  On success the row is appended to the named
    /// table's rows and the metadata is touched; on failure nothing
    /// changes.  The checks, in order: the table must exist, every row
    /// key must be a schema column, a declared primary key must be
    /// present in the row, and its value must not repeat one already in
    /// the table.
    pub fn insert_row(&mut self, table_name: &str, row: Row) -> (r: Result<(), StorageError>)
        requires
            old(self).wf(),
            row.wf(),
        ensures
            final(self).wf(),
            ({
                let ts = old(self)@.tables;
                match r {
                    Ok(_) => {
                        &&& tbl_has(ts, table_name@)
                        &&& ({
                            let t = tbl_get(ts, table_name@);
                            &&& crate::schema::row_in_schema(row@, t.columns)
                            &&& (match t.primary_key {
                                Some(k) => crate::schema::assoc_has(row@, k) && !pk_conflict(
                                    t,
                                    row@,
                                ),
                                None => true,
                            })
                            &&& final(self)@.tables == ts.update(
                                tbl_index(ts, table_name@),
                                (table_name@, TableV { rows: t.rows.push(row@), ..t }),
                            )
                        })
                        &&& final(self)@.metadata.touched_from(old(self)@.metadata)
                        &&& final(self)@.metadata.total_rows_inserted == sat_add64(
                            old(self)@.metadata.total_rows_inserted,
                            1,
                        )
                        &&& final(self)@.metadata.total_tables_created == old(
                            self,
                        )@.metadata.total_tables_created
                        &&& final(self)@.metadata.total_rows_updated == old(
                            self,
                        )@.metadata.total_rows_updated
                        &&& final(self)@.metadata.total_rows_deleted == old(
                            self,
                        )@.metadata.total_rows_deleted
                        &&& final(self)@.metadata.counters_geq(old(self)@.metadata)
                    },
                    Err(e) => {
                        &&& final(self)@ == old(self)@
                        &&& match e {
                            StorageError::TableNotFound(n) => n@ == table_name@ && !tbl_has(
                                ts,
                                table_name@,
                            ),
                            StorageError::ColumnNotFound { .. } => tbl_has(ts, table_name@)
                                && !crate::schema::row_in_schema(
                                row@,
                                tbl_get(ts, table_name@).columns,
                            ),
                            StorageError::MissingPrimaryKey { table: t, key: k } => {
                                &&& tbl_has(ts, table_name@)
                                &&& t@ == table_name@
                                &&& crate::schema::row_in_schema(
                                    row@,
                                    tbl_get(ts, table_name@).columns,
                                )
                                &&& tbl_get(ts, table_name@).primary_key == Some(k@)
                                &&& !crate::schema::assoc_has(row@, k@)
                            },
                            StorageError::PrimaryKeyViolation { table: t, key: k, value: v } => {
                                &&& tbl_has(ts, table_name@)
                                &&& t@ == table_name@
                                &&& crate::schema::row_in_schema(
                                    row@,
                                    tbl_get(ts, table_name@).columns,
                                )
                                &&& tbl_get(ts, table_name@).primary_key == Some(k@)
                                &&& crate::schema::assoc_has(row@, k@)
                                &&& v@ == crate::schema::assoc_get(row@, k@)
                                &&& pk_conflict(tbl_get(ts, table_name@), row@)
                            },
                            _ => false,
                        }
                    },
                }
            }),
    {
        let idx = match self.find_table(table_name) {
            None => {
                return Err(StorageError::TableNotFound(String::from_str(table_name)));
            },
            Some(i) => i,
        };
        proof {
            lemma_tbl_index(self@.tables, table_name@);
        }
        let ghost t = tbl_get(old(self)@.tables, table_name@);
        proof {
            assert(self@.tables[idx as int].1 == t);
            assert(self@.tables[idx as int].1.wf());
        }
        match self.validate_row_data(&row, &self.tables[idx].1) {
            Ok(_) => {},
            Err(e) => {
                return Err(e);
            },
        }
        match &self.tables[idx].1.primary_key {
            Some(pkname) => {
                proof {
                    assert(t.primary_key == Some(pkname@));
                }
                match row.get(pkname.as_str()) {
                    None => {
                        return Err(
                            StorageError::MissingPrimaryKey {
                                table: String::from_str(table_name),
                                key: pkname.clone(),
                            },
                        );
                    },
                    Some(pkval) => {
                        let nrows = self.tables[idx].1.rows.len();
                        let mut rix: usize = 0;
                        while rix < nrows
                            invariant
                                rix <= nrows,
                                self@ == old(self)@,
                                old(self).wf(),
                                row.wf(),
                                tbl_has(old(self)@.tables, table_name@),
                                0 <= idx < self.tables@.len(),
                                idx == tbl_index(old(self)@.tables, table_name@),
                                t == tbl_get(old(self)@.tables, table_name@),
                                nrows == t.rows.len(),
                                t.primary_key == Some(pkname@),
                                crate::schema::row_in_schema(row@, t.columns),
                                crate::schema::assoc_has(row@, pkname@),
                                pkval@ == crate::schema::assoc_get(row@, pkname@),
                                forall|i: int|
                                    0 <= i < rix ==> !(crate::schema::assoc_has(
                                        #[trigger] t.rows[i],
                                        pkname@,
                                    ) && crate::schema::assoc_get(t.rows[i], pkname@)
                                        == crate::schema::assoc_get(row@, pkname@)),
                            decreases nrows - rix,
                        {
                            proof {
                                assert(self@.tables[idx as int].1 == t);
                                assert(self@.tables[idx as int].1.rows[rix as int] == t.rows[rix as int]);
                                assert(crate::schema::keys_distinct(t.rows[rix as int]));
                            }
                            match self.tables[idx].1.rows[rix].get(pkname.as_str()) {
                                Some(existing) => {
                                    if crate::text::str_eq(existing.as_str(), pkval.as_str()) {
                                        return Err(
                                            StorageError::PrimaryKeyViolation {
                                                table: String::from_str(table_name),
                                                key: pkname.clone(),
                                                value: pkval.clone(),
                                            },
                                        );
                                    }
                                },
                                None => {},
                            }
                            rix = rix + 1;
                        }
                    },
                }
            },
            None => {},
        }
        let ghost old_tables = self@.tables;
        let (tname_owned, mut table) = self.tables.remove(idx);
        table.rows.push(row);
        self.tables.insert(idx, (tname_owned, table));
        proof {
            assert(self.tables@ == old(self).tables@.remove(idx as int).insert(
                idx as int,
                self.tables@[idx as int],
            ));
            assert(self@.tables.len() == old_tables.len());
            assert forall|j: int|
                0 <= j < old_tables.len() && j != idx as int implies self@.tables[j]
                == old_tables[j] by {
                if j < idx as int {
                    assert(self.tables@[j] == old(self).tables@[j]);
                } else {
                    assert(self.tables@[j] == old(self).tables@[j]);
                }
            }
            assert(self@.tables[idx as int].0 == table_name@);
            assert(self@.tables[idx as int].1.rows =~= t.rows.push(row@));
            assert(self@.tables[idx as int].1.columns == t.columns);
            assert(self@.tables[idx as int].1.primary_key == t.primary_key);
            assert(self@.tables[idx as int].1 == TableV { rows: t.rows.push(row@), ..t });
            assert(self@.tables =~= old_tables.update(
                idx as int,
                (table_name@, TableV { rows: t.rows.push(row@), ..t }),
            ));
        }
        self.metadata.update_timestamp();
        self.metadata.total_rows_inserted = self.metadata.total_rows_inserted.saturating_add(1);
        proof {
            let newt = self@.tables[idx as int].1;
            assert(newt.rows =~= t.rows.push(row@));
            assert(t.wf());
            assert forall|i: int| 0 <= i < newt.rows.len() implies crate::schema::keys_distinct(
                #[trigger] newt.rows[i],
            ) && crate::schema::row_in_schema(newt.rows[i], newt.columns) by {
                if i < t.rows.len() {
                    assert(newt.rows[i] == t.rows[i]);
                } else {
                    assert(newt.rows[i] == row@);
                }
            }
            match newt.primary_key {
                Some(k) => {
                    assert forall|i: int| 0 <= i < newt.rows.len() implies crate::schema::assoc_has(
                        #[trigger] newt.rows[i],
                        k,
                    ) by {
                        if i < t.rows.len() {
                            assert(newt.rows[i] == t.rows[i]);
                        } else {
                            assert(newt.rows[i] == row@);
                        }
                    }
                    assert forall|a: int, b: int|
                        0 <= a < b < newt.rows.len() implies crate::schema::assoc_get(
                        #[trigger] newt.rows[a],
                        k,
                    ) != crate::schema::assoc_get(#[trigger] newt.rows[b], k) by {
                        if b == t.rows.len() as int {
                            assert(newt.rows[b] == row@);
                            assert(newt.rows[a] == t.rows[a]);
                            assert(crate::schema::assoc_has(t.rows[a], k));
                            assert(!(crate::schema::assoc_has(t.rows[a], k)
                                && crate::schema::assoc_get(t.rows[a], k)
                                == crate::schema::assoc_get(row@, k)));
                        } else {
                            assert(t.rows[a] == newt.rows[a] && t.rows[b] == newt.rows[b]);
                        }
                    }
                },
                None => {},
            }
            assert(newt.wf());
            assert forall|i: int| 0 <= i < self@.tables.len() implies (
            #[trigger] self@.tables[i]).1.wf() by {
                if i != idx as int {
                    assert(self@.tables[i] == old(self)@.tables[i]);
                }
            }
            assert(tbl_names_distinct(self@.tables)) by {
                assert forall|i: int, j: int|
                    0 <= i < j < self@.tables.len() implies self@.tables[i].0
                    != self@.tables[j].0 by {
                    assert(self@.tables[i].0 == old(self)@.tables[i].0);
                    assert(self@.tables[j].0 == old(self)@.tables[j].0);
                }
            }
        }
        Ok(())
    }
}

// ---------------------------------------------------------------------
// Updating and deleting rows: the mathematical operations.
// ---------------------------------------------------------------------
/// The row after binding every update pair in order.
pub open spec fn apply_updates(cells: Cells, ups: Cells) -> Cells
    decreases ups.len(),
{
    if ups.len() == 0 {
        cells
    } else {
        crate::schema::assoc_set(apply_updates(cells, ups.drop_last()), ups.last().0, ups.last().1)
    }
}

/// The table's rows after an update: every row the predicate admits has
/// the update pairs bound, every other row is untouched.
pub open spec fn updated_rows(
    rows: Seq<Cells>,
    ups: Cells,
    p: crate::parser::PredV,
) -> Seq<Cells> {
    Seq::new(
        rows.len(),
        |i: int|
            if crate::parser::pred_holds(p, rows[i]) {
                apply_updates(rows[i], ups)
            } else {
                rows[i]
            },
    )
}

/// How many rows the predicate admits.
pub open spec fn match_count(rows: Seq<Cells>, p: crate::parser::PredV) -> int
    decreases rows.len(),
{
    if rows.len() == 0 {
        0
    } else {
        match_count(rows.drop_last(), p) + if crate::parser::pred_holds(p, rows.last()) {
            1int
        } else {
            0int
        }
    }
}

/// The rows that survive a delete: those the predicate does not admit,
/// in their original order.
pub open spec fn rows_kept(rows: Seq<Cells>, p: crate::parser::PredV) -> Seq<Cells>
    decreases rows.len(),
{
    if rows.len() == 0 {
        Seq::empty()
    } else {
        let rest = rows_kept(rows.drop_last(), p);
        if crate::parser::pred_holds(p, rows.last()) {
            rest
        } else {
            rest.push(rows.last())
        }
    }
}

/// Whether updating the primary key would breach uniqueness: the new
/// key value already sits in a row the update leaves alone, or more
/// than one row would receive it.
pub open spec fn update_pk_clash(t: TableV, ups: Cells, p: crate::parser::PredV) -> bool {
    match t.primary_key {
        Some(k) => crate::schema::assoc_has(ups, k) && ((exists|i: int|
            0 <= i < t.rows.len() && !crate::parser::pred_holds(p, #[trigger] t.rows[i])
                && crate::schema::assoc_has(t.rows[i], k) && crate::schema::assoc_get(t.rows[i], k)
                == crate::schema::assoc_get(ups, k)) || match_count(t.rows, p) > 1),
        None => false,
    }
}

/// When the key sits in the strict prefix, dropping the last pair does
/// not change the lookup.
proof fn lemma_assoc_get_prefix(cells: Cells, k: Seq<char>)
    requires
        crate::schema::assoc_has(cells.drop_last(), k),
        cells.len() > 0,
    ensures
        crate::schema::assoc_has(cells, k),
        crate::schema::assoc_get(cells, k) == crate::schema::assoc_get(cells.drop_last(), k),
    decreases cells.len(),
{
    let dl = cells.drop_last();
    let i = choose|i: int| 0 <= i < dl.len() && dl[i].0 == k;
    assert(cells[i].0 == k);
    if cells[0].0 == k {
        assert(dl[0].0 == k);
    } else {
        assert(dl.len() > 0);
        assert(cells.drop_first().drop_last() =~= dl.drop_first());
        assert(crate::schema::assoc_has(dl.drop_first(), k)) by {
            assert(i > 0);
            assert(dl.drop_first()[i - 1].0 == k);
        }
        assert(crate::schema::assoc_has(cells.drop_first().drop_last(), k));
        lemma_assoc_get_prefix(cells.drop_first(), k);
    }
}

/// What binding all update pairs does: keys of the updates read their
/// update value, other keys are untouched, key distinctness is kept,
/// and the key set grows by exactly the update keys.
pub proof fn lemma_apply_updates(cells: Cells, ups: Cells)
    requires
        crate::schema::keys_distinct(cells),
        crate::schema::keys_distinct(ups),
    ensures
        crate::schema::keys_distinct(apply_updates(cells, ups)),
        forall|k: Seq<char>| #[trigger]
            crate::schema::assoc_has(apply_updates(cells, ups), k) == (crate::schema::assoc_has(
                cells,
                k,
            ) || crate::schema::assoc_has(ups, k)),
        forall|k: Seq<char>|
            crate::schema::assoc_has(ups, k) ==> #[trigger] crate::schema::assoc_get(
                apply_updates(cells, ups),
                k,
            ) == crate::schema::assoc_get(ups, k),
        forall|k: Seq<char>|
            !crate::schema::assoc_has(ups, k) ==> #[trigger] crate::schema::assoc_get(
                apply_updates(cells, ups),
                k,
            ) == crate::schema::assoc_get(cells, k),
    decreases ups.len(),
{
    if ups.len() == 0 {
        assert forall|k: Seq<char>| !crate::schema::assoc_has(ups, k) by {
            if crate::schema::assoc_has(ups, k) {
                let i = choose|i: int| 0 <= i < ups.len() && ups[i].0 == k;
            }
        }
    } else {
        let dl = ups.drop_last();
        let kl = ups.last().0;
        let vl = ups.last().1;
        assert(crate::schema::keys_distinct(dl)) by {
            assert forall|a: int, b: int| 0 <= a < b < dl.len() implies dl[a].0 != dl[b].0 by {
                assert(ups[a].0 != ups[b].0);
            }
        }
        lemma_apply_updates(cells, dl);
        let mid = apply_updates(cells, dl);
        crate::schema::lemma_assoc_set(mid, kl, vl);
        let out = crate::schema::assoc_set(mid, kl, vl);
        assert(apply_updates(cells, ups) == out);
        // The last key does not appear in the prefix of the updates.
        assert(!crate::schema::assoc_has(dl, kl)) by {
            if crate::schema::assoc_has(dl, kl) {
                let i = choose|i: int| 0 <= i < dl.len() && dl[i].0 == kl;
                assert(ups[i].0 == ups[ups.len() - 1].0);
            }
        }
        assert(crate::schema::assoc_get(ups, kl) == vl) by {
            crate::schema::lemma_assoc_get_at(ups, kl, ups.len() - 1);
        }
        assert forall|k: Seq<char>|
            crate::schema::assoc_has(ups, k) implies #[trigger] crate::schema::assoc_get(
            apply_updates(cells, ups),
            k,
        ) == crate::schema::assoc_get(ups, k) by {
            if k == kl {
                assert(crate::schema::assoc_get(out, k) == vl);
            } else {
                assert(crate::schema::assoc_has(dl, k)) by {
                    let i = choose|i: int| 0 <= i < ups.len() && ups[i].0 == k;
                    assert(i < ups.len() - 1);
                    assert(dl[i].0 == k);
                }
                lemma_assoc_get_prefix(ups, k);
                assert(crate::schema::assoc_get(out, k) == crate::schema::assoc_get(mid, k));
                assert(crate::schema::assoc_get(mid, k) == crate::schema::assoc_get(dl, k));
            }
        }
        assert forall|k: Seq<char>| #[trigger]
            crate::schema::assoc_has(apply_updates(cells, ups), k) == (crate::schema::assoc_has(
            cells,
            k,
        ) || crate::schema::assoc_has(ups, k)) by {
            if k == kl {
                assert(crate::schema::assoc_has(ups, k)) by {
                    assert(ups[ups.len() - 1].0 == k);
                }
                assert(crate::schema::assoc_has(out, k));
            } else {
                assert(crate::schema::assoc_has(ups, k) == crate::schema::assoc_has(dl, k)) by {
                    if crate::schema::assoc_has(ups, k) {
                        let i = choose|i: int| 0 <= i < ups.len() && ups[i].0 == k;
                        assert(i < ups.len() - 1);
                        assert(dl[i].0 == k);
                    }
                    if crate::schema::assoc_has(dl, k) {
                        let i = choose|i: int| 0 <= i < dl.len() && dl[i].0 == k;
                        assert(ups[i].0 == k);
                    }
                }
                assert(crate::schema::assoc_has(out, k) == crate::schema::assoc_has(mid, k));
                assert(crate::schema::assoc_has(mid, k) == (crate::schema::assoc_has(cells, k)
                    || crate::schema::assoc_has(dl, k)));
            }
        }
        assert forall|k: Seq<char>|
            !crate::schema::assoc_has(ups, k) implies #[trigger] crate::schema::assoc_get(
            apply_updates(cells, ups),
            k,
        ) == crate::schema::assoc_get(cells, k) by {
            assert(k != kl) by {
                if k == kl {
                    assert(ups[ups.len() - 1].0 == k);
                }
            }
            assert(!crate::schema::assoc_has(dl, k)) by {
                if crate::schema::assoc_has(dl, k) {
                    let i = choose|i: int| 0 <= i < dl.len() && dl[i].0 == k;
                    assert(ups[i].0 == k);
                }
            }
            assert(crate::schema::assoc_get(out, k) == crate::schema::assoc_get(mid, k));
            assert(crate::schema::assoc_get(mid, k) == crate::schema::assoc_get(cells, k));
        }
    }
}

/// The survivors of a delete are among the original rows, and there are
/// no more of them.
pub proof fn lemma_rows_kept(rows: Seq<Cells>, p: crate::parser::PredV)
    ensures
        rows_kept(rows, p).len() + match_count(rows, p) == rows.len(),
        0 <= match_count(rows, p) <= rows.len(),
        forall|i: int|
            0 <= i < rows_kept(rows, p).len() ==> exists|j: int|
                0 <= j < rows.len() && rows[j] == #[trigger] rows_kept(rows, p)[i]
                    && !crate::parser::pred_holds(p, rows[j]),
    decreases rows.len(),
{
    if rows.len() > 0 {
        lemma_rows_kept(rows.drop_last(), p);
        let kept = rows_kept(rows, p);
        let rest = rows_kept(rows.drop_last(), p);
        assert forall|i: int|
            0 <= i < kept.len() implies exists|j: int|
            0 <= j < rows.len() && rows[j] == #[trigger] kept[i] && !crate::parser::pred_holds(p, rows[j]) by {
            if i < rest.len() {
                assert(kept[i] == rest[i]);
                let j = choose|j: int|
                    0 <= j < rows.drop_last().len() && rows.drop_last()[j] == rest[i]
                        && !crate::parser::pred_holds(p, rows.drop_last()[j]);
                assert(rows[j] == kept[i] && !crate::parser::pred_holds(p, rows[j]));
            } else {
                assert(kept[i] == rows.last());
                assert(rows[rows.len() - 1] == kept[i] && !crate::parser::pred_holds(p, rows[rows.len() - 1]));
            }
        }
    }
}

/// Deleting keeps pairwise-distinct primary keys pairwise distinct.
pub proof fn lemma_rows_kept_pk(rows: Seq<Cells>, p: crate::parser::PredV, k: Seq<char>)
    requires
        forall|a: int, b: int|
            0 <= a < b < rows.len() ==> crate::schema::assoc_get(#[trigger] rows[a], k)
                != crate::schema::assoc_get(#[trigger] rows[b], k),
    ensures
        forall|a: int, b: int|
            0 <= a < b < rows_kept(rows, p).len() ==> crate::schema::assoc_get(
                #[trigger] rows_kept(rows, p)[a],
                k,
            ) != crate::schema::assoc_get(#[trigger] rows_kept(rows, p)[b], k),
    decreases rows.len(),
{
    if rows.len() > 0 {
        assert forall|a: int, b: int|
            0 <= a < b < rows.drop_last().len() implies crate::schema::assoc_get(
            #[trigger] rows.drop_last()[a],
            k,
        ) != crate::schema::assoc_get(#[trigger] rows.drop_last()[b], k) by {
            assert(rows[a] == rows.drop_last()[a] && rows[b] == rows.drop_last()[b]);
        }
        lemma_rows_kept_pk(rows.drop_last(), p, k);
        lemma_rows_kept(rows.drop_last(), p);
        let kept = rows_kept(rows, p);
        let rest = rows_kept(rows.drop_last(), p);
        assert forall|a: int, b: int|
            0 <= a < b < kept.len() implies crate::schema::assoc_get(#[trigger] kept[a], k)
            != crate::schema::assoc_get(#[trigger] kept[b], k) by {
            if b < rest.len() {
                assert(kept[a] == rest[a] && kept[b] == rest[b]);
            } else {
                assert(kept[b] == rows.last());
                assert(kept[a] == rest[a]);
                let j = choose|j: int|
                    0 <= j < rows.drop_last().len() && rows.drop_last()[j] == rest[a]
                        && !crate::parser::pred_holds(p, rows.drop_last()[j]);
                assert(rows[j] == kept[a]);
                assert(crate::schema::assoc_get(rows[j], k) != crate::schema::assoc_get(
                    rows[rows.len() - 1],
                    k,
                ));
            }
        }
    }
}

/// A matched row somewhere means the count is at least one; two matched
/// rows mean at least two.
pub proof fn lemma_match_count_at(rows: Seq<Cells>, p: crate::parser::PredV, i: int)
    requires
        0 <= i < rows.len(),
        crate::parser::pred_holds(p, rows[i]),
    ensures
        match_count(rows, p) >= 1,
    decreases rows.len(),
{
    lemma_rows_kept(rows, p);
    lemma_rows_kept(rows.drop_last(), p);
    if i < rows.len() - 1 {
        assert(rows.drop_last()[i] == rows[i]);
        lemma_match_count_at(rows.drop_last(), p, i);
    }
}

pub proof fn lemma_match_count_two(rows: Seq<Cells>, p: crate::parser::PredV, i: int, j: int)
    requires
        0 <= i < j < rows.len(),
        crate::parser::pred_holds(p, rows[i]),
        crate::parser::pred_holds(p, rows[j]),
    ensures
        match_count(rows, p) >= 2,
    decreases rows.len(),
{
    if j == rows.len() - 1 {
        assert(rows.drop_last()[i] == rows[i]);
        lemma_match_count_at(rows.drop_last(), p, i);
    } else {
        assert(rows.drop_last()[i] == rows[i]);
        assert(rows.drop_last()[j] == rows[j]);
        lemma_match_count_two(rows.drop_last(), p, i, j);
        lemma_rows_kept(rows.drop_last(), p);
    }
}

impl StorageEngine {
    /// Update the rows a predicate admits, binding every update pair in
    /// each of them, and say how many rows that was.  A declared primary
    /// key among the updates is refused when the new value sits in a row
    /// the update leaves alone, or when more than one row would receive
    /// it (either would breach uniqueness).  On failure nothing changes.
    pub fn update_rows(
        &mut self,
        table_name: &str,
        updates: &Row,
        condition: &crate::parser::Predicate,
    ) -> (r: Result<usize, StorageError>)
        requires
            old(self).wf(),
            updates.wf(),
        ensures
            final(self).wf(),
            ({
                let ts = old(self)@.tables;
                match r {
                    Ok(count) => {
                        &&& tbl_has(ts, table_name@)
                        &&& ({
                            let t = tbl_get(ts, table_name@);
                            &&& crate::schema::row_in_schema(updates@, t.columns)
                            &&& !update_pk_clash(t, updates@, condition@)
                            &&& count == match_count(t.rows, condition@)
                            &&& final(self)@.tables == ts.update(
                                tbl_index(ts, table_name@),
                                (
                                    table_name@,
                                    TableV {
                                        rows: updated_rows(t.rows, updates@, condition@),
                                        ..t
                                    },
                                ),
                            )
                            &&& (count > 0 ==> {
                                &&& final(self)@.metadata.touched_from(old(self)@.metadata)
                                &&& final(self)@.metadata.total_rows_updated == sat_add64(
                                    old(self)@.metadata.total_rows_updated,
                                    count as u64,
                                )
                                &&& final(self)@.metadata.total_tables_created == old(
                                    self,
                                )@.metadata.total_tables_created
                                &&& final(self)@.metadata.total_rows_inserted == old(
                                    self,
                                )@.metadata.total_rows_inserted
                                &&& final(self)@.metadata.total_rows_deleted == old(
                                    self,
                                )@.metadata.total_rows_deleted
                            })
                            &&& (count == 0 ==> final(self)@.metadata == old(self)@.metadata)
                            &&& final(self)@.metadata.counters_geq(old(self)@.metadata)
                        })
                    },
                    Err(e) => {
                        &&& final(self)@ == old(self)@
                        &&& match e {
                            StorageError::TableNotFound(n) => n@ == table_name@ && !tbl_has(
                                ts,
                                table_name@,
                            ),
                            StorageError::ColumnNotFound { table: tn, .. } => tn@ == table_name@
                                && tbl_has(ts, table_name@) && !crate::schema::row_in_schema(
                                updates@,
                                tbl_get(ts, table_name@).columns,
                            ),
                            StorageError::PrimaryKeyViolation { table: tn, key: k, value: v } => {
                                &&& tn@ == table_name@
                                &&& tbl_has(ts, table_name@)
                                &&& crate::schema::row_in_schema(
                                    updates@,
                                    tbl_get(ts, table_name@).columns,
                                )
                                &&& tbl_get(ts, table_name@).primary_key == Some(k@)
                                &&& crate::schema::assoc_has(updates@, k@)
                                &&& v@ == crate::schema::assoc_get(updates@, k@)
                                &&& update_pk_clash(
                                    tbl_get(ts, table_name@),
                                    updates@,
                                    condition@,
                                )
                            },
                            _ => false,
                        }
                    },
                }
            }),
    {
        let idx = match self.find_table(table_name) {
            None => {
                return Err(StorageError::TableNotFound(String::from_str(table_name)));
            },
            Some(i) => i,
        };
        proof {
            lemma_tbl_index(self@.tables, table_name@);
        }
        let ghost t = tbl_get(old(self)@.tables, table_name@);
        proof {
            assert(self@.tables[idx as int].1 == t);
            assert(self@.tables[idx as int].1.wf());
        }
        // Every update key must be a schema column.
        let nups = updates.cells.len();
        let mut k: usize = 0;
        while k < nups
            invariant
                k <= nups,
                nups == updates@.len(),
                self@ == old(self)@,
                old(self).wf(),
                tbl_has(old(self)@.tables, table_name@),
                0 <= idx < self.tables@.len(),
                idx == tbl_index(old(self)@.tables, table_name@),
                t == tbl_get(old(self)@.tables, table_name@),
                forall|j: int| 0 <= j < k ==> t.columns.contains(#[trigger] updates@[j].0),
            decreases nups - k,
        {
            if !self.tables[idx].1.has_column(updates.cells[k].0.as_str()) {
                proof {
                    assert(updates@[k as int].0 == updates.cells@[k as int].0@);
                }
                return Err(
                    StorageError::ColumnNotFound {
                        table: String::from_str(table_name),
                        column: updates.cells[k].0.clone(),
                    },
                );
            }
            k = k + 1;
        }
        // A primary key among the updates must not breach uniqueness.
        match &self.tables[idx].1.primary_key {
            Some(pkname) => {
                proof {
                    assert(t.primary_key == Some(pkname@));
                }
                match updates.get(pkname.as_str()) {
                    Some(newv) => {
                        let nrows = self.tables[idx].1.rows.len();
                        let mut rix: usize = 0;
                        let mut count: usize = 0;
                        while rix < nrows
                            invariant
                                rix <= nrows,
                                count <= rix,
                                self@ == old(self)@,
                                old(self).wf(),
                                updates.wf(),
                                tbl_has(old(self)@.tables, table_name@),
                                0 <= idx < self.tables@.len(),
                                idx == tbl_index(old(self)@.tables, table_name@),
                                t == tbl_get(old(self)@.tables, table_name@),
                                nrows == t.rows.len(),
                                t.primary_key == Some(pkname@),
                                crate::schema::row_in_schema(updates@, t.columns),
                                crate::schema::assoc_has(updates@, pkname@),
                                newv@ == crate::schema::assoc_get(updates@, pkname@),
                                count == match_count(t.rows.take(rix as int), condition@),
                                forall|i: int|
                                    0 <= i < rix ==> !(!crate::parser::pred_holds(condition@, 
                                        #[trigger] t.rows[i],
                                    ) && crate::schema::assoc_has(t.rows[i], pkname@)
                                        && crate::schema::assoc_get(t.rows[i], pkname@) == newv@),
                            decreases nrows - rix,
                        {
                            proof {
                                assert(self@.tables[idx as int].1 == t);
                                assert(self@.tables[idx as int].1.rows[rix as int] == t.rows[rix as int]);
                                assert(crate::schema::keys_distinct(t.rows[rix as int]));
                                assert(t.rows.take(rix + 1).drop_last() =~= t.rows.take(
                                    rix as int,
                                ));
                                assert(t.rows.take(rix + 1).last() == t.rows[rix as int]);
                            }
                            if condition.evaluate(&self.tables[idx].1.rows[rix]) {
                                count = count + 1;
                            } else {
                                match self.tables[idx].1.rows[rix].get(pkname.as_str()) {
                                    Some(existing) => {
                                        if crate::text::str_eq(existing.as_str(), newv.as_str()) {
                                            return Err(
                                                StorageError::PrimaryKeyViolation {
                                                    table: String::from_str(table_name),
                                                    key: pkname.clone(),
                                                    value: newv.clone(),
                                                },
                                            );
                                        }
                                    },
                                    None => {},
                                }
                            }
                            rix = rix + 1;
                        }
                        proof {
                            assert(t.rows.take(nrows as int) =~= t.rows);
                        }
                        if count > 1 {
                            return Err(
                                StorageError::PrimaryKeyViolation {
                                    table: String::from_str(table_name),
                                    key: pkname.clone(),
                                    value: newv.clone(),
                                },
                            );
                        }
                        proof {
                            assert(!update_pk_clash(t, updates@, condition@));
                        }
                    },
                    None => {
                        proof {
                            assert(!update_pk_clash(t, updates@, condition@));
                        }
                    },
                }
            },
            None => {
                proof {
                    assert(!update_pk_clash(t, updates@, condition@));
                }
            },
        }
        // Apply the updates.
        let ghost old_tables = self@.tables;
        let (tname_owned, mut table) = self.tables.remove(idx);
        proof {
            assert(old(self).tables@[idx as int].1@ == t);
            assert(table@ == t);
        }
        let nrows = table.rows.len();
        let mut rix: usize = 0;
        let mut updated_count: usize = 0;
        while rix < nrows
            invariant
                rix <= nrows,
                updated_count <= rix,
                self.tables@ == old(self).tables@.remove(idx as int),
                tname_owned@ == table_name@,
                table@.columns == t.columns,
                table@.primary_key == t.primary_key,
                nrows == table.rows@.len(),
                nrows == t.rows.len(),
                updates.wf(),
                forall|j: int| rix <= j < nrows ==> (#[trigger] table@.rows[j]) == t.rows[j],
                forall|j: int|
                    0 <= j < rix ==> (#[trigger] table@.rows[j]) == if crate::parser::pred_holds(condition@, 
                        t.rows[j],
                    ) {
                        apply_updates(t.rows[j], updates@)
                    } else {
                        t.rows[j]
                    },
                forall|j: int|
                    0 <= j < nrows ==> crate::schema::keys_distinct(#[trigger] table@.rows[j]),
                forall|j: int| 0 <= j < nrows ==> crate::schema::keys_distinct(#[trigger] t.rows[j]),
                updated_count == match_count(t.rows.take(rix as int), condition@),
            decreases nrows - rix,
        {
            proof {
                assert(table@.rows[rix as int] == table.rows@[rix as int]@);
                assert(t.rows.take(rix + 1).drop_last() =~= t.rows.take(rix as int));
                assert(t.rows.take(rix + 1).last() == t.rows[rix as int]);
            }
            if condition.evaluate(&table.rows[rix]) {
                let ghost rows_at_entry = table@.rows;
                let nu = updates.cells.len();
                let mut u: usize = 0;
                proof {
                    assert(updates@.take(0int) =~= Seq::<(Seq<char>, Seq<char>)>::empty());
                }
                while u < nu
                    invariant
                        u <= nu,
                        rix < nrows,
                        nrows == table.rows@.len(),
                        nu == updates@.len(),
                        updates.wf(),
                        rows_at_entry[rix as int] == t.rows[rix as int],
                        table@.rows.len() == nrows,
                        table@.columns == t.columns,
                        table@.primary_key == t.primary_key,
                        forall|j: int|
                            0 <= j < nrows && j != rix ==> (#[trigger] table@.rows[j])
                                == rows_at_entry[j],
                        table@.rows[rix as int] == apply_updates(
                            t.rows[rix as int],
                            updates@.take(u as int),
                        ),
                        crate::schema::keys_distinct(table@.rows[rix as int]),
                    decreases nu - u,
                {
                    let ghost before = table@.rows[rix as int];
                    let ghost prevvec = table.rows@;
                    let ghost ev = table@.rows;
                    let upk = updates.cells[u].0.clone();
                    let upv = updates.cells[u].1.clone();
                    table.rows[rix].set(upk, upv);
                    proof {
                        assert(table.rows@ == prevvec.update(rix as int, table.rows@[rix as int]));
                        assert forall|j: int|
                            0 <= j < nrows && j != rix as int implies #[trigger] table@.rows[j]
                            == rows_at_entry[j] by {
                            assert(ev[j] == rows_at_entry[j]);
                            assert(table.rows@[j] == prevvec[j]);
                            assert(ev[j] == prevvec[j]@);
                            assert(table@.rows[j] == table.rows@[j]@);
                        }
                        let ups = updates@;
                        assert(ups.take(u + 1).drop_last() =~= ups.take(u as int));
                        assert(ups.take(u + 1).last() == ups[u as int]);
                        assert(ups[u as int] == (updates.cells@[u as int].0@, updates.cells@[u as int].1@));
                        assert(table@.rows[rix as int] == crate::schema::assoc_set(
                            before,
                            ups[u as int].0,
                            ups[u as int].1,
                        ));
                        crate::schema::lemma_assoc_set(before, ups[u as int].0, ups[u as int].1);
                    }
                    u = u + 1;
                }
                proof {
                    assert(updates@.take(nu as int) =~= updates@);
                }
                updated_count = updated_count + 1;
            }
            rix = rix + 1;
        }
        proof {
            assert(t.rows.take(nrows as int) =~= t.rows);
            assert(table@.rows =~= updated_rows(t.rows, updates@, condition@));
        }
        self.tables.insert(idx, (tname_owned, table));
        if updated_count > 0 {
            self.metadata.update_timestamp();
            self.metadata.total_rows_updated = self.metadata.total_rows_updated.saturating_add(
                updated_count as u64,
            );
        }
        proof {
            assert(self@.tables.len() == old_tables.len());
            assert forall|j: int|
                0 <= j < old_tables.len() && j != idx as int implies self@.tables[j]
                == old_tables[j] by {
                if j < idx as int {
                    assert(self.tables@[j] == old(self).tables@[j]);
                } else {
                    assert(self.tables@[j] == old(self).tables@[j]);
                }
            }
            let newt = TableV { rows: updated_rows(t.rows, updates@, condition@), ..t };
            assert(self@.tables[idx as int].0 == table_name@);
            assert(self@.tables[idx as int].1.rows =~= newt.rows);
            assert(self@.tables[idx as int].1 == newt);
            assert(self@.tables =~= old_tables.update(idx as int, (table_name@, newt)));
            // The updated table stays well-formed.
            lemma_apply_updates_schema(t, updates@, condition@);
            assert(newt.wf());
            assert forall|i: int| 0 <= i < self@.tables.len() implies (
            #[trigger] self@.tables[i]).1.wf() by {
                if i != idx as int {
                    assert(self@.tables[i] == old(self)@.tables[i]);
                }
            }
            assert(tbl_names_distinct(self@.tables)) by {
                assert forall|i: int, j: int|
                    0 <= i < j < self@.tables.len() implies self@.tables[i].0
                    != self@.tables[j].0 by {
                    assert(self@.tables[i].0 == old(self)@.tables[i].0);
                    assert(self@.tables[j].0 == old(self)@.tables[j].0);
                }
            }
        }
        Ok(updated_count)
    }
}

/// An update that passes the checks keeps the table well-formed.
proof fn lemma_apply_updates_schema(t: TableV, ups: Cells, p: crate::parser::PredV)
    requires
        t.wf(),
        crate::schema::keys_distinct(ups),
        crate::schema::row_in_schema(ups, t.columns),
        !update_pk_clash(t, ups, p),
    ensures
        (TableV { rows: updated_rows(t.rows, ups, p), ..t }).wf(),
{
    let newrows = updated_rows(t.rows, ups, p);
    assert forall|i: int|
        0 <= i < newrows.len() implies crate::schema::keys_distinct(#[trigger] newrows[i])
        && crate::schema::row_in_schema(newrows[i], t.columns) by {
        assert(crate::schema::keys_distinct(t.rows[i]));
        assert(crate::schema::row_in_schema(t.rows[i], t.columns));
        if crate::parser::pred_holds(p, t.rows[i]) {
            lemma_apply_updates(t.rows[i], ups);
            assert(newrows[i] == apply_updates(t.rows[i], ups));
            assert forall|j: int|
                0 <= j < newrows[i].len() implies t.columns.contains(
                #[trigger] newrows[i][j].0,
            ) by {
                let key = newrows[i][j].0;
                assert(crate::schema::assoc_has(newrows[i], key));
                if crate::schema::assoc_has(t.rows[i], key) {
                    let w = choose|w: int| 0 <= w < t.rows[i].len() && t.rows[i][w].0 == key;
                    assert(t.columns.contains(t.rows[i][w].0));
                } else {
                    assert(crate::schema::assoc_has(ups, key));
                    let w = choose|w: int| 0 <= w < ups.len() && ups[w].0 == key;
                    assert(t.columns.contains(ups[w].0));
                }
            }
        } else {
            assert(newrows[i] == t.rows[i]);
        }
    }
    match t.primary_key {
        Some(k) => {
            assert forall|i: int| 0 <= i < newrows.len() implies crate::schema::assoc_has(
                #[trigger] newrows[i],
                k,
            ) by {
                assert(crate::schema::assoc_has(t.rows[i], k));
                if crate::parser::pred_holds(p, t.rows[i]) {
                    lemma_apply_updates(t.rows[i], ups);
                }
            }
            if crate::schema::assoc_has(ups, k) {
                let newv = crate::schema::assoc_get(ups, k);
                assert forall|a: int, b: int|
                    0 <= a < b < newrows.len() implies crate::schema::assoc_get(
                    #[trigger] newrows[a],
                    k,
                ) != crate::schema::assoc_get(#[trigger] newrows[b], k) by {
                    let pa = crate::parser::pred_holds(p, t.rows[a]);
                    let pb = crate::parser::pred_holds(p, t.rows[b]);
                    lemma_apply_updates(t.rows[a], ups);
                    lemma_apply_updates(t.rows[b], ups);
                    if pa && pb {
                        lemma_match_count_two(t.rows, p, a, b);
                        assert(false);
                    } else if pa {
                        assert(crate::schema::assoc_get(newrows[a], k) == newv);
                        assert(crate::schema::assoc_get(newrows[b], k)
                            == crate::schema::assoc_get(t.rows[b], k));
                        assert(!(exists|i: int|
                            0 <= i < t.rows.len() && !crate::parser::pred_holds(p, #[trigger] t.rows[i])
                                && crate::schema::assoc_has(t.rows[i], k)
                                && crate::schema::assoc_get(t.rows[i], k) == newv));
                        assert(crate::schema::assoc_get(t.rows[b], k) != newv);
                    } else if pb {
                        assert(crate::schema::assoc_get(newrows[b], k) == newv);
                        assert(crate::schema::assoc_get(newrows[a], k)
                            == crate::schema::assoc_get(t.rows[a], k));
                        assert(crate::schema::assoc_get(t.rows[a], k) != newv);
                    } else {
                        assert(crate::schema::assoc_get(newrows[a], k)
                            == crate::schema::assoc_get(t.rows[a], k));
                        assert(crate::schema::assoc_get(newrows[b], k)
                            == crate::schema::assoc_get(t.rows[b], k));
                    }
                }
            } else {
                assert forall|a: int, b: int|
                    0 <= a < b < newrows.len() implies crate::schema::assoc_get(
                    #[trigger] newrows[a],
                    k,
                ) != crate::schema::assoc_get(#[trigger] newrows[b], k) by {
                    lemma_apply_updates(t.rows[a], ups);
                    lemma_apply_updates(t.rows[b], ups);
                }
            }
        },
        None => {},
    }
}

impl StorageEngine {
    /// Delete the rows a predicate admits and say how many were
    /// removed; the surviving rows keep their order.
    pub fn delete_rows(
        &mut self,
        table_name: &str,
        condition: &crate::parser::Predicate,
    ) -> (r: Result<usize, StorageError>)
        requires
            old(self).wf(),
        ensures
            final(self).wf(),
            ({
                let ts = old(self)@.tables;
                match r {
                    Ok(count) => {
                        &&& tbl_has(ts, table_name@)
                        &&& ({
                            let t = tbl_get(ts, table_name@);
                            &&& count == match_count(t.rows, condition@)
                            &&& final(self)@.tables == ts.update(
                                tbl_index(ts, table_name@),
                                (
                                    table_name@,
                                    TableV { rows: rows_kept(t.rows, condition@), ..t },
                                ),
                            )
                            &&& (count > 0 ==> {
                                &&& final(self)@.metadata.touched_from(old(self)@.metadata)
                                &&& final(self)@.metadata.total_rows_deleted == sat_add64(
                                    old(self)@.metadata.total_rows_deleted,
                                    count as u64,
                                )
                                &&& final(self)@.metadata.total_tables_created == old(
                                    self,
                                )@.metadata.total_tables_created
                                &&& final(self)@.metadata.total_rows_inserted == old(
                                    self,
                                )@.metadata.total_rows_inserted
                                &&& final(self)@.metadata.total_rows_updated == old(
                                    self,
                                )@.metadata.total_rows_updated
                            })
                            &&& (count == 0 ==> final(self)@.metadata == old(self)@.metadata)
                            &&& final(self)@.metadata.counters_geq(old(self)@.metadata)
                        })
                    },
                    Err(e) => {
                        &&& final(self)@ == old(self)@
                        &&& match e {
                            StorageError::TableNotFound(n) => n@ == table_name@ && !tbl_has(
                                ts,
                                table_name@,
                            ),
                            _ => false,
                        }
                    },
                }
            }),
    {
        let idx = match self.find_table(table_name) {
            None => {
                return Err(StorageError::TableNotFound(String::from_str(table_name)));
            },
            Some(i) => i,
        };
        proof {
            lemma_tbl_index(self@.tables, table_name@);
        }
        let ghost t = tbl_get(old(self)@.tables, table_name@);
        proof {
            assert(self@.tables[idx as int].1 == t);
            assert(self@.tables[idx as int].1.wf());
        }
        let ghost old_tables = self@.tables;
        let (tname_owned, mut table) = self.tables.remove(idx);
        proof {
            assert(old(self).tables@[idx as int].1@ == t);
            assert(table@ == t);
        }
        let nrows = table.rows.len();
        let mut kept: Vec<Row> = Vec::new();
        let mut i: usize = 0;
        proof {
            assert(t.rows.take(0int) =~= Seq::<Cells>::empty());
            assert(kept@.map_values(|r: Row| r@) =~= Seq::<Cells>::empty());
        }
        while i < nrows
            invariant
                i <= nrows,
                self.tables@ == old(self).tables@.remove(idx as int),
                nrows == table.rows@.len(),
                nrows == t.rows.len(),
                table@.rows == t.rows,
                forall|j: int| 0 <= j < nrows ==> crate::schema::keys_distinct(#[trigger] t.rows[j]),
                kept@.map_values(|r: Row| r@) == rows_kept(t.rows.take(i as int), condition@),
            decreases nrows - i,
        {
            proof {
                assert(table@.rows[i as int] == table.rows@[i as int]@);
                assert(t.rows.take(i + 1).drop_last() =~= t.rows.take(i as int));
                assert(t.rows.take(i + 1).last() == t.rows[i as int]);
            }
            if !condition.evaluate(&table.rows[i]) {
                let ghost kept_before = kept@;
                kept.push(table.rows[i].clone());
                proof {
                    assert(kept@ == kept_before.push(kept@[kept_before.len() as int]));
                    assert(kept@[kept_before.len() as int]@ == t.rows[i as int]);
                    assert(kept@.map_values(|r: Row| r@) =~= kept_before.map_values(
                        |r: Row| r@,
                    ).push(t.rows[i as int]));
                }
            }
            i = i + 1;
        }
        proof {
            assert(t.rows.take(nrows as int) =~= t.rows);
            lemma_rows_kept(t.rows, condition@);
        }
        let kept_count = kept.len();
        let deleted_count = nrows - kept_count;
        table.rows = kept;
        self.tables.insert(idx, (tname_owned, table));
        if deleted_count > 0 {
            self.metadata.update_timestamp();
            self.metadata.total_rows_deleted = self.metadata.total_rows_deleted.saturating_add(
                deleted_count as u64,
            );
        }
        proof {
            assert(self@.tables.len() == old_tables.len());
            assert forall|j: int|
                0 <= j < old_tables.len() && j != idx as int implies self@.tables[j]
                == old_tables[j] by {
                if j < idx as int {
                    assert(self.tables@[j] == old(self).tables@[j]);
                } else {
                    assert(self.tables@[j] == old(self).tables@[j]);
                }
            }
            let newt = TableV { rows: rows_kept(t.rows, condition@), ..t };
            assert(self@.tables[idx as int].0 == table_name@);
            assert(self@.tables[idx as int].1.rows =~= newt.rows);
            assert(self@.tables[idx as int].1 == newt);
            assert(self@.tables =~= old_tables.update(idx as int, (table_name@, newt)));
            // The pruned table stays well-formed.
            assert(t.wf());
            assert forall|a: int|
                0 <= a < newt.rows.len() implies crate::schema::keys_distinct(
                #[trigger] newt.rows[a],
            ) && crate::schema::row_in_schema(newt.rows[a], newt.columns) && (match newt.primary_key {
                Some(k) => crate::schema::assoc_has(newt.rows[a], k),
                None => true,
            }) by {
                let j = choose|j: int|
                    0 <= j < t.rows.len() && t.rows[j] == newt.rows[a] && !crate::parser::pred_holds(condition@, 
                        t.rows[j],
                    );
                assert(crate::schema::keys_distinct(t.rows[j]));
            }
            match newt.primary_key {
                Some(k) => {
                    lemma_rows_kept_pk(t.rows, condition@, k);
                },
                None => {},
            }
            assert(newt.wf());
            assert forall|a: int| 0 <= a < self@.tables.len() implies (
            #[trigger] self@.tables[a]).1.wf() by {
                if a != idx as int {
                    assert(self@.tables[a] == old(self)@.tables[a]);
                }
            }
            assert(tbl_names_distinct(self@.tables)) by {
                assert forall|a: int, b: int|
                    0 <= a < b < self@.tables.len() implies self@.tables[a].0
                    != self@.tables[b].0 by {
                    assert(self@.tables[a].0 == old(self)@.tables[a].0);
                    assert(self@.tables[b].0 == old(self)@.tables[b].0);
                }
            }
        }
        Ok(deleted_count)
    }

    /// Remove a table from the catalog.
    pub fn drop_table(&mut self, table_name: &str) -> (r: Result<(), StorageError>)
        requires
            old(self).wf(),
        ensures
            final(self).wf(),
            ({
                let ts = old(self)@.tables;
                match r {
                    Ok(_) => {
                        &&& tbl_has(ts, table_name@)
                        &&& final(self)@.tables == ts.remove(tbl_index(ts, table_name@))
                        &&& final(self)@.metadata.touched_from(old(self)@.metadata)
                        &&& final(self)@.metadata.total_tables_created == old(
                            self,
                        )@.metadata.total_tables_created
                        &&& final(self)@.metadata.total_rows_inserted == old(
                            self,
                        )@.metadata.total_rows_inserted
                        &&& final(self)@.metadata.total_rows_updated == old(
                            self,
                        )@.metadata.total_rows_updated
                        &&& final(self)@.metadata.total_rows_deleted == old(
                            self,
                        )@.metadata.total_rows_deleted
                        &&& final(self)@.metadata.counters_geq(old(self)@.metadata)
                    },
                    Err(e) => {
                        &&& final(self)@ == old(self)@
                        &&& match e {
                            StorageError::TableNotFound(n) => n@ == table_name@ && !tbl_has(
                                ts,
                                table_name@,
                            ),
                            _ => false,
                        }
                    },
                }
            }),
    {
        let idx = match self.find_table(table_name) {
            None => {
                return Err(StorageError::TableNotFound(String::from_str(table_name)));
            },
            Some(i) => i,
        };
        proof {
            lemma_tbl_index(self@.tables, table_name@);
        }
        let ghost old_tables = self@.tables;
        let _removed = self.tables.remove(idx);
        self.metadata.update_timestamp();
        proof {
            assert(self@.tables =~= old_tables.remove(idx as int));
            assert forall|a: int| 0 <= a < self@.tables.len() implies (
            #[trigger] self@.tables[a]).1.wf() by {
                if a < idx as int {
                    assert(self@.tables[a] == old_tables[a]);
                } else {
                    assert(self@.tables[a] == old_tables[a + 1]);
                }
            }
            assert(tbl_names_distinct(self@.tables)) by {
                assert forall|a: int, b: int|
                    0 <= a < b < self@.tables.len() implies self@.tables[a].0
                    != self@.tables[b].0 by {
                    if a < idx as int {
                        assert(self@.tables[a].0 == old_tables[a].0);
                    } else {
                        assert(self@.tables[a].0 == old_tables[a + 1].0);
                    }
                    if b < idx as int {
                        assert(self@.tables[b].0 == old_tables[b].0);
                    } else {
                        assert(self@.tables[b].0 == old_tables[b + 1].0);
                    }
                }
            }
        }
        Ok(())
    }

    /// The names of all tables, in catalog order.
    pub fn get_table_names(&self) -> (r: Vec<String>)
        ensures
            r@.len() == self@.tables.len(),
            forall|i: int| 0 <= i < r@.len() ==> (#[trigger] r@[i])@ == self@.tables[i].0,
    {
        let n = self.tables.len();
        let mut names: Vec<String> = Vec::new();
        let mut i: usize = 0;
        while i < n
            invariant
                i <= n,
                n == self.tables@.len(),
                names@.len() == i,
                forall|j: int| 0 <= j < i ==> (#[trigger] names@[j])@ == self@.tables[j].0,
            decreases n - i,
        {
            names.push(self.tables[i].0.clone());
            i = i + 1;
        }
        names
    }

    /// The named table, if any.
    pub fn get_table_info(&self, table_name: &str) -> (r: Option<&Table>)
        ensures
            match r {
                Some(t) => tbl_has(self@.tables, table_name@) && t@ == tbl_get(
                    self@.tables,
                    table_name@,
                ),
                None => !tbl_has(self@.tables, table_name@),
            },
    {
        match self.find_table(table_name) {
            Some(i) => {
                proof {
                    lemma_tbl_index(self@.tables, table_name@);
                }
                Some(&self.tables[i].1)
            },
            None => None,
        }
    }

    /// Check that every given column exists in the named table.  The
    /// error names the first column that does not.
    pub fn validate_table_schema(&self, table_name: &str, columns: &Vec<String>) -> (r: Result<
        (),
        StorageError,
    >)
        ensures
            ({
                let cv = columns@.map_values(|s: String| s@);
                match r {
                    Ok(_) => tbl_has(self@.tables, table_name@) && (forall|j: int|
                        0 <= j < cv.len() ==> tbl_get(self@.tables, table_name@).columns.contains(
                            #[trigger] cv[j],
                        )),
                    Err(e) => match e {
                        StorageError::TableNotFound(n) => n@ == table_name@ && !tbl_has(
                            self@.tables,
                            table_name@,
                        ),
                        StorageError::ColumnNotFound { table: tn, column: c } => {
                            &&& tn@ == table_name@
                            &&& tbl_has(self@.tables, table_name@)
                            &&& exists|j: int|
                                0 <= j < cv.len() && #[trigger] cv[j] == c@ && !tbl_get(
                                    self@.tables,
                                    table_name@,
                                ).columns.contains(c@) && (forall|j2: int|
                                    0 <= j2 < j ==> tbl_get(
                                        self@.tables,
                                        table_name@,
                                    ).columns.contains(#[trigger] cv[j2]))
                        },
                        _ => false,
                    },
                }
            }),
    {
        let idx = match self.find_table(table_name) {
            None => {
                return Err(StorageError::TableNotFound(String::from_str(table_name)));
            },
            Some(i) => i,
        };
        proof {
            lemma_tbl_index(self@.tables, table_name@);
        }
        let n = columns.len();
        let mut j: usize = 0;
        while j < n
            invariant
                j <= n,
                n == columns@.len(),
                tbl_has(self@.tables, table_name@),
                0 <= idx < self.tables@.len(),
                idx == tbl_index(self@.tables, table_name@),
                forall|j2: int|
                    0 <= j2 < j ==> tbl_get(self@.tables, table_name@).columns.contains(
                        #[trigger] columns@[j2]@,
                    ),
            decreases n - j,
        {
            if !self.tables[idx].1.has_column(columns[j].as_str()) {
                proof {
                    assert(self@.tables[idx as int].1 == tbl_get(self@.tables, table_name@));
                    let cv = columns@.map_values(|s: String| s@);
                    assert(cv[j as int] == columns@[j as int]@);
                    assert forall|j2: int|
                        0 <= j2 < j implies tbl_get(self@.tables, table_name@).columns.contains(
                        #[trigger] cv[j2],
                    ) by {
                        assert(cv[j2] == columns@[j2]@);
                    }
                }
                return Err(
                    StorageError::ColumnNotFound {
                        table: String::from_str(table_name),
                        column: columns[j].clone(),
                    },
                );
            }
            proof {
                assert(self@.tables[idx as int].1 == tbl_get(self@.tables, table_name@));
            }
            j = j + 1;
        }
        proof {
            let cv = columns@.map_values(|s: String| s@);
            assert forall|j2: int|
                0 <= j2 < cv.len() implies tbl_get(self@.tables, table_name@).columns.contains(
                #[trigger] cv[j2],
            ) by {
                assert(cv[j2] == columns@[j2]@);
            }
        }
        Ok(())
    }
}

// ---------------------------------------------------------------------
// Laws of updating and deleting.
// ---------------------------------------------------------------------
/// Binding a key to the value its first occurrence already carries
/// changes nothing.
proof fn lemma_assoc_set_noop(cells: Cells, k: Seq<char>, v: Seq<char>)
    requires
        crate::schema::assoc_has(cells, k),
        crate::schema::assoc_get(cells, k) == v,
    ensures
        crate::schema::assoc_set(cells, k, v) == cells,
    decreases cells.len(),
{
    if cells[0].0 == k {
        assert(cells[0] == (k, v));
        assert(crate::schema::assoc_set(cells, k, v) =~= cells);
    } else {
        assert(crate::schema::assoc_has(cells.drop_first(), k)) by {
            let i = choose|i: int| 0 <= i < cells.len() && cells[i].0 == k;
            assert(cells.drop_first()[i - 1].0 == k);
        }
        lemma_assoc_set_noop(cells.drop_first(), k, v);
        assert(crate::schema::assoc_set(cells, k, v) =~= cells);
    }
}

/// Updates that repeat what the row already says leave it untouched.
proof fn lemma_apply_updates_noop(cells: Cells, ups: Cells)
    requires
        crate::schema::keys_distinct(ups),
        forall|k: Seq<char>|
            #[trigger] crate::schema::assoc_has(ups, k) ==> crate::schema::assoc_has(cells, k)
                && crate::schema::assoc_get(cells, k) == crate::schema::assoc_get(ups, k),
    ensures
        apply_updates(cells, ups) == cells,
    decreases ups.len(),
{
    if ups.len() > 0 {
        let dl = ups.drop_last();
        let kl = ups.last().0;
        let vl = ups.last().1;
        assert(crate::schema::keys_distinct(dl)) by {
            assert forall|a: int, b: int| 0 <= a < b < dl.len() implies dl[a].0 != dl[b].0 by {
                assert(ups[a].0 != ups[b].0);
            }
        }
        assert forall|k: Seq<char>|
            #[trigger] crate::schema::assoc_has(dl, k) implies crate::schema::assoc_has(cells, k)
            && crate::schema::assoc_get(cells, k) == crate::schema::assoc_get(dl, k) by {
            let i = choose|i: int| 0 <= i < dl.len() && dl[i].0 == k;
            assert(ups[i].0 == k);
            assert(crate::schema::assoc_has(ups, k));
            lemma_assoc_get_prefix(ups, k);
            assert(crate::schema::assoc_get(cells, k) == crate::schema::assoc_get(ups, k));
        }
        lemma_apply_updates_noop(cells, dl);
        assert(crate::schema::assoc_has(ups, kl)) by {
            assert(ups[ups.len() - 1].0 == kl);
        }
        assert(crate::schema::assoc_get(ups, kl) == vl) by {
            assert(!crate::schema::assoc_has(dl, kl)) by {
                if crate::schema::assoc_has(dl, kl) {
                    let i = choose|i: int| 0 <= i < dl.len() && dl[i].0 == kl;
                    assert(ups[i].0 == ups[ups.len() - 1].0);
                }
            }
            crate::schema::lemma_assoc_get_at(ups, kl, ups.len() - 1);
        }
        assert(crate::schema::assoc_get(cells, kl) == crate::schema::assoc_get(ups, kl));
        assert(crate::schema::assoc_has(cells, kl));
        lemma_assoc_set_noop(cells, kl, vl);
    }
}

/// Applying the same update twice is the same as applying it once: a
/// row the predicate admits already carries the update values
/// afterwards, so a second pass binds nothing new, and a row it does
/// not admit is never touched.
pub proof fn lemma_update_idempotent(rows: Seq<Cells>, ups: Cells, p: crate::parser::PredV)
    requires
        crate::schema::keys_distinct(ups),
        forall|i: int| 0 <= i < rows.len() ==> crate::schema::keys_distinct(#[trigger] rows[i]),
    ensures
        updated_rows(updated_rows(rows, ups, p), ups, p) == updated_rows(rows, ups, p),
{
    let r1 = updated_rows(rows, ups, p);
    let r2 = updated_rows(r1, ups, p);
    assert forall|i: int| 0 <= i < rows.len() implies r2[i] == r1[i] by {
        if crate::parser::pred_holds(p, rows[i]) {
            assert(r1[i] == apply_updates(rows[i], ups));
            if crate::parser::pred_holds(p, r1[i]) {
                lemma_apply_updates(rows[i], ups);
                assert forall|k: Seq<char>|
                    #[trigger] crate::schema::assoc_has(ups, k) implies crate::schema::assoc_has(
                    r1[i],
                    k,
                ) && crate::schema::assoc_get(r1[i], k) == crate::schema::assoc_get(ups, k) by {}
                lemma_apply_updates_noop(r1[i], ups);
                assert(r2[i] == apply_updates(r1[i], ups));
            } else {
                assert(r2[i] == r1[i]);
            }
        } else {
            assert(r1[i] == rows[i]);
            assert(r2[i] == r1[i]);
        }
    }
    assert(r2 =~= r1);
}

/// A delete whose predicate admits no row removes nothing.
pub proof fn lemma_rows_kept_none(rows: Seq<Cells>, p: crate::parser::PredV)
    requires
        forall|i: int| 0 <= i < rows.len() ==> !crate::parser::pred_holds(p, #[trigger] rows[i]),
    ensures
        rows_kept(rows, p) == rows,
    decreases rows.len(),
{
    if rows.len() > 0 {
        assert forall|i: int|
            0 <= i < rows.drop_last().len() implies !crate::parser::pred_holds(
            p,
            #[trigger] rows.drop_last()[i],
        ) by {
            assert(rows.drop_last()[i] == rows[i]);
        }
        lemma_rows_kept_none(rows.drop_last(), p);
        assert(rows_kept(rows, p) =~= rows);
    }
}

/// Inserting a row and then deleting with a predicate that admits
/// exactly that row restores the previous row list.
pub proof fn lemma_insert_then_delete(rows: Seq<Cells>, cells: Cells, p: crate::parser::PredV)
    requires
        crate::parser::pred_holds(p, cells),
        forall|i: int| 0 <= i < rows.len() ==> !crate::parser::pred_holds(p, #[trigger] rows[i]),
    ensures
        rows_kept(rows.push(cells), p) == rows,
{
    let pushed = rows.push(cells);
    assert(pushed.drop_last() =~= rows);
    assert(pushed.last() == cells);
    lemma_rows_kept_none(rows, p);
}

// ---------------------------------------------------------------------
// Table statistics.
// ---------------------------------------------------------------------
/// Per-column observations: how many rows carry the column, and how
/// many distinct values they carry.  The distinctness ratio is the
/// caller's division.
pub struct ColumnStatistics {
    pub unique_values: usize,
    pub total_values: usize,
}

/// Per-table observations, keyed by column in schema order.
pub struct TableStatistics {
    pub row_count: usize,
    pub column_stats: Vec<(String, ColumnStatistics)>,
    pub last_updated: u64,
}

/// How many rows carry the column.
pub open spec fn col_total(rows: Seq<Cells>, c: Seq<char>) -> int
    decreases rows.len(),
{
    if rows.len() == 0 {
        0
    } else {
        col_total(rows.drop_last(), c) + if crate::schema::assoc_has(rows.last(), c) {
            1int
        } else {
            0int
        }
    }
}

/// The distinct values the column carries over the rows.
pub open spec fn col_values(rows: Seq<Cells>, c: Seq<char>) -> Set<Seq<char>>
    decreases rows.len(),
{
    if rows.len() == 0 {
        Set::empty()
    } else {
        let rest = col_values(rows.drop_last(), c);
        if crate::schema::assoc_has(rows.last(), c) {
            rest.insert(crate::schema::assoc_get(rows.last(), c))
        } else {
            rest
        }
    }
}

pub proof fn lemma_col_values_finite(rows: Seq<Cells>, c: Seq<char>)
    ensures
        col_values(rows, c).finite(),
    decreases rows.len(),
{
    if rows.len() > 0 {
        lemma_col_values_finite(rows.drop_last(), c);
    }
}

impl StorageEngine {
    /// Per-column observation counts for the named table, used for
    /// selectivity estimates: per column, the number of rows carrying
    /// it and the number of distinct values observed.
    pub fn get_table_stats(&self, table_name: &str) -> (r: Option<TableStatistics>)
        requires
            self.wf(),
        ensures
            match r {
                Some(st) => {
                    &&& tbl_has(self@.tables, table_name@)
                    &&& ({
                        let t = tbl_get(self@.tables, table_name@);
                        &&& st.row_count == t.rows.len()
                        &&& st.last_updated == self@.metadata.last_modified
                        &&& st.column_stats@.len() == t.columns.len()
                        &&& forall|i: int|
                            0 <= i < t.columns.len() ==> (#[trigger] st.column_stats@[i]).0@
                                == t.columns[i] && st.column_stats@[i].1.total_values == col_total(
                                t.rows,
                                t.columns[i],
                            ) && st.column_stats@[i].1.unique_values == col_values(
                                t.rows,
                                t.columns[i],
                            ).len()
                    })
                },
                None => !tbl_has(self@.tables, table_name@),
            },
    {
        let idx = match self.find_table(table_name) {
            None => {
                return None;
            },
            Some(i) => i,
        };
        proof {
            lemma_tbl_index(self@.tables, table_name@);
        }
        let ghost t = tbl_get(self@.tables, table_name@);
        proof {
            assert(self@.tables[idx as int].1 == t);
            assert(self@.tables[idx as int].1.wf());
        }
        let tref = &self.tables[idx].1;
        let ncols = tref.columns.len();
        let nrows = tref.rows.len();
        let mut column_stats: Vec<(String, ColumnStatistics)> = Vec::new();
        let mut ci: usize = 0;
        while ci < ncols
            invariant
                ci <= ncols,
                ncols == tref.columns@.len(),
                nrows == tref.rows@.len(),
                tref@ == t,
                t.wf(),
                column_stats@.len() == ci,
                forall|i: int|
                    0 <= i < ci ==> (#[trigger] column_stats@[i]).0@ == t.columns[i]
                        && column_stats@[i].1.total_values == col_total(t.rows, t.columns[i])
                        && column_stats@[i].1.unique_values == col_values(
                        t.rows,
                        t.columns[i],
                    ).len(),
            decreases ncols - ci,
        {
            let colname = &tref.columns[ci];
            let ghost cn = t.columns[ci as int];
            proof {
                assert(cn == tref.columns@[ci as int]@);
                lemma_col_values_finite(t.rows.take(0int), cn);
                assert(t.rows.take(0int) =~= Seq::<Cells>::empty());
                assert(col_values(t.rows.take(0int), cn) =~= Set::<Seq<char>>::empty());
            }
            let mut total: usize = 0;
            let mut seen: Vec<String> = Vec::new();
            let mut ri: usize = 0;
            while ri < nrows
                invariant
                    ri <= nrows,
                    nrows == tref.rows@.len(),
                    tref@ == t,
                    t.wf(),
                    0 <= ci < ncols,
                    ncols == tref.columns@.len(),
                    cn == t.columns[ci as int],
                    cn == tref.columns@[ci as int]@,
                    cn == colname@,
                    total <= ri,
                    total == col_total(t.rows.take(ri as int), cn),
                    col_values(t.rows.take(ri as int), cn).finite(),
                    seen@.len() == col_values(t.rows.take(ri as int), cn).len(),
                    forall|v: Seq<char>|
                        col_values(t.rows.take(ri as int), cn).contains(v) <==> exists|j: int|
                            0 <= j < seen@.len() && (#[trigger] seen@[j])@ == v,
                decreases nrows - ri,
            {
                proof {
                    assert(t.rows[ri as int] == tref.rows@[ri as int]@);
                    assert(crate::schema::keys_distinct(t.rows[ri as int]));
                    assert(t.rows.take(ri + 1).drop_last() =~= t.rows.take(ri as int));
                    assert(t.rows.take(ri + 1).last() == t.rows[ri as int]);
                    lemma_col_values_finite(t.rows.take(ri + 1), cn);
                }
                match tref.rows[ri].get(colname.as_str()) {
                    Some(v) => {
                        total = total + 1;
                        // Have we seen this value already?
                        let ghost vs = col_values(t.rows.take(ri as int), cn);
                        let mut found = false;
                        let nseen = seen.len();
                        let mut si: usize = 0;
                        while si < nseen
                            invariant
                                si <= nseen,
                                nseen == seen@.len(),
                                found ==> exists|j: int|
                                    0 <= j < seen@.len() && (#[trigger] seen@[j])@ == v@,
                                !found ==> forall|j: int| 0 <= j < si ==> seen@[j]@ != v@,
                            decreases nseen - si,
                        {
                            if crate::text::str_eq(seen[si].as_str(), v.as_str()) {
                                found = true;
                                proof {
                                    assert(seen@[si as int]@ == v@);
                                }
                            }
                            si = si + 1;
                        }
                        let ghost newvs = col_values(t.rows.take(ri + 1), cn);
                        proof {
                            assert(newvs == vs.insert(v@));
                        }
                        if found {
                            proof {
                                assert(vs.contains(v@));
                                assert(newvs =~= vs);
                            }
                        } else {
                            let ghost seen_before = seen@;
                            seen.push(v.clone());
                            proof {
                                assert(!vs.contains(v@)) by {
                                    if vs.contains(v@) {
                                        let j = choose|j: int|
                                            0 <= j < seen_before.len() && (
                                            #[trigger] seen_before[j])@ == v@;
                                        assert(seen_before[j]@ != v@);
                                    }
                                }
                                assert(newvs.len() == vs.len() + 1);
                                assert forall|w: Seq<char>| newvs.contains(w) implies exists|j: int|
                                    0 <= j < seen@.len() && (#[trigger] seen@[j])@ == w by {
                                    if w == v@ {
                                        assert(seen@[seen_before.len() as int]@ == w);
                                    } else {
                                        assert(vs.contains(w));
                                        let j = choose|j: int|
                                            0 <= j < seen_before.len() && (
                                            #[trigger] seen_before[j])@ == w;
                                        assert(seen@[j]@ == w);
                                    }
                                }
                                assert forall|j: int|
                                    0 <= j < seen@.len() implies newvs.contains(
                                    (#[trigger] seen@[j])@,
                                ) by {
                                    if j < seen_before.len() {
                                        assert(seen_before[j]@ == seen@[j]@);
                                        assert(vs.contains(seen@[j]@));
                                    } else {
                                        assert(seen@[j]@ == v@);
                                    }
                                }
                            }
                        }
                    },
                    None => {
                        proof {
                            assert(col_values(t.rows.take(ri + 1), cn) =~= col_values(
                                t.rows.take(ri as int),
                                cn,
                            ));
                        }
                    },
                }
                ri = ri + 1;
            }
            proof {
                assert(t.rows.take(nrows as int) =~= t.rows);
            }
            column_stats.push(
                (
                    colname.clone(),
                    ColumnStatistics { unique_values: seen.len(), total_values: total },
                ),
            );
            ci = ci + 1;
        }
        Some(
            TableStatistics {
                row_count: nrows,
                column_stats,
                last_updated: self.metadata.last_modified,
            },
        )
    }
}

/// The storage layer error set.
#[derive(Debug)]
pub enum StorageError {
    TableNotFound(String),
    TableAlreadyExists(String),
    ColumnNotFound { table: String, column: String },
    InvalidTableName(String),
    InvalidSchema(String),
    PrimaryKeyViolation { table: String, key: String, value: String },
    MissingPrimaryKey { table: String, key: String },
}

impl crate::schema::Table {
    /// Decide the table invariant at runtime.
    pub fn check_wf(&self) -> (r: bool)
        ensures
            r == self@.wf(),
    {
        let ghost tv = self@;
        let ncols = self.columns.len();
        if ncols == 0 {
            return false;
        }
        // Columns pairwise distinct.
        let mut j: usize = 1;
        while j < ncols
            invariant
                1 <= j <= ncols,
                ncols == self.columns@.len(),
                tv == self@,
                forall|a: int, b: int| 0 <= a < b < j ==> tv.columns[a] != tv.columns[b],
            decreases ncols - j,
        {
            let mut i: usize = 0;
            while i < j
                invariant
                    0 <= i <= j < ncols,
                    ncols == self.columns@.len(),
                    tv == self@,
                    forall|a: int| 0 <= a < i ==> tv.columns[a] != tv.columns[j as int],
                decreases j - i,
            {
                if crate::text::str_eq(self.columns[i].as_str(), self.columns[j].as_str()) {
                    proof {
                        assert(tv.columns[i as int] == tv.columns[j as int]);
                    }
                    return false;
                }
                proof {
                    assert(tv.columns[i as int] == self.columns@[i as int]@);
                }
                i = i + 1;
            }
            j = j + 1;
        }
        // The primary key, when declared, must be a column.
        match &self.primary_key {
            Some(k) => {
                if !self.has_column(k.as_str()) {
                    return false;
                }
            },
            None => {},
        }
        // Every row: distinct keys, all of them columns, and the
        // primary key present.
        let nrows = self.rows.len();
        let mut r: usize = 0;
        while r < nrows
            invariant
                r <= nrows,
                nrows == self.rows@.len(),
                tv == self@,
                tv.columns_wf(),
                tv.pk_in_columns(),
                forall|a: int|
                    0 <= a < r ==> crate::schema::keys_distinct(#[trigger] tv.rows[a])
                        && crate::schema::row_in_schema(tv.rows[a], tv.columns) && (
                    match tv.primary_key {
                        Some(k) => crate::schema::assoc_has(tv.rows[a], k),
                        None => true,
                    }),
            decreases nrows - r,
        {
            proof {
                assert(tv.rows[r as int] == self.rows@[r as int]@);
            }
            let row = &self.rows[r];
            let ncells = row.cells.len();
            // Keys of this row pairwise distinct and within the schema.
            let mut cj: usize = 0;
            while cj < ncells
                invariant
                    cj <= ncells,
                    ncells == row.cells@.len(),
                    tv == self@,
                    row@ == tv.rows[r as int],
                    0 <= r < nrows,
                    nrows == self.rows@.len(),
                    forall|a: int, b: int| 0 <= a < b < cj ==> row@[a].0 != row@[b].0,
                    forall|a: int| 0 <= a < cj ==> tv.columns.contains(#[trigger] row@[a].0),
                decreases ncells - cj,
            {
                if !self.has_column(row.cells[cj].0.as_str()) {
                    proof {
                        assert(row@[cj as int].0 == row.cells@[cj as int].0@);
                        assert(!crate::schema::row_in_schema(tv.rows[r as int], tv.columns));
                        assert(!tv.rows_in_schema());
                    }
                    return false;
                }
                let mut ci: usize = 0;
                while ci < cj
                    invariant
                        ci <= cj < ncells,
                        ncells == row.cells@.len(),
                        tv == self@,
                        0 <= r < nrows,
                        nrows == self.rows@.len(),
                        row@ == tv.rows[r as int],
                        forall|a: int| 0 <= a < ci ==> row@[a].0 != row@[cj as int].0,
                    decreases cj - ci,
                {
                    if crate::text::str_eq(
                        row.cells[ci].0.as_str(),
                        row.cells[cj].0.as_str(),
                    ) {
                        proof {
                            assert(row@[ci as int].0 == row.cells@[ci as int].0@);
                            assert(row@[cj as int].0 == row.cells@[cj as int].0@);
                            assert(row@[ci as int].0 == row@[cj as int].0);
                            assert(!crate::schema::keys_distinct(tv.rows[r as int]));
                            assert(!tv.rows_in_schema());
                        }
                        return false;
                    }
                    proof {
                        assert(row@[ci as int].0 == row.cells@[ci as int].0@);
                        assert(row@[cj as int].0 == row.cells@[cj as int].0@);
                    }
                    ci = ci + 1;
                }
                proof {
                    assert(row@[cj as int].0 == row.cells@[cj as int].0@);
                }
                cj = cj + 1;
            }
            proof {
                assert(crate::schema::keys_distinct(row@));
                assert(crate::schema::row_in_schema(row@, tv.columns));
            }
            // The primary key must be present.
            match &self.primary_key {
                Some(k) => {
                    if !row.has_key(k.as_str()) {
                        return false;
                    }
                },
                None => {},
            }
            r = r + 1;
        }
        // Primary key values pairwise distinct across rows.
        match &self.primary_key {
            Some(k) => {
                let ghost kk = k@;
                let mut b: usize = 1;
                while b < nrows
                    invariant
                        1 <= b <= nrows || nrows == 0,
                        nrows == self.rows@.len(),
                        tv == self@,
                        tv.primary_key == Some(kk),
                        kk == k@,
                        forall|x: int|
                            0 <= x < nrows ==> crate::schema::keys_distinct(#[trigger] tv.rows[x]),
                        forall|x: int, y: int|
                            0 <= x < y < b ==> crate::schema::assoc_get(#[trigger] tv.rows[x], kk)
                                != crate::schema::assoc_get(#[trigger] tv.rows[y], kk),
                    decreases nrows - b,
                {
                    let mut a: usize = 0;
                    while a < b
                        invariant
                            0 <= a <= b < nrows,
                            nrows == self.rows@.len(),
                            tv == self@,
                            tv.primary_key == Some(kk),
                            kk == k@,
                            forall|x: int|
                                0 <= x < nrows ==> crate::schema::keys_distinct(
                                    #[trigger] tv.rows[x],
                                ),
                            forall|x: int|
                                0 <= x < a ==> crate::schema::assoc_get(#[trigger] tv.rows[x], kk)
                                    != crate::schema::assoc_get(tv.rows[b as int], kk),
                        decreases b - a,
                    {
                        proof {
                            assert(tv.rows[a as int] == self.rows@[a as int]@);
                            assert(tv.rows[b as int] == self.rows@[b as int]@);
                        }
                        let va = self.rows[a].get(k.as_str());
                        let vb = self.rows[b].get(k.as_str());
                        match (va, vb) {
                            (Some(x), Some(y)) => {
                                if crate::text::str_eq(x.as_str(), y.as_str()) {
                                    proof {
                                        assert(crate::schema::assoc_get(tv.rows[a as int], kk)
                                            == crate::schema::assoc_get(tv.rows[b as int], kk));
                                        assert(!tv.pk_unique());
                                    }
                                    return false;
                                }
                                proof {
                                    assert(crate::schema::assoc_get(tv.rows[a as int], kk)
                                        != crate::schema::assoc_get(tv.rows[b as int], kk));
                                }
                            },
                            (Some(_), None) => {
                                proof {
                                    assert(!crate::schema::assoc_has(tv.rows[b as int], kk));
                                    assert(!tv.pk_unique());
                                }
                                return false;
                            },
                            (None, _) => {
                                proof {
                                    assert(!crate::schema::assoc_has(tv.rows[a as int], kk));
                                    assert(!tv.pk_unique());
                                }
                                return false;
                            },
                        }
                        a = a + 1;
                    }
                    b = b + 1;
                }
            },
            None => {},
        }
        proof {
            assert(tv.rows_in_schema());
            assert(tv.pk_unique());
        }
        true
    }
}

impl StorageEngine {
    /// Decide the engine invariant at runtime.
    pub fn check_wf(&self) -> (r: bool)
        ensures
            r == self.wf(),
    {
        let ghost ev = self@;
        if self.metadata.last_modified < self.metadata.created_at {
            return false;
        }
        let n = self.tables.len();
        let mut j: usize = 0;
        while j < n
            invariant
                j <= n,
                n == self.tables@.len(),
                ev == self@,
                forall|a: int, b: int| 0 <= a < b < j ==> ev.tables[a].0 != ev.tables[b].0,
                forall|a: int| 0 <= a < j ==> (#[trigger] ev.tables[a]).1.wf(),
            decreases n - j,
        {
            let mut i: usize = 0;
            while i < j
                invariant
                    i <= j < n,
                    n == self.tables@.len(),
                    ev == self@,
                    forall|a: int| 0 <= a < i ==> ev.tables[a].0 != ev.tables[j as int].0,
                decreases j - i,
            {
                if crate::text::str_eq(self.tables[i].0.as_str(), self.tables[j].0.as_str()) {
                    proof {
                        assert(ev.tables[i as int].0 == ev.tables[j as int].0);
                    }
                    return false;
                }
                proof {
                    assert(ev.tables[i as int].0 == self.tables@[i as int].0@);
                    assert(ev.tables[j as int].0 == self.tables@[j as int].0@);
                }
                i = i + 1;
            }
            if !self.tables[j].1.check_wf() {
                proof {
                    assert(ev.tables[j as int].1 == self.tables@[j as int].1@);
                }
                return false;
            }
            proof {
                assert(ev.tables[j as int].1 == self.tables@[j as int].1@);
            }
            j = j + 1;
        }
        true
    }
}

/// The condition under which an insert succeeds: the table exists,
/// every row key is a schema column, and a declared primary key is
/// present with a value not already in the table.
pub open spec fn insert_ok(e: EngineV, name: Seq<char>, cells: Cells) -> bool {
    &&& tbl_has(e.tables, name)
    &&& crate::schema::row_in_schema(cells, tbl_get(e.tables, name).columns)
    &&& (match tbl_get(e.tables, name).primary_key {
        Some(k) => crate::schema::assoc_has(cells, k) && !pk_conflict(tbl_get(e.tables, name), cells),
        None => true,
    })
}

/// The condition under which an update succeeds: the table exists,
/// every update key is a schema column, and updating the primary key
/// would not breach uniqueness.
pub open spec fn update_ok(
    e: EngineV,
    name: Seq<char>,
    ups: Cells,
    p: crate::parser::PredV,
) -> bool {
    &&& tbl_has(e.tables, name)
    &&& crate::schema::row_in_schema(ups, tbl_get(e.tables, name).columns)
    &&& !update_pk_clash(tbl_get(e.tables, name), ups, p)
}

/// The persistence façade the executor talks to: it owns the storage
/// engine and collapses storage errors to one line of text.  Reading
/// and writing the snapshot file is its caller's business; the engine
/// value carries everything the snapshot holds.
pub struct FileSystem {
    pub storage_engine: StorageEngine,
}

impl FileSystem {
    /// A façade over a fresh, empty engine.
    pub fn new() -> (fs: FileSystem)
        ensures
            fs.storage_engine@.tables.len() == 0,
            fs.storage_engine.wf(),
    {
        FileSystem { storage_engine: StorageEngine::new() }
    }

    /// A façade over the engine a snapshot holds.  A snapshot that
    /// does not parse, or that breaks the engine invariant, silently
    /// falls back to a fresh empty engine: the lossy-recovery policy
    /// the shell expects at startup.
    pub fn from_snapshot(bytes: &Vec<u8>) -> (fs: FileSystem)
        ensures
            fs.storage_engine.wf(),
            match crate::snapshot::parse_snapshot(bytes@) {
                Some(v) => if v.wf() {
                    fs.storage_engine@ == v
                } else {
                    fs.storage_engine@.tables.len() == 0
                },
                None => fs.storage_engine@.tables.len() == 0,
            },
    {
        match StorageEngine::deserialize(bytes) {
            Ok(engine) => FileSystem { storage_engine: engine },
            Err(_) => FileSystem::new(),
        }
    }

    /// Create a table; any storage error is collapsed to its text.
    pub fn create_table(
        &mut self,
        name: &str,
        columns: Vec<String>,
        primary_key: Option<&str>,
    ) -> (r: Result<(), String>)
        requires
            old(self).storage_engine.wf(),
        ensures
            final(self).storage_engine.wf(),
            ({
                let colsv = columns@.map_values(|s: String| s@);
                let pkv = match primary_key {
                    Some(k) => Some(k@),
                    None => None,
                };
                match r {
                    Ok(_) => {
                        &&& valid_new_table(old(self).storage_engine@, name@, colsv, pkv)
                        &&& final(self).storage_engine@.tables == old(
                            self,
                        ).storage_engine@.tables.push(
                            (
                                name@,
                                TableV { columns: colsv, rows: Seq::empty(), primary_key: pkv },
                            ),
                        )
                        &&& final(self).storage_engine@.metadata.counters_geq(
                            old(self).storage_engine@.metadata,
                        )
                    },
                    Err(_) => final(self).storage_engine@ == old(self).storage_engine@ && !valid_new_table(
                        old(self).storage_engine@,
                        name@,
                        colsv,
                        pkv,
                    ),
                }
            }),
    {
        match self.storage_engine.create_table(name, columns, primary_key) {
            Ok(_) => Ok(()),
            Err(e) => Err(e.message()),
        }
    }

    /// Insert a row; any storage error is collapsed to its text.
    pub fn insert_row(&mut self, table_name: &str, row: Row) -> (r: Result<(), String>)
        requires
            old(self).storage_engine.wf(),
            row.wf(),
        ensures
            final(self).storage_engine.wf(),
            ({
                let e = old(self).storage_engine@;
                let ts = e.tables;
                match r {
                    Ok(_) => {
                        &&& insert_ok(e, table_name@, row@)
                        &&& ({
                            let t = tbl_get(ts, table_name@);
                            final(self).storage_engine@.tables == ts.update(
                                tbl_index(ts, table_name@),
                                (table_name@, TableV { rows: t.rows.push(row@), ..t }),
                            )
                        })
                        &&& final(self).storage_engine@.metadata.total_rows_inserted == sat_add64(
                            e.metadata.total_rows_inserted,
                            1,
                        )
                        &&& final(self).storage_engine@.metadata.counters_geq(e.metadata)
                    },
                    Err(_) => final(self).storage_engine@ == old(self).storage_engine@ && !insert_ok(e, table_name@, row@),
                }
            }),
    {
        match self.storage_engine.insert_row(table_name, row) {
            Ok(_) => Ok(()),
            Err(e) => Err(e.message()),
        }
    }

    /// Update rows; on success the result echoes the updates as a
    /// single row, the shape the shell renders.
    pub fn update_rows(
        &mut self,
        table_name: &str,
        updates: &Row,
        condition: &crate::parser::Predicate,
    ) -> (r: Result<Vec<Row>, String>)
        requires
            old(self).storage_engine.wf(),
            updates.wf(),
        ensures
            final(self).storage_engine.wf(),
            ({
                let e = old(self).storage_engine@;
                let ts = e.tables;
                match r {
                    Ok(echo) => {
                        &&& update_ok(e, table_name@, updates@, condition@)
                        &&& ({
                            let t = tbl_get(ts, table_name@);
                            final(self).storage_engine@.tables == ts.update(
                                tbl_index(ts, table_name@),
                                (
                                    table_name@,
                                    TableV {
                                        rows: updated_rows(t.rows, updates@, condition@),
                                        ..t
                                    },
                                ),
                            )
                        })
                        &&& final(self).storage_engine@.metadata.counters_geq(e.metadata)
                        &&& echo@.len() == 1
                        &&& echo@[0]@ == updates@
                    },
                    Err(_) => final(self).storage_engine@ == old(self).storage_engine@ && !update_ok(
                        e,
                        table_name@,
                        updates@,
                        condition@,
                    ),
                }
            }),
    {
        match self.storage_engine.update_rows(table_name, updates, condition) {
            Ok(_count) => {
                let mut echo: Vec<Row> = Vec::new();
                echo.push(updates.clone());
                Ok(echo)
            },
            Err(e) => Err(e.message()),
        }
    }

    /// Delete rows; the count of removed rows is returned.
    pub fn delete_rows(
        &mut self,
        table_name: &str,
        condition: &crate::parser::Predicate,
    ) -> (r: Result<usize, String>)
        requires
            old(self).storage_engine.wf(),
        ensures
            final(self).storage_engine.wf(),
            ({
                let e = old(self).storage_engine@;
                let ts = e.tables;
                match r {
                    Ok(count) => {
                        &&& tbl_has(ts, table_name@)
                        &&& ({
                            let t = tbl_get(ts, table_name@);
                            &&& count == match_count(t.rows, condition@)
                            &&& final(self).storage_engine@.tables == ts.update(
                                tbl_index(ts, table_name@),
                                (
                                    table_name@,
                                    TableV { rows: rows_kept(t.rows, condition@), ..t },
                                ),
                            )
                        })
                        &&& final(self).storage_engine@.metadata.counters_geq(e.metadata)
                    },
                    Err(_) => final(self).storage_engine@ == old(self).storage_engine@ && !tbl_has(ts, table_name@),
                }
            }),
    {
        match self.storage_engine.delete_rows(table_name, condition) {
            Ok(count) => Ok(count),
            Err(e) => Err(e.message()),
        }
    }

    /// Project every row of a table onto the given columns; a missing
    /// column reads as the empty string.
    pub fn fetch_rows(&self, table: &Table, projection: Vec<crate::query::Identifier>) -> (r:
        Result<Vec<Row>, String>)
        requires
            table.wf(),
        ensures
            ({
                let pv = projection@.map_values(|i: crate::query::Identifier| i@);
                match r {
                    Ok(out) => out@.len() == table@.rows.len() && (forall|i: int|
                        0 <= i < out@.len() ==> (#[trigger] out@[i])@ == crate::schema::project_row(
                            table@.rows[i],
                            pv,
                        ) && out@[i].wf()),
                    Err(_) => false,
                }
            }),
    {
        let ghost pv = projection@.map_values(|i: crate::query::Identifier| i@);
        let nrows = table.rows.len();
        let mut out: Vec<Row> = Vec::new();
        let mut i: usize = 0;
        while i < nrows
            invariant
                i <= nrows,
                nrows == table.rows@.len(),
                table.wf(),
                pv == projection@.map_values(|ident: crate::query::Identifier| ident@),
                out@.len() == i,
                forall|j: int|
                    0 <= j < i ==> (#[trigger] out@[j])@ == crate::schema::project_row(
                        table@.rows[j],
                        pv,
                    ) && out@[j].wf(),
            decreases nrows - i,
        {
            proof {
                assert(table@.rows[i as int] == table.rows@[i as int]@);
                assert(crate::schema::keys_distinct(table@.rows[i as int]));
            }
            let projected = project_columns(&table.rows[i], &projection);
            out.push(projected);
            i = i + 1;
        }
        Ok(out)
    }

    /// The storage metadata record.
    pub fn get_statistics(&self) -> (r: &StorageMetadata)
        ensures
            r@ == self.storage_engine@.metadata,
    {
        &self.storage_engine.metadata
    }
}

/// Build the projected image of one row, as [`crate::schema::project_row`]
/// says.
pub fn project_columns(row: &Row, projection: &Vec<crate::query::Identifier>) -> (out: Row)
    requires
        row.wf(),
    ensures
        out@ == crate::schema::project_row(
            row@,
            projection@.map_values(|i: crate::query::Identifier| i@),
        ),
        out.wf(),
{
    let ghost pv = projection@.map_values(|i: crate::query::Identifier| i@);
    let n = projection.len();
    let mut out = Row::new();
    proof {
        assert(pv.take(0int) =~= Seq::<Seq<char>>::empty());
    }
    let mut u: usize = 0;
    while u < n
        invariant
            u <= n,
            n == projection@.len(),
            row.wf(),
            pv == projection@.map_values(|i: crate::query::Identifier| i@),
            out@ == crate::schema::project_row(row@, pv.take(u as int)),
            out.wf(),
        decreases n - u,
    {
        let value = match row.get(projection[u].0.as_str()) {
            Some(v) => v.clone(),
            None => String::new(),
        };
        proof {
            assert(pv[u as int] == projection@[u as int]@);
            if !crate::schema::assoc_has(row@, pv[u as int]) {
                crate::schema::lemma_assoc_get_absent(row@, pv[u as int]);
            }
            assert(value@ == crate::schema::assoc_get(row@, pv[u as int]));
            assert(pv.take(u + 1).drop_last() =~= pv.take(u as int));
            assert(pv.take(u + 1).last() == pv[u as int]);
        }
        out.set(projection[u].0.clone(), value);
        u = u + 1;
    }
    proof {
        assert(pv.take(n as int) =~= pv);
    }
    out
}

/// The text of each storage error, as the shell prints it.
pub open spec fn storage_error_text(e: StorageError) -> Seq<char> {
    match e {
        StorageError::TableNotFound(table) => "Table '"@ + table@ + "' not found"@,
        StorageError::TableAlreadyExists(table) => "Table '"@ + table@ + "' already exists"@,
        StorageError::ColumnNotFound { table, column } => "Column '"@ + column@
            + "' not found in table '"@ + table@ + "'"@,
        StorageError::InvalidTableName(name) => "Invalid table name: '"@ + name@ + "'"@,
        StorageError::InvalidSchema(msg) => "Invalid schema: "@ + msg@,
        StorageError::PrimaryKeyViolation { table, key, value } => {
            "Primary key violation in table '"@ + table@ + "': duplicate value '"@ + value@
                + "' for key '"@ + key@ + "'"@
        },
        StorageError::MissingPrimaryKey { table, key } => "Missing primary key '"@ + key@
            + "' in table '"@ + table@ + "'"@,
    }
}

impl StorageError {
    /// The error as one line of text.
    pub fn message(&self) -> (r: String)
        ensures
            r@ == storage_error_text(*self),
    {
        match self {
            StorageError::TableNotFound(table) => {
                let mut m = String::from_str("Table '");
                m.append(table.as_str());
                m.append("' not found");
                m
            },
            StorageError::TableAlreadyExists(table) => {
                let mut m = String::from_str("Table '");
                m.append(table.as_str());
                m.append("' already exists");
                m
            },
            StorageError::ColumnNotFound { table, column } => {
                let mut m = String::from_str("Column '");
                m.append(column.as_str());
                m.append("' not found in table '");
                m.append(table.as_str());
                m.append("'");
                m
            },
            StorageError::InvalidTableName(name) => {
                let mut m = String::from_str("Invalid table name: '");
                m.append(name.as_str());
                m.append("'");
                m
            },
            StorageError::InvalidSchema(msg) => {
                let mut m = String::from_str("Invalid schema: ");
                m.append(msg.as_str());
                m
            },
            StorageError::PrimaryKeyViolation { table, key, value } => {
                let mut m = String::from_str("Primary key violation in table '");
                m.append(table.as_str());
                m.append("': duplicate value '");
                m.append(value.as_str());
                m.append("' for key '");
                m.append(key.as_str());
                m.append("'");
                m
            },
            StorageError::MissingPrimaryKey { table, key } => {
                let mut m = String::from_str("Missing primary key '");
                m.append(key.as_str());
                m.append("' in table '");
                m.append(table.as_str());
                m.append("'");
                m
            },
        }
    }
}

} // verus!
