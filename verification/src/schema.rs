//! Catalog entities: rows and tables.
//!
//! A row is an unordered mapping from column name to string value, held as
//! an association list whose keys are distinct.  A table holds an ordered
//! column list, a list of rows, and an optional primary-key column.  All
//! invariants over these (schema closure, key uniqueness) are stated here
//! and enforced by the storage engine.

use vstd::prelude::*;

verus! {

/// The mathematical shape of a row: column-name/value pairs in insertion
/// order.  Keys are distinct in every well-formed row.
pub type Cells = Seq<(Seq<char>, Seq<char>)>;

/// No two pairs share a key.
pub open spec fn keys_distinct(cells: Cells) -> bool {
    forall|i: int, j: int| 0 <= i < j < cells.len() ==> cells[i].0 != cells[j].0
}

/// Whether some pair carries the key `k`.
pub open spec fn assoc_has(cells: Cells, k: Seq<char>) -> bool {
    exists|i: int| 0 <= i < cells.len() && cells[i].0 == k
}

/// The value at key `k`: the first pair's value, or the empty string when
/// the key is absent (a missing column reads as the empty string).
pub open spec fn assoc_get(cells: Cells, k: Seq<char>) -> Seq<char>
    decreases cells.len(),
{
    if cells.len() == 0 {
        Seq::empty()
    } else if cells[0].0 == k {
        cells[0].1
    } else {
        assoc_get(cells.drop_first(), k)
    }
}

/// The cells after binding `k` to `v`: the first pair with key `k` is
/// rewritten in place, or a new pair is appended when the key is absent.
pub open spec fn assoc_set(cells: Cells, k: Seq<char>, v: Seq<char>) -> Cells
    decreases cells.len(),
{
    if cells.len() == 0 {
        seq![(k, v)]
    } else if cells[0].0 == k {
        seq![(k, v)] + cells.drop_first()
    } else {
        seq![cells[0]] + assoc_set(cells.drop_first(), k, v)
    }
}

pub proof fn lemma_assoc_get_at(cells: Cells, k: Seq<char>, i: int)
    requires
        0 <= i < cells.len(),
        cells[i].0 == k,
        forall|j: int| 0 <= j < i ==> cells[j].0 != k,
    ensures
        assoc_has(cells, k),
        assoc_get(cells, k) == cells[i].1,
    decreases cells.len(),
{
    if i == 0 {
    } else {
        lemma_assoc_get_at(cells.drop_first(), k, i - 1);
    }
}

pub proof fn lemma_assoc_get_absent(cells: Cells, k: Seq<char>)
    requires
        !assoc_has(cells, k),
    ensures
        assoc_get(cells, k) == Seq::<char>::empty(),
    decreases cells.len(),
{
    if cells.len() == 0 {
    } else {
        assert(cells[0].0 != k);
        assert(!assoc_has(cells.drop_first(), k)) by {
            if assoc_has(cells.drop_first(), k) {
                let i = choose|i: int|
                    0 <= i < cells.drop_first().len() && cells.drop_first()[i].0 == k;
                assert(cells[i + 1].0 == k);
            }
        }
        lemma_assoc_get_absent(cells.drop_first(), k);
    }
}

/// `assoc_set` leaves the key bound to the new value and every other key
/// untouched, and preserves key distinctness.
pub proof fn lemma_assoc_set(cells: Cells, k: Seq<char>, v: Seq<char>)
    ensures
        assoc_has(assoc_set(cells, k, v), k),
        assoc_get(assoc_set(cells, k, v), k) == v,
        forall|k2: Seq<char>| k2 != k ==> assoc_has(assoc_set(cells, k, v), k2) == assoc_has(
            cells,
            k2,
        ),
        forall|k2: Seq<char>| k2 != k ==> assoc_get(assoc_set(cells, k, v), k2) == assoc_get(
            cells,
            k2,
        ),
        keys_distinct(cells) ==> keys_distinct(assoc_set(cells, k, v)),
        assoc_set(cells, k, v).len() == if assoc_has(cells, k) {
            cells.len() as int
        } else {
            cells.len() + 1 as int
        },
    decreases cells.len(),
{
    let out = assoc_set(cells, k, v);
    if cells.len() == 0 {
        assert(out[0] == (k, v));
        assert forall|k2: Seq<char>| k2 != k implies assoc_has(out, k2) == assoc_has(
            cells,
            k2,
        ) by {
            if assoc_has(out, k2) {
                let i = choose|i: int| 0 <= i < out.len() && out[i].0 == k2;
                assert(i == 0);
            }
        }
        assert forall|k2: Seq<char>| k2 != k implies assoc_get(out, k2) == assoc_get(
            cells,
            k2,
        ) by {
            assert(out.drop_first() =~= Seq::<(Seq<char>, Seq<char>)>::empty());
            assert(assoc_get(out, k2) == assoc_get(out.drop_first(), k2));
        }
        assert(!assoc_has(cells, k));
    } else if cells[0].0 == k {
        assert(out =~= seq![(k, v)] + cells.drop_first());
        assert(out[0] == (k, v));
        assert(out.drop_first() =~= cells.drop_first());
        assert forall|k2: Seq<char>| k2 != k implies assoc_has(out, k2) == assoc_has(
            cells,
            k2,
        ) && assoc_get(out, k2) == assoc_get(cells, k2) by {
            assert forall|i: int| 0 <= i < out.len() && out[i].0 == k2 implies assoc_has(
                cells,
                k2,
            ) by {
                assert(cells[i].0 == k2);
            }
            assert forall|i: int| 0 <= i < cells.len() && cells[i].0 == k2 implies assoc_has(
                out,
                k2,
            ) by {
                assert(out[i].0 == k2);
            }
        }
        assert forall|k2: Seq<char>| k2 != k implies assoc_get(out, k2) == assoc_get(
            cells,
            k2,
        ) by {
            assert(assoc_get(out, k2) == assoc_get(out.drop_first(), k2));
            assert(assoc_get(cells, k2) == assoc_get(cells.drop_first(), k2));
        }
        if keys_distinct(cells) {
            assert forall|i: int, j: int| 0 <= i < j < out.len() implies out[i].0 != out[j].0 by {
                if i == 0 {
                    assert(cells[j].0 == out[j].0);
                    assert(cells[0].0 != cells[j].0);
                } else {
                    assert(out[i].0 == cells[i].0 && out[j].0 == cells[j].0);
                }
            }
        }
        assert(assoc_has(cells, k)) by {
            assert(cells[0].0 == k);
        }
    } else {
        lemma_assoc_set(cells.drop_first(), k, v);
        let rest = assoc_set(cells.drop_first(), k, v);
        assert(out =~= seq![cells[0]] + rest);
        assert(out[0] == cells[0]);
        assert(out.drop_first() =~= rest);
        assert(assoc_has(out, k)) by {
            let i = choose|i: int| 0 <= i < rest.len() && rest[i].0 == k;
            assert(out[i + 1].0 == k);
        }
        assert forall|k2: Seq<char>| k2 != k implies assoc_has(out, k2) == assoc_has(
            cells,
            k2,
        ) by {
            if assoc_has(out, k2) {
                let i = choose|i: int| 0 <= i < out.len() && out[i].0 == k2;
                if i == 0 {
                    assert(cells[0].0 == k2);
                } else {
                    assert(rest[i - 1].0 == k2);
                    assert(assoc_has(cells.drop_first(), k2));
                    let j = choose|j: int|
                        0 <= j < cells.drop_first().len() && cells.drop_first()[j].0 == k2;
                    assert(cells[j + 1].0 == k2);
                }
            }
            if assoc_has(cells, k2) {
                let i = choose|i: int| 0 <= i < cells.len() && cells[i].0 == k2;
                if i == 0 {
                    assert(out[0].0 == k2);
                } else {
                    assert(cells.drop_first()[i - 1].0 == k2);
                    assert(assoc_has(cells.drop_first(), k2));
                    assert(assoc_has(rest, k2));
                    let j = choose|j: int| 0 <= j < rest.len() && rest[j].0 == k2;
                    assert(out[j + 1].0 == k2);
                }
            }
        }
        assert forall|k2: Seq<char>| k2 != k implies assoc_get(out, k2) == assoc_get(
            cells,
            k2,
        ) by {
            if cells[0].0 == k2 {
                assert(assoc_get(out, k2) == out[0].1);
                assert(assoc_get(cells, k2) == cells[0].1);
            } else {
                assert(assoc_get(out, k2) == assoc_get(out.drop_first(), k2));
                assert(assoc_get(cells, k2) == assoc_get(cells.drop_first(), k2));
            }
        }
        assert(assoc_has(cells, k) == assoc_has(cells.drop_first(), k)) by {
            if assoc_has(cells, k) {
                let i = choose|i: int| 0 <= i < cells.len() && cells[i].0 == k;
                assert(i > 0);
                assert(cells.drop_first()[i - 1].0 == k);
            }
            if assoc_has(cells.drop_first(), k) {
                let i = choose|i: int|
                    0 <= i < cells.drop_first().len() && cells.drop_first()[i].0 == k;
                assert(cells[i + 1].0 == k);
            }
        }
        if keys_distinct(cells) {
            assert(keys_distinct(cells.drop_first())) by {
                assert forall|i: int, j: int|
                    0 <= i < j < cells.drop_first().len() implies cells.drop_first()[i].0
                    != cells.drop_first()[j].0 by {
                    assert(cells[i + 1].0 != cells[j + 1].0);
                }
            }
            assert forall|i: int, j: int| 0 <= i < j < out.len() implies out[i].0 != out[j].0 by {
                if i == 0 {
                    assert(out[j].0 == rest[j - 1].0);
                    if out[j].0 == cells[0].0 {
                        assert(k != cells[0].0);
                        assert(assoc_has(rest, cells[0].0));
                        assert(assoc_has(cells.drop_first(), cells[0].0));
                        let m = choose|m: int|
                            0 <= m < cells.drop_first().len() && cells.drop_first()[m].0
                                == cells[0].0;
                        assert(cells[m + 1].0 == cells[0].0);
                        assert(false);
                    }
                } else {
                    assert(out[i].0 == rest[i - 1].0 && out[j].0 == rest[j - 1].0);
                }
            }
        }
    }
}

/// The projected image of a row: each projected column bound to the
/// row's value, a missing column reading as the empty string.  A column
/// repeated in the projection keeps one cell, holding the value bound
/// last.
pub open spec fn project_row(cells: Cells, cols: Seq<Seq<char>>) -> Cells
    decreases cols.len(),
{
    if cols.len() == 0 {
        Seq::empty()
    } else {
        assoc_set(project_row(cells, cols.drop_last()), cols.last(), assoc_get(cells, cols.last()))
    }
}

/// Every key of the cells is one of the schema columns.
pub open spec fn row_in_schema(cells: Cells, columns: Seq<Seq<char>>) -> bool {
    forall|j: int| 0 <= j < cells.len() ==> columns.contains(#[trigger] cells[j].0)
}

/// A row of a table: an unordered mapping from column name to value.
pub struct Row {
    pub cells: Vec<(String, String)>,
}

impl View for Row {
    type V = Cells;

    open spec fn view(&self) -> Cells {
        self.cells@.map_values(|p: (String, String)| (p.0@, p.1@))
    }
}

impl Row {
    /// Keys are distinct.
    pub open spec fn wf(self) -> bool {
        keys_distinct(self@)
    }

    /// The empty row.
    pub fn new() -> (r: Row)
        ensures
            r@ == Seq::<(Seq<char>, Seq<char>)>::empty(),
            r.wf(),
    {
        let r = Row { cells: Vec::new() };
        proof {
            assert(r@ =~= Seq::<(Seq<char>, Seq<char>)>::empty());
        }
        r
    }

    /// The value bound to `name`, if any.
    pub fn get(&self, name: &str) -> (r: Option<&String>)
        requires
            self.wf(),
        ensures
            match r {
                Some(v) => assoc_has(self@, name@) && v@ == assoc_get(self@, name@),
                None => !assoc_has(self@, name@),
            },
    {
        let n = self.cells.len();
        let mut i: usize = 0;
        while i < n
            invariant
                i <= n,
                n == self.cells.len(),
                forall|j: int| 0 <= j < i ==> self@[j].0 != name@,
            decreases n - i,
        {
            if crate::text::str_eq(self.cells[i].0.as_str(), name) {
                proof {
                    lemma_assoc_get_at(self@, name@, i as int);
                }
                return Some(&self.cells[i].1);
            }
            i = i + 1;
        }
        proof {
            if assoc_has(self@, name@) {
                let j = choose|j: int| 0 <= j < self@.len() && self@[j].0 == name@;
                assert(self@[j].0 != name@);
            }
        }
        None
    }

    /// Whether the row binds `name`.
    pub fn has_key(&self, name: &str) -> (b: bool)
        requires
            self.wf(),
        ensures
            b == assoc_has(self@, name@),
    {
        match self.get(name) {
            Some(_) => true,
            None => false,
        }
    }

    /// Bind `name` to `value`, replacing any earlier binding.
    pub fn set(&mut self, name: String, value: String)
        requires
            old(self).wf(),
        ensures
            final(self)@ == assoc_set(old(self)@, name@, value@),
            final(self).wf(),
    {
        let ghost orig = self@;
        let ghost nk = name@;
        let ghost nv = value@;
        let n = self.cells.len();
        let mut i: usize = 0;
        while i < n
            invariant
                i <= n,
                n == self.cells.len(),
                self@ == orig,
                orig == old(self)@,
                keys_distinct(orig),
                nk == name@,
                nv == value@,
                forall|j: int| 0 <= j < i ==> orig[j].0 != nk,
            decreases n - i,
        {
            if crate::text::str_eq(self.cells[i].0.as_str(), name.as_str()) {
                let ghost prev = self.cells@;
                self.cells[i] = (name, value);
                proof {
                    assert(self.cells@ == prev.update(i as int, (name, value)));
                    assert(self@.len() == orig.len());
                    assert(self@[i as int] == (nk, nv));
                    assert forall|j: int|
                        0 <= j < orig.len() && j != i as int implies self@[j] == orig[j] by {
                        assert(self.cells@[j] == prev[j]);
                    }
                    assert(orig[i as int].0 == nk);
                    lemma_assoc_set_at(orig, i as int, self@);
                    lemma_assoc_set(orig, nk, nv);
                }
                return ;
            }
            i = i + 1;
        }
        let ghost prev = self.cells@;
        self.cells.push((name, value));
        proof {
            assert(self.cells@ == prev.push((name, value)));
            assert(self@.len() == orig.len() + 1);
            assert(self@[orig.len() as int] == (nk, nv));
            assert forall|j: int| 0 <= j < orig.len() implies self@[j] == orig[j] by {
                assert(self.cells@[j] == prev[j]);
            }
            lemma_assoc_set_append(orig, self@);
            lemma_assoc_set(orig, nk, nv);
        }
    }
}

/// When the first pair with key `k` sits at index `i`, `assoc_set`
/// rewrites exactly that index.
proof fn lemma_assoc_set_at(orig: Cells, i: int, updated: Cells)
    requires
        0 <= i < orig.len(),
        updated.len() == orig.len(),
        forall|j: int| 0 <= j < orig.len() && j != i ==> updated[j] == orig[j],
        updated[i].0 == orig[i].0,
        forall|j: int| 0 <= j < i ==> orig[j].0 != orig[i].0,
    ensures
        updated == assoc_set(orig, updated[i].0, updated[i].1),
    decreases i,
{
    let k = updated[i].0;
    let v = updated[i].1;
    if i == 0 {
        assert(updated =~= seq![(k, v)] + orig.drop_first());
    } else {
        assert(orig[0].0 != k);
        lemma_assoc_set_at(orig.drop_first(), i - 1, updated.drop_first());
        assert(updated =~= seq![orig[0]] + assoc_set(orig.drop_first(), k, v));
    }
}

/// When `k` is absent, `assoc_set` appends the new pair.
proof fn lemma_assoc_set_append(orig: Cells, updated: Cells)
    requires
        updated.len() == orig.len() + 1,
        forall|j: int| 0 <= j < orig.len() ==> updated[j] == orig[j],
        forall|j: int| 0 <= j < orig.len() ==> orig[j].0 != updated[orig.len() as int].0,
    ensures
        updated == assoc_set(orig, updated[orig.len() as int].0, updated[orig.len() as int].1),
    decreases orig.len(),
{
    let k = updated[orig.len() as int].0;
    let v = updated[orig.len() as int].1;
    if orig.len() == 0 {
        assert(updated =~= seq![(k, v)]);
    } else {
        lemma_assoc_set_append(orig.drop_first(), updated.drop_first());
        assert(updated =~= seq![orig[0]] + assoc_set(orig.drop_first(), k, v));
    }
}

impl Clone for Row {
    /// A clone carries exactly the same cells.
    fn clone(&self) -> (r: Row)
        ensures
            r@ == self@,
    {
        let mut cells: Vec<(String, String)> = Vec::new();
        let n = self.cells.len();
        let mut i: usize = 0;
        while i < n
            invariant
                i <= n,
                n == self.cells.len(),
                cells@.len() == i,
                forall|j: int|
                    0 <= j < i ==> (#[trigger] cells@[j].0@, cells@[j].1@) == self@[j],
            decreases n - i,
        {
            let k = self.cells[i].0.clone();
            let v = self.cells[i].1.clone();
            proof {
                assert((k@, v@) == self@[i as int]);
            }
            cells.push((k, v));
            i = i + 1;
        }
        let r = Row { cells };
        proof {
            assert forall|j: int| 0 <= j < r@.len() implies r@[j] == self@[j] by {
                assert((cells@[j].0@, cells@[j].1@) == self@[j]);
            }
            assert(r@ =~= self@);
        }
        r
    }
}

/// The mathematical shape of a table.
pub struct TableV {
    pub columns: Seq<Seq<char>>,
    pub rows: Seq<Cells>,
    pub primary_key: Option<Seq<char>>,
}

impl TableV {
    /// Column names are distinct and there is at least one.
    pub open spec fn columns_wf(self) -> bool {
        &&& self.columns.len() > 0
        &&& forall|i: int, j: int|
            0 <= i < j < self.columns.len() ==> self.columns[i] != self.columns[j]
    }

    /// The primary key, when declared, is one of the columns.
    pub open spec fn pk_in_columns(self) -> bool {
        match self.primary_key {
            Some(k) => self.columns.contains(k),
            None => true,
        }
    }

    /// Every row has distinct keys, all of them schema columns.
    pub open spec fn rows_in_schema(self) -> bool {
        forall|i: int|
            0 <= i < self.rows.len() ==> keys_distinct(#[trigger] self.rows[i]) && row_in_schema(
                self.rows[i],
                self.columns,
            )
    }

    /// When a primary key is declared, every row carries it and no two
    /// rows share its value.
    pub open spec fn pk_unique(self) -> bool {
        match self.primary_key {
            Some(k) => {
                &&& forall|i: int| 0 <= i < self.rows.len() ==> assoc_has(#[trigger] self.rows[i], k)
                &&& forall|i: int, j: int|
                    0 <= i < j < self.rows.len() ==> assoc_get(self.rows[i], k) != assoc_get(
                        self.rows[j],
                        k,
                    )
            },
            None => true,
        }
    }

    /// The table invariant.
    pub open spec fn wf(self) -> bool {
        &&& self.columns_wf()
        &&& self.pk_in_columns()
        &&& self.rows_in_schema()
        &&& self.pk_unique()
    }
}

/// A named relation: an ordered column list, its rows, and an optional
/// primary-key column.
pub struct Table {
    pub columns: Vec<String>,
    pub rows: Vec<Row>,
    pub primary_key: Option<String>,
}

impl View for Table {
    type V = TableV;

    open spec fn view(&self) -> TableV {
        TableV {
            columns: self.columns@.map_values(|s: String| s@),
            rows: self.rows@.map_values(|r: Row| r@),
            primary_key: match self.primary_key {
                Some(k) => Some(k@),
                None => None,
            },
        }
    }
}

impl Table {
    pub open spec fn wf(self) -> bool {
        self@.wf()
    }

    /// Whether `name` is one of the table's columns.
    pub fn has_column(&self, name: &str) -> (b: bool)
        ensures
            b == self@.columns.contains(name@),
    {
        vec_contains_string(&self.columns, name)
    }
}

/// Whether the vector holds a string equal to `name`.
pub fn vec_contains_string(v: &Vec<String>, name: &str) -> (b: bool)
    ensures
        b == v@.map_values(|s: String| s@).contains(name@),
{
    let ghost vw = v@.map_values(|s: String| s@);
    let n = v.len();
    let mut i: usize = 0;
    while i < n
        invariant
            i <= n,
            n == v.len(),
            vw == v@.map_values(|s: String| s@),
            forall|j: int| 0 <= j < i ==> vw[j] != name@,
        decreases n - i,
    {
        if crate::text::str_eq(v[i].as_str(), name) {
            proof {
                assert(vw[i as int] == name@);
            }
            return true;
        }
        i = i + 1;
    }
    proof {
        if vw.contains(name@) {
            let j = choose|j: int| 0 <= j < vw.len() && vw[j] == name@;
            assert(vw[j] != name@);
        }
    }
    false
}

} // verus!
