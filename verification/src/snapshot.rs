//! The binary snapshot: the whole storage engine as one byte string.
//!
//! The format is length-prefixed and little-endian throughout: every
//! integer is a fixed-width little-endian `u64`; a string is a `u64`
//! character count followed by each character as a little-endian
//! four-byte scalar value; an optional string opens with a one-byte
//! tag; every list is a `u64` count followed by its elements.  The
//! engine is its metadata record followed by its tables, each a name,
//! a column list, the optional primary key, and the rows.
//!
//! Serialization is a function of the engine value alone, and
//! deserialization parses exactly the serializer's output and then
//! checks the engine invariant, so the snapshot round-trips: see
//! [`lemma_snapshot_round_trip`] and [`lemma_reserialize`].

use vstd::prelude::*;

use crate::schema::Cells;
use crate::schema::TableV;
use crate::storage_engine::{EngineV, MetaV, TablesV};

verus! {

/// 256 to the `n`.
pub open spec fn pow256(n: nat) -> int
    decreases n,
{
    if n == 0 {
        1
    } else {
        256 * pow256((n - 1) as nat)
    }
}

/// The `n` little-endian bytes of `x`.
pub open spec fn le_bytes(x: int, n: nat) -> Seq<u8>
    decreases n,
{
    if n == 0 {
        Seq::empty()
    } else {
        seq![(x % 256) as u8] + le_bytes(x / 256, (n - 1) as nat)
    }
}

/// The value of a little-endian byte string.
pub open spec fn le_val(b: Seq<u8>) -> int
    decreases b.len(),
{
    if b.len() == 0 {
        0
    } else {
        b[0] + 256 * le_val(b.drop_first())
    }
}

pub proof fn lemma_le_bytes_len(x: int, n: nat)
    ensures
        le_bytes(x, n).len() == n,
    decreases n,
{
    if n > 0 {
        lemma_le_bytes_len(x / 256, (n - 1) as nat);
    }
}

/// Writing then reading a bounded nonnegative value gives it back.
pub proof fn lemma_le_round_trip(x: int, n: nat)
    requires
        0 <= x < pow256(n),
    ensures
        le_val(le_bytes(x, n)) == x,
    decreases n,
{
    if n == 0 {
    } else {
        let b = le_bytes(x, n);
        assert(b[0] == (x % 256) as u8);
        assert(b.drop_first() =~= le_bytes(x / 256, (n - 1) as nat)) by {
            lemma_le_bytes_len(x / 256, (n - 1) as nat);
        }
        assert(0 <= x / 256 < pow256((n - 1) as nat)) by (nonlinear_arith)
            requires
                0 <= x < 256 * pow256((n - 1) as nat),
        ;
        lemma_le_round_trip(x / 256, (n - 1) as nat);
        assert(0 <= x % 256 < 256);
        assert((x % 256) as u8 == x % 256);
        assert(x == x % 256 + 256 * (x / 256)) by (nonlinear_arith);
    }
}

/// `u64` values fit in eight bytes.
pub proof fn lemma_u64_bound(x: u64)
    ensures
        0 <= x < pow256(8),
{
    assert(pow256(8) == 0x10000000000000000) by {
        reveal_with_fuel(pow256, 9);
    }
}

/// `char` scalar values fit in four bytes.
pub proof fn lemma_u32_bound(x: u32)
    ensures
        0 <= x < pow256(4),
{
    assert(pow256(4) == 0x100000000) by {
        reveal_with_fuel(pow256, 5);
    }
}

/// A valid Unicode scalar value: what a `char` may hold.
pub open spec fn valid_scalar(x: u32) -> bool {
    x < 0xD800 || (0xE000 <= x && x <= 0x10FFFF)
}

// ---------------------------------------------------------------------
// Serialization, value by value.
// ---------------------------------------------------------------------
/// Eight little-endian bytes.
pub open spec fn ser_u64(x: u64) -> Seq<u8> {
    le_bytes(x as int, 8)
}

/// The characters of a string, four bytes each.
pub open spec fn ser_chars(s: Seq<char>) -> Seq<u8>
    decreases s.len(),
{
    if s.len() == 0 {
        Seq::empty()
    } else {
        le_bytes(s[0] as int, 4) + ser_chars(s.drop_first())
    }
}

/// A string: its character count, then its characters.
pub open spec fn ser_string(s: Seq<char>) -> Seq<u8> {
    ser_u64(s.len() as u64) + ser_chars(s)
}

/// An optional string: a one-byte tag, then the string when present.
pub open spec fn ser_opt_string(o: Option<Seq<char>>) -> Seq<u8> {
    match o {
        None => seq![0u8],
        Some(s) => seq![1u8] + ser_string(s),
    }
}

/// The cells of a row, each a key and a value.
pub open spec fn ser_cells(cells: Cells) -> Seq<u8>
    decreases cells.len(),
{
    if cells.len() == 0 {
        Seq::empty()
    } else {
        ser_string(cells[0].0) + ser_string(cells[0].1) + ser_cells(cells.drop_first())
    }
}

/// A row: its cell count, then its cells.
pub open spec fn ser_row(cells: Cells) -> Seq<u8> {
    ser_u64(cells.len() as u64) + ser_cells(cells)
}

/// A string list, one string after another.
pub open spec fn ser_strings(ss: Seq<Seq<char>>) -> Seq<u8>
    decreases ss.len(),
{
    if ss.len() == 0 {
        Seq::empty()
    } else {
        ser_string(ss[0]) + ser_strings(ss.drop_first())
    }
}

/// The rows of a table, one row after another.
pub open spec fn ser_rows(rows: Seq<Cells>) -> Seq<u8>
    decreases rows.len(),
{
    if rows.len() == 0 {
        Seq::empty()
    } else {
        ser_row(rows[0]) + ser_rows(rows.drop_first())
    }
}

/// A table: column count and columns, the optional primary key, row
/// count and rows.
pub open spec fn ser_table(t: TableV) -> Seq<u8> {
    ser_u64(t.columns.len() as u64) + ser_strings(t.columns) + ser_opt_string(t.primary_key)
        + ser_u64(t.rows.len() as u64) + ser_rows(t.rows)
}

/// The catalog: each table as its name and its body.
pub open spec fn ser_tables(ts: TablesV) -> Seq<u8>
    decreases ts.len(),
{
    if ts.len() == 0 {
        Seq::empty()
    } else {
        ser_string(ts[0].0) + ser_table(ts[0].1) + ser_tables(ts.drop_first())
    }
}

/// The metadata record: the version string and the seven counters.
pub open spec fn ser_meta(m: MetaV) -> Seq<u8> {
    ser_string(m.version) + ser_u64(m.created_at) + ser_u64(m.last_modified) + ser_u64(
        m.total_operations,
    ) + ser_u64(m.total_tables_created) + ser_u64(m.total_rows_inserted) + ser_u64(
        m.total_rows_updated,
    ) + ser_u64(m.total_rows_deleted)
}

/// The whole engine: metadata, table count, tables.
pub open spec fn snapshot_bytes(e: EngineV) -> Seq<u8> {
    ser_meta(e.metadata) + ser_u64(e.tables.len() as u64) + ser_tables(e.tables)
}

// ---------------------------------------------------------------------
// Length bounds: every count in the snapshot fits its prefix.
// ---------------------------------------------------------------------
pub open spec fn str_bounded(s: Seq<char>) -> bool {
    s.len() < pow256(8)
}

pub open spec fn row_bounded(cells: Cells) -> bool {
    &&& cells.len() < pow256(8)
    &&& forall|i: int|
        0 <= i < cells.len() ==> str_bounded((#[trigger] cells[i]).0) && str_bounded(cells[i].1)
}

pub open spec fn table_bounded(t: TableV) -> bool {
    &&& t.columns.len() < pow256(8)
    &&& forall|i: int| 0 <= i < t.columns.len() ==> str_bounded(#[trigger] t.columns[i])
    &&& (match t.primary_key {
        Some(k) => str_bounded(k),
        None => true,
    })
    &&& t.rows.len() < pow256(8)
    &&& forall|i: int| 0 <= i < t.rows.len() ==> row_bounded(#[trigger] t.rows[i])
}

/// Every length anywhere in the engine fits a `u64` count, as it does
/// for any engine held in memory.
pub open spec fn engine_bounded(e: EngineV) -> bool {
    &&& str_bounded(e.metadata.version)
    &&& e.tables.len() < pow256(8)
    &&& forall|i: int|
        0 <= i < e.tables.len() ==> str_bounded((#[trigger] e.tables[i]).0) && table_bounded(
            e.tables[i].1,
        )
}

// ---------------------------------------------------------------------
// Parsing, value by value.
// ---------------------------------------------------------------------
/// The nonnegative value of a byte string is below 256 to its length.
pub proof fn lemma_le_val_bound(b: Seq<u8>)
    ensures
        0 <= le_val(b) < pow256(b.len()),
    decreases b.len(),
{
    if b.len() == 0 {
    } else {
        lemma_le_val_bound(b.drop_first());
        assert(0 <= b[0] < 256);
        assert(b[0] + 256 * le_val(b.drop_first()) < 256 * pow256(b.drop_first().len()))
            by (nonlinear_arith)
            requires
                0 <= b[0] < 256,
                0 <= le_val(b.drop_first()) < pow256(b.drop_first().len()),
        ;
    }
}

pub open spec fn parse_u64(b: Seq<u8>, pos: int) -> Option<(u64, int)> {
    if 0 <= pos && pos + 8 <= b.len() {
        Some((le_val(b.subrange(pos, pos + 8)) as u64, pos + 8))
    } else {
        None
    }
}

pub open spec fn parse_char(b: Seq<u8>, pos: int) -> Option<(char, int)> {
    if 0 <= pos && pos + 4 <= b.len() {
        let x = le_val(b.subrange(pos, pos + 4));
        if x < 0xD800 || (0xE000 <= x && x <= 0x10FFFF) {
            Some((x as char, pos + 4))
        } else {
            None
        }
    } else {
        None
    }
}

pub open spec fn parse_chars(b: Seq<u8>, pos: int, count: nat) -> Option<(Seq<char>, int)>
    decreases count,
{
    if count == 0 {
        Some((Seq::empty(), pos))
    } else {
        match parse_char(b, pos) {
            Some((c, p)) => match parse_chars(b, p, (count - 1) as nat) {
                Some((s, e)) => Some((seq![c] + s, e)),
                None => None,
            },
            None => None,
        }
    }
}

pub open spec fn parse_string(b: Seq<u8>, pos: int) -> Option<(Seq<char>, int)> {
    match parse_u64(b, pos) {
        Some((n, p)) => parse_chars(b, p, n as nat),
        None => None,
    }
}

pub open spec fn parse_opt_string(b: Seq<u8>, pos: int) -> Option<(Option<Seq<char>>, int)> {
    if 0 <= pos && pos < b.len() {
        if b[pos] == 0u8 {
            Some((None, pos + 1))
        } else if b[pos] == 1u8 {
            match parse_string(b, pos + 1) {
                Some((s, e)) => Some((Some(s), e)),
                None => None,
            }
        } else {
            None
        }
    } else {
        None
    }
}

pub open spec fn parse_cells(b: Seq<u8>, pos: int, count: nat) -> Option<(Cells, int)>
    decreases count,
{
    if count == 0 {
        Some((Seq::empty(), pos))
    } else {
        match parse_string(b, pos) {
            Some((k, p1)) => match parse_string(b, p1) {
                Some((v, p2)) => match parse_cells(b, p2, (count - 1) as nat) {
                    Some((rest, e)) => Some((seq![(k, v)] + rest, e)),
                    None => None,
                },
                None => None,
            },
            None => None,
        }
    }
}

pub open spec fn parse_row(b: Seq<u8>, pos: int) -> Option<(Cells, int)> {
    match parse_u64(b, pos) {
        Some((n, p)) => parse_cells(b, p, n as nat),
        None => None,
    }
}

pub open spec fn parse_string_list(b: Seq<u8>, pos: int, count: nat) -> Option<(
    Seq<Seq<char>>,
    int,
)>
    decreases count,
{
    if count == 0 {
        Some((Seq::empty(), pos))
    } else {
        match parse_string(b, pos) {
            Some((s, p)) => match parse_string_list(b, p, (count - 1) as nat) {
                Some((rest, e)) => Some((seq![s] + rest, e)),
                None => None,
            },
            None => None,
        }
    }
}

pub open spec fn parse_rows(b: Seq<u8>, pos: int, count: nat) -> Option<(Seq<Cells>, int)>
    decreases count,
{
    if count == 0 {
        Some((Seq::empty(), pos))
    } else {
        match parse_row(b, pos) {
            Some((r, p)) => match parse_rows(b, p, (count - 1) as nat) {
                Some((rest, e)) => Some((seq![r] + rest, e)),
                None => None,
            },
            None => None,
        }
    }
}

pub open spec fn parse_table(b: Seq<u8>, pos: int) -> Option<(TableV, int)> {
    match parse_u64(b, pos) {
        Some((ncols, p1)) => match parse_string_list(b, p1, ncols as nat) {
            Some((columns, p2)) => match parse_opt_string(b, p2) {
                Some((primary_key, p3)) => match parse_u64(b, p3) {
                    Some((nrows, p4)) => match parse_rows(b, p4, nrows as nat) {
                        Some((rows, e)) => Some((TableV { columns, rows, primary_key }, e)),
                        None => None,
                    },
                    None => None,
                },
                None => None,
            },
            None => None,
        },
        None => None,
    }
}

pub open spec fn parse_tables(b: Seq<u8>, pos: int, count: nat) -> Option<(TablesV, int)>
    decreases count,
{
    if count == 0 {
        Some((Seq::empty(), pos))
    } else {
        match parse_string(b, pos) {
            Some((name, p1)) => match parse_table(b, p1) {
                Some((t, p2)) => match parse_tables(b, p2, (count - 1) as nat) {
                    Some((rest, e)) => Some((seq![(name, t)] + rest, e)),
                    None => None,
                },
                None => None,
            },
            None => None,
        }
    }
}

pub open spec fn parse_meta(b: Seq<u8>, pos: int) -> Option<(MetaV, int)> {
    match parse_string(b, pos) {
        Some((version, p0)) => match parse_u64(b, p0) {
            Some((created_at, p1)) => match parse_u64(b, p1) {
                Some((last_modified, p2)) => match parse_u64(b, p2) {
                    Some((total_operations, p3)) => match parse_u64(b, p3) {
                        Some((total_tables_created, p4)) => match parse_u64(b, p4) {
                            Some((total_rows_inserted, p5)) => match parse_u64(b, p5) {
                                Some((total_rows_updated, p6)) => match parse_u64(b, p6) {
                                    Some((total_rows_deleted, p7)) => Some(
                                        (
                                            MetaV {
                                                version,
                                                created_at,
                                                last_modified,
                                                total_operations,
                                                total_tables_created,
                                                total_rows_inserted,
                                                total_rows_updated,
                                                total_rows_deleted,
                                            },
                                            p7,
                                        ),
                                    ),
                                    None => None,
                                },
                                None => None,
                            },
                            None => None,
                        },
                        None => None,
                    },
                    None => None,
                },
                None => None,
            },
            None => None,
        },
        None => None,
    }
}

/// Parse a whole snapshot; every byte must be consumed.
pub open spec fn parse_snapshot(b: Seq<u8>) -> Option<EngineV> {
    match parse_meta(b, 0) {
        Some((metadata, p1)) => match parse_u64(b, p1) {
            Some((ntables, p2)) => match parse_tables(b, p2, ntables as nat) {
                Some((tables, e)) => if e == b.len() {
                    Some(EngineV { tables, metadata })
                } else {
                    None
                },
                None => None,
            },
            None => None,
        },
        None => None,
    }
}

// ---------------------------------------------------------------------
// Round trip: parsing reads back exactly what serialization wrote.
// Each lemma assumes the bytes at `pos` frame the serialized value and
// concludes that parsing returns the value and stops right after it.
// ---------------------------------------------------------------------
/// Splitting a framed concatenation into its two parts.
proof fn lemma_frame_split(b: Seq<u8>, pos: int, x: Seq<u8>, y: Seq<u8>)
    requires
        0 <= pos,
        pos + x.len() + y.len() <= b.len(),
        b.subrange(pos, pos + x.len() + y.len()) == x + y,
    ensures
        b.subrange(pos, pos + x.len()) == x,
        b.subrange(pos + x.len(), pos + x.len() + y.len()) == y,
{
    let whole = b.subrange(pos, pos + x.len() + y.len());
    assert(b.subrange(pos, pos + x.len()) =~= x) by {
        assert forall|i: int| 0 <= i < x.len() implies b.subrange(pos, pos + x.len())[i]
            == x[i] by {
            assert(whole[i] == (x + y)[i]);
        }
    }
    assert(b.subrange(pos + x.len(), pos + x.len() + y.len()) =~= y) by {
        assert forall|i: int|
            0 <= i < y.len() implies b.subrange(pos + x.len(), pos + x.len() + y.len())[i]
            == y[i] by {
            assert(whole[x.len() + i] == (x + y)[x.len() + i]);
        }
    }
}

/// The eight-byte bound written out.
proof fn lemma_pow8()
    ensures
        pow256(8) == 0x10000000000000000,
{
    reveal_with_fuel(pow256, 9);
}

proof fn lemma_rt_u64(b: Seq<u8>, pos: int, x: u64)
    requires
        0 <= pos,
        pos + 8 <= b.len(),
        b.subrange(pos, pos + 8) == ser_u64(x),
    ensures
        parse_u64(b, pos) == Some((x, pos + 8)),
{
    lemma_u64_bound(x);
    lemma_le_round_trip(x as int, 8);
}

proof fn lemma_rt_char(b: Seq<u8>, pos: int, c: char)
    requires
        0 <= pos,
        pos + 4 <= b.len(),
        b.subrange(pos, pos + 4) == le_bytes(c as int, 4),
    ensures
        parse_char(b, pos) == Some((c, pos + 4)),
{
    let ci = c as int;
    assert((0 <= ci && ci < 0xD800) || (0xE000 <= ci && ci <= 0x10FFFF));
    lemma_u32_bound(c as u32);
    assert(c as int == c as u32 as int);
    lemma_le_round_trip(c as int, 4);
    let x = le_val(b.subrange(pos, pos + 4));
    assert(x == c as int);
    assert(x as char == c);
}

proof fn lemma_rt_chars(b: Seq<u8>, pos: int, s: Seq<char>)
    requires
        0 <= pos,
        pos + ser_chars(s).len() <= b.len(),
        b.subrange(pos, pos + ser_chars(s).len()) == ser_chars(s),
    ensures
        parse_chars(b, pos, s.len()) == Some((s, pos + ser_chars(s).len())),
    decreases s.len(),
{
    if s.len() == 0 {
        assert(parse_chars(b, pos, 0) == Some((Seq::<char>::empty(), pos)));
        assert(s =~= Seq::<char>::empty());
    } else {
        let head = le_bytes(s[0] as int, 4);
        let rest = ser_chars(s.drop_first());
        assert(ser_chars(s) == head + rest);
        assert(head.len() == 4) by {
            lemma_le_bytes_len(s[0] as int, 4);
        }
        lemma_frame_split(b, pos, head, rest);
        lemma_rt_char(b, pos, s[0]);
        lemma_rt_chars(b, pos + 4, s.drop_first());
        assert(seq![s[0]] + s.drop_first() =~= s);
    }
}

proof fn lemma_rt_string(b: Seq<u8>, pos: int, s: Seq<char>)
    requires
        0 <= pos,
        str_bounded(s),
        pos + ser_string(s).len() <= b.len(),
        b.subrange(pos, pos + ser_string(s).len()) == ser_string(s),
    ensures
        parse_string(b, pos) == Some((s, pos + ser_string(s).len())),
{
    lemma_pow8();
    let head = ser_u64(s.len() as u64);
    let rest = ser_chars(s);
    assert(head.len() == 8) by {
        lemma_le_bytes_len(s.len() as u64 as int, 8);
    }
    lemma_frame_split(b, pos, head, rest);
    lemma_rt_u64(b, pos, s.len() as u64);
    assert(s.len() as u64 as nat == s.len());
    lemma_rt_chars(b, pos + 8, s);
}

proof fn lemma_rt_opt_string(b: Seq<u8>, pos: int, o: Option<Seq<char>>)
    requires
        0 <= pos,
        (match o {
            Some(s) => str_bounded(s),
            None => true,
        }),
        pos + ser_opt_string(o).len() <= b.len(),
        b.subrange(pos, pos + ser_opt_string(o).len()) == ser_opt_string(o),
    ensures
        parse_opt_string(b, pos) == Some((o, pos + ser_opt_string(o).len())),
{
    match o {
        None => {
            assert(b.subrange(pos, pos + 1)[0] == b[pos]);
            assert(b[pos] == 0u8);
        },
        Some(s) => {
            let head = seq![1u8];
            let rest = ser_string(s);
            assert(ser_opt_string(o) == head + rest);
            lemma_frame_split(b, pos, head, rest);
            assert(b.subrange(pos, pos + 1)[0] == b[pos]);
            assert(b[pos] == 1u8);
            lemma_rt_string(b, pos + 1, s);
        },
    }
}

proof fn lemma_rt_cells(b: Seq<u8>, pos: int, cells: Cells)
    requires
        0 <= pos,
        row_bounded(cells),
        pos + ser_cells(cells).len() <= b.len(),
        b.subrange(pos, pos + ser_cells(cells).len()) == ser_cells(cells),
    ensures
        parse_cells(b, pos, cells.len()) == Some((cells, pos + ser_cells(cells).len())),
    decreases cells.len(),
{
    if cells.len() == 0 {
        assert(cells =~= Seq::<(Seq<char>, Seq<char>)>::empty());
    } else {
        let k = cells[0].0;
        let v = cells[0].1;
        let kb = ser_string(k);
        let vb = ser_string(v);
        let rest = ser_cells(cells.drop_first());
        assert(ser_cells(cells) == kb + vb + rest);
        assert(kb + vb + rest =~= kb + (vb + rest));
        lemma_frame_split(b, pos, kb, vb + rest);
        lemma_frame_split(b, pos + kb.len(), vb, rest);
        lemma_rt_string(b, pos, k);
        lemma_rt_string(b, pos + kb.len(), v);
        assert(row_bounded(cells.drop_first())) by {
            assert forall|i: int|
                0 <= i < cells.drop_first().len() implies str_bounded(
                (#[trigger] cells.drop_first()[i]).0,
            ) && str_bounded(cells.drop_first()[i].1) by {
                assert(cells.drop_first()[i] == cells[i + 1]);
            }
        }
        lemma_rt_cells(b, pos + kb.len() + vb.len(), cells.drop_first());
        assert(seq![(k, v)] + cells.drop_first() =~= cells);
    }
}

proof fn lemma_rt_row(b: Seq<u8>, pos: int, cells: Cells)
    requires
        0 <= pos,
        row_bounded(cells),
        pos + ser_row(cells).len() <= b.len(),
        b.subrange(pos, pos + ser_row(cells).len()) == ser_row(cells),
    ensures
        parse_row(b, pos) == Some((cells, pos + ser_row(cells).len())),
{
    lemma_pow8();
    let head = ser_u64(cells.len() as u64);
    let rest = ser_cells(cells);
    assert(head.len() == 8) by {
        lemma_le_bytes_len(cells.len() as u64 as int, 8);
    }
    lemma_frame_split(b, pos, head, rest);
    lemma_rt_u64(b, pos, cells.len() as u64);
    assert(cells.len() as u64 as nat == cells.len());
    lemma_rt_cells(b, pos + 8, cells);
}

proof fn lemma_rt_string_list(b: Seq<u8>, pos: int, ss: Seq<Seq<char>>)
    requires
        0 <= pos,
        forall|i: int| 0 <= i < ss.len() ==> str_bounded(#[trigger] ss[i]),
        pos + ser_strings(ss).len() <= b.len(),
        b.subrange(pos, pos + ser_strings(ss).len()) == ser_strings(ss),
    ensures
        parse_string_list(b, pos, ss.len()) == Some((ss, pos + ser_strings(ss).len())),
    decreases ss.len(),
{
    if ss.len() == 0 {
        assert(ss =~= Seq::<Seq<char>>::empty());
    } else {
        let head = ser_string(ss[0]);
        let rest = ser_strings(ss.drop_first());
        assert(ser_strings(ss) == head + rest);
        lemma_frame_split(b, pos, head, rest);
        lemma_rt_string(b, pos, ss[0]);
        assert(forall|i: int|
            0 <= i < ss.drop_first().len() ==> str_bounded(#[trigger] ss.drop_first()[i]));
        lemma_rt_string_list(b, pos + head.len(), ss.drop_first());
        assert(seq![ss[0]] + ss.drop_first() =~= ss);
    }
}

proof fn lemma_rt_rows(b: Seq<u8>, pos: int, rows: Seq<Cells>)
    requires
        0 <= pos,
        forall|i: int| 0 <= i < rows.len() ==> row_bounded(#[trigger] rows[i]),
        pos + ser_rows(rows).len() <= b.len(),
        b.subrange(pos, pos + ser_rows(rows).len()) == ser_rows(rows),
    ensures
        parse_rows(b, pos, rows.len()) == Some((rows, pos + ser_rows(rows).len())),
    decreases rows.len(),
{
    if rows.len() == 0 {
        assert(rows =~= Seq::<Cells>::empty());
    } else {
        let head = ser_row(rows[0]);
        let rest = ser_rows(rows.drop_first());
        assert(ser_rows(rows) == head + rest);
        lemma_frame_split(b, pos, head, rest);
        lemma_rt_row(b, pos, rows[0]);
        assert(forall|i: int|
            0 <= i < rows.drop_first().len() ==> row_bounded(#[trigger] rows.drop_first()[i]));
        lemma_rt_rows(b, pos + head.len(), rows.drop_first());
        assert(seq![rows[0]] + rows.drop_first() =~= rows);
    }
}

#[verifier::rlimit(50)]
proof fn lemma_rt_table(b: Seq<u8>, pos: int, t: TableV)
    requires
        0 <= pos,
        table_bounded(t),
        pos + ser_table(t).len() <= b.len(),
        b.subrange(pos, pos + ser_table(t).len()) == ser_table(t),
    ensures
        parse_table(b, pos) == Some((t, pos + ser_table(t).len())),
{
    lemma_pow8();
    let a1 = ser_u64(t.columns.len() as u64);
    let a2 = ser_strings(t.columns);
    let a3 = ser_opt_string(t.primary_key);
    let a4 = ser_u64(t.rows.len() as u64);
    let a5 = ser_rows(t.rows);
    assert(ser_table(t) == a1 + a2 + a3 + a4 + a5);
    assert(a1.len() == 8) by {
        lemma_le_bytes_len(t.columns.len() as u64 as int, 8);
    }
    assert(a4.len() == 8) by {
        lemma_le_bytes_len(t.rows.len() as u64 as int, 8);
    }
    assert(a1 + a2 + a3 + a4 + a5 =~= a1 + (a2 + (a3 + (a4 + a5))));
    lemma_frame_split(b, pos, a1, a2 + (a3 + (a4 + a5)));
    lemma_frame_split(b, pos + a1.len(), a2, a3 + (a4 + a5));
    lemma_frame_split(b, pos + a1.len() + a2.len(), a3, a4 + a5);
    lemma_frame_split(b, pos + a1.len() + a2.len() + a3.len(), a4, a5);
    lemma_rt_u64(b, pos, t.columns.len() as u64);
    assert(t.columns.len() as u64 as nat == t.columns.len());
    lemma_rt_string_list(b, pos + 8, t.columns);
    lemma_rt_opt_string(b, pos + a1.len() + a2.len(), t.primary_key);
    lemma_rt_u64(b, pos + a1.len() + a2.len() + a3.len(), t.rows.len() as u64);
    assert(t.rows.len() as u64 as nat == t.rows.len());
    lemma_rt_rows(b, pos + a1.len() + a2.len() + a3.len() + a4.len(), t.rows);
}

proof fn lemma_rt_tables(b: Seq<u8>, pos: int, ts: TablesV)
    requires
        0 <= pos,
        forall|i: int|
            0 <= i < ts.len() ==> str_bounded((#[trigger] ts[i]).0) && table_bounded(ts[i].1),
        pos + ser_tables(ts).len() <= b.len(),
        b.subrange(pos, pos + ser_tables(ts).len()) == ser_tables(ts),
    ensures
        parse_tables(b, pos, ts.len()) == Some((ts, pos + ser_tables(ts).len())),
    decreases ts.len(),
{
    if ts.len() == 0 {
        assert(ts =~= Seq::<(Seq<char>, TableV)>::empty());
    } else {
        let nb = ser_string(ts[0].0);
        let tb = ser_table(ts[0].1);
        let rest = ser_tables(ts.drop_first());
        assert(ser_tables(ts) == nb + tb + rest);
        assert(nb + tb + rest =~= nb + (tb + rest));
        lemma_frame_split(b, pos, nb, tb + rest);
        lemma_frame_split(b, pos + nb.len(), tb, rest);
        lemma_rt_string(b, pos, ts[0].0);
        lemma_rt_table(b, pos + nb.len(), ts[0].1);
        assert(forall|i: int|
            0 <= i < ts.drop_first().len() ==> str_bounded((#[trigger] ts.drop_first()[i]).0)
                && table_bounded(ts.drop_first()[i].1));
        lemma_rt_tables(b, pos + nb.len() + tb.len(), ts.drop_first());
        assert(seq![(ts[0].0, ts[0].1)] + ts.drop_first() =~= ts);
        assert((ts[0].0, ts[0].1) == ts[0]);
    }
}

#[verifier::rlimit(50)]
proof fn lemma_rt_meta(b: Seq<u8>, pos: int, m: MetaV)
    requires
        0 <= pos,
        str_bounded(m.version),
        pos + ser_meta(m).len() <= b.len(),
        b.subrange(pos, pos + ser_meta(m).len()) == ser_meta(m),
    ensures
        parse_meta(b, pos) == Some((m, pos + ser_meta(m).len())),
{
    let a0 = ser_string(m.version);
    let a1 = ser_u64(m.created_at);
    let a2 = ser_u64(m.last_modified);
    let a3 = ser_u64(m.total_operations);
    let a4 = ser_u64(m.total_tables_created);
    let a5 = ser_u64(m.total_rows_inserted);
    let a6 = ser_u64(m.total_rows_updated);
    let a7 = ser_u64(m.total_rows_deleted);
    assert(a1.len() == 8 && a2.len() == 8 && a3.len() == 8 && a4.len() == 8 && a5.len() == 8
        && a6.len() == 8 && a7.len() == 8) by {
        lemma_le_bytes_len(m.created_at as int, 8);
        lemma_le_bytes_len(m.last_modified as int, 8);
        lemma_le_bytes_len(m.total_operations as int, 8);
        lemma_le_bytes_len(m.total_tables_created as int, 8);
        lemma_le_bytes_len(m.total_rows_inserted as int, 8);
        lemma_le_bytes_len(m.total_rows_updated as int, 8);
        lemma_le_bytes_len(m.total_rows_deleted as int, 8);
    }
    assert(ser_meta(m) == a0 + a1 + a2 + a3 + a4 + a5 + a6 + a7);
    assert(a0 + a1 + a2 + a3 + a4 + a5 + a6 + a7 =~= a0 + (a1 + (a2 + (a3 + (a4 + (a5 + (a6
        + a7)))))));
    let p0 = pos + a0.len();
    lemma_frame_split(b, pos, a0, a1 + (a2 + (a3 + (a4 + (a5 + (a6 + a7))))));
    lemma_frame_split(b, p0, a1, a2 + (a3 + (a4 + (a5 + (a6 + a7)))));
    lemma_frame_split(b, p0 + 8, a2, a3 + (a4 + (a5 + (a6 + a7))));
    lemma_frame_split(b, p0 + 16, a3, a4 + (a5 + (a6 + a7)));
    lemma_frame_split(b, p0 + 24, a4, a5 + (a6 + a7));
    lemma_frame_split(b, p0 + 32, a5, a6 + a7);
    lemma_frame_split(b, p0 + 40, a6, a7);
    lemma_rt_string(b, pos, m.version);
    lemma_rt_u64(b, p0, m.created_at);
    lemma_rt_u64(b, p0 + 8, m.last_modified);
    lemma_rt_u64(b, p0 + 16, m.total_operations);
    lemma_rt_u64(b, p0 + 24, m.total_tables_created);
    lemma_rt_u64(b, p0 + 32, m.total_rows_inserted);
    lemma_rt_u64(b, p0 + 40, m.total_rows_updated);
    lemma_rt_u64(b, p0 + 48, m.total_rows_deleted);
}

/// Snapshot round trip: parsing the serialized engine yields the
/// engine, exactly.
#[verifier::rlimit(50)]
pub proof fn lemma_snapshot_round_trip(e: EngineV)
    requires
        engine_bounded(e),
    ensures
        parse_snapshot(snapshot_bytes(e)) == Some(e),
{
    lemma_pow8();
    let b = snapshot_bytes(e);
    let a0 = ser_meta(e.metadata);
    let a1 = ser_u64(e.tables.len() as u64);
    let a2 = ser_tables(e.tables);
    assert(a1.len() == 8) by {
        lemma_le_bytes_len(e.tables.len() as u64 as int, 8);
    }
    assert(b == a0 + a1 + a2);
    assert(b.subrange(0, b.len() as int) =~= b);
    assert(a0 + a1 + a2 =~= a0 + (a1 + a2));
    lemma_frame_split(b, 0, a0, a1 + a2);
    lemma_frame_split(b, a0.len() as int, a1, a2);
    lemma_rt_meta(b, 0, e.metadata);
    lemma_rt_u64(b, a0.len() as int, e.tables.len() as u64);
    assert(e.tables.len() as u64 as nat == e.tables.len());
    lemma_rt_tables(b, a0.len() + 8int, e.tables);
}

// ---------------------------------------------------------------------
// Writing.
// ---------------------------------------------------------------------
/// For a byte layout defined element-first, serializing one element
/// more appends that element's bytes.
proof fn lemma_ser_snoc<T>(s: Seq<T>, i: int, g: spec_fn(T) -> Seq<u8>, f: spec_fn(Seq<T>) -> Seq<
    u8,
>)
    requires
        0 <= i < s.len(),
        forall|t: Seq<T>| #[trigger] f(t) == if t.len() == 0 {
            Seq::<u8>::empty()
        } else {
            g(t[0]) + f(t.drop_first())
        },
    ensures
        f(s.take(i + 1)) == f(s.take(i)) + g(s[i]),
    decreases i,
{
    let a = s.take(i + 1);
    if i == 0 {
        assert(a.drop_first() =~= Seq::<T>::empty());
        assert(s.take(0int) =~= Seq::<T>::empty());
        assert(f(a) =~= f(s.take(0int)) + g(s[0]));
    } else {
        lemma_ser_snoc(s.drop_first(), i - 1, g, f);
        assert(a[0] == s[0]);
        assert(a.drop_first() =~= s.drop_first().take(i));
        assert(s.take(i)[0] == s[0]);
        assert(s.take(i).drop_first() =~= s.drop_first().take(i - 1));
        assert(s.drop_first()[i - 1] == s[i]);
        assert(f(a) =~= f(s.take(i)) + g(s[i]));
    }
}

/// Append the eight little-endian bytes of `x`.
fn write_u64(buffer: &mut Vec<u8>, x: u64)
    ensures
        final(buffer)@ == old(buffer)@ + ser_u64(x),
{
    let ghost start = buffer@;
    let mut v: u64 = x;
    let mut j: usize = 0;
    proof {
        assert(buffer@ =~= start + le_bytes(x as int, 8).take(0int));
    }
    while j < 8
        invariant
            j <= 8,
            buffer@ == start + le_bytes(x as int, 8).take(j as int),
            le_bytes(v as int, (8 - j) as nat) == le_bytes(x as int, 8).skip(j as int),
        decreases 8 - j,
    {
        proof {
            lemma_le_bytes_len(v as int, (8 - j) as nat);
            lemma_le_bytes_len(x as int, 8);
            assert(le_bytes(v as int, (8 - j) as nat)[0] == (v as int % 256) as u8);
            assert(le_bytes(x as int, 8).skip(j as int)[0] == le_bytes(x as int, 8)[j as int]);
        }
        let b: u8 = (v % 256) as u8;
        buffer.push(b);
        proof {
            assert(le_bytes(x as int, 8).take(j + 1) =~= le_bytes(x as int, 8).take(j as int).push(
                le_bytes(x as int, 8)[j as int],
            ));
            assert(buffer@ =~= start + le_bytes(x as int, 8).take(j + 1));
            assert(le_bytes((v / 256) as int, (8 - (j + 1)) as nat) =~= le_bytes(
                v as int,
                (8 - j) as nat,
            ).drop_first());
            assert(le_bytes(x as int, 8).skip(j + 1) =~= le_bytes(x as int, 8).skip(
                j as int,
            ).drop_first());
        }
        v = v / 256;
        j = j + 1;
    }
    proof {
        assert(le_bytes(x as int, 8).take(8int) =~= le_bytes(x as int, 8)) by {
            lemma_le_bytes_len(x as int, 8);
        }
    }
}

/// Append the four little-endian bytes of one character.
fn write_char(buffer: &mut Vec<u8>, c: char)
    ensures
        final(buffer)@ == old(buffer)@ + le_bytes(c as int, 4),
{
    let ghost start = buffer@;
    let x: u32 = c as u32;
    let mut v: u32 = x;
    let mut j: usize = 0;
    proof {
        assert(c as int == x as int);
        assert(buffer@ =~= start + le_bytes(x as int, 4).take(0int));
    }
    while j < 4
        invariant
            j <= 4,
            buffer@ == start + le_bytes(x as int, 4).take(j as int),
            le_bytes(v as int, (4 - j) as nat) == le_bytes(x as int, 4).skip(j as int),
        decreases 4 - j,
    {
        proof {
            lemma_le_bytes_len(v as int, (4 - j) as nat);
            lemma_le_bytes_len(x as int, 4);
            assert(le_bytes(v as int, (4 - j) as nat)[0] == (v as int % 256) as u8);
            assert(le_bytes(x as int, 4).skip(j as int)[0] == le_bytes(x as int, 4)[j as int]);
        }
        let b: u8 = (v % 256) as u8;
        buffer.push(b);
        proof {
            assert(le_bytes(x as int, 4).take(j + 1) =~= le_bytes(x as int, 4).take(j as int).push(
                le_bytes(x as int, 4)[j as int],
            ));
            assert(buffer@ =~= start + le_bytes(x as int, 4).take(j + 1));
            assert(le_bytes((v / 256) as int, (4 - (j + 1)) as nat) =~= le_bytes(
                v as int,
                (4 - j) as nat,
            ).drop_first());
            assert(le_bytes(x as int, 4).skip(j + 1) =~= le_bytes(x as int, 4).skip(
                j as int,
            ).drop_first());
        }
        v = v / 256;
        j = j + 1;
    }
    proof {
        assert(le_bytes(x as int, 4).take(4int) =~= le_bytes(x as int, 4)) by {
            lemma_le_bytes_len(x as int, 4);
        }
    }
}

/// Append a string: its character count, then its characters.
fn write_string(buffer: &mut Vec<u8>, s: &str)
    ensures
        final(buffer)@ == old(buffer)@ + ser_string(s@),
        str_bounded(s@),
{
    let n = s.unicode_len();
    proof {
        lemma_pow8();
        assert(n as u64 as nat == n as nat);
    }
    write_u64(buffer, n as u64);
    let ghost start = buffer@;
    let mut i: usize = 0;
    proof {
        assert(ser_chars(s@.take(0int)) =~= Seq::<u8>::empty());
        assert(buffer@ =~= start + ser_chars(s@.take(0int)));
    }
    while i < n
        invariant
            i <= n,
            n == s@.len(),
            buffer@ == start + ser_chars(s@.take(i as int)),
        decreases n - i,
    {
        let c = s.get_char(i);
        write_char(buffer, c);
        proof {
            lemma_ser_snoc(
                s@,
                i as int,
                |ch: char| le_bytes(ch as int, 4),
                |t: Seq<char>| ser_chars(t),
            );
            assert(buffer@ =~= start + ser_chars(s@.take(i + 1)));
        }
        i = i + 1;
    }
    proof {
        assert(s@.take(n as int) =~= s@);
    }
}

/// Append an optional string: a one-byte tag, then the string.
fn write_opt_string(buffer: &mut Vec<u8>, o: &Option<String>)
    ensures
        final(buffer)@ == old(buffer)@ + ser_opt_string(
            match o {
                Some(s) => Some(s@),
                None => None,
            },
        ),
        (match o {
            Some(s) => str_bounded(s@),
            None => true,
        }),
{
    match o {
        None => {
            buffer.push(0u8);
            proof {
                assert(buffer@ =~= old(buffer)@ + seq![0u8]);
            }
        },
        Some(s) => {
            buffer.push(1u8);
            proof {
                assert(buffer@ =~= old(buffer)@ + seq![1u8]);
            }
            write_string(buffer, s.as_str());
            proof {
                assert(buffer@ =~= old(buffer)@ + (seq![1u8] + ser_string(s@)));
            }
        },
    }
}

/// Append a row: its cell count, then each key and value.
fn write_row(buffer: &mut Vec<u8>, row: &crate::schema::Row)
    ensures
        final(buffer)@ == old(buffer)@ + ser_row(row@),
        row_bounded(row@),
{
    let n = row.cells.len();
    proof {
        lemma_pow8();
        assert(n as u64 as nat == n as nat);
    }
    write_u64(buffer, n as u64);
    let ghost start = buffer@;
    let mut i: usize = 0;
    proof {
        assert(ser_cells(row@.take(0int)) =~= Seq::<u8>::empty());
        assert(buffer@ =~= start + ser_cells(row@.take(0int)));
    }
    while i < n
        invariant
            i <= n,
            n == row.cells@.len(),
            n == row@.len(),
            buffer@ == start + ser_cells(row@.take(i as int)),
            forall|j: int|
                0 <= j < i ==> str_bounded((#[trigger] row@[j]).0) && str_bounded(row@[j].1),
        decreases n - i,
    {
        let ghost mid0 = buffer@;
        write_string(buffer, row.cells[i].0.as_str());
        write_string(buffer, row.cells[i].1.as_str());
        proof {
            assert(row@[i as int] == (row.cells@[i as int].0@, row.cells@[i as int].1@));
            lemma_ser_snoc(
                row@,
                i as int,
                |cell: (Seq<char>, Seq<char>)| ser_string(cell.0) + ser_string(cell.1),
                |t: Cells| ser_cells(t),
            );
            assert(buffer@ =~= start + ser_cells(row@.take(i + 1)));
        }
        i = i + 1;
    }
    proof {
        assert(row@.take(n as int) =~= row@);
    }
}

/// Append a whole table: columns, primary key, rows.
fn write_table(buffer: &mut Vec<u8>, table: &crate::schema::Table)
    ensures
        final(buffer)@ == old(buffer)@ + ser_table(table@),
        table_bounded(table@),
{
    let ncols = table.columns.len();
    proof {
        lemma_pow8();
        assert(ncols as u64 as nat == ncols as nat);
    }
    write_u64(buffer, ncols as u64);
    let ghost start_cols = buffer@;
    let ghost cv = table@.columns;
    let mut i: usize = 0;
    proof {
        assert(ser_strings(cv.take(0int)) =~= Seq::<u8>::empty());
        assert(buffer@ =~= start_cols + ser_strings(cv.take(0int)));
    }
    while i < ncols
        invariant
            i <= ncols,
            ncols == table.columns@.len(),
            cv == table@.columns,
            buffer@ == start_cols + ser_strings(cv.take(i as int)),
            forall|j: int| 0 <= j < i ==> str_bounded(#[trigger] cv[j]),
        decreases ncols - i,
    {
        write_string(buffer, table.columns[i].as_str());
        proof {
            assert(cv[i as int] == table.columns@[i as int]@);
            lemma_ser_snoc(
                cv,
                i as int,
                |name: Seq<char>| ser_string(name),
                |t: Seq<Seq<char>>| ser_strings(t),
            );
            assert(buffer@ =~= start_cols + ser_strings(cv.take(i + 1)));
        }
        i = i + 1;
    }
    proof {
        assert(cv.take(ncols as int) =~= cv);
    }
    write_opt_string(buffer, &table.primary_key);
    let nrows = table.rows.len();
    proof {
        assert(nrows as u64 as nat == nrows as nat);
    }
    write_u64(buffer, nrows as u64);
    let ghost start_rows = buffer@;
    let ghost rv = table@.rows;
    let mut r: usize = 0;
    proof {
        assert(ser_rows(rv.take(0int)) =~= Seq::<u8>::empty());
        assert(buffer@ =~= start_rows + ser_rows(rv.take(0int)));
    }
    while r < nrows
        invariant
            r <= nrows,
            nrows == table.rows@.len(),
            rv == table@.rows,
            buffer@ == start_rows + ser_rows(rv.take(r as int)),
            forall|j: int| 0 <= j < r ==> row_bounded(#[trigger] rv[j]),
        decreases nrows - r,
    {
        write_row(buffer, &table.rows[r]);
        proof {
            assert(rv[r as int] == table.rows@[r as int]@);
            lemma_ser_snoc(rv, r as int, |row: Cells| ser_row(row), |t: Seq<Cells>| ser_rows(t));
            assert(buffer@ =~= start_rows + ser_rows(rv.take(r + 1)));
        }
        r = r + 1;
    }
    proof {
        assert(rv.take(nrows as int) =~= rv);
        assert(buffer@ =~= old(buffer)@ + ser_table(table@));
        assert(table@.columns.len() < pow256(8));
        assert(forall|k: int|
            0 <= k < table@.columns.len() ==> str_bounded(#[trigger] table@.columns[k]));
        assert(match table@.primary_key {
            Some(k) => str_bounded(k),
            None => true,
        });
        assert(table@.rows.len() < pow256(8));
        assert(forall|k: int| 0 <= k < table@.rows.len() ==> row_bounded(#[trigger] table@.rows[k]));
    }
}

impl crate::storage_engine::StorageEngine {
    /// Serialize the whole engine into the buffer, replacing its
    /// contents.  Writing a value to memory cannot fail; the `Result`
    /// mirrors the shape the shell expects.
    pub fn serialize(&self, buffer: &mut Vec<u8>) -> (r: Result<(), String>)
        ensures
            r is Ok,
            final(buffer)@ == snapshot_bytes(self@),
            engine_bounded(self@),
    {
        buffer.clear();
        write_string(buffer, self.metadata.version.as_str());
        write_u64(buffer, self.metadata.created_at);
        write_u64(buffer, self.metadata.last_modified);
        write_u64(buffer, self.metadata.total_operations);
        write_u64(buffer, self.metadata.total_tables_created);
        write_u64(buffer, self.metadata.total_rows_inserted);
        write_u64(buffer, self.metadata.total_rows_updated);
        write_u64(buffer, self.metadata.total_rows_deleted);
        proof {
            assert(buffer@ =~= ser_meta(self@.metadata));
        }
        let ntables = self.tables.len();
        proof {
            lemma_pow8();
            assert(ntables as u64 as nat == ntables as nat);
        }
        write_u64(buffer, ntables as u64);
        let ghost start = buffer@;
        let ghost tv = self@.tables;
        let mut i: usize = 0;
        proof {
            assert(ser_tables(tv.take(0int)) =~= Seq::<u8>::empty());
            assert(buffer@ =~= start + ser_tables(tv.take(0int)));
        }
        while i < ntables
            invariant
                i <= ntables,
                ntables == self.tables@.len(),
                tv == self@.tables,
                buffer@ == start + ser_tables(tv.take(i as int)),
                forall|j: int|
                    0 <= j < i ==> str_bounded((#[trigger] tv[j]).0) && table_bounded(tv[j].1),
            decreases ntables - i,
        {
            write_string(buffer, self.tables[i].0.as_str());
            write_table(buffer, &self.tables[i].1);
            proof {
                assert(tv[i as int] == (self.tables@[i as int].0@, self.tables@[i as int].1@));
                lemma_ser_snoc(
                    tv,
                    i as int,
                    |p: (Seq<char>, TableV)| ser_string(p.0) + ser_table(p.1),
                    |t: TablesV| ser_tables(t),
                );
                assert(buffer@ =~= start + ser_tables(tv.take(i + 1)));
            }
            i = i + 1;
        }
        proof {
            assert(tv.take(ntables as int) =~= tv);
            assert(buffer@ =~= snapshot_bytes(self@));
        }
        Ok(())
    }
}

// ---------------------------------------------------------------------
// Reading.
// ---------------------------------------------------------------------
/// Powers of 256 are positive and grow with the exponent.
proof fn lemma_pow256_mono(a: nat, b: nat)
    requires
        a <= b,
    ensures
        pow256(a) <= pow256(b),
        1 <= pow256(a),
    decreases b,
{
    if b == 0 {
    } else if a == b {
        lemma_pow256_mono((b - 1) as nat, (b - 1) as nat);
        assert(pow256(b) >= pow256((b - 1) as nat)) by (nonlinear_arith)
            requires
                pow256((b - 1) as nat) >= 1,
                pow256(b) == 256 * pow256((b - 1) as nat),
        ;
    } else {
        lemma_pow256_mono(a, (b - 1) as nat);
        assert(pow256(b) >= pow256((b - 1) as nat)) by (nonlinear_arith)
            requires
                pow256((b - 1) as nat) >= 1,
                pow256(b) == 256 * pow256((b - 1) as nat),
        ;
    }
}

/// Read eight little-endian bytes.
fn read_u64(b: &Vec<u8>, pos: usize) -> (r: Option<(u64, usize)>)
    ensures
        match r {
            Some(v) => parse_u64(b@, pos as int) == Some((v.0, v.1 as int)) && pos < v.1
                <= b@.len(),
            None => parse_u64(b@, pos as int) is None,
        },
{
    let n = b.len();
    if n < 8 || pos > n - 8 {
        return None;
    }
    let mut acc: u64 = 0;
    let mut k: usize = 8;
    proof {
        assert(b@.subrange(pos + 8, pos + 8) =~= Seq::<u8>::empty());
    }
    while k > 0
        invariant
            k <= 8,
            pos + 8 <= n,
            n == b@.len(),
            acc == le_val(b@.subrange(pos + k, pos + 8)),
            0 <= acc < pow256((8 - k) as nat),
        decreases k,
    {
        let ghost sub_old = b@.subrange(pos + k, pos + 8);
        let byte = b[pos + k - 1];
        proof {
            lemma_pow8();
            lemma_pow256_mono((8 - k + 1) as nat, 8);
            let sub_new = b@.subrange(pos + k - 1, pos + 8);
            assert(sub_new[0] == b@[pos + k - 1]);
            assert(sub_new.drop_first() =~= sub_old);
            assert(le_val(sub_new) == byte + 256 * le_val(sub_old));
            assert(byte + 256 * (acc as int) < pow256((8 - k + 1) as nat)) by (nonlinear_arith)
                requires
                    0 <= byte < 256,
                    0 <= (acc as int) && (acc as int) < pow256((8 - k) as nat),
                    pow256((8 - k + 1) as nat) == 256 * pow256((8 - k) as nat),
            ;
        }
        acc = acc * 256 + (byte as u64);
        k = k - 1;
    }
    proof {
        lemma_le_val_bound(b@.subrange(pos as int, pos + 8));
    }
    Some((acc, pos + 8))
}

/// Relies on `char::from_u32`: the conversion succeeds exactly on
/// valid Unicode scalar values and yields the character with that
/// value.
pub assume_specification[ char::from_u32 ](i: u32) -> (r: Option<char>)
    ensures
        match r {
            Some(c) => c as int == i as int && valid_scalar(i),
            None => !valid_scalar(i),
        },
;

/// Read one character: four little-endian bytes forming a valid
/// scalar value.
fn read_char(b: &Vec<u8>, pos: usize) -> (r: Option<(char, usize)>)
    ensures
        match r {
            Some(v) => parse_char(b@, pos as int) == Some((v.0, v.1 as int)) && pos < v.1
                <= b@.len(),
            None => parse_char(b@, pos as int) is None,
        },
{
    let n = b.len();
    if n < 4 || pos > n - 4 {
        return None;
    }
    let mut acc: u32 = 0;
    let mut k: usize = 4;
    proof {
        assert(b@.subrange(pos + 4, pos + 4) =~= Seq::<u8>::empty());
    }
    while k > 0
        invariant
            k <= 4,
            pos + 4 <= n,
            n == b@.len(),
            acc == le_val(b@.subrange(pos + k, pos + 4)),
            0 <= acc < pow256((4 - k) as nat),
        decreases k,
    {
        let ghost sub_old = b@.subrange(pos + k, pos + 4);
        let byte = b[pos + k - 1];
        proof {
            assert(pow256(4) == 0x100000000) by {
                reveal_with_fuel(pow256, 5);
            }
            lemma_pow256_mono((4 - k + 1) as nat, 4);
            let sub_new = b@.subrange(pos + k - 1, pos + 4);
            assert(sub_new[0] == b@[pos + k - 1]);
            assert(sub_new.drop_first() =~= sub_old);
            assert(le_val(sub_new) == byte + 256 * le_val(sub_old));
            assert(byte + 256 * (acc as int) < pow256((4 - k + 1) as nat)) by (nonlinear_arith)
                requires
                    0 <= byte < 256,
                    0 <= (acc as int) && (acc as int) < pow256((4 - k) as nat),
                    pow256((4 - k + 1) as nat) == 256 * pow256((4 - k) as nat),
            ;
        }
        acc = acc * 256 + (byte as u32);
        k = k - 1;
    }
    proof {
        lemma_le_val_bound(b@.subrange(pos as int, pos + 4));
    }
    match char::from_u32(acc) {
        Some(c) => {
            proof {
                let x = le_val(b@.subrange(pos as int, pos + 4));
                assert(x == acc as int);
                assert(c as int == x);
                assert((x as char) as int == x);
                assert(x as char == c);
            }
            Some((c, pos + 4))
        },
        None => {
            None
        },
    }
}

/// Relies on `String: FromIterator<char>`: collecting characters
/// builds the string of exactly those characters.
#[verifier::external_body]
fn chars_to_string(v: &Vec<char>) -> (s: String)
    ensures
        s@ == v@,
{
    v.iter().collect()
}

/// A successful character-list parse advances four bytes per
/// character and stays within the buffer.
proof fn lemma_parse_chars_some(b: Seq<u8>, pos: int, count: nat)
    requires
        0 <= pos <= b.len(),
    ensures
        match parse_chars(b, pos, count) {
            Some((s, e)) => s.len() == count && e == pos + 4 * count && pos <= e <= b.len(),
            None => true,
        },
    decreases count,
{
    if count > 0 {
        match parse_char(b, pos) {
            Some((c, p)) => {
                lemma_parse_chars_some(b, p, (count - 1) as nat);
            },
            None => {},
        }
    }
}

/// A successful string parse advances at least its length prefix.
proof fn lemma_parse_string_some(b: Seq<u8>, pos: int)
    requires
        0 <= pos <= b.len(),
    ensures
        match parse_string(b, pos) {
            Some((s, e)) => pos + 8 <= e <= b.len(),
            None => true,
        },
{
    match parse_u64(b, pos) {
        Some((n, p)) => {
            lemma_parse_chars_some(b, p, n as nat);
        },
        None => {},
    }
}

/// Read a string: a character count, then the characters.
fn read_string(b: &Vec<u8>, pos: usize) -> (r: Option<(String, usize)>)
    ensures
        match r {
            Some(v) => parse_string(b@, pos as int) == Some((v.0@, v.1 as int)) && pos < v.1
                <= b@.len(),
            None => parse_string(b@, pos as int) is None,
        },
{
    let (count, p) = match read_u64(b, pos) {
        Some(x) => x,
        None => {
            return None;
        },
    };
    let rem = b.len() - p;
    if count > rem as u64 {
        proof {
            lemma_parse_chars_some(b@, p as int, count as nat);
            assert(parse_chars(b@, p as int, count as nat) is None) by {
                match parse_chars(b@, p as int, count as nat) {
                    Some((s, e)) => {
                        assert(p + 4 * (count as int) <= b@.len());
                        assert(false);
                    },
                    None => {},
                }
            }
            assert(parse_string(b@, pos as int) is None);
        }
        return None;
    }
    let cnt: usize = count as usize;
    proof {
        assert(cnt as nat == count as nat);
    }
    let mut chars: Vec<char> = Vec::new();
    let mut cur: usize = p;
    let mut i: usize = 0;
    proof {
        assert(chars@ =~= Seq::<char>::empty());
    }
    while i < cnt
        invariant
            i <= cnt,
            cnt == count as nat,
            p <= cur <= b@.len(),
            pos < p,
            chars@.len() == i,
            parse_u64(b@, pos as int) == Some((count, p as int)),
            parse_chars(b@, p as int, count as nat) == (match parse_chars(
                b@,
                cur as int,
                (cnt - i) as nat,
            ) {
                Some((s, e)) => Some((chars@ + s, e)),
                None => None::<(Seq<char>, int)>,
            }),
        decreases cnt - i,
    {
        match read_char(b, cur) {
            Some((c, p2)) => {
                let ghost chars_before = chars@;
                chars.push(c);
                proof {
                    assert forall|s: Seq<char>| chars_before + (seq![c] + s) =~= chars@ + s by {}
                }
                cur = p2;
            },
            None => {
                return None;
            },
        }
        i = i + 1;
    }
    proof {
        assert(parse_chars(b@, cur as int, 0) == Some((Seq::<char>::empty(), cur as int)));
        assert(chars@ + Seq::<char>::empty() =~= chars@);
    }
    let s = chars_to_string(&chars);
    Some((s, cur))
}

/// Read an optional string: a one-byte tag, then the string.
fn read_opt_string(b: &Vec<u8>, pos: usize) -> (r: Option<(Option<String>, usize)>)
    ensures
        match r {
            Some(v) => parse_opt_string(b@, pos as int) == Some(
                (
                    match v.0 {
                        Some(s) => Some(s@),
                        None => None,
                    },
                    v.1 as int,
                ),
            ) && pos < v.1 <= b@.len(),
            None => parse_opt_string(b@, pos as int) is None,
        },
{
    let n = b.len();
    if pos >= n {
        return None;
    }
    let tag = b[pos];
    if tag == 0u8 {
        Some((None, pos + 1))
    } else if tag == 1u8 {
        match read_string(b, pos + 1) {
            Some((s, e)) => Some((Some(s), e)),
            None => None,
        }
    } else {
        None
    }
}

/// A successful cell-list parse advances at least one byte per cell.
proof fn lemma_parse_cells_some(b: Seq<u8>, pos: int, count: nat)
    requires
        0 <= pos <= b.len(),
    ensures
        match parse_cells(b, pos, count) {
            Some((cells, e)) => cells.len() == count && pos + count <= e <= b.len(),
            None => true,
        },
    decreases count,
{
    if count > 0 {
        lemma_parse_string_some(b, pos);
        match parse_string(b, pos) {
            Some((k, p1)) => {
                lemma_parse_string_some(b, p1);
                match parse_string(b, p1) {
                    Some((v, p2)) => {
                        lemma_parse_cells_some(b, p2, (count - 1) as nat);
                    },
                    None => {},
                }
            },
            None => {},
        }
    }
}

/// Read a row: a cell count, then each key and value.
fn read_row(b: &Vec<u8>, pos: usize) -> (r: Option<(crate::schema::Row, usize)>)
    ensures
        match r {
            Some(v) => parse_row(b@, pos as int) == Some((v.0@, v.1 as int)) && pos < v.1
                <= b@.len(),
            None => parse_row(b@, pos as int) is None,
        },
{
    let (count, p) = match read_u64(b, pos) {
        Some(x) => x,
        None => {
            return None;
        },
    };
    let rem = b.len() - p;
    if count > rem as u64 {
        proof {
            lemma_parse_cells_some(b@, p as int, count as nat);
            assert(parse_cells(b@, p as int, count as nat) is None) by {
                match parse_cells(b@, p as int, count as nat) {
                    Some((cs, e)) => {
                        assert(p + count as int <= b@.len());
                        assert(false);
                    },
                    None => {},
                }
            }
            assert(parse_row(b@, pos as int) is None);
        }
        return None;
    }
    let cnt: usize = count as usize;
    proof {
        assert(cnt as nat == count as nat);
    }
    let mut cells: Vec<(String, String)> = Vec::new();
    let mut cur: usize = p;
    let mut i: usize = 0;
    let ghost cf = |cell: (String, String)| (cell.0@, cell.1@);
    proof {
        assert(cells@.map_values(cf) =~= Seq::<(Seq<char>, Seq<char>)>::empty());
    }
    while i < cnt
        invariant
            i <= cnt,
            cnt == count as nat,
            p <= cur <= b@.len(),
            pos < p,
            cf == (|cell: (String, String)| (cell.0@, cell.1@)),
            parse_u64(b@, pos as int) == Some((count, p as int)),
            parse_cells(b@, p as int, count as nat) == (match parse_cells(
                b@,
                cur as int,
                (cnt - i) as nat,
            ) {
                Some((rest, e)) => Some((cells@.map_values(cf) + rest, e)),
                None => None::<(Cells, int)>,
            }),
        decreases cnt - i,
    {
        let (kst, p1) = match read_string(b, cur) {
            Some(x) => x,
            None => {
                return None;
            },
        };
        let (vst, p2) = match read_string(b, p1) {
            Some(x) => x,
            None => {
                return None;
            },
        };
        let ghost cells_before = cells@;
        cells.push((kst, vst));
        proof {
            assert(cells@.map_values(cf) =~= cells_before.map_values(cf).push(
                (cells@[cells_before.len() as int].0@, cells@[cells_before.len() as int].1@),
            ));
            assert forall|rest: Cells|
                cells_before.map_values(cf) + (seq![(kst@, vst@)] + rest) =~= cells@.map_values(
                    cf,
                ) + rest by {}
        }
        cur = p2;
        i = i + 1;
    }
    proof {
        assert(parse_cells(b@, cur as int, 0) == Some(
            (Seq::<(Seq<char>, Seq<char>)>::empty(), cur as int),
        ));
        assert(cells@.map_values(cf) + Seq::<(Seq<char>, Seq<char>)>::empty() =~= cells@.map_values(
            cf,
        ));
    }
    let row = crate::schema::Row { cells };
    proof {
        assert(row@ =~= row.cells@.map_values(cf));
    }
    Some((row, cur))
}

/// A successful string-list parse advances at least one byte per
/// string.
proof fn lemma_parse_string_list_some(b: Seq<u8>, pos: int, count: nat)
    requires
        0 <= pos <= b.len(),
    ensures
        match parse_string_list(b, pos, count) {
            Some((ss, e)) => ss.len() == count && pos + count <= e <= b.len(),
            None => true,
        },
    decreases count,
{
    if count > 0 {
        lemma_parse_string_some(b, pos);
        match parse_string(b, pos) {
            Some((s, p)) => {
                lemma_parse_string_list_some(b, p, (count - 1) as nat);
            },
            None => {},
        }
    }
}

/// Read a list of strings of known count.
fn read_string_list(b: &Vec<u8>, pos: usize, count: u64) -> (r: Option<(Vec<String>, usize)>)
    requires
        count <= b@.len(),
        pos <= b@.len(),
    ensures
        match r {
            Some(v) => parse_string_list(b@, pos as int, count as nat) == Some(
                (v.0@.map_values(|s: String| s@), v.1 as int),
            ) && pos <= v.1 <= b@.len(),
            None => parse_string_list(b@, pos as int, count as nat) is None,
        },
{
    let blen = b.len();
    proof {
        assert(count as nat <= blen as nat);
    }
    let cnt: usize = count as usize;
    proof {
        assert(cnt as nat == count as nat);
    }
    let mut out: Vec<String> = Vec::new();
    let mut cur: usize = pos;
    let mut i: usize = 0;
    let ghost sf = |s: String| s@;
    proof {
        assert(out@.map_values(sf) =~= Seq::<Seq<char>>::empty());
    }
    while i < cnt
        invariant
            i <= cnt,
            cnt == count as nat,
            pos <= cur <= b@.len(),
            sf == (|s: String| s@),
            parse_string_list(b@, pos as int, count as nat) == (match parse_string_list(
                b@,
                cur as int,
                (cnt - i) as nat,
            ) {
                Some((rest, e)) => Some((out@.map_values(sf) + rest, e)),
                None => None::<(Seq<Seq<char>>, int)>,
            }),
        decreases cnt - i,
    {
        let (s, p) = match read_string(b, cur) {
            Some(x) => x,
            None => {
                return None;
            },
        };
        let ghost out_before = out@;
        out.push(s);
        proof {
            assert(out@.map_values(sf) =~= out_before.map_values(sf).push(
                out@[out_before.len() as int]@,
            ));
            assert forall|rest: Seq<Seq<char>>|
                out_before.map_values(sf) + (seq![out@[out_before.len() as int]@] + rest)
                    =~= out@.map_values(sf) + rest by {}
        }
        cur = p;
        i = i + 1;
    }
    proof {
        assert(parse_string_list(b@, cur as int, 0) == Some(
            (Seq::<Seq<char>>::empty(), cur as int),
        ));
        assert(out@.map_values(sf) + Seq::<Seq<char>>::empty() =~= out@.map_values(sf));
    }
    Some((out, cur))
}

/// A successful row parse advances at least its count prefix.
proof fn lemma_parse_row_some(b: Seq<u8>, pos: int)
    requires
        0 <= pos <= b.len(),
    ensures
        match parse_row(b, pos) {
            Some((cells, e)) => pos + 8 <= e <= b.len(),
            None => true,
        },
{
    match parse_u64(b, pos) {
        Some((n, p)) => {
            lemma_parse_cells_some(b, p, n as nat);
        },
        None => {},
    }
}

/// A successful row-list parse advances at least one byte per row.
proof fn lemma_parse_rows_some(b: Seq<u8>, pos: int, count: nat)
    requires
        0 <= pos <= b.len(),
    ensures
        match parse_rows(b, pos, count) {
            Some((rows, e)) => rows.len() == count && pos + count <= e <= b.len(),
            None => true,
        },
    decreases count,
{
    if count > 0 {
        lemma_parse_row_some(b, pos);
        match parse_row(b, pos) {
            Some((row, p)) => {
                lemma_parse_rows_some(b, p, (count - 1) as nat);
            },
            None => {},
        }
    }
}

/// Read a list of rows of known count.
fn read_rows(b: &Vec<u8>, pos: usize, count: u64) -> (r: Option<(Vec<crate::schema::Row>, usize)>)
    requires
        count <= b@.len(),
        pos <= b@.len(),
    ensures
        match r {
            Some(v) => parse_rows(b@, pos as int, count as nat) == Some(
                (v.0@.map_values(|row: crate::schema::Row| row@), v.1 as int),
            ) && pos <= v.1 <= b@.len(),
            None => parse_rows(b@, pos as int, count as nat) is None,
        },
{
    let blen = b.len();
    proof {
        assert(count as nat <= blen as nat);
    }
    let cnt: usize = count as usize;
    proof {
        assert(cnt as nat == count as nat);
    }
    let mut out: Vec<crate::schema::Row> = Vec::new();
    let mut cur: usize = pos;
    let mut i: usize = 0;
    let ghost rf = |row: crate::schema::Row| row@;
    proof {
        assert(out@.map_values(rf) =~= Seq::<Cells>::empty());
    }
    while i < cnt
        invariant
            i <= cnt,
            cnt == count as nat,
            pos <= cur <= b@.len(),
            rf == (|row: crate::schema::Row| row@),
            parse_rows(b@, pos as int, count as nat) == (match parse_rows(
                b@,
                cur as int,
                (cnt - i) as nat,
            ) {
                Some((rest, e)) => Some((out@.map_values(rf) + rest, e)),
                None => None::<(Seq<Cells>, int)>,
            }),
        decreases cnt - i,
    {
        let (row, p) = match read_row(b, cur) {
            Some(x) => x,
            None => {
                return None;
            },
        };
        let ghost out_before = out@;
        let ghost rv = row@;
        out.push(row);
        proof {
            assert(out@.map_values(rf) =~= out_before.map_values(rf).push(
                out@[out_before.len() as int]@,
            ));
            assert forall|rest: Seq<Cells>|
                out_before.map_values(rf) + (seq![rv] + rest) =~= out@.map_values(rf) + rest by {}
        }
        cur = p;
        i = i + 1;
    }
    proof {
        assert(parse_rows(b@, cur as int, 0) == Some((Seq::<Cells>::empty(), cur as int)));
        assert(out@.map_values(rf) + Seq::<Cells>::empty() =~= out@.map_values(rf));
    }
    Some((out, cur))
}

/// Read a whole table: columns, primary key, rows.
fn read_table(b: &Vec<u8>, pos: usize) -> (r: Option<(crate::schema::Table, usize)>)
    ensures
        match r {
            Some(v) => parse_table(b@, pos as int) == Some((v.0@, v.1 as int)) && pos < v.1
                <= b@.len(),
            None => parse_table(b@, pos as int) is None,
        },
{
    let (ncols, p1) = match read_u64(b, pos) {
        Some(x) => x,
        None => {
            return None;
        },
    };
    if ncols > (b.len() - p1) as u64 {
        proof {
            lemma_parse_string_list_some(b@, p1 as int, ncols as nat);
        }
        return None;
    }
    let (columns, p2) = match read_string_list(b, p1, ncols) {
        Some(x) => x,
        None => {
            return None;
        },
    };
    let (primary_key, p3) = match read_opt_string(b, p2) {
        Some(x) => x,
        None => {
            return None;
        },
    };
    let (nrows, p4) = match read_u64(b, p3) {
        Some(x) => x,
        None => {
            return None;
        },
    };
    if nrows > (b.len() - p4) as u64 {
        proof {
            lemma_parse_rows_some(b@, p4 as int, nrows as nat);
        }
        return None;
    }
    let (rows, p5) = match read_rows(b, p4, nrows) {
        Some(x) => x,
        None => {
            return None;
        },
    };
    let table = crate::schema::Table { columns, rows, primary_key };
    proof {
        let parsed = parse_table(b@, pos as int);
        assert(parsed is Some);
        let (tv, e) = parsed.unwrap();
        assert(table@.columns == tv.columns);
        assert(table@.rows == tv.rows);
        assert(table@.primary_key == tv.primary_key);
        assert(table@ == tv);
    }
    Some((table, p5))
}

/// Read the catalog: a known count of named tables.
fn read_tables(b: &Vec<u8>, pos: usize, count: u64) -> (r: Option<
    (Vec<(String, crate::schema::Table)>, usize),
>)
    requires
        count <= b@.len(),
        pos <= b@.len(),
    ensures
        match r {
            Some(v) => parse_tables(b@, pos as int, count as nat) == Some(
                (
                    v.0@.map_values(
                        |p: (String, crate::schema::Table)| (p.0@, p.1@),
                    ),
                    v.1 as int,
                ),
            ) && pos <= v.1 <= b@.len(),
            None => parse_tables(b@, pos as int, count as nat) is None,
        },
{
    let blen = b.len();
    proof {
        assert(count as nat <= blen as nat);
    }
    let cnt: usize = count as usize;
    proof {
        assert(cnt as nat == count as nat);
    }
    let mut out: Vec<(String, crate::schema::Table)> = Vec::new();
    let mut cur: usize = pos;
    let mut i: usize = 0;
    let ghost tf = |p: (String, crate::schema::Table)| (p.0@, p.1@);
    proof {
        assert(out@.map_values(tf) =~= Seq::<(Seq<char>, TableV)>::empty());
    }
    while i < cnt
        invariant
            i <= cnt,
            cnt == count as nat,
            pos <= cur <= b@.len(),
            tf == (|p: (String, crate::schema::Table)| (p.0@, p.1@)),
            parse_tables(b@, pos as int, count as nat) == (match parse_tables(
                b@,
                cur as int,
                (cnt - i) as nat,
            ) {
                Some((rest, e)) => Some((out@.map_values(tf) + rest, e)),
                None => None::<(TablesV, int)>,
            }),
        decreases cnt - i,
    {
        let (name, p1) = match read_string(b, cur) {
            Some(x) => x,
            None => {
                return None;
            },
        };
        let (table, p2) = match read_table(b, p1) {
            Some(x) => x,
            None => {
                return None;
            },
        };
        let ghost out_before = out@;
        let ghost nv = name@;
        let ghost tv = table@;
        out.push((name, table));
        proof {
            assert(out@.map_values(tf) =~= out_before.map_values(tf).push(
                (out@[out_before.len() as int].0@, out@[out_before.len() as int].1@),
            ));
            assert forall|rest: TablesV|
                out_before.map_values(tf) + (seq![(nv, tv)] + rest) =~= out@.map_values(tf)
                    + rest by {}
        }
        cur = p2;
        i = i + 1;
    }
    proof {
        assert(parse_tables(b@, cur as int, 0) == Some(
            (Seq::<(Seq<char>, TableV)>::empty(), cur as int),
        ));
        assert(out@.map_values(tf) + Seq::<(Seq<char>, TableV)>::empty() =~= out@.map_values(tf));
    }
    Some((out, cur))
}

impl crate::storage_engine::StorageEngine {
    /// Rebuild an engine from snapshot bytes.  The whole buffer must
    /// parse, and the parsed engine must satisfy the engine invariant;
    /// anything else is an error.
    pub fn deserialize(buffer: &Vec<u8>) -> (r: Result<
        crate::storage_engine::StorageEngine,
        String,
    >)
        ensures
            match r {
                Ok(e) => parse_snapshot(buffer@) == Some(e@) && e.wf(),
                Err(_) => match parse_snapshot(buffer@) {
                    Some(v) => !v.wf(),
                    None => true,
                },
            },
    {
        let (version, p0) = match read_string(buffer, 0) {
            Some(x) => x,
            None => {
                return Err(String::from_str("snapshot truncated"));
            },
        };
        let (created_at, p1) = match read_u64(buffer, p0) {
            Some(x) => x,
            None => {
                return Err(String::from_str("snapshot truncated"));
            },
        };
        let (last_modified, p2) = match read_u64(buffer, p1) {
            Some(x) => x,
            None => {
                return Err(String::from_str("snapshot truncated"));
            },
        };
        let (total_operations, p3) = match read_u64(buffer, p2) {
            Some(x) => x,
            None => {
                return Err(String::from_str("snapshot truncated"));
            },
        };
        let (total_tables_created, p4) = match read_u64(buffer, p3) {
            Some(x) => x,
            None => {
                return Err(String::from_str("snapshot truncated"));
            },
        };
        let (total_rows_inserted, p5) = match read_u64(buffer, p4) {
            Some(x) => x,
            None => {
                return Err(String::from_str("snapshot truncated"));
            },
        };
        let (total_rows_updated, p6) = match read_u64(buffer, p5) {
            Some(x) => x,
            None => {
                return Err(String::from_str("snapshot truncated"));
            },
        };
        let (total_rows_deleted, p7) = match read_u64(buffer, p6) {
            Some(x) => x,
            None => {
                return Err(String::from_str("snapshot truncated"));
            },
        };
        let (ntables, p8) = match read_u64(buffer, p7) {
            Some(x) => x,
            None => {
                return Err(String::from_str("snapshot truncated"));
            },
        };
        if ntables > (buffer.len() - p8) as u64 {
            proof {
                lemma_parse_tables_some(buffer@, p8 as int, ntables as nat);
            }
            return Err(String::from_str("snapshot truncated"));
        }
        let (tables, p9) = match read_tables(buffer, p8, ntables) {
            Some(x) => x,
            None => {
                return Err(String::from_str("snapshot truncated"));
            },
        };
        if p9 != buffer.len() {
            return Err(String::from_str("snapshot carries trailing bytes"));
        }
        let metadata = crate::storage_engine::StorageMetadata {
            version,
            created_at,
            last_modified,
            total_operations,
            total_tables_created,
            total_rows_inserted,
            total_rows_updated,
            total_rows_deleted,
        };
        let engine = crate::storage_engine::StorageEngine { tables, metadata };
        proof {
            let parsed = parse_snapshot(buffer@);
            assert(parsed is Some);
            let pv = parsed.unwrap();
            assert(engine@.metadata == pv.metadata);
            assert(engine@.tables == pv.tables);
            assert(engine@ == pv);
        }
        if engine.check_wf() {
            Ok(engine)
        } else {
            Err(String::from_str("snapshot breaks the engine invariant"))
        }
    }
}

/// A successful table-list parse advances at least one byte per
/// table.
proof fn lemma_parse_tables_some(b: Seq<u8>, pos: int, count: nat)
    requires
        0 <= pos <= b.len(),
    ensures
        match parse_tables(b, pos, count) {
            Some((ts, e)) => ts.len() == count && pos + count <= e <= b.len(),
            None => true,
        },
    decreases count,
{
    if count > 0 {
        lemma_parse_string_some(b, pos);
        match parse_string(b, pos) {
            Some((name, p1)) => {
                lemma_parse_table_some(b, p1);
                match parse_table(b, p1) {
                    Some((t, p2)) => {
                        lemma_parse_tables_some(b, p2, (count - 1) as nat);
                    },
                    None => {},
                }
            },
            None => {},
        }
    }
}

/// A successful optional-string parse advances at least its tag byte.
proof fn lemma_parse_opt_string_some(b: Seq<u8>, pos: int)
    requires
        0 <= pos <= b.len(),
    ensures
        match parse_opt_string(b, pos) {
            Some((o, e)) => pos + 1 <= e <= b.len(),
            None => true,
        },
{
    if 0 <= pos && pos < b.len() {
        if b[pos] == 1u8 {
            lemma_parse_string_some(b, pos + 1);
        }
    }
}

/// A successful table parse advances at least its column-count prefix.
proof fn lemma_parse_table_some(b: Seq<u8>, pos: int)
    requires
        0 <= pos <= b.len(),
    ensures
        match parse_table(b, pos) {
            Some((t, e)) => pos + 8 <= e <= b.len(),
            None => true,
        },
{
    match parse_u64(b, pos) {
        Some((ncols, p1)) => {
            lemma_parse_string_list_some(b, p1, ncols as nat);
            match parse_string_list(b, p1, ncols as nat) {
                Some((cols, p2)) => {
                    lemma_parse_opt_string_some(b, p2);
                    match parse_opt_string(b, p2) {
                        Some((pk, p3)) => {
                            match parse_u64(b, p3) {
                                Some((nrows, p4)) => {
                                    lemma_parse_rows_some(b, p4, nrows as nat);
                                },
                                None => {},
                            }
                        },
                        None => {},
                    }
                },
                None => {},
            }
        },
        None => {},
    }
}

/// Re-serialization is byte-identical: the engine a snapshot parses
/// back to writes the very same bytes again.
pub proof fn lemma_reserialize(e: EngineV)
    requires
        engine_bounded(e),
    ensures
        ({
            let b = snapshot_bytes(e);
            match parse_snapshot(b) {
                Some(v) => snapshot_bytes(v) == b,
                None => false,
            }
        }),
{
    lemma_snapshot_round_trip(e);
}

} // verus!
