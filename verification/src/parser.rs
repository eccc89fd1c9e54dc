//! The SQL front-end: a recursive-descent parser for single statements.
//!
//! The grammar (keywords case-insensitive, `WS` one or more of space, tab,
//! carriage return, line feed):
//!
//! ```text
//! statement  := select | delete | update | insert
//! select     := "SELECT" WS ("*" | idents) WS "FROM" WS ident [where]
//! delete     := "DELETE" WS "FROM" WS ident [where]
//! update     := "UPDATE" WS ident WS "SET" WS assigns [where]
//! insert     := "INSERT" WS "INTO" WS ident [cols] WS "VALUES" ws "(" values ")"
//! where      := WS "WHERE" WS ident ws op ws value
//! op         := ">=" | "<=" | "!=" | "<>" | "=" | ">" | "<"
//! value      := "'" (not "'")* "'" | ident
//! ident      := [A-Za-z0-9]+
//! ```
//!
//! Lists (`idents`, `assigns`, `values`, `cols`) may be empty and separate
//! their elements with a comma that may carry whitespace on both sides.
//! A statement parses only when the whole input is consumed up to
//! surrounding whitespace.  The two-character operators are tried before
//! the one-character ones, so `>=` never parses as `>` followed by a
//! stray `=`.
//!
//! The grammar is stated once as spec functions over `Seq<char>`; every
//! runtime parsing function is proved to agree with its spec counterpart,
//! so `Parser::parse` returns a syntax tree exactly when the grammar
//! accepts the input.

use vstd::prelude::*;

use crate::query::Identifier;
use crate::schema::{assoc_get, assoc_has, Cells, Row};
use crate::text::{
    is_alnum,
    is_ws,
    lower_char,
    parse_i32_or_zero,
};

verus! {

// ---------------------------------------------------------------------
// Spec-level scanning primitives.
// ---------------------------------------------------------------------
/// The first index at or after `pos` holding a non-whitespace character,
/// or the length when none follows.
pub open spec fn ws_end(s: Seq<char>, pos: int) -> int
    decreases s.len() - pos,
        when 0 <= pos <= s.len()
{
    if pos < s.len() && is_ws(s[pos]) {
        ws_end(s, pos + 1)
    } else {
        pos
    }
}

/// The first index at or after `pos` holding a non-alphanumeric
/// character, or the length when none follows.
pub open spec fn ident_end(s: Seq<char>, pos: int) -> int
    decreases s.len() - pos,
        when 0 <= pos <= s.len()
{
    if pos < s.len() && is_alnum(s[pos]) {
        ident_end(s, pos + 1)
    } else {
        pos
    }
}

/// The first index at or after `pos` holding a quote, or the length when
/// none follows.
pub open spec fn find_quote(s: Seq<char>, pos: int) -> int
    decreases s.len() - pos,
        when 0 <= pos <= s.len()
{
    if pos < s.len() && s[pos] != '\'' {
        find_quote(s, pos + 1)
    } else {
        pos
    }
}

/// The index after the last non-whitespace character.
pub open spec fn rstrip_end(s: Seq<char>) -> int
    decreases s.len(),
{
    if s.len() > 0 && is_ws(s.last()) {
        rstrip_end(s.drop_last())
    } else {
        s.len() as int
    }
}

pub proof fn lemma_ws_end(s: Seq<char>, pos: int)
    requires
        0 <= pos <= s.len(),
    ensures
        pos <= ws_end(s, pos) <= s.len(),
    decreases s.len() - pos,
{
    if pos < s.len() && is_ws(s[pos]) {
        lemma_ws_end(s, pos + 1);
    }
}

pub proof fn lemma_ident_end(s: Seq<char>, pos: int)
    requires
        0 <= pos <= s.len(),
    ensures
        pos <= ident_end(s, pos) <= s.len(),
        pos < s.len() && is_alnum(s[pos]) ==> pos < ident_end(s, pos),
    decreases s.len() - pos,
{
    if pos < s.len() && is_alnum(s[pos]) {
        lemma_ident_end(s, pos + 1);
    }
}

pub proof fn lemma_find_quote(s: Seq<char>, pos: int)
    requires
        0 <= pos <= s.len(),
    ensures
        pos <= find_quote(s, pos) <= s.len(),
    decreases s.len() - pos,
{
    if pos < s.len() && s[pos] != '\'' {
        lemma_find_quote(s, pos + 1);
    }
}

// ---------------------------------------------------------------------
// Spec-level tokens.
// ---------------------------------------------------------------------
/// One or more whitespace characters.
pub open spec fn spec_ws1(s: Seq<char>, pos: int) -> Option<int> {
    if pos < s.len() && is_ws(s[pos]) {
        Some(ws_end(s, pos))
    } else {
        None
    }
}

/// An identifier: one or more alphanumeric characters.
pub open spec fn spec_ident(s: Seq<char>, pos: int) -> Option<(Seq<char>, int)> {
    if pos < s.len() && is_alnum(s[pos]) {
        Some((s.subrange(pos, ident_end(s, pos)), ident_end(s, pos)))
    } else {
        None
    }
}

/// A quoted value: a quote, any characters other than a quote, a quote.
pub open spec fn spec_quoted(s: Seq<char>, pos: int) -> Option<(Seq<char>, int)> {
    if pos < s.len() && s[pos] == '\'' {
        let q = find_quote(s, pos + 1);
        if q < s.len() {
            Some((s.subrange(pos + 1, q), q + 1))
        } else {
            None
        }
    } else {
        None
    }
}

/// A value: a quoted string, or a bare identifier.
pub open spec fn spec_value(s: Seq<char>, pos: int) -> Option<(Seq<char>, int)> {
    match spec_quoted(s, pos) {
        Some(r) => Some(r),
        None => spec_ident(s, pos),
    }
}

pub proof fn lemma_spec_value_end(s: Seq<char>, pos: int)
    requires
        0 <= pos <= s.len(),
    ensures
        match spec_value(s, pos) {
            Some((v, e)) => pos < e <= s.len(),
            None => true,
        },
{
    lemma_ident_end(s, pos);
    if pos < s.len() && s[pos] == '\'' {
        lemma_find_quote(s, pos + 1);
    }
}

/// A case-insensitive keyword.
pub open spec fn spec_tag_nc(s: Seq<char>, pos: int, t: Seq<char>) -> Option<int> {
    if 0 <= pos && pos + t.len() <= s.len() && (forall|k: int|
        0 <= k < t.len() ==> lower_char(#[trigger] s[pos + k]) == lower_char(t[k])) {
        Some(pos + t.len() as int)
    } else {
        None
    }
}

// ---------------------------------------------------------------------
// Spec-level lists.
// ---------------------------------------------------------------------
/// The continuation of a comma-separated identifier list: zero or more
/// of (whitespace, comma, whitespace, identifier).  A separator not
/// followed by an identifier is left unconsumed.
pub open spec fn spec_ident_list_more(s: Seq<char>, pos: int) -> (Seq<Seq<char>>, int)
    decreases s.len() - pos,
        when 0 <= pos <= s.len()
        via spec_ident_list_more_dec
{
    let p1 = ws_end(s, pos);
    if p1 < s.len() && s[p1] == ',' {
        let p2 = ws_end(s, p1 + 1);
        match spec_ident(s, p2) {
            Some((id, e)) => {
                let (rest, fin) = spec_ident_list_more(s, e);
                (seq![id] + rest, fin)
            },
            None => (Seq::empty(), pos),
        }
    } else {
        (Seq::empty(), pos)
    }
}

#[via_fn]
proof fn spec_ident_list_more_dec(s: Seq<char>, pos: int) {
    lemma_ws_end(s, pos);
    let p1 = ws_end(s, pos);
    if p1 < s.len() && s[p1] == ',' {
        lemma_ws_end(s, p1 + 1);
        let p2 = ws_end(s, p1 + 1);
        lemma_ident_end(s, p2);
    }
}

/// A comma-separated identifier list, possibly empty.
pub open spec fn spec_ident_list(s: Seq<char>, pos: int) -> (Seq<Seq<char>>, int) {
    match spec_ident(s, pos) {
        Some((id, e)) => {
            let (rest, fin) = spec_ident_list_more(s, e);
            (seq![id] + rest, fin)
        },
        None => (Seq::empty(), pos),
    }
}

/// The continuation of a comma-separated value list.
pub open spec fn spec_value_list_more(s: Seq<char>, pos: int) -> (Seq<Seq<char>>, int)
    decreases s.len() - pos,
        when 0 <= pos <= s.len()
        via spec_value_list_more_dec
{
    let p1 = ws_end(s, pos);
    if p1 < s.len() && s[p1] == ',' {
        let p2 = ws_end(s, p1 + 1);
        match spec_value(s, p2) {
            Some((v, e)) => {
                let (rest, fin) = spec_value_list_more(s, e);
                (seq![v] + rest, fin)
            },
            None => (Seq::empty(), pos),
        }
    } else {
        (Seq::empty(), pos)
    }
}

#[via_fn]
proof fn spec_value_list_more_dec(s: Seq<char>, pos: int) {
    lemma_ws_end(s, pos);
    let p1 = ws_end(s, pos);
    if p1 < s.len() && s[p1] == ',' {
        lemma_ws_end(s, p1 + 1);
        let p2 = ws_end(s, p1 + 1);
        lemma_spec_value_end(s, p2);
    }
}

/// A comma-separated value list, possibly empty.
pub open spec fn spec_value_list(s: Seq<char>, pos: int) -> (Seq<Seq<char>>, int) {
    match spec_value(s, pos) {
        Some((v, e)) => {
            let (rest, fin) = spec_value_list_more(s, e);
            (seq![v] + rest, fin)
        },
        None => (Seq::empty(), pos),
    }
}

/// One `column = value` assignment.
pub open spec fn spec_assign(s: Seq<char>, pos: int) -> Option<((Seq<char>, Seq<char>), int)> {
    match spec_ident(s, pos) {
        Some((id, p)) => {
            let p1 = ws_end(s, p);
            if p1 < s.len() && s[p1] == '=' {
                let p2 = ws_end(s, p1 + 1);
                match spec_value(s, p2) {
                    Some((v, e)) => Some(((id, v), e)),
                    None => None,
                }
            } else {
                None
            }
        },
        None => None,
    }
}

pub proof fn lemma_spec_assign_end(s: Seq<char>, pos: int)
    requires
        0 <= pos <= s.len(),
    ensures
        match spec_assign(s, pos) {
            Some((a, e)) => pos < e <= s.len(),
            None => true,
        },
{
    lemma_ident_end(s, pos);
    if pos < s.len() && is_alnum(s[pos]) {
        let p = ident_end(s, pos);
        lemma_ws_end(s, p);
        let p1 = ws_end(s, p);
        if p1 < s.len() && s[p1] == '=' {
            lemma_ws_end(s, p1 + 1);
            lemma_spec_value_end(s, ws_end(s, p1 + 1));
        }
    }
}

/// The continuation of a comma-separated assignment list.
pub open spec fn spec_assign_list_more(s: Seq<char>, pos: int) -> (
    Seq<(Seq<char>, Seq<char>)>,
    int,
)
    decreases s.len() - pos,
        when 0 <= pos <= s.len()
        via spec_assign_list_more_dec
{
    let p1 = ws_end(s, pos);
    if p1 < s.len() && s[p1] == ',' {
        let p2 = ws_end(s, p1 + 1);
        match spec_assign(s, p2) {
            Some((a, e)) => {
                let (rest, fin) = spec_assign_list_more(s, e);
                (seq![a] + rest, fin)
            },
            None => (Seq::empty(), pos),
        }
    } else {
        (Seq::empty(), pos)
    }
}

#[via_fn]
proof fn spec_assign_list_more_dec(s: Seq<char>, pos: int) {
    lemma_ws_end(s, pos);
    let p1 = ws_end(s, pos);
    if p1 < s.len() && s[p1] == ',' {
        lemma_ws_end(s, p1 + 1);
        let p2 = ws_end(s, p1 + 1);
        lemma_spec_assign_end(s, p2);
    }
}

/// A comma-separated assignment list, possibly empty.
pub open spec fn spec_assign_list(s: Seq<char>, pos: int) -> (Seq<(Seq<char>, Seq<char>)>, int) {
    match spec_assign(s, pos) {
        Some((a, e)) => {
            let (rest, fin) = spec_assign_list_more(s, e);
            (seq![a] + rest, fin)
        },
        None => (Seq::empty(), pos),
    }
}

// ---------------------------------------------------------------------
// Spec-level WHERE clause and statements.
// ---------------------------------------------------------------------
/// The mathematical shape of a WHERE condition.
pub struct CondV {
    pub column: Seq<char>,
    pub operator: Seq<char>,
    pub value: Seq<char>,
}

/// A comparison operator, two-character operators first.
pub open spec fn spec_op(s: Seq<char>, pos: int) -> Option<(Seq<char>, int)> {
    if pos + 2 <= s.len() && s[pos] == '>' && s[pos + 1] == '=' {
        Some((seq!['>', '='], pos + 2))
    } else if pos + 2 <= s.len() && s[pos] == '<' && s[pos + 1] == '=' {
        Some((seq!['<', '='], pos + 2))
    } else if pos + 2 <= s.len() && s[pos] == '!' && s[pos + 1] == '=' {
        Some((seq!['!', '='], pos + 2))
    } else if pos + 2 <= s.len() && s[pos] == '<' && s[pos + 1] == '>' {
        Some((seq!['<', '>'], pos + 2))
    } else if pos + 1 <= s.len() && s[pos] == '=' {
        Some((seq!['='], pos + 1))
    } else if pos + 1 <= s.len() && s[pos] == '>' {
        Some((seq!['>'], pos + 1))
    } else if pos + 1 <= s.len() && s[pos] == '<' {
        Some((seq!['<'], pos + 1))
    } else {
        None
    }
}

/// `column op value`, with optional whitespace around the operator.
pub open spec fn spec_where_cond(s: Seq<char>, pos: int) -> Option<(CondV, int)> {
    match spec_ident(s, pos) {
        Some((col, p)) => {
            let p1 = ws_end(s, p);
            match spec_op(s, p1) {
                Some((op, p2)) => {
                    let p3 = ws_end(s, p2);
                    match spec_value(s, p3) {
                        Some((v, e)) => Some(
                            (CondV { column: col, operator: op, value: v }, e),
                        ),
                        None => None,
                    }
                },
                None => None,
            }
        },
        None => None,
    }
}

/// An optional trailing `WS WHERE WS cond`; on any failure nothing is
/// consumed.
pub open spec fn spec_opt_where(s: Seq<char>, pos: int) -> (Option<CondV>, int) {
    match spec_ws1(s, pos) {
        Some(p1) => match spec_tag_nc(s, p1, "WHERE"@) {
            Some(p2) => match spec_ws1(s, p2) {
                Some(p3) => match spec_where_cond(s, p3) {
                    Some((c, e)) => (Some(c), e),
                    None => (None, pos),
                },
                None => (None, pos),
            },
            None => (None, pos),
        },
        None => (None, pos),
    }
}

/// The mathematical shape of a parsed statement.
pub enum AstV {
    Select { projection: Seq<Seq<char>>, table: Seq<char>, condition: Option<CondV> },
    Delete { table: Seq<char>, condition: Option<CondV> },
    Update {
        table: Seq<char>,
        assignments: Seq<(Seq<char>, Seq<char>)>,
        condition: Option<CondV>,
    },
    Insert { table: Seq<char>, columns: Seq<Seq<char>>, values: Seq<Seq<char>> },
    Ident(Seq<char>),
}

/// `SELECT projection FROM table [WHERE cond]`.
pub open spec fn spec_select(s: Seq<char>, pos: int) -> Option<(AstV, int)> {
    match spec_tag_nc(s, pos, "SELECT"@) {
        Some(p) => match spec_ws1(s, p) {
            Some(p) => {
                let (projection, p) = if p < s.len() && s[p] == '*' {
                    (seq!["*"@], p + 1)
                } else {
                    spec_ident_list(s, p)
                };
                match spec_ws1(s, p) {
                    Some(p) => match spec_tag_nc(s, p, "FROM"@) {
                        Some(p) => match spec_ws1(s, p) {
                            Some(p) => match spec_ident(s, p) {
                                Some((table, p)) => {
                                    let (condition, e) = spec_opt_where(s, p);
                                    Some(
                                        (AstV::Select { projection, table, condition }, e),
                                    )
                                },
                                None => None,
                            },
                            None => None,
                        },
                        None => None,
                    },
                    None => None,
                }
            },
            None => None,
        },
        None => None,
    }
}

/// `DELETE FROM table [WHERE cond]`.
pub open spec fn spec_delete(s: Seq<char>, pos: int) -> Option<(AstV, int)> {
    match spec_tag_nc(s, pos, "DELETE"@) {
        Some(p) => match spec_ws1(s, p) {
            Some(p) => match spec_tag_nc(s, p, "FROM"@) {
                Some(p) => match spec_ws1(s, p) {
                    Some(p) => match spec_ident(s, p) {
                        Some((table, p)) => {
                            let (condition, e) = spec_opt_where(s, p);
                            Some((AstV::Delete { table, condition }, e))
                        },
                        None => None,
                    },
                    None => None,
                },
                None => None,
            },
            None => None,
        },
        None => None,
    }
}

/// `UPDATE table SET assignments [WHERE cond]`.
pub open spec fn spec_update(s: Seq<char>, pos: int) -> Option<(AstV, int)> {
    match spec_tag_nc(s, pos, "UPDATE"@) {
        Some(p) => match spec_ws1(s, p) {
            Some(p) => match spec_ident(s, p) {
                Some((table, p)) => match spec_ws1(s, p) {
                    Some(p) => match spec_tag_nc(s, p, "SET"@) {
                        Some(p) => match spec_ws1(s, p) {
                            Some(p) => {
                                let (assignments, p) = spec_assign_list(s, p);
                                let (condition, e) = spec_opt_where(s, p);
                                Some(
                                    (AstV::Update { table, assignments, condition }, e),
                                )
                            },
                            None => None,
                        },
                        None => None,
                    },
                    None => None,
                },
                None => None,
            },
            None => None,
        },
        None => None,
    }
}

/// An optional parenthesised column list; on any failure nothing is
/// consumed.
pub open spec fn spec_opt_columns(s: Seq<char>, pos: int) -> (Option<Seq<Seq<char>>>, int) {
    let p1 = ws_end(s, pos);
    if p1 < s.len() && s[p1] == '(' {
        let (ids, p2) = spec_ident_list(s, p1 + 1);
        let p3 = ws_end(s, p2);
        if p3 < s.len() && s[p3] == ')' {
            (Some(ids), p3 + 1)
        } else {
            (None, pos)
        }
    } else {
        (None, pos)
    }
}

/// `INSERT INTO table [(columns)] VALUES (values)`.
pub open spec fn spec_insert(s: Seq<char>, pos: int) -> Option<(AstV, int)> {
    match spec_tag_nc(s, pos, "INSERT"@) {
        Some(p) => match spec_ws1(s, p) {
            Some(p) => match spec_tag_nc(s, p, "INTO"@) {
                Some(p) => match spec_ws1(s, p) {
                    Some(p) => match spec_ident(s, p) {
                        Some((table, p)) => {
                            let (cols, p) = spec_opt_columns(s, p);
                            let columns = match cols {
                                Some(ids) => ids,
                                None => Seq::empty(),
                            };
                            match spec_ws1(s, p) {
                                Some(p) => match spec_tag_nc(s, p, "VALUES"@) {
                                    Some(p) => {
                                        let p = ws_end(s, p);
                                        if p < s.len() && s[p] == '(' {
                                            let (values, p) = spec_value_list(s, p + 1);
                                            if p < s.len() && s[p] == ')' {
                                                Some(
                                                    (
                                                        AstV::Insert { table, columns, values },
                                                        p + 1,
                                                    ),
                                                )
                                            } else {
                                                None
                                            }
                                        } else {
                                            None
                                        }
                                    },
                                    None => None,
                                },
                                None => None,
                            }
                        },
                        None => None,
                    },
                    None => None,
                },
                None => None,
            },
            None => None,
        },
        None => None,
    }
}

/// The first statement kind that accepts the input, in the order
/// SELECT, DELETE, UPDATE, INSERT.
pub open spec fn spec_statement(s: Seq<char>) -> Option<(AstV, int)> {
    if spec_select(s, 0) is Some {
        spec_select(s, 0)
    } else if spec_delete(s, 0) is Some {
        spec_delete(s, 0)
    } else if spec_update(s, 0) is Some {
        spec_update(s, 0)
    } else {
        spec_insert(s, 0)
    }
}

/// What parsing an input line yields: the input is trimmed of
/// surrounding whitespace, one statement is parsed, and anything left
/// beyond whitespace rejects the parse.
pub open spec fn spec_parse(s: Seq<char>) -> Option<AstV> {
    let a = ws_end(s, 0);
    let b = rstrip_end(s);
    if a >= b {
        None
    } else {
        let t = s.subrange(a, b);
        match spec_statement(t) {
            Some((ast, p)) => if ws_end(t, p) == t.len() {
                Some(ast)
            } else {
                None
            },
            None => None,
        }
    }
}

// ---------------------------------------------------------------------
// Runtime types.
// ---------------------------------------------------------------------
/// A WHERE condition: `column op value`.
pub struct WhereCondition {
    pub column: String,
    pub operator: String,
    pub value: String,
}

impl View for WhereCondition {
    type V = CondV;

    open spec fn view(&self) -> CondV {
        CondV { column: self.column@, operator: self.operator@, value: self.value@ }
    }
}

impl Clone for WhereCondition {
    /// A clone carries the same column, operator and value.
    fn clone(&self) -> (r: WhereCondition)
        ensures
            r@ == self@,
    {
        WhereCondition {
            column: self.column.clone(),
            operator: self.operator.clone(),
            value: self.value.clone(),
        }
    }
}

/// What a condition says of a row: a missing column makes it false;
/// `=`, `!=` and `<>` compare strings; the order operators compare the
/// two sides read as decimal numbers, an unreadable side counting as
/// zero; any other operator makes it false.
pub open spec fn cond_holds(c: CondV, cells: Cells) -> bool {
    if !assoc_has(cells, c.column) {
        false
    } else {
        let rv = assoc_get(cells, c.column);
        if c.operator == "="@ {
            rv == c.value
        } else if c.operator == "!="@ || c.operator == "<>"@ {
            rv != c.value
        } else if c.operator == ">"@ {
            parse_i32_or_zero(rv) > parse_i32_or_zero(c.value)
        } else if c.operator == "<"@ {
            parse_i32_or_zero(rv) < parse_i32_or_zero(c.value)
        } else if c.operator == ">="@ {
            parse_i32_or_zero(rv) >= parse_i32_or_zero(c.value)
        } else if c.operator == "<="@ {
            parse_i32_or_zero(rv) <= parse_i32_or_zero(c.value)
        } else {
            false
        }
    }
}

impl WhereCondition {
    /// Evaluate the condition against a row, as [`cond_holds`] says.
    pub fn evaluate(&self, row: &Row) -> (b: bool)
        requires
            row.wf(),
        ensures
            b == cond_holds(self@, row@),
    {
        let looked = row.get(self.column.as_str());
        match looked {
            None => false,
            Some(row_value) => {
                if crate::text::str_eq(self.operator.as_str(), "=") {
                    crate::text::str_eq(row_value.as_str(), self.value.as_str())
                } else if crate::text::str_eq(self.operator.as_str(), "!=") || crate::text::str_eq(
                    self.operator.as_str(),
                    "<>",
                ) {
                    !crate::text::str_eq(row_value.as_str(), self.value.as_str())
                } else if crate::text::str_eq(self.operator.as_str(), ">") {
                    crate::text::read_i32_or_zero(row_value.as_str()) > crate::text::read_i32_or_zero(
                        self.value.as_str(),
                    )
                } else if crate::text::str_eq(self.operator.as_str(), "<") {
                    crate::text::read_i32_or_zero(row_value.as_str()) < crate::text::read_i32_or_zero(
                        self.value.as_str(),
                    )
                } else if crate::text::str_eq(self.operator.as_str(), ">=") {
                    crate::text::read_i32_or_zero(row_value.as_str())
                        >= crate::text::read_i32_or_zero(self.value.as_str())
                } else if crate::text::str_eq(self.operator.as_str(), "<=") {
                    crate::text::read_i32_or_zero(row_value.as_str())
                        <= crate::text::read_i32_or_zero(self.value.as_str())
                } else {
                    false
                }
            },
        }
    }
}

/// The row filter a statement hands to the storage engine: every row,
/// no row, or the rows a WHERE condition admits.
pub enum Predicate {
    MatchAll,
    MatchNone,
    Cond(WhereCondition),
}

/// The mathematical shape of a row filter.
pub enum PredV {
    All,
    NoRow,
    Cond(CondV),
}

/// Which rows a filter admits.
pub open spec fn pred_holds(p: PredV, cells: Cells) -> bool {
    match p {
        PredV::All => true,
        PredV::NoRow => false,
        PredV::Cond(c) => cond_holds(c, cells),
    }
}

impl View for Predicate {
    type V = PredV;

    open spec fn view(&self) -> PredV {
        match self {
            Predicate::MatchAll => PredV::All,
            Predicate::MatchNone => PredV::NoRow,
            Predicate::Cond(c) => PredV::Cond(c@),
        }
    }
}

impl Predicate {
    /// Evaluate the predicate against a row.
    pub fn evaluate(&self, row: &Row) -> (b: bool)
        requires
            row.wf(),
        ensures
            b == pred_holds(self@, row@),
    {
        match self {
            Predicate::MatchAll => true,
            Predicate::MatchNone => false,
            Predicate::Cond(c) => c.evaluate(row),
        }
    }
}

/// A parsed statement.
pub enum ASTNode {
    SelectStatement {
        projection: Vec<Identifier>,
        table: Identifier,
        condition: Option<WhereCondition>,
    },
    DeleteStatement { table: Identifier, condition: Option<WhereCondition> },
    UpdateStatement {
        table: Identifier,
        assignments: Vec<(Identifier, String)>,
        condition: Option<WhereCondition>,
    },
    InsertStatement { table: Identifier, columns: Vec<Identifier>, values: Vec<String> },
    Identifier(String),
}

impl View for ASTNode {
    type V = AstV;

    open spec fn view(&self) -> AstV {
        match self {
            ASTNode::SelectStatement { projection, table, condition } => AstV::Select {
                projection: projection@.map_values(|i: Identifier| i@),
                table: table@,
                condition: match condition {
                    Some(c) => Some(c@),
                    None => None,
                },
            },
            ASTNode::DeleteStatement { table, condition } => AstV::Delete {
                table: table@,
                condition: match condition {
                    Some(c) => Some(c@),
                    None => None,
                },
            },
            ASTNode::UpdateStatement { table, assignments, condition } => AstV::Update {
                table: table@,
                assignments: assignments@.map_values(
                    |a: (Identifier, String)| (a.0@, a.1@),
                ),
                condition: match condition {
                    Some(c) => Some(c@),
                    None => None,
                },
            },
            ASTNode::InsertStatement { table, columns, values } => AstV::Insert {
                table: table@,
                columns: columns@.map_values(|i: Identifier| i@),
                values: values@.map_values(|v: String| v@),
            },
            ASTNode::Identifier(s) => AstV::Ident(s@),
        }
    }
}

// ---------------------------------------------------------------------
// The runtime parser.
// ---------------------------------------------------------------------
/// Scanning state: the statement text, already trimmed by
/// [`Parser::parse`].
pub struct Parser {
    input: String,
}

/// The first non-whitespace position of `s` at or after `pos`.
fn str_skip_ws(s: &str, pos: usize) -> (r: usize)
    requires
        pos <= s@.len(),
    ensures
        r == ws_end(s@, pos as int),
        pos <= r <= s@.len(),
{
    let n = s.unicode_len();
    let mut i: usize = pos;
    while i < n && crate::text::char_is_ws(s.get_char(i))
        invariant
            pos <= i <= n,
            n == s@.len(),
            ws_end(s@, pos as int) == ws_end(s@, i as int),
        decreases n - i,
    {
        i = i + 1;
    }
    i
}

/// The index after the last non-whitespace character of `s`.
fn str_rstrip(s: &str) -> (r: usize)
    ensures
        r == rstrip_end(s@),
        r <= s@.len(),
{
    let n = s.unicode_len();
    let mut b: usize = n;
    proof {
        assert(s@.take(b as int) =~= s@);
    }
    while b > 0 && crate::text::char_is_ws(s.get_char(b - 1))
        invariant
            b <= n,
            n == s@.len(),
            rstrip_end(s@) == rstrip_end(s@.take(b as int)),
        decreases b,
    {
        proof {
            let t = s@.take(b as int);
            assert(t.last() == s@[b - 1]);
            assert(t.drop_last() =~= s@.take(b - 1));
        }
        b = b - 1;
    }
    proof {
        let t = s@.take(b as int);
        if b > 0 {
            assert(t.last() == s@[b - 1]);
        }
        assert(rstrip_end(t) == t.len());
    }
    b
}

impl Parser {
    /// A parser over the given statement text.
    pub fn new(input: &str) -> (p: Parser)
        ensures
            p.text() == input@,
    {
        Parser { input: String::from_str(input) }
    }

    /// The text as a `Seq<char>`, for contracts.
    pub closed spec fn text(&self) -> Seq<char> {
        self.input@
    }

    fn len(&self) -> (n: usize)
        ensures
            n == self.text().len(),
    {
        self.input.as_str().unicode_len()
    }

    fn char_at(&self, i: usize) -> (c: char)
        requires
            i < self.text().len(),
        ensures
            c == self.text()[i as int],
    {
        self.input.as_str().get_char(i)
    }

    /// The substring between two character positions, as an owned string.
    fn slice(&self, from: usize, to: usize) -> (r: String)
        requires
            from <= to <= self.text().len(),
        ensures
            r@ == self.text().subrange(from as int, to as int),
    {
        String::from_str(self.input.as_str().substring_char(from, to))
    }

    fn skip_ws(&self, pos: usize) -> (r: usize)
        requires
            pos <= self.text().len(),
        ensures
            r == ws_end(self.text(), pos as int),
            pos <= r <= self.text().len(),
    {
        str_skip_ws(self.input.as_str(), pos)
    }

    /// One or more whitespace characters.
    fn ws1(&self, pos: usize) -> (r: Option<usize>)
        requires
            pos <= self.text().len(),
        ensures
            match r {
                Some(e) => spec_ws1(self.text(), pos as int) == Some(e as int) && pos < e
                    <= self.text().len(),
                None => spec_ws1(self.text(), pos as int) is None,
            },
    {
        let n = self.len();
        if pos < n && crate::text::char_is_ws(self.char_at(pos)) {
            let e = self.skip_ws(pos);
            proof {
                assert(ws_end(self.text(), pos as int) == ws_end(self.text(), pos + 1));
                lemma_ws_end(self.text(), pos + 1);
            }
            Some(e)
        } else {
            None
        }
    }

    /// An identifier token.
    fn ident(&self, pos: usize) -> (r: Option<(String, usize)>)
        requires
            pos <= self.text().len(),
        ensures
            match r {
                Some(v) => spec_ident(self.text(), pos as int) == Some((v.0@, v.1 as int)) && pos
                    < v.1 <= self.text().len(),
                None => spec_ident(self.text(), pos as int) is None,
            },
    {
        let n = self.len();
        if pos < n && crate::text::char_is_alnum(self.char_at(pos)) {
            let mut e: usize = pos;
            while e < n && crate::text::char_is_alnum(self.char_at(e))
                invariant
                    pos <= e <= n,
                    n == self.text().len(),
                    ident_end(self.text(), pos as int) == ident_end(self.text(), e as int),
                decreases n - e,
            {
                e = e + 1;
            }
            Some((self.slice(pos, e), e))
        } else {
            None
        }
    }

    /// A quoted value token.
    fn quoted(&self, pos: usize) -> (r: Option<(String, usize)>)
        requires
            pos <= self.text().len(),
        ensures
            match r {
                Some(v) => spec_quoted(self.text(), pos as int) == Some((v.0@, v.1 as int)) && pos
                    < v.1 <= self.text().len(),
                None => spec_quoted(self.text(), pos as int) is None,
            },
    {
        let n = self.len();
        if pos < n && self.char_at(pos) == '\'' {
            let mut q: usize = pos + 1;
            while q < n && self.char_at(q) != '\''
                invariant
                    pos + 1 <= q <= n,
                    n == self.text().len(),
                    find_quote(self.text(), pos + 1) == find_quote(self.text(), q as int),
                decreases n - q,
            {
                q = q + 1;
            }
            if q < n {
                Some((self.slice(pos + 1, q), q + 1))
            } else {
                None
            }
        } else {
            None
        }
    }

    /// A value token: quoted, or a bare identifier.
    fn value(&self, pos: usize) -> (r: Option<(String, usize)>)
        requires
            pos <= self.text().len(),
        ensures
            match r {
                Some(v) => spec_value(self.text(), pos as int) == Some((v.0@, v.1 as int)) && pos
                    < v.1 <= self.text().len(),
                None => spec_value(self.text(), pos as int) is None,
            },
    {
        match self.quoted(pos) {
            Some(r) => Some(r),
            None => self.ident(pos),
        }
    }

    /// A case-insensitive keyword.
    fn tag_nc(&self, pos: usize, t: &str) -> (r: Option<usize>)
        requires
            pos <= self.text().len(),
        ensures
            match r {
                Some(e) => spec_tag_nc(self.text(), pos as int, t@) == Some(e as int) && pos <= e
                    <= self.text().len(),
                None => spec_tag_nc(self.text(), pos as int, t@) is None,
            },
    {
        let n = self.len();
        let tlen = t.unicode_len();
        if tlen > n - pos {
            return None;
        }
        let mut k: usize = 0;
        while k < tlen
            invariant
                k <= tlen,
                pos + tlen <= n,
                n == self.text().len(),
                tlen == t@.len(),
                forall|j: int|
                    0 <= j < k ==> lower_char(#[trigger] self.text()[pos + j]) == lower_char(
                        t@[j],
                    ),
            decreases tlen - k,
        {
            if !crate::text::char_eq_nocase(self.char_at(pos + k), t.get_char(k)) {
                return None;
            }
            k = k + 1;
        }
        Some(pos + tlen)
    }

    /// A comma-separated identifier list, possibly empty.
    fn ident_list(&self, pos: usize) -> (r: (Vec<Identifier>, usize))
        requires
            pos <= self.text().len(),
        ensures
            spec_ident_list(self.text(), pos as int) == (
                r.0@.map_values(|i: Identifier| i@),
                r.1 as int,
            ),
            pos <= r.1 <= self.text().len(),
    {
        let n = self.len();
        let mut ids: Vec<Identifier> = Vec::new();
        let first = self.ident(pos);
        match first {
            None => {
                proof {
                    assert(ids@.map_values(|i: Identifier| i@) =~= Seq::<Seq<char>>::empty());
                }
                (ids, pos)
            },
            Some((id0, e0)) => {
                ids.push(Identifier(id0));
                let mut cur: usize = e0;
                let mut stop = false;
                while !stop
                    invariant
                        pos <= cur <= n,
                        n == self.text().len(),
                        spec_ident_list(self.text(), pos as int) == {
                            let (rest, fin) = spec_ident_list_more(self.text(), cur as int);
                            (ids@.map_values(|i: Identifier| i@) + rest, fin)
                        },
                        stop ==> spec_ident_list_more(self.text(), cur as int) == (
                            Seq::<Seq<char>>::empty(),
                            cur as int,
                        ),
                    decreases n - cur + if stop {
                        0int
                    } else {
                        1int
                    },
                {
                    let p1 = self.skip_ws(cur);
                    let mut advanced = false;
                    if p1 < n {
                        if self.char_at(p1) == ',' {
                            let p2 = self.skip_ws(p1 + 1);
                            match self.ident(p2) {
                                Some((id2, e2)) => {
                                    ids.push(Identifier(id2));
                                    cur = e2;
                                    advanced = true;
                                },
                                None => {},
                            }
                        }
                    }
                    if !advanced {
                        stop = true;
                        proof {
                            assert(spec_ident_list_more(self.text(), cur as int) == (
                                Seq::<Seq<char>>::empty(),
                                cur as int,
                            ));
                        }
                    }
                    proof {
                        assert(ids@.map_values(|i: Identifier| i@) + spec_ident_list_more(
                            self.text(),
                            cur as int,
                        ).0 =~= spec_ident_list(self.text(), pos as int).0);
                    }
                }
                (ids, cur)
            },
        }
    }

    /// A comma-separated value list, possibly empty.
    fn value_list(&self, pos: usize) -> (r: (Vec<String>, usize))
        requires
            pos <= self.text().len(),
        ensures
            spec_value_list(self.text(), pos as int) == (
                r.0@.map_values(|v: String| v@),
                r.1 as int,
            ),
            pos <= r.1 <= self.text().len(),
    {
        let n = self.len();
        let mut vals: Vec<String> = Vec::new();
        let first = self.value(pos);
        match first {
            None => {
                proof {
                    assert(vals@.map_values(|v: String| v@) =~= Seq::<Seq<char>>::empty());
                }
                (vals, pos)
            },
            Some((v0, e0)) => {
                vals.push(v0);
                let mut cur: usize = e0;
                let mut stop = false;
                while !stop
                    invariant
                        pos <= cur <= n,
                        n == self.text().len(),
                        spec_value_list(self.text(), pos as int) == {
                            let (rest, fin) = spec_value_list_more(self.text(), cur as int);
                            (vals@.map_values(|v: String| v@) + rest, fin)
                        },
                        stop ==> spec_value_list_more(self.text(), cur as int) == (
                            Seq::<Seq<char>>::empty(),
                            cur as int,
                        ),
                    decreases n - cur + if stop {
                        0int
                    } else {
                        1int
                    },
                {
                    let p1 = self.skip_ws(cur);
                    let mut advanced = false;
                    if p1 < n {
                        if self.char_at(p1) == ',' {
                            let p2 = self.skip_ws(p1 + 1);
                            match self.value(p2) {
                                Some((v2, e2)) => {
                                    vals.push(v2);
                                    cur = e2;
                                    advanced = true;
                                },
                                None => {},
                            }
                        }
                    }
                    if !advanced {
                        stop = true;
                    }
                    proof {
                        assert(vals@.map_values(|v: String| v@) + spec_value_list_more(
                            self.text(),
                            cur as int,
                        ).0 =~= spec_value_list(self.text(), pos as int).0);
                    }
                }
                (vals, cur)
            },
        }
    }

    /// One `column = value` assignment.
    fn assign(&self, pos: usize) -> (r: Option<((Identifier, String), usize)>)
        requires
            pos <= self.text().len(),
        ensures
            match r {
                Some(v) => spec_assign(self.text(), pos as int) == Some(
                    (((v.0).0@, (v.0).1@), v.1 as int),
                ) && pos < v.1 <= self.text().len(),
                None => spec_assign(self.text(), pos as int) is None,
            },
    {
        let n = self.len();
        match self.ident(pos) {
            None => None,
            Some((id, p)) => {
                let p1 = self.skip_ws(p);
                if p1 < n && self.char_at(p1) == '=' {
                    let p2 = self.skip_ws(p1 + 1);
                    match self.value(p2) {
                        Some((v, e)) => Some(((Identifier(id), v), e)),
                        None => None,
                    }
                } else {
                    None
                }
            },
        }
    }

    /// A comma-separated assignment list, possibly empty.
    fn assign_list(&self, pos: usize) -> (r: (Vec<(Identifier, String)>, usize))
        requires
            pos <= self.text().len(),
        ensures
            spec_assign_list(self.text(), pos as int) == (
                r.0@.map_values(|a: (Identifier, String)| (a.0@, a.1@)),
                r.1 as int,
            ),
            pos <= r.1 <= self.text().len(),
    {
        let n = self.len();
        let mut asgs: Vec<(Identifier, String)> = Vec::new();
        let first = self.assign(pos);
        match first {
            None => {
                proof {
                    assert(asgs@.map_values(|a: (Identifier, String)| (a.0@, a.1@))
                        =~= Seq::<(Seq<char>, Seq<char>)>::empty());
                }
                (asgs, pos)
            },
            Some((a0, e0)) => {
                asgs.push(a0);
                let mut cur: usize = e0;
                let mut stop = false;
                while !stop
                    invariant
                        pos <= cur <= n,
                        n == self.text().len(),
                        spec_assign_list(self.text(), pos as int) == {
                            let (rest, fin) = spec_assign_list_more(self.text(), cur as int);
                            (
                                asgs@.map_values(|a: (Identifier, String)| (a.0@, a.1@)) + rest,
                                fin,
                            )
                        },
                        stop ==> spec_assign_list_more(self.text(), cur as int) == (
                            Seq::<(Seq<char>, Seq<char>)>::empty(),
                            cur as int,
                        ),
                    decreases n - cur + if stop {
                        0int
                    } else {
                        1int
                    },
                {
                    let p1 = self.skip_ws(cur);
                    let mut advanced = false;
                    if p1 < n {
                        if self.char_at(p1) == ',' {
                            let p2 = self.skip_ws(p1 + 1);
                            match self.assign(p2) {
                                Some((a2, e2)) => {
                                    asgs.push(a2);
                                    cur = e2;
                                    advanced = true;
                                },
                                None => {},
                            }
                        }
                    }
                    if !advanced {
                        stop = true;
                    }
                    proof {
                        assert(asgs@.map_values(|a: (Identifier, String)| (a.0@, a.1@))
                            + spec_assign_list_more(self.text(), cur as int).0 =~= spec_assign_list(
                            self.text(),
                            pos as int,
                        ).0);
                    }
                }
                (asgs, cur)
            },
        }
    }

    /// A comparison operator, two-character operators first.
    fn op(&self, pos: usize) -> (r: Option<(String, usize)>)
        requires
            pos <= self.text().len(),
        ensures
            match r {
                Some(v) => spec_op(self.text(), pos as int) == Some((v.0@, v.1 as int)) && pos < v.1
                    <= self.text().len(),
                None => spec_op(self.text(), pos as int) is None,
            },
    {
        let n = self.len();
        proof {
            reveal_strlit(">=");
            reveal_strlit("<=");
            reveal_strlit("!=");
            reveal_strlit("<>");
            reveal_strlit("=");
            reveal_strlit(">");
            reveal_strlit("<");
            assert(">="@ =~= seq!['>', '=']);
            assert("<="@ =~= seq!['<', '=']);
            assert("!="@ =~= seq!['!', '=']);
            assert("<>"@ =~= seq!['<', '>']);
            assert("="@ =~= seq!['=']);
            assert(">"@ =~= seq!['>']);
            assert("<"@ =~= seq!['<']);
        }
        if n - pos >= 2 && self.char_at(pos) == '>' && self.char_at(pos + 1) == '=' {
            Some((String::from_str(">="), pos + 2))
        } else if n - pos >= 2 && self.char_at(pos) == '<' && self.char_at(pos + 1) == '=' {
            Some((String::from_str("<="), pos + 2))
        } else if n - pos >= 2 && self.char_at(pos) == '!' && self.char_at(pos + 1) == '=' {
            Some((String::from_str("!="), pos + 2))
        } else if n - pos >= 2 && self.char_at(pos) == '<' && self.char_at(pos + 1) == '>' {
            Some((String::from_str("<>"), pos + 2))
        } else if n - pos >= 1 && self.char_at(pos) == '=' {
            Some((String::from_str("="), pos + 1))
        } else if n - pos >= 1 && self.char_at(pos) == '>' {
            Some((String::from_str(">"), pos + 1))
        } else if n - pos >= 1 && self.char_at(pos) == '<' {
            Some((String::from_str("<"), pos + 1))
        } else {
            None
        }
    }

    /// `column op value`.
    fn where_cond(&self, pos: usize) -> (r: Option<(WhereCondition, usize)>)
        requires
            pos <= self.text().len(),
        ensures
            match r {
                Some(v) => spec_where_cond(self.text(), pos as int) == Some((v.0@, v.1 as int))
                    && pos < v.1 <= self.text().len(),
                None => spec_where_cond(self.text(), pos as int) is None,
            },
    {
        match self.ident(pos) {
            None => None,
            Some((col, p)) => {
                let p1 = self.skip_ws(p);
                match self.op(p1) {
                    None => None,
                    Some((op, p2)) => {
                        let p3 = self.skip_ws(p2);
                        match self.value(p3) {
                            None => None,
                            Some((v, e)) => Some(
                                (WhereCondition { column: col, operator: op, value: v }, e),
                            ),
                        }
                    },
                }
            },
        }
    }

    /// An optional trailing `WS WHERE WS cond`.
    fn opt_where(&self, pos: usize) -> (r: (Option<WhereCondition>, usize))
        requires
            pos <= self.text().len(),
        ensures
            spec_opt_where(self.text(), pos as int) == (
                match r.0 {
                    Some(c) => Some(c@),
                    None => None,
                },
                r.1 as int,
            ),
            pos <= r.1 <= self.text().len(),
    {
        match self.ws1(pos) {
            None => (None, pos),
            Some(p1) => match self.tag_nc(p1, "WHERE") {
                None => (None, pos),
                Some(p2) => match self.ws1(p2) {
                    None => (None, pos),
                    Some(p3) => match self.where_cond(p3) {
                        None => (None, pos),
                        Some((c, e)) => (Some(c), e),
                    },
                },
            },
        }
    }

    /// `SELECT projection FROM table [WHERE cond]`.
    fn select_statement(&self) -> (r: Option<(ASTNode, usize)>)
        ensures
            match r {
                Some(v) => spec_select(self.text(), 0) == Some((v.0@, v.1 as int)) && v.1
                    <= self.text().len(),
                None => spec_select(self.text(), 0) is None,
            },
    {
        let n = self.len();
        let p = match self.tag_nc(0, "SELECT") {
            Some(p) => p,
            None => {
                return None;
            },
        };
        let p = match self.ws1(p) {
            Some(p) => p,
            None => {
                return None;
            },
        };
        let (projection, p) = if p < n && self.char_at(p) == '*' {
            let mut star: Vec<Identifier> = Vec::new();
            star.push(Identifier(String::from_str("*")));
            proof {
                assert(star@.map_values(|i: Identifier| i@) =~= seq!["*"@]);
            }
            (star, p + 1)
        } else {
            self.ident_list(p)
        };
        let p = match self.ws1(p) {
            Some(p) => p,
            None => {
                return None;
            },
        };
        let p = match self.tag_nc(p, "FROM") {
            Some(p) => p,
            None => {
                return None;
            },
        };
        let p = match self.ws1(p) {
            Some(p) => p,
            None => {
                return None;
            },
        };
        let (table, p) = match self.ident(p) {
            Some((t, p)) => (t, p),
            None => {
                return None;
            },
        };
        let (condition, e) = self.opt_where(p);
        Some(
            (
                ASTNode::SelectStatement { projection, table: Identifier(table), condition },
                e,
            ),
        )
    }

    /// `DELETE FROM table [WHERE cond]`.
    fn delete_statement(&self) -> (r: Option<(ASTNode, usize)>)
        ensures
            match r {
                Some(v) => spec_delete(self.text(), 0) == Some((v.0@, v.1 as int)) && v.1
                    <= self.text().len(),
                None => spec_delete(self.text(), 0) is None,
            },
    {
        let p = match self.tag_nc(0, "DELETE") {
            Some(p) => p,
            None => {
                return None;
            },
        };
        let p = match self.ws1(p) {
            Some(p) => p,
            None => {
                return None;
            },
        };
        let p = match self.tag_nc(p, "FROM") {
            Some(p) => p,
            None => {
                return None;
            },
        };
        let p = match self.ws1(p) {
            Some(p) => p,
            None => {
                return None;
            },
        };
        let (table, p) = match self.ident(p) {
            Some((t, p)) => (t, p),
            None => {
                return None;
            },
        };
        let (condition, e) = self.opt_where(p);
        Some((ASTNode::DeleteStatement { table: Identifier(table), condition }, e))
    }

    /// `UPDATE table SET assignments [WHERE cond]`.
    fn update_statement(&self) -> (r: Option<(ASTNode, usize)>)
        ensures
            match r {
                Some(v) => spec_update(self.text(), 0) == Some((v.0@, v.1 as int)) && v.1
                    <= self.text().len(),
                None => spec_update(self.text(), 0) is None,
            },
    {
        let p = match self.tag_nc(0, "UPDATE") {
            Some(p) => p,
            None => {
                return None;
            },
        };
        let p = match self.ws1(p) {
            Some(p) => p,
            None => {
                return None;
            },
        };
        let (table, p) = match self.ident(p) {
            Some((t, p)) => (t, p),
            None => {
                return None;
            },
        };
        let p = match self.ws1(p) {
            Some(p) => p,
            None => {
                return None;
            },
        };
        let p = match self.tag_nc(p, "SET") {
            Some(p) => p,
            None => {
                return None;
            },
        };
        let p = match self.ws1(p) {
            Some(p) => p,
            None => {
                return None;
            },
        };
        let (assignments, p) = self.assign_list(p);
        let (condition, e) = self.opt_where(p);
        Some(
            (
                ASTNode::UpdateStatement { table: Identifier(table), assignments, condition },
                e,
            ),
        )
    }

    /// `INSERT INTO table [(columns)] VALUES (values)`.
    fn insert_statement(&self) -> (r: Option<(ASTNode, usize)>)
        ensures
            match r {
                Some(v) => spec_insert(self.text(), 0) == Some((v.0@, v.1 as int)) && v.1
                    <= self.text().len(),
                None => spec_insert(self.text(), 0) is None,
            },
    {
        let n = self.len();
        let p = match self.tag_nc(0, "INSERT") {
            Some(p) => p,
            None => {
                return None;
            },
        };
        let p = match self.ws1(p) {
            Some(p) => p,
            None => {
                return None;
            },
        };
        let p = match self.tag_nc(p, "INTO") {
            Some(p) => p,
            None => {
                return None;
            },
        };
        let p = match self.ws1(p) {
            Some(p) => p,
            None => {
                return None;
            },
        };
        let (table, p) = match self.ident(p) {
            Some((t, p)) => (t, p),
            None => {
                return None;
            },
        };
        // Optional parenthesised column list; on failure nothing is consumed.
        let p0 = p;
        let mut columns: Vec<Identifier> = Vec::new();
        let mut p: usize = p0;
        let p1 = self.skip_ws(p0);
        if p1 < n && self.char_at(p1) == '(' {
            let (ids, p2) = self.ident_list(p1 + 1);
            let p3 = self.skip_ws(p2);
            if p3 < n && self.char_at(p3) == ')' {
                columns = ids;
                p = p3 + 1;
            }
        }
        proof {
            let (sc, sp) = spec_opt_columns(self.text(), p0 as int);
            assert(sp == p as int);
            assert((match sc {
                Some(ids) => ids,
                None => Seq::<Seq<char>>::empty(),
            }) =~= columns@.map_values(|i: Identifier| i@));
        }
        let p = match self.ws1(p) {
            Some(p) => p,
            None => {
                return None;
            },
        };
        let p = match self.tag_nc(p, "VALUES") {
            Some(p) => p,
            None => {
                return None;
            },
        };
        let p = self.skip_ws(p);
        if !(p < n && self.char_at(p) == '(') {
            return None;
        }
        let (values, p) = self.value_list(p + 1);
        if !(p < n && self.char_at(p) == ')') {
            return None;
        }
        Some(
            (
                ASTNode::InsertStatement { table: Identifier(table), columns, values },
                p + 1,
            ),
        )
    }

    /// Parse one SQL statement.  The result is a syntax tree exactly when
    /// [`spec_parse`] accepts the input: the trimmed input must form one
    /// statement with nothing but whitespace after it.
    pub fn parse(input: &str) -> (r: Result<ASTNode, String>)
        ensures
            match r {
                Ok(ast) => spec_parse(input@) == Some(ast@),
                Err(_) => spec_parse(input@) is None,
            },
    {
        let a = str_skip_ws(input, 0);
        let b = str_rstrip(input);
        if a >= b {
            return Err(String::from_str("Parse error: empty or unrecognized statement"));
        }
        let parser = Parser::new(input.substring_char(a, b));
        proof {
            assert(parser.text() == input@.subrange(a as int, b as int));
        }
        let tn = parser.len();
        let first = parser.select_statement();
        let first = match first {
            Some(v) => Some(v),
            None => parser.delete_statement(),
        };
        let first = match first {
            Some(v) => Some(v),
            None => parser.update_statement(),
        };
        let first = match first {
            Some(v) => Some(v),
            None => parser.insert_statement(),
        };
        match first {
            Some((ast, p)) => {
                if parser.skip_ws(p) == tn {
                    Ok(ast)
                } else {
                    let mut msg = String::from_str("Unexpected input after query: '");
                    msg.append(parser.input.as_str().substring_char(p, tn));
                    msg.append("'");
                    Err(msg)
                }
            },
            None => Err(String::from_str("Parse error: statement not recognized")),
        }
    }
}

} // verus!
