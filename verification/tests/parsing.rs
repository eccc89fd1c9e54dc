//! The SQL front-end: statements, operators, values, and the decimal
//! reading WHERE comparisons use.

use hypervault::parser::{ASTNode, Parser, Predicate, WhereCondition};
use hypervault::schema::Row;
use hypervault::text::read_i32_or_zero;

fn row(pairs: &[(&str, &str)]) -> Row {
    let mut r = Row::new();
    for (k, v) in pairs {
        r.set(k.to_string(), v.to_string());
    }
    r
}

#[test]
fn parse_select_star() {
    match Parser::parse("SELECT * FROM users").expect("parse") {
        ASTNode::SelectStatement { projection, table, condition } => {
            assert_eq!(projection.len(), 1);
            assert_eq!(projection[0].0, "*");
            assert_eq!(table.0, "users");
            assert!(condition.is_none());
        }
        _ => panic!("not a select"),
    }
}

#[test]
fn parse_select_columns_and_condition() {
    match Parser::parse("SELECT id, name FROM users WHERE age > '25'").expect("parse") {
        ASTNode::SelectStatement { projection, table, condition } => {
            assert_eq!(projection.len(), 2);
            assert_eq!(projection[0].0, "id");
            assert_eq!(projection[1].0, "name");
            assert_eq!(table.0, "users");
            let c = condition.expect("condition");
            assert_eq!(c.column, "age");
            assert_eq!(c.operator, ">");
            assert_eq!(c.value, "25");
        }
        _ => panic!("not a select"),
    }
}

#[test]
fn parse_keywords_are_case_insensitive() {
    assert!(Parser::parse("select * from users").is_ok());
    assert!(Parser::parse("SeLeCt * FrOm users").is_ok());
    assert!(Parser::parse("delete from users where id = '1'").is_ok());
}

#[test]
fn parse_two_character_operator_is_not_split() {
    match Parser::parse("SELECT * FROM t WHERE age >= '30'").expect("parse") {
        ASTNode::SelectStatement { condition, .. } => {
            let c = condition.expect("condition");
            assert_eq!(c.operator, ">=", "the operator must stay one token");
            assert_eq!(c.value, "30");
        }
        _ => panic!("not a select"),
    }
    match Parser::parse("SELECT * FROM t WHERE a <> 'b'").expect("parse") {
        ASTNode::SelectStatement { condition, .. } => {
            assert_eq!(condition.expect("condition").operator, "<>");
        }
        _ => panic!("not a select"),
    }
}

#[test]
fn parse_update_with_assignments() {
    match Parser::parse("UPDATE users SET age = '26', name = 'Ann' WHERE id = '1'")
        .expect("parse")
    {
        ASTNode::UpdateStatement { table, assignments, condition } => {
            assert_eq!(table.0, "users");
            assert_eq!(assignments.len(), 2);
            assert_eq!(assignments[0].0 .0, "age");
            assert_eq!(assignments[0].1, "26");
            assert_eq!(assignments[1].0 .0, "name");
            assert_eq!(assignments[1].1, "Ann");
            assert_eq!(condition.expect("condition").column, "id");
        }
        _ => panic!("not an update"),
    }
}

#[test]
fn parse_insert_with_columns() {
    match Parser::parse("INSERT INTO users (id, name) VALUES ('1', 'Ann')").expect("parse") {
        ASTNode::InsertStatement { table, columns, values } => {
            assert_eq!(table.0, "users");
            assert_eq!(columns.len(), 2);
            assert_eq!(columns[0].0, "id");
            assert_eq!(columns[1].0, "name");
            assert_eq!(values, vec!["1".to_string(), "Ann".to_string()]);
        }
        _ => panic!("not an insert"),
    }
}

#[test]
fn parse_insert_without_columns() {
    match Parser::parse("INSERT INTO users VALUES ('1','Ann','25')").expect("parse") {
        ASTNode::InsertStatement { columns, values, .. } => {
            assert!(columns.is_empty());
            assert_eq!(values.len(), 3);
        }
        _ => panic!("not an insert"),
    }
}

#[test]
fn parse_delete_without_where() {
    match Parser::parse("DELETE FROM users").expect("parse") {
        ASTNode::DeleteStatement { table, condition } => {
            assert_eq!(table.0, "users");
            assert!(condition.is_none());
        }
        _ => panic!("not a delete"),
    }
}

#[test]
fn parse_trims_surrounding_whitespace() {
    assert!(Parser::parse("   SELECT * FROM users   ").is_ok());
}

#[test]
fn parse_rejects_trailing_input() {
    assert!(Parser::parse("SELECT * FROM users garbage!").is_err());
}

#[test]
fn parse_rejects_empty_and_unknown_input() {
    assert!(Parser::parse("").is_err());
    assert!(Parser::parse("   ").is_err());
    assert!(Parser::parse("DANCE WITH me").is_err());
    assert!(Parser::parse("SELECT").is_err());
    assert!(Parser::parse("DELETE users").is_err());
    assert!(Parser::parse("INSERT INTO t VALUES ('1'").is_err());
}

#[test]
fn parse_quoted_value_may_hold_spaces() {
    match Parser::parse("SELECT * FROM t WHERE name = 'Ann Lee'").expect("parse") {
        ASTNode::SelectStatement { condition, .. } => {
            assert_eq!(condition.expect("condition").value, "Ann Lee");
        }
        _ => panic!("not a select"),
    }
}

#[test]
fn condition_on_absent_column_is_false() {
    let c = WhereCondition {
        column: "age".to_string(),
        operator: "=".to_string(),
        value: "25".to_string(),
    };
    let r = row(&[("id", "1")]);
    assert!(!c.evaluate(&r));
}

#[test]
fn condition_operators_compare_as_documented() {
    let r = row(&[("age", "30"), ("name", "Ann")]);
    let cond = |op: &str, col: &str, val: &str| WhereCondition {
        column: col.to_string(),
        operator: op.to_string(),
        value: val.to_string(),
    };
    assert!(cond("=", "name", "Ann").evaluate(&r));
    assert!(!cond("=", "name", "Bob").evaluate(&r));
    assert!(cond("!=", "name", "Bob").evaluate(&r));
    assert!(cond("<>", "name", "Bob").evaluate(&r));
    assert!(cond(">", "age", "25").evaluate(&r));
    assert!(!cond(">", "age", "30").evaluate(&r));
    assert!(cond(">=", "age", "30").evaluate(&r));
    assert!(cond("<=", "age", "30").evaluate(&r));
    assert!(cond("<", "age", "31").evaluate(&r));
    assert!(!cond("??", "age", "30").evaluate(&r), "an unknown operator is false");
}

#[test]
fn numeric_comparison_treats_unparseable_side_as_zero() {
    let r = row(&[("age", "abc")]);
    let c = WhereCondition {
        column: "age".to_string(),
        operator: "<".to_string(),
        value: "5".to_string(),
    };
    assert!(c.evaluate(&r), "an unreadable side counts as zero");
    let c2 = WhereCondition {
        column: "age".to_string(),
        operator: ">=".to_string(),
        value: "xyz".to_string(),
    };
    assert!(c2.evaluate(&r), "zero is greater than or equal to zero");
}

#[test]
fn predicate_match_all_and_match_none() {
    let r = row(&[("a", "1")]);
    assert!(Predicate::MatchAll.evaluate(&r));
    assert!(!Predicate::MatchNone.evaluate(&r));
}

#[test]
fn parse_quoted_value_may_hold_operators() {
    match Parser::parse("SELECT * FROM t WHERE a = 'b=c'").expect("parse") {
        ASTNode::SelectStatement { condition, .. } => {
            assert_eq!(condition.expect("condition").value, "b=c");
        }
        _ => panic!("not a select"),
    }
}

#[test]
fn parse_allows_whitespace_around_commas_and_operators() {
    match Parser::parse("SELECT id ,  name FROM t WHERE a   =   '1'").expect("parse") {
        ASTNode::SelectStatement { projection, condition, .. } => {
            assert_eq!(projection.len(), 2);
            assert_eq!(condition.expect("condition").operator, "=");
        }
        _ => panic!("not a select"),
    }
}

#[test]
fn parse_empty_quoted_value() {
    match Parser::parse("UPDATE t SET a = '' WHERE b = '1'").expect("parse") {
        ASTNode::UpdateStatement { assignments, .. } => {
            assert_eq!(assignments[0].1, "");
        }
        _ => panic!("not an update"),
    }
}

#[test]
fn parse_bare_word_values_are_accepted() {
    match Parser::parse("UPDATE t SET a = 5 WHERE b = x9").expect("parse") {
        ASTNode::UpdateStatement { assignments, condition, .. } => {
            assert_eq!(assignments[0].1, "5");
            assert_eq!(condition.expect("condition").value, "x9");
        }
        _ => panic!("not an update"),
    }
}

#[test]
fn read_i32_handles_signs_bounds_and_junk() {
    assert_eq!(read_i32_or_zero("0"), 0);
    assert_eq!(read_i32_or_zero("25"), 25);
    assert_eq!(read_i32_or_zero("-12"), -12);
    assert_eq!(read_i32_or_zero("+7"), 7);
    assert_eq!(read_i32_or_zero("2147483647"), 2147483647);
    assert_eq!(read_i32_or_zero("-2147483648"), -2147483648);
    assert_eq!(read_i32_or_zero("2147483648"), 0, "overflow reads as zero");
    assert_eq!(read_i32_or_zero("-2147483649"), 0, "underflow reads as zero");
    assert_eq!(read_i32_or_zero("99999999999999999999"), 0);
    assert_eq!(read_i32_or_zero(""), 0);
    assert_eq!(read_i32_or_zero("-"), 0);
    assert_eq!(read_i32_or_zero(" 5"), 0, "whitespace is not part of a number");
    assert_eq!(read_i32_or_zero("5a"), 0);
    assert_eq!(read_i32_or_zero("abc"), 0);
}
