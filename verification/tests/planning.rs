//! The planner: lowering, cost estimates, validation, complexity, the
//! statistics counters, and the plan cache.

use hypervault::parser::Parser;
use hypervault::query::{
    analyze_query_complexity, Identifier, PlanningError, QueryCache, QueryComplexity,
    QueryPlanner, QueryType,
};

fn planned(sql: &str) -> hypervault::query::QueryPlan {
    let ast = Parser::parse(sql).expect("parse");
    QueryPlanner::new().plan(&ast).expect("plan")
}

#[test]
fn plan_select_scans_filters_and_projects() {
    let p = planned("SELECT id FROM users WHERE age >= '30'");
    assert_eq!(p.query_type, QueryType::Select);
    assert_eq!(p.table.0, "users");
    assert_eq!(p.execution_steps.len(), 3, "scan, filter, project");
    // scan: 1000 rows at a tenth each; filter: selectivity 40 percent;
    // project: one column at half a unit.  All in hundredths.
    assert_eq!(p.estimated_cost, 10000 + 6000 + 50);
}

#[test]
fn plan_select_star_adds_no_projection_step() {
    let p = planned("SELECT * FROM users");
    assert_eq!(p.execution_steps.len(), 1, "only the scan");
    assert_eq!(p.estimated_cost, 10000);
}

#[test]
fn plan_costs_are_fixed_for_mutations() {
    assert_eq!(planned("INSERT INTO t VALUES ('1')").estimated_cost, 5000);
    assert_eq!(planned("UPDATE t SET a = '1'").estimated_cost, 7500);
    assert_eq!(planned("DELETE FROM t").estimated_cost, 2500);
}

#[test]
fn plan_filter_selectivities_follow_the_operator_table() {
    let cost = |sql: &str| planned(sql).estimated_cost;
    let base = 10000;
    assert_eq!(cost("SELECT * FROM t WHERE a = '1'"), base + 9000);
    assert_eq!(cost("SELECT * FROM t WHERE a > '1'"), base + 7000);
    assert_eq!(cost("SELECT * FROM t WHERE a < '1'"), base + 7000);
    assert_eq!(cost("SELECT * FROM t WHERE a >= '1'"), base + 6000);
    assert_eq!(cost("SELECT * FROM t WHERE a <= '1'"), base + 6000);
    assert_eq!(cost("SELECT * FROM t WHERE a != '1'"), base + 1000);
    assert_eq!(cost("SELECT * FROM t WHERE a <> '1'"), base + 1000);
}

#[test]
fn plan_keeps_statement_fields() {
    let p = planned("UPDATE users SET age = '26' WHERE id = '1'");
    assert_eq!(p.query_type, QueryType::Update);
    let asgs = p.assignments.expect("assignments");
    assert_eq!(asgs.len(), 1);
    assert_eq!(asgs[0].0 .0, "age");
    assert_eq!(asgs[0].1, "26");
    assert_eq!(p.condition.expect("condition").column, "id");
    let p = planned("INSERT INTO users (id) VALUES ('1')");
    let (cols, vals) = p.insert_data.expect("insert data");
    assert_eq!(cols.len(), 1);
    assert_eq!(vals, vec!["1".to_string()]);
}

#[test]
fn plan_rejects_bare_identifier() {
    let mut planner = QueryPlanner::new();
    let ast = hypervault::parser::ASTNode::Identifier("users".to_string());
    assert!(matches!(
        planner.plan(&ast),
        Err(PlanningError::InvalidQuery(_))
    ));
}

#[test]
fn validate_plan_checks_table_and_columns() {
    let planner = QueryPlanner::new();
    let cols = vec!["id".to_string(), "name".to_string(), "age".to_string()];
    let p = planned("SELECT id, name FROM users WHERE age = '1'");
    assert!(planner.validate_plan(&p, true, &cols).is_ok());
    assert!(matches!(
        planner.validate_plan(&p, false, &cols),
        Err(PlanningError::TableNotFound(_))
    ));
    let p = planned("SELECT shoe FROM users");
    match planner.validate_plan(&p, true, &cols) {
        Err(PlanningError::ColumnNotFound(c)) => assert_eq!(c, "shoe"),
        other => panic!("unexpected: {:?}", other),
    }
    let p = planned("SELECT * FROM users");
    assert!(
        planner.validate_plan(&p, true, &cols).is_ok(),
        "the wildcard is exempt"
    );
    let p = planned("UPDATE users SET shoe = '1'");
    assert!(matches!(
        planner.validate_plan(&p, true, &cols),
        Err(PlanningError::ColumnNotFound(_))
    ));
    let p = planned("SELECT * FROM users WHERE shoe = '1'");
    assert!(matches!(
        planner.validate_plan(&p, true, &cols),
        Err(PlanningError::ColumnNotFound(_))
    ));
}

#[test]
fn validate_plan_checks_insert_column_count() {
    let planner = QueryPlanner::new();
    let cols = vec!["id".to_string(), "name".to_string()];
    let p = planned("INSERT INTO users (id, name) VALUES ('1')");
    assert!(matches!(
        planner.validate_plan(&p, true, &cols),
        Err(PlanningError::InvalidQuery(_))
    ));
    let p = planned("INSERT INTO users VALUES ('1')");
    assert!(
        planner.validate_plan(&p, true, &cols).is_ok(),
        "a positional insert is not length-checked here"
    );
}

#[test]
fn complexity_buckets_follow_the_score() {
    assert_eq!(
        analyze_query_complexity(&planned("SELECT * FROM t")),
        QueryComplexity::Simple
    );
    assert_eq!(
        analyze_query_complexity(&planned("INSERT INTO t VALUES ('1')")),
        QueryComplexity::Simple
    );
    assert_eq!(
        analyze_query_complexity(&planned("SELECT * FROM t WHERE a = '1'")),
        QueryComplexity::Medium
    );
    assert_eq!(
        analyze_query_complexity(&planned("UPDATE t SET a = '1' WHERE b = '2'")),
        QueryComplexity::Medium
    );
    assert_eq!(
        analyze_query_complexity(&planned(
            "SELECT a, b, c, d, e, f FROM t WHERE a = '1'"
        )),
        QueryComplexity::Medium,
        "a wide select with a condition scores four"
    );
    // Only a constructed plan can cross the line: an update with a
    // condition and a wide projection scores six.
    let mut wide = planned("UPDATE t SET a = '1' WHERE b = '2'");
    wide.projection = Some(
        vec!["a", "b", "c", "d", "e", "f"]
            .into_iter()
            .map(|c| Identifier(c.to_string()))
            .collect(),
    );
    assert_eq!(analyze_query_complexity(&wide), QueryComplexity::Complex);
}

#[test]
fn statistics_count_successes_failures_and_time() {
    let mut planner = QueryPlanner::new();
    planner
        .optimizer
        .update_statistics(&QueryType::Select, 1500, true);
    planner
        .optimizer
        .update_statistics(&QueryType::Insert, 500, true);
    planner
        .optimizer
        .update_statistics(&QueryType::Update, 9, false);
    let s = planner.get_statistics();
    assert_eq!(s.total_queries, 3);
    assert_eq!(s.select_queries, 1);
    assert_eq!(s.insert_queries, 1);
    assert_eq!(s.update_queries, 0, "a failed query counts only as failed");
    assert_eq!(s.failed_queries, 1);
    assert_eq!(s.total_execution_micros, 2000);
    planner.reset_statistics();
    assert_eq!(planner.get_statistics().total_queries, 0);
}

#[test]
fn cache_stores_replaces_and_evicts_oldest() {
    let mut cache = QueryCache::new(2);
    assert!(cache.get("a").is_none());
    cache.put("a".to_string(), planned("SELECT * FROM t"));
    cache.put("b".to_string(), planned("DELETE FROM t"));
    assert_eq!(
        cache.get("a").expect("a cached").query_type,
        QueryType::Select
    );
    // Replacing a present key does not evict.
    cache.put("a".to_string(), planned("UPDATE t SET x = '1'"));
    assert_eq!(
        cache.get("a").expect("a cached").query_type,
        QueryType::Update
    );
    assert!(cache.get("b").is_some());
    // A third key evicts the oldest entry.
    cache.put("c".to_string(), planned("INSERT INTO t VALUES ('1')"));
    assert!(cache.get("a").is_none(), "the oldest entry left");
    assert!(cache.get("b").is_some());
    assert!(cache.get("c").is_some());
    cache.clear();
    assert!(cache.get("b").is_none());
}

#[test]
fn optimizer_can_be_switched_off() {
    let mut planner = QueryPlanner::new();
    planner.optimizer.enable_optimizations = false;
    let ast = Parser::parse("SELECT id FROM t WHERE a = '1'").expect("parse");
    let p = planner.plan(&ast).expect("plan");
    assert_eq!(p.execution_steps.len(), 1, "no passes ran");
    assert_eq!(p.estimated_cost, 0);
}

#[test]
fn identifiers_carry_their_text() {
    let id = Identifier("users".to_string());
    let copy = id.clone();
    assert_eq!(copy.0, "users");
}
