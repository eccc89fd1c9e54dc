//! The planner and optimizer: lowering a parsed statement into a costed
//! plan, validating it against a catalog, and keeping query statistics.
//!
//! Costs and selectivities are fixed-point integers: a cost is counted in
//! hundredths of a cost unit, a selectivity in percent.  Sums saturate at
//! the `u64` maximum rather than wrap.

use vstd::prelude::*;

use crate::parser::{ASTNode, CondV, WhereCondition};

verus! {

/// A table or column name.
pub struct Identifier(pub String);

impl View for Identifier {
    type V = Seq<char>;

    open spec fn view(&self) -> Seq<char> {
        self.0@
    }
}

impl Clone for Identifier {
    /// A clone carries the same name.
    fn clone(&self) -> (r: Identifier)
        ensures
            r@ == self@,
    {
        Identifier(self.0.clone())
    }
}

/// The statement kinds a plan can carry.
#[derive(PartialEq, Eq, Structural, Clone, Copy, Debug)]
pub enum QueryType {
    Select,
    Insert,
    Update,
    Delete,
}

/// One step of an execution plan.  The selectivity estimate is a
/// percentage; costs are counted in hundredths of a cost unit.
pub enum ExecutionStep {
    TableScan { table: String, estimated_rows: usize },
    FilterRows { condition: WhereCondition, estimated_selectivity: u64 },
    ProjectColumns { columns: Vec<String> },
    InsertRow { table: String, columns: Vec<String>, values: Vec<String> },
    UpdateRows {
        table: String,
        assignments: Vec<(String, String)>,
        condition: Option<WhereCondition>,
    },
    DeleteRows { table: String, condition: Option<WhereCondition> },
}

/// The mathematical shape of a plan step.
pub enum StepV {
    TableScan { table: Seq<char>, estimated_rows: usize },
    FilterRows { condition: CondV, estimated_selectivity: u64 },
    ProjectColumns { columns: Seq<Seq<char>> },
    InsertRow { table: Seq<char>, columns: Seq<Seq<char>>, values: Seq<Seq<char>> },
    UpdateRows {
        table: Seq<char>,
        assignments: Seq<(Seq<char>, Seq<char>)>,
        condition: Option<CondV>,
    },
    DeleteRows { table: Seq<char>, condition: Option<CondV> },
}

impl View for ExecutionStep {
    type V = StepV;

    open spec fn view(&self) -> StepV {
        match self {
            ExecutionStep::TableScan { table, estimated_rows } => StepV::TableScan {
                table: table@,
                estimated_rows: *estimated_rows,
            },
            ExecutionStep::FilterRows { condition, estimated_selectivity } => StepV::FilterRows {
                condition: condition@,
                estimated_selectivity: *estimated_selectivity,
            },
            ExecutionStep::ProjectColumns { columns } => StepV::ProjectColumns {
                columns: columns@.map_values(|s: String| s@),
            },
            ExecutionStep::InsertRow { table, columns, values } => StepV::InsertRow {
                table: table@,
                columns: columns@.map_values(|s: String| s@),
                values: values@.map_values(|s: String| s@),
            },
            ExecutionStep::UpdateRows { table, assignments, condition } => StepV::UpdateRows {
                table: table@,
                assignments: assignments@.map_values(|a: (String, String)| (a.0@, a.1@)),
                condition: match condition {
                    Some(c) => Some(c@),
                    None => None,
                },
            },
            ExecutionStep::DeleteRows { table, condition } => StepV::DeleteRows {
                table: table@,
                condition: match condition {
                    Some(c) => Some(c@),
                    None => None,
                },
            },
        }
    }
}

/// A lowered statement: what will run, what it touches, and what it is
/// estimated to cost (in hundredths of a cost unit, saturating).
pub struct QueryPlan {
    pub query_type: QueryType,
    pub table: Identifier,
    pub projection: Option<Vec<Identifier>>,
    pub condition: Option<WhereCondition>,
    pub assignments: Option<Vec<(Identifier, String)>>,
    pub insert_data: Option<(Vec<Identifier>, Vec<String>)>,
    pub estimated_cost: u64,
    pub execution_steps: Vec<ExecutionStep>,
}

/// The mathematical shape of a plan.
pub struct PlanV {
    pub query_type: QueryType,
    pub table: Seq<char>,
    pub projection: Option<Seq<Seq<char>>>,
    pub condition: Option<CondV>,
    pub assignments: Option<Seq<(Seq<char>, Seq<char>)>>,
    pub insert_data: Option<(Seq<Seq<char>>, Seq<Seq<char>>)>,
    pub estimated_cost: u64,
    pub execution_steps: Seq<StepV>,
}

impl View for QueryPlan {
    type V = PlanV;

    open spec fn view(&self) -> PlanV {
        PlanV {
            query_type: self.query_type,
            table: self.table@,
            projection: match &self.projection {
                Some(p) => Some(p@.map_values(|i: Identifier| i@)),
                None => None,
            },
            condition: match &self.condition {
                Some(c) => Some(c@),
                None => None,
            },
            assignments: match &self.assignments {
                Some(a) => Some(a@.map_values(|x: (Identifier, String)| (x.0@, x.1@))),
                None => None,
            },
            insert_data: match &self.insert_data {
                Some((c, v)) => Some(
                    (
                        c@.map_values(|i: Identifier| i@),
                        v@.map_values(|s: String| s@),
                    ),
                ),
                None => None,
            },
            estimated_cost: self.estimated_cost,
            execution_steps: self.execution_steps@.map_values(|s: ExecutionStep| s@),
        }
    }
}

// ---------------------------------------------------------------------
// Cost model.
// ---------------------------------------------------------------------
/// The estimated fraction of rows an operator admits, in percent.
pub open spec fn selectivity_pct(op: Seq<char>) -> u64 {
    if op == "="@ {
        10
    } else if op == ">"@ || op == "<"@ {
        30
    } else if op == ">="@ || op == "<="@ {
        40
    } else if op == "!="@ || op == "<>"@ {
        90
    } else {
        50
    }
}

/// Saturating multiplication for cost terms.
pub open spec fn sat_mul64(a: int, b: int) -> u64 {
    if a * b > u64::MAX {
        u64::MAX
    } else {
        (a * b) as u64
    }
}

/// One step's cost contribution, in hundredths: a scan costs a tenth
/// per row, a filter a hundred times the rejected fraction, a
/// projection half a unit per column, and the mutations carry fixed
/// prices.
pub open spec fn step_cost_centi(s: StepV) -> u64 {
    match s {
        StepV::TableScan { estimated_rows, .. } => sat_mul64(estimated_rows as int, 10),
        StepV::FilterRows { estimated_selectivity, .. } => if estimated_selectivity >= 100 {
            0
        } else {
            (((100 - estimated_selectivity) * 100) as u64)
        },
        StepV::ProjectColumns { columns } => sat_mul64(columns.len() as int, 50),
        StepV::InsertRow { .. } => 5000,
        StepV::UpdateRows { .. } => 7500,
        StepV::DeleteRows { .. } => 2500,
    }
}

/// A plan's cost: the saturating sum of its steps' contributions.
pub open spec fn plan_cost_centi(steps: Seq<StepV>) -> u64
    decreases steps.len(),
{
    if steps.len() == 0 {
        0
    } else {
        crate::storage_engine::sat_add64(
            plan_cost_centi(steps.drop_last()),
            step_cost_centi(steps.last()),
        )
    }
}

/// All statistics counters at zero.
pub open spec fn zero_stats() -> QueryStatistics {
    QueryStatistics {
        total_queries: 0,
        select_queries: 0,
        insert_queries: 0,
        update_queries: 0,
        delete_queries: 0,
        failed_queries: 0,
        total_execution_micros: 0,
    }
}

/// Running counters over the queries a session has planned, with the
/// total execution time in microseconds.
#[derive(PartialEq, Eq, Structural, Clone, Copy, Debug)]
pub struct QueryStatistics {
    pub total_queries: u64,
    pub select_queries: u64,
    pub insert_queries: u64,
    pub update_queries: u64,
    pub delete_queries: u64,
    pub failed_queries: u64,
    pub total_execution_micros: u64,
}

impl Default for QueryStatistics {
    /// All counters start at zero.
    fn default() -> (s: QueryStatistics)
        ensures
            s == zero_stats(),
    {
        QueryStatistics {
            total_queries: 0,
            select_queries: 0,
            insert_queries: 0,
            update_queries: 0,
            delete_queries: 0,
            failed_queries: 0,
            total_execution_micros: 0,
        }
    }
}

/// The optimizer: a switch and the session statistics.
pub struct QueryOptimizer {
    pub enable_optimizations: bool,
    pub statistics: QueryStatistics,
}

impl Default for QueryOptimizer {
    /// Optimizations on, counters at zero.
    fn default() -> (o: QueryOptimizer)
        ensures
            o.enable_optimizations,
            o.statistics == zero_stats(),
    {
        QueryOptimizer { enable_optimizations: true, statistics: QueryStatistics::default() }
    }
}

/// The steps after the optimizer's two passes: a filter step for a
/// present condition, then a projection step for a present,
/// non-wildcard projection.
pub open spec fn optimized_steps(p: PlanV) -> Seq<StepV> {
    let s1 = match p.condition {
        Some(c) => p.execution_steps.push(
            StepV::FilterRows {
                condition: c,
                estimated_selectivity: selectivity_pct(c.operator),
            },
        ),
        None => p.execution_steps,
    };
    match p.projection {
        Some(pr) => if pr.len() == 1 && pr[0] == "*"@ {
            s1
        } else {
            s1.push(StepV::ProjectColumns { columns: pr })
        },
        None => s1,
    }
}

impl QueryOptimizer {
    pub fn new() -> (o: QueryOptimizer)
        ensures
            o.enable_optimizations,
            o.statistics == zero_stats(),
    {
        QueryOptimizer::default()
    }

    /// Apply the optimization passes and re-estimate the cost; with
    /// optimizations disabled the plan is left alone.
    pub fn optimize_plan(&self, plan: &mut QueryPlan)
        ensures
            !self.enable_optimizations ==> final(plan)@ == old(plan)@,
            self.enable_optimizations ==> final(plan)@ == (PlanV {
                execution_steps: optimized_steps(old(plan)@),
                estimated_cost: plan_cost_centi(optimized_steps(old(plan)@)),
                ..old(plan)@
            }),
    {
        if !self.enable_optimizations {
            return ;
        }
        let ghost pv = plan@;
        // Pass one: a present condition becomes a filter step.
        match &plan.condition {
            Some(c) => {
                let sel = estimate_selectivity(c);
                let cond = c.clone();
                let ghost steps_before = plan.execution_steps@;
                plan.execution_steps.push(
                    ExecutionStep::FilterRows { condition: cond, estimated_selectivity: sel },
                );
                proof {
                    assert(plan@.execution_steps =~= pv.execution_steps.push(
                        StepV::FilterRows {
                            condition: pv.condition.unwrap(),
                            estimated_selectivity: selectivity_pct(pv.condition.unwrap().operator),
                        },
                    ));
                }
            },
            None => {},
        }
        // Pass two: a present, non-wildcard projection becomes a
        // projection step.
        let mut project: Option<Vec<String>> = None;
        match &plan.projection {
            Some(pr) => {
                let star = if pr.len() == 1 {
                    crate::text::str_eq(pr[0].0.as_str(), "*")
                } else {
                    false
                };
                proof {
                    let prv = pv.projection.unwrap();
                    assert(pr@.map_values(|i: Identifier| i@) == prv);
                    if pr@.len() == 1 {
                        assert(prv[0int] == pr@[0int]@);
                    }
                }
                if !star {
                    let n = pr.len();
                    let mut cols: Vec<String> = Vec::new();
                    let mut i: usize = 0;
                    while i < n
                        invariant
                            i <= n,
                            n == pr@.len(),
                            cols@.len() == i,
                            forall|j: int| 0 <= j < i ==> (#[trigger] cols@[j])@ == pr@[j]@,
                        decreases n - i,
                    {
                        cols.push(pr[i].0.clone());
                        i = i + 1;
                    }
                    project = Some(cols);
                }
            },
            None => {},
        }
        match project {
            Some(cols) => {
                let ghost before = plan@.execution_steps;
                plan.execution_steps.push(ExecutionStep::ProjectColumns { columns: cols });
                proof {
                    let prv = pv.projection.unwrap();
                    assert(plan@.execution_steps[before.len() as int] == StepV::ProjectColumns {
                        columns: prv,
                    }) by {
                        assert(plan.execution_steps@[before.len() as int]@
                            == StepV::ProjectColumns {
                            columns: plan.execution_steps@[before.len() as int]->ProjectColumns_columns@.map_values(
                                |s: String| s@,
                            ),
                        });
                        assert(plan.execution_steps@[before.len() as int]->ProjectColumns_columns@.map_values(
                            |s: String| s@,
                        ) =~= prv);
                    }
                    assert(plan@.execution_steps =~= before.push(
                        StepV::ProjectColumns { columns: prv },
                    ));
                }
            },
            None => {},
        }
        proof {
            assert(plan@.execution_steps == optimized_steps(pv));
        }
        // Re-estimate the cost over the final steps.
        let nsteps = plan.execution_steps.len();
        let mut cost: u64 = 0;
        let mut i: usize = 0;
        proof {
            assert(plan@.execution_steps.take(0int) =~= Seq::<StepV>::empty());
        }
        while i < nsteps
            invariant
                i <= nsteps,
                nsteps == plan.execution_steps@.len(),
                cost == plan_cost_centi(plan@.execution_steps.take(i as int)),
            decreases nsteps - i,
        {
            proof {
                assert(plan@.execution_steps.take(i + 1).drop_last() =~= plan@.execution_steps.take(
                    i as int,
                ));
                assert(plan@.execution_steps.take(i + 1).last() == plan@.execution_steps[i as int]);
            }
            let c = step_cost(&plan.execution_steps[i]);
            cost = cost.saturating_add(c);
            i = i + 1;
        }
        proof {
            assert(plan@.execution_steps.take(nsteps as int) =~= plan@.execution_steps);
        }
        plan.estimated_cost = cost;
    }
}

/// The selectivity estimate for one condition, in percent.
pub fn estimate_selectivity(condition: &WhereCondition) -> (r: u64)
    ensures
        r == selectivity_pct(condition@.operator),
{
    let op = condition.operator.as_str();
    if crate::text::str_eq(op, "=") {
        10
    } else if crate::text::str_eq(op, ">") || crate::text::str_eq(op, "<") {
        30
    } else if crate::text::str_eq(op, ">=") || crate::text::str_eq(op, "<=") {
        40
    } else if crate::text::str_eq(op, "!=") || crate::text::str_eq(op, "<>") {
        90
    } else {
        50
    }
}

/// One step's cost contribution.
pub fn step_cost(step: &ExecutionStep) -> (r: u64)
    ensures
        r == step_cost_centi(step@),
{
    match step {
        ExecutionStep::TableScan { estimated_rows, .. } => {
            let rows: u64 = *estimated_rows as u64;
            if rows > 0xFFFFFFFFFFFFFFFF / 10 {
                u64::MAX
            } else {
                rows * 10
            }
        },
        ExecutionStep::FilterRows { estimated_selectivity, .. } => {
            if *estimated_selectivity >= 100 {
                0
            } else {
                (100 - *estimated_selectivity) * 100
            }
        },
        ExecutionStep::ProjectColumns { columns } => {
            let n: u64 = columns.len() as u64;
            if n > 0xFFFFFFFFFFFFFFFF / 50 {
                u64::MAX
            } else {
                n * 50
            }
        },
        ExecutionStep::InsertRow { .. } => 5000,
        ExecutionStep::UpdateRows { .. } => 7500,
        ExecutionStep::DeleteRows { .. } => 2500,
    }
}

// ---------------------------------------------------------------------
// The planner.
// ---------------------------------------------------------------------
/// What planning can report.
#[derive(Debug)]
pub enum PlanningError {
    TableNotFound(String),
    ColumnNotFound(String),
    InvalidQuery(String),
    OptimizationFailed(String),
}

/// The text of each planning error, as the shell prints it.
pub open spec fn planning_error_text(e: PlanningError) -> Seq<char> {
    match e {
        PlanningError::TableNotFound(table) => "Table '"@ + table@ + "' not found"@,
        PlanningError::ColumnNotFound(column) => "Column '"@ + column@ + "' not found"@,
        PlanningError::InvalidQuery(msg) => "Invalid query: "@ + msg@,
        PlanningError::OptimizationFailed(msg) => "Optimization failed: "@ + msg@,
    }
}

impl PlanningError {
    /// The error as one line of text.
    pub fn message(&self) -> (r: String)
        ensures
            r@ == planning_error_text(*self),
    {
        match self {
            PlanningError::TableNotFound(table) => {
                let mut m = String::from_str("Table '");
                m.append(table.as_str());
                m.append("' not found");
                m
            },
            PlanningError::ColumnNotFound(column) => {
                let mut m = String::from_str("Column '");
                m.append(column.as_str());
                m.append("' not found");
                m
            },
            PlanningError::InvalidQuery(msg) => {
                let mut m = String::from_str("Invalid query: ");
                m.append(msg.as_str());
                m
            },
            PlanningError::OptimizationFailed(msg) => {
                let mut m = String::from_str("Optimization failed: ");
                m.append(msg.as_str());
                m
            },
        }
    }
}

/// The plan a statement lowers to before optimization: its fields
/// copied over and one primary step, a table scan with a fixed
/// thousand-row prior for SELECT, the matching mutation step
/// otherwise.  (A bare identifier never reaches this point.)
pub open spec fn base_plan(ast: crate::parser::AstV) -> PlanV {
    match ast {
        crate::parser::AstV::Select { projection, table, condition } => PlanV {
            query_type: QueryType::Select,
            table: table,
            projection: Some(projection),
            condition: condition,
            assignments: None,
            insert_data: None,
            estimated_cost: 0,
            execution_steps: seq![StepV::TableScan { table: table, estimated_rows: 1000 }],
        },
        crate::parser::AstV::Insert { table, columns, values } => PlanV {
            query_type: QueryType::Insert,
            table: table,
            projection: None,
            condition: None,
            assignments: None,
            insert_data: Some((columns, values)),
            estimated_cost: 0,
            execution_steps: seq![
                StepV::InsertRow { table: table, columns: columns, values: values },
            ],
        },
        crate::parser::AstV::Update { table, assignments, condition } => PlanV {
            query_type: QueryType::Update,
            table: table,
            projection: None,
            condition: condition,
            assignments: Some(assignments),
            insert_data: None,
            estimated_cost: 0,
            execution_steps: seq![
                StepV::UpdateRows { table: table, assignments: assignments, condition: condition },
            ],
        },
        crate::parser::AstV::Delete { table, condition } => PlanV {
            query_type: QueryType::Delete,
            table: table,
            projection: None,
            condition: condition,
            assignments: None,
            insert_data: None,
            estimated_cost: 0,
            execution_steps: seq![StepV::DeleteRows { table: table, condition: condition }],
        },
        crate::parser::AstV::Ident(name) => PlanV {
            query_type: QueryType::Select,
            table: name,
            projection: None,
            condition: None,
            assignments: None,
            insert_data: None,
            estimated_cost: 0,
            execution_steps: Seq::empty(),
        },
    }
}

/// The plan a statement lowers to, optimization passes applied.
pub open spec fn planned(ast: crate::parser::AstV) -> PlanV {
    PlanV {
        execution_steps: optimized_steps(base_plan(ast)),
        estimated_cost: plan_cost_centi(optimized_steps(base_plan(ast))),
        ..base_plan(ast)
    }
}

fn clone_idents(v: &Vec<Identifier>) -> (r: Vec<Identifier>)
    ensures
        r@.map_values(|i: Identifier| i@) == v@.map_values(|i: Identifier| i@),
{
    let n = v.len();
    let mut out: Vec<Identifier> = Vec::new();
    let mut i: usize = 0;
    while i < n
        invariant
            i <= n,
            n == v@.len(),
            out@.len() == i,
            forall|j: int| 0 <= j < i ==> (#[trigger] out@[j])@ == v@[j]@,
        decreases n - i,
    {
        out.push(v[i].clone());
        i = i + 1;
    }
    proof {
        assert(out@.map_values(|i2: Identifier| i2@) =~= v@.map_values(|i2: Identifier| i2@));
    }
    out
}

fn clone_strings(v: &Vec<String>) -> (r: Vec<String>)
    ensures
        r@.map_values(|s: String| s@) == v@.map_values(|s: String| s@),
{
    let n = v.len();
    let mut out: Vec<String> = Vec::new();
    let mut i: usize = 0;
    while i < n
        invariant
            i <= n,
            n == v@.len(),
            out@.len() == i,
            forall|j: int| 0 <= j < i ==> (#[trigger] out@[j])@ == v@[j]@,
        decreases n - i,
    {
        out.push(v[i].clone());
        i = i + 1;
    }
    proof {
        assert(out@.map_values(|s: String| s@) =~= v@.map_values(|s: String| s@));
    }
    out
}

fn clone_assigns(v: &Vec<(Identifier, String)>) -> (r: Vec<(Identifier, String)>)
    ensures
        r@.map_values(|a: (Identifier, String)| (a.0@, a.1@)) == v@.map_values(
            |a: (Identifier, String)| (a.0@, a.1@),
        ),
{
    let n = v.len();
    let mut out: Vec<(Identifier, String)> = Vec::new();
    let mut i: usize = 0;
    while i < n
        invariant
            i <= n,
            n == v@.len(),
            out@.len() == i,
            forall|j: int|
                0 <= j < i ==> (#[trigger] out@[j].0)@ == v@[j].0@ && out@[j].1@ == v@[j].1@,
        decreases n - i,
    {
        out.push((v[i].0.clone(), v[i].1.clone()));
        i = i + 1;
    }
    proof {
        assert(out@.map_values(|a: (Identifier, String)| (a.0@, a.1@)) =~= v@.map_values(
            |a: (Identifier, String)| (a.0@, a.1@),
        ));
    }
    out
}

fn clone_cond(c: &Option<WhereCondition>) -> (r: Option<WhereCondition>)
    ensures
        (match r {
            Some(x) => Some(x@),
            None => None,
        }) == (match c {
            Some(x) => Some(x@),
            None => None::<CondV>,
        }),
{
    match c {
        Some(x) => Some(x.clone()),
        None => None,
    }
}

/// The planner: it lowers statements and owns the optimizer.
pub struct QueryPlanner {
    pub optimizer: QueryOptimizer,
}

impl QueryPlanner {
    pub fn new() -> (p: QueryPlanner)
        ensures
            p.optimizer.enable_optimizations,
            p.optimizer.statistics == zero_stats(),
    {
        QueryPlanner { optimizer: QueryOptimizer::new() }
    }

    /// Lower one statement to its optimized plan; a bare identifier is
    /// an invalid query.
    pub fn plan(&mut self, ast: &ASTNode) -> (r: Result<QueryPlan, PlanningError>)
        ensures
            final(self).optimizer.enable_optimizations == old(self).optimizer.enable_optimizations,
            final(self).optimizer.statistics == old(self).optimizer.statistics,
            match ast@ {
                crate::parser::AstV::Ident(_) => r matches Err(PlanningError::InvalidQuery(_)),
                _ => (old(self).optimizer.enable_optimizations ==> (match r {
                    Ok(p) => p@ == planned(ast@),
                    Err(_) => false,
                })) && (!old(self).optimizer.enable_optimizations ==> (match r {
                    Ok(p) => p@ == base_plan(ast@),
                    Err(_) => false,
                })),
            },
    {
        let mut plan = match ast {
            ASTNode::SelectStatement { projection, table, condition } => {
                let mut steps: Vec<ExecutionStep> = Vec::new();
                steps.push(
                    ExecutionStep::TableScan { table: table.0.clone(), estimated_rows: 1000 },
                );
                let p = QueryPlan {
                    query_type: QueryType::Select,
                    table: table.clone(),
                    projection: Some(clone_idents(projection)),
                    condition: clone_cond(condition),
                    assignments: None,
                    insert_data: None,
                    estimated_cost: 0,
                    execution_steps: steps,
                };
                proof {
                    assert(p@.execution_steps =~= base_plan(ast@).execution_steps);
                    assert(p@ == base_plan(ast@));
                }
                p
            },
            ASTNode::InsertStatement { table, columns, values } => {
                let mut steps: Vec<ExecutionStep> = Vec::new();
                steps.push(
                    ExecutionStep::InsertRow {
                        table: table.0.clone(),
                        columns: {
                            let ids = clone_idents(columns);
                            let n = ids.len();
                            let mut names: Vec<String> = Vec::new();
                            let mut i: usize = 0;
                            while i < n
                                invariant
                                    i <= n,
                                    n == ids@.len(),
                                    names@.len() == i,
                                    forall|j: int|
                                        0 <= j < i ==> (#[trigger] names@[j])@ == ids@[j]@,
                                decreases n - i,
                            {
                                names.push(ids[i].0.clone());
                                i = i + 1;
                            }
                            names
                        },
                        values: clone_strings(values),
                    },
                );
                let p = QueryPlan {
                    query_type: QueryType::Insert,
                    table: table.clone(),
                    projection: None,
                    condition: None,
                    assignments: None,
                    insert_data: Some((clone_idents(columns), clone_strings(values))),
                    estimated_cost: 0,
                    execution_steps: steps,
                };
                proof {
                    assert(p@.execution_steps =~= base_plan(ast@).execution_steps) by {
                        assert(p@.execution_steps[0int]->InsertRow_columns =~= base_plan(
                            ast@,
                        ).execution_steps[0int]->InsertRow_columns);
                        assert(p@.execution_steps[0int] == base_plan(ast@).execution_steps[0int]);
                    }
                    assert(p@ == base_plan(ast@));
                }
                p
            },
            ASTNode::UpdateStatement { table, assignments, condition } => {
                let mut steps: Vec<ExecutionStep> = Vec::new();
                steps.push(
                    ExecutionStep::UpdateRows {
                        table: table.0.clone(),
                        assignments: {
                            let asgs = clone_assigns(assignments);
                            let n = asgs.len();
                            let mut pairs: Vec<(String, String)> = Vec::new();
                            let mut i: usize = 0;
                            while i < n
                                invariant
                                    i <= n,
                                    n == asgs@.len(),
                                    pairs@.len() == i,
                                    forall|j: int|
                                        0 <= j < i ==> (#[trigger] pairs@[j].0)@ == asgs@[j].0@
                                            && pairs@[j].1@ == asgs@[j].1@,
                                decreases n - i,
                            {
                                pairs.push((asgs[i].0.0.clone(), asgs[i].1.clone()));
                                i = i + 1;
                            }
                            pairs
                        },
                        condition: clone_cond(condition),
                    },
                );
                let p = QueryPlan {
                    query_type: QueryType::Update,
                    table: table.clone(),
                    projection: None,
                    condition: clone_cond(condition),
                    assignments: Some(clone_assigns(assignments)),
                    insert_data: None,
                    estimated_cost: 0,
                    execution_steps: steps,
                };
                proof {
                    assert(p@.execution_steps =~= base_plan(ast@).execution_steps) by {
                        assert(p@.execution_steps[0int]->UpdateRows_assignments =~= base_plan(
                            ast@,
                        ).execution_steps[0int]->UpdateRows_assignments);
                        assert(p@.execution_steps[0int] == base_plan(ast@).execution_steps[0int]);
                    }
                    assert(p@ == base_plan(ast@));
                }
                p
            },
            ASTNode::DeleteStatement { table, condition } => {
                let mut steps: Vec<ExecutionStep> = Vec::new();
                steps.push(
                    ExecutionStep::DeleteRows {
                        table: table.0.clone(),
                        condition: clone_cond(condition),
                    },
                );
                let p = QueryPlan {
                    query_type: QueryType::Delete,
                    table: table.clone(),
                    projection: None,
                    condition: clone_cond(condition),
                    assignments: None,
                    insert_data: None,
                    estimated_cost: 0,
                    execution_steps: steps,
                };
                proof {
                    assert(p@.execution_steps =~= base_plan(ast@).execution_steps);
                    assert(p@ == base_plan(ast@));
                }
                p
            },
            ASTNode::Identifier(_) => {
                return Err(
                    PlanningError::InvalidQuery(
                        String::from_str("Standalone identifier not supported"),
                    ),
                );
            },
        };
        self.optimizer.optimize_plan(&mut plan);
        Ok(plan)
    }

    /// Check a plan against the catalog: the table must exist, every
    /// named column must be a schema column (the wildcard is exempt),
    /// and an explicit insert column list must match its values in
    /// length.
    pub fn validate_plan(
        &self,
        plan: &QueryPlan,
        table_exists: bool,
        columns: &Vec<String>,
    ) -> (r: Result<(), PlanningError>)
        ensures
            ({
                let cv = columns@.map_values(|s: String| s@);
                let pv = plan@;
                match r {
                    Ok(_) => table_exists && proj_ok(pv, cv) && cond_ok(pv, cv) && asgs_ok(pv, cv)
                        && insert_cols_ok(pv, cv) && insert_count_ok(pv),
                    Err(e) => match e {
                        PlanningError::TableNotFound(n) => !table_exists && n@ == pv.table,
                        PlanningError::ColumnNotFound(c) => table_exists && !(proj_ok(pv, cv)
                            && cond_ok(pv, cv) && asgs_ok(pv, cv) && insert_cols_ok(pv, cv))
                            && !cv.contains(c@),
                        PlanningError::InvalidQuery(_) => table_exists && proj_ok(pv, cv)
                            && cond_ok(pv, cv) && asgs_ok(pv, cv) && insert_cols_ok(pv, cv)
                            && !insert_count_ok(pv),
                        PlanningError::OptimizationFailed(_) => false,
                    },
                }
            }),
    {
        let ghost cv = columns@.map_values(|s: String| s@);
        let ghost pv = plan@;
        if !table_exists {
            return Err(PlanningError::TableNotFound(plan.table.0.clone()));
        }
        match &plan.projection {
            Some(pr) => {
                let ghost prv = pr@.map_values(|ident: Identifier| ident@);
                let n = pr.len();
                let mut i: usize = 0;
                while i < n
                    invariant
                        i <= n,
                        n == pr@.len(),
                        cv == columns@.map_values(|s: String| s@),
                        pv == plan@,
                        table_exists,
                        prv == pr@.map_values(|ident: Identifier| ident@),
                        pv.projection == Some(prv),
                        forall|j: int|
                            0 <= j < i ==> prv[j] == "*"@ || cv.contains(#[trigger] prv[j]),
                    decreases n - i,
                {
                    proof {
                        assert(prv[i as int] == pr@[i as int]@);
                    }
                    if !crate::text::str_eq(pr[i].0.as_str(), "*") {
                        if !crate::schema::vec_contains_string(columns, pr[i].0.as_str()) {
                            proof {
                                assert(!cv.contains(prv[i as int]));
                                assert(prv[i as int] != "*"@);
                                assert(!proj_ok(pv, cv)) by {
                                    if proj_ok(pv, cv) {
                                        assert(pv.projection.unwrap() == prv);
                                        assert(pv.projection.unwrap()[i as int] == "*"@
                                            || cv.contains(
                                            #[trigger] pv.projection.unwrap()[i as int],
                                        ));
                                        assert(prv[i as int] == "*"@ || cv.contains(
                                            prv[i as int],
                                        ));
                                    }
                                }
                            }
                            return Err(PlanningError::ColumnNotFound(pr[i].0.clone()));
                        }
                    }
                    i = i + 1;
                }
            },
            None => {},
        }
        match &plan.condition {
            Some(c) => {
                if !crate::schema::vec_contains_string(columns, c.column.as_str()) {
                    return Err(PlanningError::ColumnNotFound(c.column.clone()));
                }
            },
            None => {},
        }
        match &plan.assignments {
            Some(asgs) => {
                let ghost asv = asgs@.map_values(|a: (Identifier, String)| (a.0@, a.1@));
                let n = asgs.len();
                let mut i: usize = 0;
                while i < n
                    invariant
                        i <= n,
                        n == asgs@.len(),
                        cv == columns@.map_values(|s: String| s@),
                        pv == plan@,
                        table_exists,
                        asv == asgs@.map_values(|a: (Identifier, String)| (a.0@, a.1@)),
                        pv.assignments == Some(asv),
                        forall|j: int| 0 <= j < i ==> cv.contains((#[trigger] asv[j]).0),
                    decreases n - i,
                {
                    proof {
                        assert(asv[i as int].0 == asgs@[i as int].0@);
                    }
                    if !crate::schema::vec_contains_string(columns, asgs[i].0.0.as_str()) {
                        proof {
                            assert(!cv.contains(asv[i as int].0));
                            assert(!asgs_ok(pv, cv)) by {
                                if asgs_ok(pv, cv) {
                                    assert(pv.assignments.unwrap() == asv);
                                    assert(cv.contains(
                                        (#[trigger] pv.assignments.unwrap()[i as int]).0,
                                    ));
                                    assert(cv.contains(asv[i as int].0));
                                }
                            }
                        }
                        return Err(PlanningError::ColumnNotFound(asgs[i].0.0.clone()));
                    }
                    i = i + 1;
                }
            },
            None => {},
        }
        match &plan.insert_data {
            Some((ic, vals)) => {
                if ic.len() > 0 {
                    let ghost icv = ic@.map_values(|ident: Identifier| ident@);
                    let n = ic.len();
                    let mut i: usize = 0;
                    while i < n
                        invariant
                            i <= n,
                            n == ic@.len(),
                            cv == columns@.map_values(|s: String| s@),
                            pv == plan@,
                            table_exists,
                            icv == ic@.map_values(|ident: Identifier| ident@),
                            pv.insert_data == Some((icv, vals@.map_values(|s: String| s@))),
                            forall|j: int| 0 <= j < i ==> cv.contains(#[trigger] icv[j]),
                        decreases n - i,
                    {
                        proof {
                            assert(icv[i as int] == ic@[i as int]@);
                        }
                        if !crate::schema::vec_contains_string(columns, ic[i].0.as_str()) {
                            proof {
                                assert(!cv.contains(icv[i as int]));
                                assert(!insert_cols_ok(pv, cv)) by {
                                    if insert_cols_ok(pv, cv) {
                                        assert(cv.contains(icv[i as int]));
                                    }
                                }
                            }
                            return Err(PlanningError::ColumnNotFound(ic[i].0.clone()));
                        }
                        i = i + 1;
                    }
                    if ic.len() != vals.len() {
                        return Err(
                            PlanningError::InvalidQuery(
                                String::from_str("Column count doesn't match value count"),
                            ),
                        );
                    }
                }
            },
            None => {},
        }
        Ok(())
    }

    /// The session's query counters.
    pub fn get_statistics(&self) -> (r: &QueryStatistics)
        ensures
            *r == self.optimizer.statistics,
    {
        &self.optimizer.statistics
    }

    /// Forget the session's query counters.
    pub fn reset_statistics(&mut self)
        ensures
            final(self).optimizer.statistics == zero_stats(),
            final(self).optimizer.enable_optimizations == old(
                self,
            ).optimizer.enable_optimizations,
    {
        self.optimizer.statistics = QueryStatistics::default();
    }
}

impl Default for QueryPlanner {
    /// A planner with a fresh optimizer.
    fn default() -> (p: QueryPlanner)
        ensures
            p.optimizer.enable_optimizations,
            p.optimizer.statistics == zero_stats(),
    {
        QueryPlanner::new()
    }
}

/// The projected columns all exist (the wildcard is exempt).
pub open spec fn proj_ok(p: PlanV, cols: Seq<Seq<char>>) -> bool {
    match p.projection {
        Some(pr) => forall|i: int|
            0 <= i < pr.len() ==> pr[i] == "*"@ || cols.contains(#[trigger] pr[i]),
        None => true,
    }
}

/// The condition's column exists.
pub open spec fn cond_ok(p: PlanV, cols: Seq<Seq<char>>) -> bool {
    match p.condition {
        Some(c) => cols.contains(c.column),
        None => true,
    }
}

/// Every assigned column exists.
pub open spec fn asgs_ok(p: PlanV, cols: Seq<Seq<char>>) -> bool {
    match p.assignments {
        Some(asgs) => forall|i: int|
            0 <= i < asgs.len() ==> cols.contains((#[trigger] asgs[i]).0),
        None => true,
    }
}

/// Every explicit insert column exists (an empty list is positional).
pub open spec fn insert_cols_ok(p: PlanV, cols: Seq<Seq<char>>) -> bool {
    match p.insert_data {
        Some((ic, vals)) => ic.len() == 0 || (forall|i: int|
            0 <= i < ic.len() ==> cols.contains(#[trigger] ic[i])),
        None => true,
    }
}

/// An explicit insert column list matches its values in length.
pub open spec fn insert_count_ok(p: PlanV) -> bool {
    match p.insert_data {
        Some((ic, vals)) => ic.len() == 0 || ic.len() == vals.len(),
        None => true,
    }
}

impl QueryOptimizer {
    /// Count one more planned query: the total always grows; a failure
    /// grows the failure counter; a success grows its kind's counter
    /// and the accumulated execution time.  All counters saturate.
    pub fn update_statistics(&mut self, query_type: &QueryType, execution_micros: u64, success: bool)
        ensures
            final(self).enable_optimizations == old(self).enable_optimizations,
            final(self).statistics.total_queries == crate::storage_engine::sat_add64(
                old(self).statistics.total_queries,
                1,
            ),
            !success ==> final(self).statistics == (QueryStatistics {
                total_queries: final(self).statistics.total_queries,
                failed_queries: crate::storage_engine::sat_add64(
                    old(self).statistics.failed_queries,
                    1,
                ),
                ..old(self).statistics
            }),
            success ==> final(self).statistics == (QueryStatistics {
                total_queries: final(self).statistics.total_queries,
                select_queries: if query_type is Select {
                    crate::storage_engine::sat_add64(old(self).statistics.select_queries, 1)
                } else {
                    old(self).statistics.select_queries
                },
                insert_queries: if query_type is Insert {
                    crate::storage_engine::sat_add64(old(self).statistics.insert_queries, 1)
                } else {
                    old(self).statistics.insert_queries
                },
                update_queries: if query_type is Update {
                    crate::storage_engine::sat_add64(old(self).statistics.update_queries, 1)
                } else {
                    old(self).statistics.update_queries
                },
                delete_queries: if query_type is Delete {
                    crate::storage_engine::sat_add64(old(self).statistics.delete_queries, 1)
                } else {
                    old(self).statistics.delete_queries
                },
                total_execution_micros: crate::storage_engine::sat_add64(
                    old(self).statistics.total_execution_micros,
                    execution_micros,
                ),
                ..old(self).statistics
            }),
    {
        self.statistics.total_queries = self.statistics.total_queries.saturating_add(1);
        if !success {
            self.statistics.failed_queries = self.statistics.failed_queries.saturating_add(1);
            return ;
        }
        match query_type {
            QueryType::Select => {
                self.statistics.select_queries = self.statistics.select_queries.saturating_add(1);
            },
            QueryType::Insert => {
                self.statistics.insert_queries = self.statistics.insert_queries.saturating_add(1);
            },
            QueryType::Update => {
                self.statistics.update_queries = self.statistics.update_queries.saturating_add(1);
            },
            QueryType::Delete => {
                self.statistics.delete_queries = self.statistics.delete_queries.saturating_add(1);
            },
        }
        self.statistics.total_execution_micros =
            self.statistics.total_execution_micros.saturating_add(execution_micros);
    }
}

// ---------------------------------------------------------------------
// Complexity analysis.
// ---------------------------------------------------------------------
/// How involved a plan looks.
#[derive(PartialEq, Eq, Structural, Clone, Copy, Debug)]
pub enum QueryComplexity {
    Simple,
    Medium,
    Complex,
}

/// The complexity score: a base per statement kind, two points for a
/// condition, one more for a projection wider than five columns.
pub open spec fn complexity_score(p: PlanV) -> int {
    (match p.query_type {
        QueryType::Select => 1int,
        QueryType::Insert => 2int,
        QueryType::Update => 3int,
        QueryType::Delete => 2int,
    }) + (if p.condition is Some {
        2int
    } else {
        0int
    }) + (match p.projection {
        Some(pr) => if pr.len() > 5 {
            1int
        } else {
            0int
        },
        None => 0int,
    })
}

/// Bucket a plan's complexity score: up to two is simple, up to five
/// medium, anything more complex.
pub fn analyze_query_complexity(plan: &QueryPlan) -> (r: QueryComplexity)
    ensures
        r == (if complexity_score(plan@) <= 2 {
            QueryComplexity::Simple
        } else if complexity_score(plan@) <= 5 {
            QueryComplexity::Medium
        } else {
            QueryComplexity::Complex
        }),
{
    let mut score: u64 = match plan.query_type {
        QueryType::Select => 1,
        QueryType::Insert => 2,
        QueryType::Update => 3,
        QueryType::Delete => 2,
    };
    match &plan.condition {
        Some(_) => {
            score = score + 2;
        },
        None => {},
    }
    match &plan.projection {
        Some(pr) => {
            if pr.len() > 5 {
                score = score + 1;
            }
        },
        None => {},
    }
    proof {
        assert(score == complexity_score(plan@));
    }
    if score <= 2 {
        QueryComplexity::Simple
    } else if score <= 5 {
        QueryComplexity::Medium
    } else {
        QueryComplexity::Complex
    }
}

// ---------------------------------------------------------------------
// The plan cache.
// ---------------------------------------------------------------------
/// Whether some entry carries the key.
pub open spec fn cache_has(entries: Seq<(Seq<char>, PlanV)>, key: Seq<char>) -> bool {
    exists|i: int| 0 <= i < entries.len() && entries[i].0 == key
}

/// The index of the first entry with the key (meaningful only when
/// [`cache_has`] holds).
pub open spec fn cache_index(entries: Seq<(Seq<char>, PlanV)>, key: Seq<char>) -> int
    decreases entries.len(),
{
    if entries.len() == 0 {
        0
    } else if entries[0].0 == key {
        0
    } else {
        1 + cache_index(entries.drop_first(), key)
    }
}

pub proof fn lemma_cache_index(entries: Seq<(Seq<char>, PlanV)>, key: Seq<char>)
    requires
        cache_has(entries, key),
    ensures
        0 <= cache_index(entries, key) < entries.len(),
        entries[cache_index(entries, key)].0 == key,
        forall|j: int| 0 <= j < cache_index(entries, key) ==> entries[j].0 != key,
    decreases entries.len(),
{
    if entries.len() == 0 {
    } else if entries[0].0 == key {
    } else {
        assert(cache_has(entries.drop_first(), key)) by {
            let i = choose|i: int| 0 <= i < entries.len() && entries[i].0 == key;
            assert(entries.drop_first()[i - 1].0 == key);
        }
        lemma_cache_index(entries.drop_first(), key);
        assert forall|j: int| 0 <= j < cache_index(entries, key) implies entries[j].0 != key by {
            if j > 0 {
                assert(entries.drop_first()[j - 1].0 != key);
            }
        }
    }
}

/// A bounded map from statement text to its plan, first in first out:
/// when full, storing a new entry evicts the oldest one.
pub struct QueryCache {
    cache: Vec<(String, QueryPlan)>,
    max_size: usize,
}

impl QueryCache {
    /// The entries, oldest first.
    pub closed spec fn entries(&self) -> Seq<(Seq<char>, PlanV)> {
        self.cache@.map_values(|p: (String, QueryPlan)| (p.0@, p.1@))
    }

    /// The configured capacity.
    pub closed spec fn capacity(&self) -> usize {
        self.max_size
    }

    /// Keys are distinct.
    pub open spec fn wf(&self) -> bool {
        forall|i: int, j: int|
            0 <= i < j < self.entries().len() ==> self.entries()[i].0 != self.entries()[j].0
    }

    /// An empty cache of the given capacity.
    pub fn new(max_size: usize) -> (c: QueryCache)
        ensures
            c.entries().len() == 0,
            c.capacity() == max_size,
            c.wf(),
    {
        let c = QueryCache { cache: Vec::new(), max_size };
        proof {
            assert(c.entries() =~= Seq::<(Seq<char>, PlanV)>::empty());
        }
        c
    }

    /// The plan stored under the given statement text, if any.
    pub fn get(&self, query_hash: &str) -> (r: Option<&QueryPlan>)
        ensures
            match r {
                Some(p) => cache_has(self.entries(), query_hash@) && p@ == self.entries()[
                    cache_index(self.entries(), query_hash@)
                ].1,
                None => !cache_has(self.entries(), query_hash@),
            },
    {
        let n = self.cache.len();
        let mut i: usize = 0;
        while i < n
            invariant
                i <= n,
                n == self.cache@.len(),
                forall|j: int| 0 <= j < i ==> self.entries()[j].0 != query_hash@,
            decreases n - i,
        {
            if crate::text::str_eq(self.cache[i].0.as_str(), query_hash) {
                proof {
                    assert(self.entries()[i as int].0 == query_hash@);
                    lemma_cache_index(self.entries(), query_hash@);
                    let ci = cache_index(self.entries(), query_hash@);
                    if ci < i as int {
                        assert(self.entries()[ci].0 != query_hash@);
                    }
                    if ci > i as int {
                        assert(self.entries()[i as int].0 != query_hash@);
                    }
                }
                return Some(&self.cache[i].1);
            }
            i = i + 1;
        }
        proof {
            if cache_has(self.entries(), query_hash@) {
                let j = choose|j: int|
                    0 <= j < self.entries().len() && self.entries()[j].0 == query_hash@;
                assert(self.entries()[j].0 != query_hash@);
            }
        }
        None
    }

    /// Store a plan under its statement text: a present key is
    /// rewritten in place; otherwise, when the cache is full, the
    /// oldest entry leaves first, and the new entry is appended.
    pub fn put(&mut self, query_hash: String, plan: QueryPlan)
        requires
            old(self).wf(),
        ensures
            final(self).wf(),
            final(self).capacity() == old(self).capacity(),
            final(self).entries() == (if cache_has(old(self).entries(), query_hash@) {
                old(self).entries().update(
                    cache_index(old(self).entries(), query_hash@),
                    (query_hash@, plan@),
                )
            } else if old(self).entries().len() >= old(self).capacity() && old(
                self,
            ).entries().len() > 0 {
                old(self).entries().drop_first().push((query_hash@, plan@))
            } else {
                old(self).entries().push((query_hash@, plan@))
            }),
    {
        let ghost orig = self.entries();
        let n = self.cache.len();
        let mut i: usize = 0;
        while i < n
            invariant
                i <= n,
                n == self.cache@.len(),
                self.entries() == orig,
                self.capacity() == old(self).capacity(),
                old(self).wf(),
                orig == old(self).entries(),
                forall|j: int| 0 <= j < i ==> orig[j].0 != query_hash@,
            decreases n - i,
        {
            if crate::text::str_eq(self.cache[i].0.as_str(), query_hash.as_str()) {
                proof {
                    assert(orig[i as int].0 == query_hash@);
                    lemma_cache_index(orig, query_hash@);
                    let ci = cache_index(orig, query_hash@);
                    if ci < i as int {
                        assert(orig[ci].0 != query_hash@);
                    }
                    if ci > i as int {
                        assert(orig[i as int].0 != query_hash@);
                    }
                }
                let ghost prev = self.cache@;
                self.cache[i] = (query_hash, plan);
                proof {
                    assert(self.cache@ == prev.update(i as int, self.cache@[i as int]));
                    assert(self.entries() =~= orig.update(
                        i as int,
                        (self.cache@[i as int].0@, self.cache@[i as int].1@),
                    ));
                    assert forall|a: int, b: int|
                        0 <= a < b < self.entries().len() implies self.entries()[a].0
                        != self.entries()[b].0 by {
                        if a != i as int && b != i as int {
                            assert(self.entries()[a].0 == orig[a].0);
                            assert(self.entries()[b].0 == orig[b].0);
                        } else if a == i as int {
                            assert(self.entries()[b].0 == orig[b].0);
                            assert(orig[b].0 != query_hash@);
                        } else {
                            assert(self.entries()[a].0 == orig[a].0);
                            assert(orig[a].0 != query_hash@);
                        }
                    }
                }
                return ;
            }
            i = i + 1;
        }
        proof {
            if cache_has(orig, query_hash@) {
                let j = choose|j: int| 0 <= j < orig.len() && orig[j].0 == query_hash@;
                assert(orig[j].0 != query_hash@);
            }
        }
        if self.cache.len() >= self.max_size && self.cache.len() > 0 {
            let ghost prev = self.cache@;
            let _evicted = self.cache.remove(0);
            proof {
                assert(self.entries() =~= orig.drop_first());
            }
        }
        let ghost before_push = self.entries();
        self.cache.push((query_hash, plan));
        proof {
            assert(self.entries() =~= before_push.push(
                (
                    self.cache@[self.cache@.len() - 1].0@,
                    self.cache@[self.cache@.len() - 1].1@,
                ),
            ));
            assert forall|a: int, b: int|
                0 <= a < b < self.entries().len() implies self.entries()[a].0
                != self.entries()[b].0 by {
                if b == self.entries().len() - 1 {
                    if before_push == orig {
                        assert(self.entries()[a].0 == orig[a].0);
                        assert(orig[a].0 != query_hash@);
                    } else {
                        assert(self.entries()[a].0 == orig[a + 1].0);
                        assert(orig[a + 1].0 != query_hash@);
                    }
                } else {
                    if before_push == orig {
                        assert(self.entries()[a].0 == orig[a].0);
                        assert(self.entries()[b].0 == orig[b].0);
                    } else {
                        assert(self.entries()[a].0 == orig[a + 1].0);
                        assert(self.entries()[b].0 == orig[b + 1].0);
                    }
                }
            }
        }
    }

    /// Forget every entry.
    pub fn clear(&mut self)
        ensures
            final(self).entries().len() == 0,
            final(self).capacity() == old(self).capacity(),
            final(self).wf(),
    {
        self.cache.clear();
    }
}

} // verus!
