//! Compilation of plans to circuits.

use vstd::prelude::*;

use crate::aggregate::{aggregate_built, compile_aggregate, compile_distinct, distinct_built};
use crate::builder::{
    added, built, compile_filter, compile_projection, filter_built, filter_node_built,
    projection_built, same_frame, two_inputs, Built,
};
use crate::circuit::{
    literal_rows, DbspCircuit, DbspOperator, Executable, ExecutableView, NodeView, OperatorView,
    UnionMode, UnionModeView, MAX_NODES,
};
use crate::cte::{empty_scope, inlined};
use crate::error::{parse_error, ErrorView, LimboError};
use crate::expr::{join_columns, join_key, join_key_outcome};
use crate::filter::or_parse_error;
use crate::join::{compile_join, join_built, join_conditions, push_all, Pushed};
use crate::logical::{
    lemma_lexpr_views, lemma_plan_views, lemma_row_views, plan_views, row_views, Column,
    ColumnInfoView, LogicalExpr, LogicalExprView, LogicalJoinType, LogicalPlan, LogicalSchema,
    PlanView,
};
use crate::names::{no_names, NameIndex};
use crate::order::MatviewOrderBy;
use crate::plan::schema_of;
use crate::text::{decimal, decimal_usize, join, joined, texts};
use crate::value::{data, Datum, Value};

verus! {

/// How often a recursive plan is iterated where it does not say.
pub const DEFAULT_RECURSIVE_MAX_ITERATIONS: usize = 10_000;

// Where the rows of a plan come from.

/// A name for where the rows of a plan come from.
pub open spec fn source_identifier(plan: PlanView) -> Seq<char>
    decreases plan,
{
    match plan {
        PlanView::TableScan { table_name, .. } => table_name,
        PlanView::Projection { input, .. } => source_identifier(*input),
        PlanView::Filter { input, .. } => source_identifier(*input),
        PlanView::Aggregate { input, .. } => "agg_"@ + source_identifier(*input),
        PlanView::Sort { input, .. } => source_identifier(*input),
        PlanView::Limit { input, .. } => source_identifier(*input),
        PlanView::Join { left, right, .. } => "join_"@ + source_identifier(*left) + "_"@
            + source_identifier(*right),
        PlanView::Union { inputs, .. } => if inputs.len() == 0 {
            "union_empty"@
        } else {
            "union_"@ + joined(source_identifiers(inputs), "_"@)
        },
        PlanView::Distinct { input } => "distinct_"@ + source_identifier(*input),
        PlanView::WithCTE { body, .. } => source_identifier(*body),
        PlanView::CTERef { name, .. } => "cte_"@ + name,
        PlanView::RecursiveCTE { name, .. } => "recursive_"@ + name,
        PlanView::RecursiveCTERef { name, .. } => "recursive_ref_"@ + name,
        PlanView::EmptyRelation { .. } => "empty"@,
        PlanView::Values { .. } => "values"@,
    }
}

pub open spec fn source_identifiers(list: Seq<PlanView>) -> Seq<Seq<char>>
    decreases list,
{
    if list.len() == 0 {
        Seq::empty()
    } else {
        source_identifiers(list.drop_last()).push(source_identifier(list.last()))
    }
}

fn prefixed(prefix: &str, rest: &str) -> (r: String)
    ensures
        r@ == prefix@ + rest@,
{
    let mut out = prefix.to_owned();
    out.append(rest);
    out
}

/// Names where the rows of a plan come from.
pub fn extract_source_identifier(plan: &LogicalPlan) -> (r: String)
    ensures
        r@ == source_identifier(plan.view()),
    decreases plan,
{
    match plan {
        LogicalPlan::TableScan { table_name, .. } => table_name.clone(),
        LogicalPlan::Projection { input, .. } => extract_source_identifier(input),
        LogicalPlan::Filter { input, .. } => extract_source_identifier(input),
        LogicalPlan::Aggregate { input, .. } => prefixed(
            "agg_",
            extract_source_identifier(input).as_str(),
        ),
        LogicalPlan::Sort { input, .. } => extract_source_identifier(input),
        LogicalPlan::Limit { input, .. } => extract_source_identifier(input),
        LogicalPlan::Join { left, right, .. } => {
            let mut out = prefixed("join_", extract_source_identifier(left).as_str());
            out.append("_");
            out.append(extract_source_identifier(right).as_str());
            out
        },
        LogicalPlan::Union { inputs, .. } => {
            let ghost views = plan_views(inputs@);
            proof {
                lemma_plan_views(inputs@);
                assert(views.take(0) =~= Seq::<PlanView>::empty());
            }
            if inputs.len() == 0 {
                return "union_empty".to_owned();
            }
            let mut names: Vec<String> = Vec::new();
            let mut i: usize = 0;
            assert(texts(names@) =~= Seq::<Seq<char>>::empty());
            while i < inputs.len()
                invariant
                    i <= inputs.len(),
                    views == plan_views(inputs@),
                    views.len() == inputs@.len(),
                    plan is Union && plan->Union_inputs == *inputs,
                    texts(names@) == source_identifiers(views.take(i as int)),
                decreases inputs.len() - i,
            {
                proof {
                    lemma_plan_views(inputs@);
                    assert(views.take(i + 1).drop_last() =~= views.take(i as int));
                    assert(views.take(i + 1).last() == inputs@[i as int].view());
                    assert(decreases_to!(inputs => inputs@[i as int]));
                }
                let name = extract_source_identifier(&inputs[i]);
                let ghost before = names@;
                let ghost n = name@;
                names.push(name);
                assert(texts(names@) =~= texts(before).push(n));
                i += 1;
            }
            assert(views.take(i as int) =~= views);
            prefixed("union_", join(&names, "_").as_str())
        },
        LogicalPlan::Distinct { input } => prefixed(
            "distinct_",
            extract_source_identifier(input).as_str(),
        ),
        LogicalPlan::WithCTE { body, .. } => extract_source_identifier(body),
        LogicalPlan::CTERef { name, .. } => prefixed("cte_", name.as_str()),
        LogicalPlan::RecursiveCTE { name, .. } => prefixed("recursive_", name.as_str()),
        LogicalPlan::RecursiveCTERef { name, .. } => prefixed("recursive_ref_", name.as_str()),
        LogicalPlan::EmptyRelation { .. } => "empty".to_owned(),
        LogicalPlan::Values { .. } => "values".to_owned(),
    }
}

// The operators of single plans.

/// A source of changes, as a node.
pub open spec fn input_node(name: Seq<char>, schema: Seq<ColumnInfoView>) -> NodeView {
    NodeView {
        operator: OperatorView::Input { name, schema },
        inputs: Seq::empty(),
        executable: ExecutableView::Input { name },
    }
}

fn add_input(circuit: &mut DbspCircuit, name: &str, schema: &LogicalSchema) -> (r: Result<
    i64,
    LimboError,
>)
    requires
        old(circuit).wf(),
    ensures
        final(circuit).wf(),
        same_frame(*final(circuit), *old(circuit)),
        built(r, final(circuit)@, added(old(circuit)@, input_node(name@, schema@))),
{
    let inputs: Vec<i64> = Vec::new();
    assert(inputs@ =~= Seq::<i64>::empty());
    circuit.add_node(
        DbspOperator::Input { name: name.to_owned(), schema: schema.clone() },
        inputs,
        Executable::Input { name: name.to_owned() },
    )
}

/// Constant rows, as a node.
pub open spec fn literal_node(rows: Seq<Seq<Datum>>, schema: Seq<ColumnInfoView>) -> NodeView {
    NodeView {
        operator: OperatorView::Literal { schema },
        inputs: Seq::empty(),
        executable: ExecutableView::Literal { rows },
    }
}

fn add_literal(circuit: &mut DbspCircuit, rows: Vec<Vec<Value>>, schema: &LogicalSchema) -> (r:
    Result<i64, LimboError>)
    requires
        old(circuit).wf(),
    ensures
        final(circuit).wf(),
        same_frame(*final(circuit), *old(circuit)),
        built(
            r,
            final(circuit)@,
            added(old(circuit)@, literal_node(literal_rows(rows@), schema@)),
        ),
{
    let inputs: Vec<i64> = Vec::new();
    assert(inputs@ =~= Seq::<i64>::empty());
    circuit.add_node(
        DbspOperator::Literal { schema: schema.clone() },
        inputs,
        Executable::Literal { rows },
    )
}

/// The row of no columns, or no row.
pub open spec fn relation_rows(one: bool) -> Seq<Seq<Datum>> {
    if one {
        seq![Seq::empty()]
    } else {
        Seq::empty()
    }
}

pub open spec fn is_literal(e: LogicalExprView) -> bool {
    e is Literal
}

/// The rows of a VALUES, all of which must be literals.
pub open spec fn value_rows(rows: Seq<Seq<LogicalExprView>>) -> Result<Seq<Seq<Datum>>, ErrorView> {
    if forall|i: int, j: int|
        0 <= i < rows.len() && 0 <= j < rows[i].len() ==> is_literal(#[trigger] rows[i][j]) {
        Ok(
            rows.map_values(
                |row: Seq<LogicalExprView>|
                    row.map_values(|e: LogicalExprView| e->Literal_0),
            ),
        )
    } else {
        Err(ErrorView::ParseError("VALUES expressions must be literals"@))
    }
}

fn evaluate_values(rows: &Vec<Vec<LogicalExpr>>) -> (r: Result<Vec<Vec<Value>>, LimboError>)
    ensures
        match value_rows(row_views(rows@)) {
            Ok(v) => r matches Ok(out) && literal_rows(out@) == v,
            Err(e) => r matches Err(err) && err@ == e,
        },
{
    let ghost views = row_views(rows@);
    let mut out: Vec<Vec<Value>> = Vec::new();
    let mut i: usize = 0;
    proof {
        lemma_row_views(rows@);
    }
    while i < rows.len()
        invariant
            i <= rows.len(),
            views == row_views(rows@),
            views.len() == rows@.len(),
            out@.len() == i,
            forall|a: int, b: int|
                0 <= a < i && 0 <= b < views[a].len() ==> is_literal(#[trigger] views[a][b]),
            forall|a: int|
                0 <= a < i ==> data((#[trigger] out@[a])@) == views[a].map_values(
                    |e: LogicalExprView| e->Literal_0,
                ),
        decreases rows.len() - i,
    {
        let row = &rows[i];
        proof {
            lemma_row_views(rows@);
            lemma_lexpr_views(row@);
        }
        let mut values: Vec<Value> = Vec::new();
        let mut j: usize = 0;
        while j < row.len()
            invariant
                j <= row.len(),
                i < rows.len(),
                views == row_views(rows@),
                views.len() == rows@.len(),
                *row == rows@[i as int],
                views[i as int].len() == row@.len(),
                values@.len() == j,
                forall|b: int| 0 <= b < j ==> is_literal(#[trigger] views[i as int][b]),
                forall|b: int|
                    0 <= b < j ==> (#[trigger] values@[b])@ == views[i as int][b]->Literal_0,
            decreases row.len() - j,
        {
            proof {
                lemma_row_views(rows@);
                lemma_lexpr_views(row@);
                assert(views[i as int][j as int] == row@[j as int].view());
            }
            match &row[j] {
                LogicalExpr::Literal(v) => {
                    values.push(v.clone());
                },
                _ => {
                    assert(!is_literal(views[i as int][j as int]));
                    return Err(parse_error("VALUES expressions must be literals"));
                },
            }
            j += 1;
        }
        assert(data(values@) =~= views[i as int].map_values(|e: LogicalExprView| e->Literal_0));
        out.push(values);
        i += 1;
    }
    assert(literal_rows(out@) =~= value_rows(views)->Ok_0);
    Ok(out)
}

/// The operator that puts two nodes together, as a node. Where all rows are kept, they are kept
/// apart by where they come from.
pub open spec fn union_node(
    id: int,
    left: int,
    right: int,
    all: bool,
    left_source: Seq<char>,
    right_source: Seq<char>,
    schema: Seq<ColumnInfoView>,
) -> NodeView {
    NodeView {
        operator: OperatorView::Merge { schema },
        inputs: seq![left as i64, right as i64],
        executable: ExecutableView::Merge {
            operator_id: id,
            mode: if all {
                UnionModeView::All { left_table: left_source, right_table: right_source }
            } else {
                UnionModeView::Distinct
            },
        },
    }
}

pub open spec fn iterations(max_iterations: Option<usize>) -> usize {
    match max_iterations {
        Some(n) => n,
        None => DEFAULT_RECURSIVE_MAX_ITERATIONS,
    }
}

/// The operator that iterates to a fixed point, as a node.
pub open spec fn recursive_node(
    id: int,
    base: int,
    step: int,
    delay: int,
    name: Seq<char>,
    union_all: bool,
    max_iterations: Option<usize>,
    schema: Seq<ColumnInfoView>,
) -> NodeView {
    NodeView {
        operator: OperatorView::Recursive {
            name,
            max_iterations: iterations(max_iterations) as int,
            union_all,
            schema,
        },
        inputs: seq![base as i64, step as i64, delay as i64],
        executable: ExecutableView::Recursive {
            operator_id: id,
            name,
            max_iterations: iterations(max_iterations) as int,
            union_all,
        },
    }
}

/// The input that feeds the step of a recursive plan what the last round put out.
pub open spec fn delay_name(name: Seq<char>) -> Seq<char> {
    "__delay_"@ + name
}

// Whole plans.

/// What compiling comes to: the nodes, what the names of recursive plans stand for, and the node
/// of the plan.
pub struct Compiled {
    pub nodes: Seq<NodeView>,
    pub refs: Map<Seq<char>, usize>,
    pub id: int,
}

pub open spec fn with_refs(b: Built, refs: Map<Seq<char>, usize>) -> Result<Compiled, ErrorView> {
    match b {
        Ok(x) => Ok(Compiled { nodes: x.0, refs, id: x.1 }),
        Err(e) => Err(e),
    }
}

pub open spec fn unsupported(what: Seq<char>) -> ErrorView {
    ErrorView::ParseError(
        "Unsupported operator in DBSP compiler: only Filter, Projection, Join, Aggregate, Union, EmptyRelation, and Values are supported, got: \""@
            + what + "\""@,
    )
}

/// The circuit of a plan. A recursive plan is made of a delay input, its base case, its step, and
/// the operator that iterates; inside it, its name stands for the delay input. ORDER BY and LIMIT
/// are left to those who read the view.
pub open spec fn compiled_plan(
    plan: PlanView,
    nodes: Seq<NodeView>,
    refs: Map<Seq<char>, usize>,
) -> Result<Compiled, ErrorView>
    decreases plan,
{
    match plan {
        PlanView::Projection { input, exprs, schema } => match compiled_plan(*input, nodes, refs) {
            Err(e) => Err(e),
            Ok(c) => with_refs(
                projection_built(c.nodes, c.id, schema_of(*input), exprs, schema),
                c.refs,
            ),
        },
        PlanView::Filter { input, predicate } => match compiled_plan(*input, nodes, refs) {
            Err(e) => Err(e),
            Ok(c) => with_refs(filter_built(c.nodes, c.id, schema_of(*input), predicate), c.refs),
        },
        PlanView::Aggregate { input, group_expr, aggr_expr, schema } => match compiled_plan(
            *input,
            nodes,
            refs,
        ) {
            Err(e) => Err(e),
            Ok(c) => with_refs(
                aggregate_built(
                    c.nodes,
                    c.id,
                    schema_of(*input),
                    group_expr,
                    aggr_expr,
                    schema,
                ),
                c.refs,
            ),
        },
        PlanView::Join { left, right, join_type, on, filter, schema } => match compiled_plan(
            *left,
            nodes,
            refs,
        ) {
            Err(e) => Err(e),
            Ok(l) => match compiled_plan(*right, l.nodes, l.refs) {
                Err(e) => Err(e),
                Ok(r) => with_refs(
                    join_built(
                        r.nodes,
                        l.id,
                        r.id,
                        join_type,
                        on,
                        match filter {
                            Some(f) => Some(*f),
                            None => None,
                        },
                        schema_of(*left),
                        schema_of(*right),
                        schema,
                    ),
                    r.refs,
                ),
            },
        },
        PlanView::TableScan { table_name, schema } => with_refs(
            added(nodes, input_node(table_name, schema)),
            refs,
        ),
        PlanView::Union { inputs, all, schema } => if inputs.len() != 2 {
            Err(
                ErrorView::ParseError(
                    "UNION requires exactly 2 inputs, got "@ + decimal(inputs.len()),
                ),
            )
        } else {
            match compiled_plan(inputs[0], nodes, refs) {
                Err(e) => Err(e),
                Ok(l) => match compiled_plan(inputs[1], l.nodes, l.refs) {
                    Err(e) => Err(e),
                    Ok(r) => with_refs(
                        added(
                            r.nodes,
                            union_node(
                                r.nodes.len() as int + 1,
                                l.id,
                                r.id,
                                all,
                                source_identifier(inputs[0]),
                                source_identifier(inputs[1]),
                                schema,
                            ),
                        ),
                        r.refs,
                    ),
                },
            }
        },
        PlanView::Distinct { input } => match compiled_plan(*input, nodes, refs) {
            Err(e) => Err(e),
            Ok(c) => with_refs(distinct_built(c.nodes, c.id, schema_of(*input)), c.refs),
        },
        PlanView::RecursiveCTE {
            name,
            base_case,
            recursive_step,
            union_all,
            max_iterations,
            schema,
        } => match added(nodes, input_node(delay_name(name), schema)) {
            Err(e) => Err(e),
            Ok(d) => match compiled_plan(*base_case, d.0, refs.insert(name, d.1 as usize)) {
                Err(e) => Err(e),
                Ok(b) => match compiled_plan(*recursive_step, b.nodes, b.refs) {
                    Err(e) => Err(e),
                    Ok(s) => with_refs(
                        added(
                            s.nodes,
                            recursive_node(
                                s.nodes.len() as int + 1,
                                b.id,
                                s.id,
                                d.1,
                                name,
                                union_all,
                                max_iterations,
                                schema,
                            ),
                        ),
                        s.refs.remove(name),
                    ),
                },
            },
        },
        PlanView::RecursiveCTERef { name, schema: _ } => if refs.dom().contains(name) {
            Ok(Compiled { nodes, refs, id: refs[name] as int })
        } else {
            Err(
                ErrorView::ParseError(
                    "Recursive CTE reference '"@ + name + "' not found in scope"@,
                ),
            )
        },
        PlanView::EmptyRelation { produce_one_row, schema } => with_refs(
            added(nodes, literal_node(relation_rows(produce_one_row), schema)),
            refs,
        ),
        PlanView::Sort { input, exprs: _ } => compiled_plan(*input, nodes, refs),
        PlanView::Limit { input, fetch: _ } => compiled_plan(*input, nodes, refs),
        PlanView::Values { rows, schema } => match value_rows(rows) {
            Err(e) => Err(e),
            Ok(v) => with_refs(added(nodes, literal_node(v, schema)), refs),
        },
        PlanView::WithCTE { .. } => Err(unsupported("WithCTE"@)),
        PlanView::CTERef { .. } => Err(unsupported("CTERef"@)),
    }
}

fn unsupported_operator(what: &str) -> (r: LimboError)
    ensures
        r@ == unsupported(what@),
{
    let mut m =
        "Unsupported operator in DBSP compiler: only Filter, Projection, Join, Aggregate, Union, EmptyRelation, and Values are supported, got: \"".to_owned();
    m.append(what);
    m.append("\"");
    LimboError::ParseError(m)
}

fn recursive_inputs(base: i64, step: i64, delay: i64) -> (r: Vec<i64>)
    ensures
        r@ == seq![base, step, delay],
{
    let mut v: Vec<i64> = Vec::new();
    v.push(base);
    v.push(step);
    v.push(delay);
    assert(v@ =~= seq![base, step, delay]);
    v
}

/// A compiler of plans to circuits.
#[derive(Debug)]
pub struct DbspCompiler {
    pub circuit: DbspCircuit,
    /// The delay input that the name of each recursive plan stands for.
    pub recursive_cte_refs: NameIndex,
}

impl DbspCompiler {
    pub open spec fn wf(&self) -> bool {
        &&& self.circuit.wf()
        &&& forall|n: Seq<char>| #[trigger]
            self.recursive_cte_refs@.dom().contains(n) ==> 1 <= self.recursive_cte_refs@[n]
                <= self.circuit@.len()
    }

    /// A compiler that has compiled nothing yet.
    pub fn new(
        main_data_root: i64,
        internal_state_root: i64,
        internal_state_index_root: i64,
        order_by: MatviewOrderBy,
        limit: Option<i64>,
    ) -> (r: Self)
        ensures
            r.wf(),
            r.circuit@.len() == 0,
            r.recursive_cte_refs@ == no_names(),
            r.circuit.main_data_root == main_data_root,
            r.circuit.internal_state_root == internal_state_root,
            r.circuit.internal_state_index_root == internal_state_index_root,
            r.circuit.order_by == order_by,
            r.circuit.limit == limit,
    {
        DbspCompiler {
            circuit: DbspCircuit::new(
                main_data_root,
                internal_state_root,
                internal_state_index_root,
                order_by,
                limit,
            ),
            recursive_cte_refs: NameIndex::new(),
        }
    }

    /// Tells which side of a join each of the two columns of a condition belongs to: the left
    /// column and its position, then the right column and its position.
    pub fn resolve_join_columns(
        first_col: &Column,
        second_col: &Column,
        left_schema: &LogicalSchema,
        right_schema: &LogicalSchema,
    ) -> (r: Result<(Column, usize, Column, usize), LimboError>)
        ensures
            join_key_outcome(r) == or_parse_error(
                join_key(first_col@, second_col@, left_schema@, right_schema@),
            ),
    {
        join_columns(first_col, second_col, left_schema, right_schema)
    }

    /// Compiles a plan to a circuit whose root stands for it.
    pub fn compile(self, plan: &LogicalPlan) -> (r: Result<DbspCircuit, LimboError>)
        requires
            self.wf(),
        ensures
            match inlined(plan.view(), empty_scope()) {
                Err(e) => r matches Err(err) && err@ == e,
                Ok(p) => match compiled_plan(p, self.circuit@, self.recursive_cte_refs@) {
                    Err(e) => r matches Err(err) && err@ == e,
                    Ok(c) => {
                        &&& r matches Ok(circuit)
                        &&& circuit.wf()
                        &&& circuit@ == c.nodes
                        &&& circuit.root == Some(c.id as i64)
                        &&& 1 <= c.id <= c.nodes.len()
                        &&& circuit.output_schema@ == schema_of(p)
                        &&& circuit.main_data_root == self.circuit.main_data_root
                        &&& circuit.internal_state_root == self.circuit.internal_state_root
                        &&& circuit.internal_state_index_root
                            == self.circuit.internal_state_index_root
                        &&& circuit.order_by == self.circuit.order_by
                        &&& circuit.limit == self.circuit.limit
                    },
                },
            },
    {
        let inlined_plan = match plan.inline_ctes() {
            Ok(p) => p,
            Err(e) => return Err(e),
        };
        let mut compiler = self;
        let root_id = match compiler.compile_plan(&inlined_plan) {
            Ok(id) => id,
            Err(e) => return Err(e),
        };
        let output_schema = inlined_plan.schema().clone();
        let DbspCompiler { mut circuit, recursive_cte_refs: _ } = compiler;
        circuit.set_root(root_id, output_schema);
        Ok(circuit)
    }

    #[verifier::rlimit(40)]
    fn compile_plan(&mut self, plan: &LogicalPlan) -> (r: Result<i64, LimboError>)
        requires
            old(self).wf(),
        ensures
            same_frame(final(self).circuit, old(self).circuit),
            match compiled_plan(plan.view(), old(self).circuit@, old(self).recursive_cte_refs@) {
                Err(e) => r matches Err(err) && err@ == e,
                Ok(c) => {
                    &&& r matches Ok(id) && id == c.id
                    &&& final(self).wf()
                    &&& final(self).circuit@ == c.nodes
                    &&& final(self).recursive_cte_refs@ == c.refs
                    &&& 1 <= c.id <= c.nodes.len()
                    &&& old(self).circuit@.len() <= c.nodes.len()
                },
            },
        decreases plan,
    {
        match plan {
            LogicalPlan::Projection { input, exprs, schema } => {
                let input_id = match self.compile_plan(input) {
                    Ok(id) => id,
                    Err(e) => return Err(e),
                };
                compile_projection(&mut self.circuit, input_id, input.schema(), exprs, schema)
            },
            LogicalPlan::Filter { input, predicate } => {
                let input_id = match self.compile_plan(input) {
                    Ok(id) => id,
                    Err(e) => return Err(e),
                };
                compile_filter(&mut self.circuit, input_id, input.schema(), predicate)
            },
            LogicalPlan::Aggregate { input, group_expr, aggr_expr, schema } => {
                let input_id = match self.compile_plan(input) {
                    Ok(id) => id,
                    Err(e) => return Err(e),
                };
                compile_aggregate(
                    &mut self.circuit,
                    input_id,
                    input.schema(),
                    group_expr,
                    aggr_expr,
                    schema,
                )
            },
            LogicalPlan::Join { left, right, join_type, on, filter, schema } => {
                let left_id = match self.compile_plan(left) {
                    Ok(id) => id,
                    Err(e) => return Err(e),
                };
                let right_id = match self.compile_plan(right) {
                    Ok(id) => id,
                    Err(e) => return Err(e),
                };
                compile_join(
                    &mut self.circuit,
                    left_id,
                    right_id,
                    *join_type,
                    on,
                    filter,
                    left.schema(),
                    right.schema(),
                    schema,
                )
            },
            LogicalPlan::TableScan { table_name, schema } => add_input(
                &mut self.circuit,
                table_name.as_str(),
                schema,
            ),
            LogicalPlan::Union { inputs, all, schema } => {
                proof {
                    lemma_plan_views(inputs@);
                }
                if inputs.len() != 2 {
                    let mut m = "UNION requires exactly 2 inputs, got ".to_owned();
                    m.append(decimal_usize(inputs.len()).as_str());
                    return Err(LimboError::ParseError(m));
                }
                let left_source = extract_source_identifier(&inputs[0]);
                let right_source = extract_source_identifier(&inputs[1]);
                proof {
                    assert(decreases_to!(inputs => inputs@[0]));
                    assert(decreases_to!(inputs => inputs@[1]));
                }
                let left_id = match self.compile_plan(&inputs[0]) {
                    Ok(id) => id,
                    Err(e) => return Err(e),
                };
                let right_id = match self.compile_plan(&inputs[1]) {
                    Ok(id) => id,
                    Err(e) => return Err(e),
                };
                let mode = if *all {
                    UnionMode::All { left_table: left_source, right_table: right_source }
                } else {
                    UnionMode::Distinct
                };
                let operator_id: i64 = self.circuit.next_id;
                self.circuit.add_node(
                    DbspOperator::Merge { schema: schema.clone() },
                    two_inputs(left_id, right_id),
                    Executable::Merge { operator_id, mode },
                )
            },
            LogicalPlan::Distinct { input } => {
                let input_id = match self.compile_plan(input) {
                    Ok(id) => id,
                    Err(e) => return Err(e),
                };
                compile_distinct(&mut self.circuit, input_id, input.schema())
            },
            LogicalPlan::RecursiveCTE {
                name,
                base_case,
                recursive_step,
                union_all,
                max_iterations,
                schema,
            } => {
                let delay = prefixed("__delay_", name.as_str());
                let delay_id = match add_input(&mut self.circuit, delay.as_str(), schema) {
                    Ok(id) => id,
                    Err(e) => return Err(e),
                };
                self.recursive_cte_refs.insert(name.clone(), delay_id as usize);
                let result = match self.compile_plan(base_case) {
                    Err(e) => Err(e),
                    Ok(base_id) => match self.compile_plan(recursive_step) {
                        Err(e) => Err(e),
                        Ok(step_id) => {
                            let max: usize = match max_iterations {
                                Some(n) => *n,
                                None => DEFAULT_RECURSIVE_MAX_ITERATIONS,
                            };
                            let operator_id: i64 = self.circuit.next_id;
                            self.circuit.add_node(
                                DbspOperator::Recursive {
                                    name: name.clone(),
                                    max_iterations: max,
                                    union_all: *union_all,
                                    schema: schema.clone(),
                                },
                                recursive_inputs(base_id, step_id, delay_id),
                                Executable::Recursive {
                                    operator_id,
                                    name: name.clone(),
                                    max_iterations: max,
                                    union_all: *union_all,
                                },
                            )
                        },
                    },
                };
                // The name is out of scope again, whatever came of the compilation.
                self.recursive_cte_refs.remove(name.as_str());
                result
            },
            LogicalPlan::RecursiveCTERef { name, schema: _ } => {
                match self.recursive_cte_refs.get(name.as_str()) {
                    Some(id) => {
                        assert(self.recursive_cte_refs@.dom().contains(name@));
                        Ok(id as i64)
                    },
                    None => {
                        let mut m = "Recursive CTE reference '".to_owned();
                        m.append(name.as_str());
                        m.append("' not found in scope");
                        Err(LimboError::ParseError(m))
                    },
                }
            },
            LogicalPlan::EmptyRelation { produce_one_row, schema } => {
                let mut rows: Vec<Vec<Value>> = Vec::new();
                if *produce_one_row {
                    rows.push(Vec::new());
                }
                proof {
                    if *produce_one_row {
                        assert(data(rows@[0]@) =~= Seq::<Datum>::empty());
                    }
                    assert(literal_rows(rows@) =~= relation_rows(*produce_one_row));
                }
                add_literal(&mut self.circuit, rows, schema)
            },
            LogicalPlan::Sort { input, exprs: _ } => self.compile_plan(input),
            LogicalPlan::Limit { input, fetch: _ } => self.compile_plan(input),
            LogicalPlan::Values { rows, schema } => {
                match evaluate_values(rows) {
                    Ok(values) => add_literal(&mut self.circuit, values, schema),
                    Err(e) => Err(e),
                }
            },
            LogicalPlan::WithCTE { .. } => Err(unsupported_operator("WithCTE")),
            LogicalPlan::CTERef { .. } => Err(unsupported_operator("CTERef")),
        }
    }
}

// What compiling leaves alone.

/// Whether nodes are others with more behind them.
pub open spec fn extends(after: Seq<NodeView>, before: Seq<NodeView>) -> bool {
    &&& before.len() <= after.len()
    &&& after.take(before.len() as int) == before
}

pub open spec fn build_extends(b: Built, before: Seq<NodeView>) -> bool {
    b matches Ok(x) ==> extends(x.0, before)
}

proof fn lemma_added(nodes: Seq<NodeView>, node: NodeView)
    ensures
        build_extends(added(nodes, node), nodes),
{
    assert(nodes.push(node).take(nodes.len() as int) =~= nodes);
}

proof fn lemma_extends_chain(a: Seq<NodeView>, b: Seq<NodeView>, c: Seq<NodeView>)
    requires
        extends(b, a),
        extends(c, b),
    ensures
        extends(c, a),
{
    assert(c.take(a.len() as int) =~= c.take(b.len() as int).take(a.len() as int));
}

/// A node more on top of nodes that extend others.
proof fn lemma_added_on(before: Seq<NodeView>, nodes: Seq<NodeView>, node: NodeView)
    requires
        extends(nodes, before),
    ensures
        build_extends(added(nodes, node), before),
{
    lemma_added(nodes, node);
    if added(nodes, node) is Ok {
        lemma_extends_chain(before, nodes, nodes.push(node));
    }
}

proof fn lemma_filter_extends(
    before: Seq<NodeView>,
    nodes: Seq<NodeView>,
    input: int,
    schema: Seq<ColumnInfoView>,
    predicate: LogicalExprView,
)
    requires
        extends(nodes, before),
    ensures
        build_extends(filter_node_built(nodes, input, predicate, schema), before),
        build_extends(filter_built(nodes, input, schema, predicate), before),
{
    reveal(filter_built);
    assert forall|n: Seq<NodeView>, node: NodeView| extends(n, before) implies build_extends(
        #[trigger] added(n, node),
        before,
    ) by {
        lemma_added_on(before, n, node);
    }
}

proof fn lemma_pushed_extends(
    before: Seq<NodeView>,
    start: Pushed,
    list: Seq<LogicalExprView>,
    left: Seq<ColumnInfoView>,
    right: Seq<ColumnInfoView>,
    outer: bool,
)
    requires
        extends(start.nodes, before),
    ensures
        push_all(start, list, left, right, outer) matches Ok(p) ==> extends(p.nodes, before),
    decreases list.len(),
{
    if list.len() > 0 {
        lemma_pushed_extends(before, start, list.drop_last(), left, right, outer);
        if let Ok(p) = push_all(start, list.drop_last(), left, right, outer) {
            lemma_filter_extends(before, p.nodes, p.left, left, list.last());
            lemma_filter_extends(before, p.nodes, p.right, right, list.last());
        }
    }
}

pub proof fn lemma_join_extends(
    before: Seq<NodeView>,
    nodes: Seq<NodeView>,
    left: int,
    right: int,
    join_type: LogicalJoinType,
    on: Seq<(LogicalExprView, LogicalExprView)>,
    filter: Option<LogicalExprView>,
    left_schema: Seq<ColumnInfoView>,
    right_schema: Seq<ColumnInfoView>,
    schema: Seq<ColumnInfoView>,
)
    requires
        extends(nodes, before),
    ensures
        build_extends(
            join_built(
                nodes,
                left,
                right,
                join_type,
                on,
                filter,
                left_schema,
                right_schema,
                schema,
            ),
            before,
        ),
{
    reveal(join_built);
    let start = Pushed { nodes, left, right, cross: Seq::empty() };
    let outer = join_type == LogicalJoinType::Left;
    lemma_pushed_extends(
        before,
        start,
        join_conditions(filter),
        left_schema,
        right_schema,
        outer,
    );
    assert forall|n: Seq<NodeView>, node: NodeView| extends(n, before) implies build_extends(
        #[trigger] added(n, node),
        before,
    ) by {
        lemma_added_on(before, n, node);
    }
}

/// Compiling a plan only adds nodes: those that were there stay as they are, in their places.
pub proof fn law_compiling_only_adds_nodes(
    plan: PlanView,
    nodes: Seq<NodeView>,
    refs: Map<Seq<char>, usize>,
)
    ensures
        compiled_plan(plan, nodes, refs) matches Ok(c) ==> extends(c.nodes, nodes),
    decreases plan,
{
    assert(nodes.take(nodes.len() as int) =~= nodes);
    assert forall|n: Seq<NodeView>, node: NodeView| extends(n, nodes) implies build_extends(
        #[trigger] added(n, node),
        nodes,
    ) by {
        lemma_added_on(nodes, n, node);
    }
    match plan {
        PlanView::Projection { input, exprs: _, schema: _ } => {
            law_compiling_only_adds_nodes(*input, nodes, refs);
            reveal(projection_built);
        },
        PlanView::Filter { input, predicate } => {
            law_compiling_only_adds_nodes(*input, nodes, refs);
            if let Ok(c) = compiled_plan(*input, nodes, refs) {
                lemma_filter_extends(nodes, c.nodes, c.id, schema_of(*input), predicate);
            }
        },
        PlanView::Aggregate { input, .. } => {
            law_compiling_only_adds_nodes(*input, nodes, refs);
            reveal(aggregate_built);
        },
        PlanView::Join { left, right, join_type, on, filter, schema } => {
            law_compiling_only_adds_nodes(*left, nodes, refs);
            if let Ok(l) = compiled_plan(*left, nodes, refs) {
                law_compiling_only_adds_nodes(*right, l.nodes, l.refs);
                if let Ok(r) = compiled_plan(*right, l.nodes, l.refs) {
                    lemma_extends_chain(nodes, l.nodes, r.nodes);
                    lemma_join_extends(
                        nodes,
                        r.nodes,
                        l.id,
                        r.id,
                        join_type,
                        on,
                        match filter {
                            Some(f) => Some(*f),
                            None => None,
                        },
                        schema_of(*left),
                        schema_of(*right),
                        schema,
                    );
                }
            }
        },
        PlanView::Union { inputs, .. } => {
            if inputs.len() == 2 {
                assert(decreases_to!(plan => inputs[0]));
                assert(decreases_to!(plan => inputs[1]));
                law_compiling_only_adds_nodes(inputs[0], nodes, refs);
                if let Ok(l) = compiled_plan(inputs[0], nodes, refs) {
                    law_compiling_only_adds_nodes(inputs[1], l.nodes, l.refs);
                    if let Ok(r) = compiled_plan(inputs[1], l.nodes, l.refs) {
                        lemma_extends_chain(nodes, l.nodes, r.nodes);
                    }
                }
            }
        },
        PlanView::Distinct { input } => {
            law_compiling_only_adds_nodes(*input, nodes, refs);
            reveal(distinct_built);
        },
        PlanView::RecursiveCTE { name, base_case, recursive_step, schema, .. } => {
            if let Ok(d) = added(nodes, input_node(delay_name(name), schema)) {
                let inside = refs.insert(name, d.1 as usize);
                law_compiling_only_adds_nodes(*base_case, d.0, inside);
                if let Ok(b) = compiled_plan(*base_case, d.0, inside) {
                    lemma_extends_chain(nodes, d.0, b.nodes);
                    law_compiling_only_adds_nodes(*recursive_step, b.nodes, b.refs);
                    if let Ok(s) = compiled_plan(*recursive_step, b.nodes, b.refs) {
                        lemma_extends_chain(nodes, b.nodes, s.nodes);
                    }
                }
            }
        },
        PlanView::Sort { input, .. } => {
            law_compiling_only_adds_nodes(*input, nodes, refs);
        },
        PlanView::Limit { input, .. } => {
            law_compiling_only_adds_nodes(*input, nodes, refs);
        },
        _ => {},
    }
}

/// Two sides of a union are told apart by what their rows come from: a table by its name, and what is
/// made of others by how it is made and of which. Operators that keep rows as they are do not count.
pub proof fn law_sources_are_named_by_what_they_are_made_of(plan: PlanView, parts: Seq<Seq<char>>)
    requires
        plan matches PlanView::Union { inputs, .. } ==> parts.len() == inputs.len() && forall|i: int|
            0 <= i < inputs.len() ==> #[trigger] parts[i] == source_identifier(inputs[i]),
    ensures
        match plan {
            PlanView::TableScan { table_name, .. } => source_identifier(plan) == table_name,
            PlanView::Projection { input, .. } => source_identifier(plan) == source_identifier(
                *input,
            ),
            PlanView::Filter { input, .. } => source_identifier(plan) == source_identifier(*input),
            PlanView::Sort { input, .. } => source_identifier(plan) == source_identifier(*input),
            PlanView::Limit { input, .. } => source_identifier(plan) == source_identifier(*input),
            PlanView::Aggregate { input, .. } => source_identifier(plan) == "agg_"@
                + source_identifier(*input),
            PlanView::Distinct { input } => source_identifier(plan) == "distinct_"@
                + source_identifier(*input),
            PlanView::Join { left, right, .. } => source_identifier(plan) == "join_"@
                + source_identifier(*left) + "_"@ + source_identifier(*right),
            PlanView::Union { inputs, .. } => source_identifier(plan) == (if inputs.len() == 0 {
                "union_empty"@
            } else {
                "union_"@ + joined(parts, "_"@)
            }),
            _ => true,
        },
{
    if let PlanView::Union { inputs, .. } = plan {
        lemma_source_identifiers(inputs);
        assert(source_identifiers(inputs) =~= parts);
    }
}

proof fn lemma_source_identifiers(list: Seq<PlanView>)
    ensures
        source_identifiers(list).len() == list.len(),
        forall|i: int|
            0 <= i < list.len() ==> source_identifiers(list)[i] == source_identifier(
                #[trigger] list[i],
            ),
    decreases list.len(),
{
    if list.len() > 0 {
        let front = list.drop_last();
        lemma_source_identifiers(front);
        assert forall|i: int| 0 <= i < list.len() implies source_identifiers(list)[i]
            == source_identifier(#[trigger] list[i]) by {
            if i < front.len() {
                assert(front[i] == list[i]);
            }
        }
    }
}

/// A recursive plan becomes an input for what the last round put out, its base case, its step, in
/// which its name stands for that input, and on top of these the operator that iterates over them.
/// Where the plan does not say how often, it iterates ten thousand times at most. Afterwards the name
/// stands for nothing any more.
pub proof fn law_a_recursive_plan_is_iterated_over_its_base_and_step(
    plan: PlanView,
    nodes: Seq<NodeView>,
    refs: Map<Seq<char>, usize>,
)
    requires
        plan is RecursiveCTE,
        nodes.len() < MAX_NODES,
        compiled_plan(plan, nodes, refs) is Ok,
    ensures
        ({
            let name = plan->RecursiveCTE_name;
            let c = compiled_plan(plan, nodes, refs)->Ok_0;
            let delay = nodes.len() as int + 1;
            let fed = nodes.push(c.nodes[delay - 1]);
            let base = compiled_plan(
                *plan->RecursiveCTE_base_case,
                fed,
                refs.insert(name, delay as usize),
            );
            &&& base matches Ok(b) && (compiled_plan(
                *plan->RecursiveCTE_recursive_step,
                b.nodes,
                b.refs,
            ) matches Ok(s) && c.nodes == s.nodes.push(c.nodes.last()) && c.nodes.last().inputs
                == seq![b.id as i64, s.id as i64, delay as i64] && c.refs == s.refs.remove(name))
            &&& c.nodes[delay - 1].executable == (ExecutableView::Input {
                name: "__delay_"@ + name,
            })
            &&& c.id == c.nodes.len()
            &&& c.nodes.last().executable matches ExecutableView::Recursive {
                name: n,
                max_iterations,
                union_all,
                ..
            } && n == name && union_all == plan->RecursiveCTE_union_all && max_iterations == (
            match plan->RecursiveCTE_max_iterations {
                Some(m) => m as int,
                None => 10_000,
            })
        }),
{
    let name = plan->RecursiveCTE_name;
    let c = compiled_plan(plan, nodes, refs)->Ok_0;
    let delay = nodes.len() as int + 1;
    let first = input_node(delay_name(name), plan->RecursiveCTE_schema);
    let d = nodes.push(first);
    let inside = refs.insert(name, delay as usize);
    let b = compiled_plan(*plan->RecursiveCTE_base_case, d, inside)->Ok_0;
    law_compiling_only_adds_nodes(*plan->RecursiveCTE_base_case, d, inside);
    let s = compiled_plan(*plan->RecursiveCTE_recursive_step, b.nodes, b.refs)->Ok_0;
    law_compiling_only_adds_nodes(*plan->RecursiveCTE_recursive_step, b.nodes, b.refs);
    assert(b.nodes.take(d.len() as int)[delay - 1] == b.nodes[delay - 1]);
    assert(s.nodes.take(b.nodes.len() as int)[delay - 1] == s.nodes[delay - 1]);
    assert(c.nodes[delay - 1] == first);
    assert(nodes.push(c.nodes[delay - 1]) =~= d);
}

} // verus!
