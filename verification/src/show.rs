//! Expressions of plans, and the plans of their subqueries, as text.
//!
//! A value is written as the name of its variant with what it holds: by name in braces, by position
//! in brackets.

use vstd::prelude::*;

use crate::ast::{text_view, UnaryOperator};
use crate::display::{bracket, bracketed, value_text, write_value};
use crate::expr::{aggregate_debug, aggregate_debug_str, option_text};
use crate::filter::{operator_name, operator_name_str};
use crate::logical::{
    lemma_lexpr_views, lemma_named_plan_views, lemma_pair_views, lemma_plan_views,
    lemma_row_views, lexpr_views, named_plan_views, pair_views, plan_views, row_views, Column,
    ColumnInfo, ColumnInfoView, ColumnRefView, LogicalExpr, LogicalExprView, LogicalJoinType,
    LogicalPlan, LogicalSchema, PlanView, Type,
};
use crate::text::{
    decimal, decimal_usize, join, joined, quote, quoted, single_quote, single_quoted, texts,
};

verus! {

/// A name with what it holds by name.
pub open spec fn record_text(name: Seq<char>, fields: Seq<Seq<char>>) -> Seq<char> {
    name + " { "@ + joined(fields, ", "@) + " }"@
}

/// A name with what it holds by position.
pub open spec fn tuple_text(name: Seq<char>, inside: Seq<char>) -> Seq<char> {
    name + "("@ + inside + ")"@
}

/// A plan: its kind, and under the same name what it holds.
pub open spec fn node_text(name: Seq<char>, fields: Seq<Seq<char>>) -> Seq<char> {
    tuple_text(name, record_text(name, fields))
}

fn write_tuple(name: &str, inside: &str) -> (r: String)
    ensures
        r@ == tuple_text(name@, inside@),
{
    let mut out = name.to_owned();
    out.append("(");
    out.append(inside);
    out.append(")");
    out
}

fn field(label: &str, text: &str) -> (r: String)
    ensures
        r@ == label@ + text@,
{
    let mut out = label.to_owned();
    out.append(text);
    out
}

fn write_record(name: &str, fields: &Vec<String>) -> (r: String)
    ensures
        r@ == record_text(name@, texts(fields@)),
{
    let mut out = name.to_owned();
    out.append(" { ");
    out.append(join(fields, ", ").as_str());
    out.append(" }");
    out
}

fn write_node(name: &str, fields: &Vec<String>) -> (r: String)
    ensures
        r@ == node_text(name@, texts(fields@)),
{
    write_tuple(name, write_record(name, fields).as_str())
}

pub open spec fn bool_text(b: bool) -> Seq<char> {
    if b {
        "true"@
    } else {
        "false"@
    }
}

fn write_bool(b: bool) -> (r: &'static str)
    ensures
        r@ == bool_text(b),
{
    if b {
        "true"
    } else {
        "false"
    }
}

/// Writes an optional text.
pub fn write_option(t: &Option<String>) -> (r: String)
    ensures
        r@ == option_text(text_view(*t)),
{
    match t {
        Some(x) => write_tuple("Some", quote(x.as_str()).as_str()),
        None => "None".to_owned(),
    }
}

pub open spec fn char_option_text(t: Option<Seq<char>>) -> Seq<char> {
    match t {
        Some(c) => tuple_text("Some"@, single_quoted(c)),
        None => "None"@,
    }
}

fn write_char_option(t: &Option<String>) -> (r: String)
    ensures
        r@ == char_option_text(text_view(*t)),
{
    match t {
        Some(c) => write_tuple("Some", single_quote(c.as_str()).as_str()),
        None => "None".to_owned(),
    }
}

pub open spec fn count_option_text(n: Option<usize>) -> Seq<char> {
    match n {
        Some(k) => tuple_text("Some"@, decimal(k as nat)),
        None => "None"@,
    }
}

fn write_count_option(n: Option<usize>) -> (r: String)
    ensures
        r@ == count_option_text(n),
{
    match n {
        Some(k) => write_tuple("Some", decimal_usize(k).as_str()),
        None => "None".to_owned(),
    }
}

pub open spec fn unary_text(x: UnaryOperator) -> Seq<char> {
    match x {
        UnaryOperator::BitwiseNot => "BitwiseNot"@,
        UnaryOperator::Negative => "Negative"@,
        UnaryOperator::Not => "Not"@,
        UnaryOperator::Positive => "Positive"@,
    }
}

fn write_unary(x: UnaryOperator) -> (r: &'static str)
    ensures
        r@ == unary_text(x),
{
    match x {
        UnaryOperator::BitwiseNot => "BitwiseNot",
        UnaryOperator::Negative => "Negative",
        UnaryOperator::Not => "Not",
        UnaryOperator::Positive => "Positive",
    }
}

pub open spec fn type_text(x: Type) -> Seq<char> {
    match x {
        Type::Null => "Null"@,
        Type::Text => "Text"@,
        Type::Numeric => "Numeric"@,
        Type::Integer => "Integer"@,
        Type::Real => "Real"@,
        Type::Blob => "Blob"@,
    }
}

fn write_type(x: Type) -> (r: &'static str)
    ensures
        r@ == type_text(x),
{
    match x {
        Type::Null => "Null",
        Type::Text => "Text",
        Type::Numeric => "Numeric",
        Type::Integer => "Integer",
        Type::Real => "Real",
        Type::Blob => "Blob",
    }
}

pub open spec fn join_type_text(x: LogicalJoinType) -> Seq<char> {
    match x {
        LogicalJoinType::Inner => "Inner"@,
        LogicalJoinType::Left => "Left"@,
        LogicalJoinType::Right => "Right"@,
        LogicalJoinType::Full => "Full"@,
        LogicalJoinType::Cross => "Cross"@,
    }
}

fn write_join_type(x: LogicalJoinType) -> (r: &'static str)
    ensures
        r@ == join_type_text(x),
{
    match x {
        LogicalJoinType::Inner => "Inner",
        LogicalJoinType::Left => "Left",
        LogicalJoinType::Right => "Right",
        LogicalJoinType::Full => "Full",
        LogicalJoinType::Cross => "Cross",
    }
}

pub open spec fn column_text(c: ColumnRefView) -> Seq<char> {
    record_text("Column"@, seq!["name: "@ + quoted(c.name), "table: "@ + option_text(c.table)])
}

fn write_column(c: &Column) -> (r: String)
    ensures
        r@ == column_text(c@),
{
    write_record(
        "Column",
        &fields_2(
            field("name: ", quote(c.name.as_str()).as_str()),
            field("table: ", write_option(&c.table).as_str()),
        ),
    )
}

pub open spec fn info_text(c: ColumnInfoView) -> Seq<char> {
    record_text(
        "ColumnInfo"@,
        seq![
            "name: "@ + quoted(c.name),
            "ty: "@ + type_text(c.ty),
            "database: "@ + option_text(c.database),
            "table: "@ + option_text(c.table),
            "table_alias: "@ + option_text(c.table_alias),
        ],
    )
}

fn write_info(c: &ColumnInfo) -> (r: String)
    ensures
        r@ == info_text(c@),
{
    write_record(
        "ColumnInfo",
        &fields_5(
            field("name: ", quote(c.name.as_str()).as_str()),
            field("ty: ", write_type(c.ty)),
            field("database: ", write_option(&c.database).as_str()),
            field("table: ", write_option(&c.table).as_str()),
            field("table_alias: ", write_option(&c.table_alias).as_str()),
        ),
    )
}

pub open spec fn schema_text(columns: Seq<ColumnInfoView>) -> Seq<char> {
    record_text(
        "LogicalSchema"@,
        seq!["columns: "@ + bracketed(columns.map_values(|c: ColumnInfoView| info_text(c)))],
    )
}

fn write_schema(schema: &LogicalSchema) -> (r: String)
    ensures
        r@ == schema_text(schema@),
{
    let mut parts: Vec<String> = Vec::new();
    let ghost wanted = schema@.map_values(|c: ColumnInfoView| info_text(c));
    let mut i: usize = 0;
    while i < schema.columns.len()
        invariant
            i <= schema.columns.len(),
            wanted == schema@.map_values(|c: ColumnInfoView| info_text(c)),
            parts@.len() == i,
            forall|j: int| 0 <= j < i ==> (#[trigger] parts@[j])@ == wanted[j],
        decreases schema.columns.len() - i,
    {
        parts.push(write_info(&schema.columns[i]));
        i += 1;
    }
    assert(texts(parts@) =~= wanted);
    write_record("LogicalSchema", &fields_1(field("columns: ", bracket(&parts).as_str())))
}

/// An expression as text.
pub open spec fn logical_text(e: LogicalExprView) -> Seq<char>
    decreases e,
{
    match e {
        LogicalExprView::Column(c) => tuple_text("Column"@, column_text(c)),
        LogicalExprView::Literal(v) => tuple_text("Literal"@, value_text(v)),
        LogicalExprView::ScalarSubquery(p) => tuple_text("ScalarSubquery"@, plan_text(*p)),
        LogicalExprView::BinaryExpr { left, op, right } => record_text(
            "BinaryExpr"@,
            seq![
                "left: "@ + logical_text(*left),
                "op: "@ + operator_name(op),
                "right: "@ + logical_text(*right),
            ],
        ),
        LogicalExprView::UnaryExpr { op, expr } => record_text(
            "UnaryExpr"@,
            seq![
                "op: "@ + unary_text(op),
                "expr: "@ + logical_text(*expr),
            ],
        ),
        LogicalExprView::AggregateFunction { fun, args, distinct, filter } => record_text(
            "AggregateFunction"@,
            seq![
                "fun: "@ + aggregate_debug(fun),
                "args: "@ + bracketed(logical_texts(args)),
                "distinct: "@ + bool_text(distinct),
                "filter: "@ + logical_option_text(filter),
            ],
        ),
        LogicalExprView::ScalarFunction { name, args } => record_text(
            "ScalarFunction"@,
            seq![
                "fun: "@ + quoted(name),
                "args: "@ + bracketed(logical_texts(args)),
            ],
        ),
        LogicalExprView::Alias { expr, alias } => record_text(
            "Alias"@,
            seq![
                "expr: "@ + logical_text(*expr),
                "alias: "@ + quoted(alias),
            ],
        ),
        LogicalExprView::Case { base, when_then, else_expr } => record_text(
            "Case"@,
            seq![
                "expr: "@ + logical_option_text(base),
                "when_then: "@ + bracketed(pair_texts(when_then)),
                "else_expr: "@ + logical_option_text(else_expr),
            ],
        ),
        LogicalExprView::InList { expr, list, negated } => record_text(
            "InList"@,
            seq![
                "expr: "@ + logical_text(*expr),
                "list: "@ + bracketed(logical_texts(list)),
                "negated: "@ + bool_text(negated),
            ],
        ),
        LogicalExprView::InSubquery { expr, subquery, negated } => record_text(
            "InSubquery"@,
            seq![
                "expr: "@ + logical_text(*expr),
                "subquery: "@ + plan_text(*subquery),
                "negated: "@ + bool_text(negated),
            ],
        ),
        LogicalExprView::Exists { subquery, negated } => record_text(
            "Exists"@,
            seq![
                "subquery: "@ + plan_text(*subquery),
                "negated: "@ + bool_text(negated),
            ],
        ),
        LogicalExprView::IsNull { expr, negated } => record_text(
            "IsNull"@,
            seq![
                "expr: "@ + logical_text(*expr),
                "negated: "@ + bool_text(negated),
            ],
        ),
        LogicalExprView::Between { expr, low, high, negated } => record_text(
            "Between"@,
            seq![
                "expr: "@ + logical_text(*expr),
                "low: "@ + logical_text(*low),
                "high: "@ + logical_text(*high),
                "negated: "@ + bool_text(negated),
            ],
        ),
        LogicalExprView::Like { expr, pattern, escape, negated } => record_text(
            "Like"@,
            seq![
                "expr: "@ + logical_text(*expr),
                "pattern: "@ + logical_text(*pattern),
                "escape: "@ + char_option_text(escape),
                "negated: "@ + bool_text(negated),
            ],
        ),
        LogicalExprView::Cast { expr, cast_type } => record_text(
            "Cast"@,
            seq![
                "expr: "@ + logical_text(*expr),
                "type_name: "@ + option_text(cast_type),
            ],
        ),
    }
}

pub open spec fn logical_option_text(e: Option<Box<LogicalExprView>>) -> Seq<char>
    decreases e,
{
    match e {
        Some(x) => tuple_text("Some"@, logical_text(*x)),
        None => "None"@,
    }
}

pub open spec fn logical_texts(list: Seq<LogicalExprView>) -> Seq<Seq<char>>
    decreases list,
{
    if list.len() == 0 {
        Seq::empty()
    } else {
        logical_texts(list.drop_last()).push(logical_text(list.last()))
    }
}

pub open spec fn pair_texts(list: Seq<(LogicalExprView, LogicalExprView)>) -> Seq<Seq<char>>
    decreases list,
{
    if list.len() == 0 {
        Seq::empty()
    } else {
        pair_texts(list.drop_last()).push(
            "("@ + logical_text(list.last().0) + ", "@ + logical_text(list.last().1) + ")"@,
        )
    }
}

pub open spec fn row_texts(list: Seq<Seq<LogicalExprView>>) -> Seq<Seq<char>>
    decreases list,
{
    if list.len() == 0 {
        Seq::empty()
    } else {
        row_texts(list.drop_last()).push(bracketed(logical_texts(list.last())))
    }
}

pub open spec fn plan_texts(list: Seq<PlanView>) -> Seq<Seq<char>>
    decreases list,
{
    if list.len() == 0 {
        Seq::empty()
    } else {
        plan_texts(list.drop_last()).push(plan_text(list.last()))
    }
}

pub open spec fn named_texts(list: Seq<(Seq<char>, PlanView)>) -> Seq<Seq<char>>
    decreases list,
{
    if list.len() == 0 {
        Seq::empty()
    } else {
        named_texts(list.drop_last()).push(
            "("@ + quoted(list.last().0) + ", "@ + plan_text(list.last().1) + ")"@,
        )
    }
}

/// A plan as text.
pub open spec fn plan_text(p: PlanView) -> Seq<char>
    decreases p,
{
    match p {
        PlanView::Projection { input, exprs, schema } => node_text(
            "Projection"@,
            seq![
                "input: "@ + plan_text(*input),
                "exprs: "@ + bracketed(logical_texts(exprs)),
                "schema: "@ + schema_text(schema),
            ],
        ),
        PlanView::Filter { input, predicate } => node_text(
            "Filter"@,
            seq![
                "input: "@ + plan_text(*input),
                "predicate: "@ + logical_text(predicate),
            ],
        ),
        PlanView::Aggregate { input, group_expr, aggr_expr, schema } => node_text(
            "Aggregate"@,
            seq![
                "input: "@ + plan_text(*input),
                "group_expr: "@ + bracketed(logical_texts(group_expr)),
                "aggr_expr: "@ + bracketed(logical_texts(aggr_expr)),
                "schema: "@ + schema_text(schema),
            ],
        ),
        PlanView::Join { left, right, join_type, on, filter, schema } => node_text(
            "Join"@,
            seq![
                "left: "@ + plan_text(*left),
                "right: "@ + plan_text(*right),
                "join_type: "@ + join_type_text(join_type),
                "on: "@ + bracketed(pair_texts(on)),
                "filter: "@ + logical_option_text(filter),
                "schema: "@ + schema_text(schema),
            ],
        ),
        PlanView::Sort { input, exprs } => node_text(
            "Sort"@,
            seq![
                "input: "@ + plan_text(*input),
                "exprs: "@ + bracketed(logical_texts(exprs)),
            ],
        ),
        PlanView::Limit { input, fetch } => node_text(
            "Limit"@,
            seq![
                "input: "@ + plan_text(*input),
                "fetch: "@ + count_option_text(fetch),
            ],
        ),
        PlanView::TableScan { table_name, schema } => node_text(
            "TableScan"@,
            seq![
                "table_name: "@ + quoted(table_name),
                "schema: "@ + schema_text(schema),
            ],
        ),
        PlanView::Union { inputs, all, schema } => node_text(
            "Union"@,
            seq![
                "inputs: "@ + bracketed(plan_texts(inputs)),
                "all: "@ + bool_text(all),
                "schema: "@ + schema_text(schema),
            ],
        ),
        PlanView::Distinct { input } => node_text(
            "Distinct"@,
            seq![
                "input: "@ + plan_text(*input),
            ],
        ),
        PlanView::EmptyRelation { produce_one_row, schema } => node_text(
            "EmptyRelation"@,
            seq![
                "produce_one_row: "@ + bool_text(produce_one_row),
                "schema: "@ + schema_text(schema),
            ],
        ),
        PlanView::Values { rows, schema } => node_text(
            "Values"@,
            seq![
                "rows: "@ + bracketed(row_texts(rows)),
                "schema: "@ + schema_text(schema),
            ],
        ),
        PlanView::WithCTE { ctes, body } => node_text(
            "WithCTE"@,
            seq![
                "ctes: "@ + bracketed(named_texts(ctes)),
                "body: "@ + plan_text(*body),
            ],
        ),
        PlanView::CTERef { name, schema } => node_text(
            "CTERef"@,
            seq![
                "name: "@ + quoted(name),
                "schema: "@ + schema_text(schema),
            ],
        ),
        PlanView::RecursiveCTE {
            name,
            base_case,
            recursive_step,
            union_all,
            max_iterations,
            schema,
        } => node_text(
            "RecursiveCTE"@,
            seq![
                "name: "@ + quoted(name),
                "base_case: "@ + plan_text(*base_case),
                "recursive_step: "@ + plan_text(*recursive_step),
                "union_all: "@ + bool_text(union_all),
                "max_iterations: "@ + count_option_text(max_iterations),
                "schema: "@ + schema_text(schema),
            ],
        ),
        PlanView::RecursiveCTERef { name, schema } => node_text(
            "RecursiveCTERef"@,
            seq![
                "name: "@ + quoted(name),
                "schema: "@ + schema_text(schema),
            ],
        ),
    }
}

fn fields_1(a: String) -> (r: Vec<String>)
    ensures
        texts(r@) == seq![a@],
{
    let ghost wanted = seq![a@];
    let mut r: Vec<String> = Vec::new();
    r.push(a);
    assert(texts(r@) =~= wanted);
    r
}

fn fields_2(a: String, b: String) -> (r: Vec<String>)
    ensures
        texts(r@) == seq![a@, b@],
{
    let ghost wanted = seq![a@, b@];
    let mut r: Vec<String> = Vec::new();
    r.push(a);
    r.push(b);
    assert(texts(r@) =~= wanted);
    r
}

fn fields_3(a: String, b: String, c: String) -> (r: Vec<String>)
    ensures
        texts(r@) == seq![a@, b@, c@],
{
    let ghost wanted = seq![a@, b@, c@];
    let mut r: Vec<String> = Vec::new();
    r.push(a);
    r.push(b);
    r.push(c);
    assert(texts(r@) =~= wanted);
    r
}

fn fields_4(a: String, b: String, c: String, d: String) -> (r: Vec<String>)
    ensures
        texts(r@) == seq![a@, b@, c@, d@],
{
    let ghost wanted = seq![a@, b@, c@, d@];
    let mut r: Vec<String> = Vec::new();
    r.push(a);
    r.push(b);
    r.push(c);
    r.push(d);
    assert(texts(r@) =~= wanted);
    r
}

fn fields_5(a: String, b: String, c: String, d: String, e: String) -> (r: Vec<String>)
    ensures
        texts(r@) == seq![a@, b@, c@, d@, e@],
{
    let ghost wanted = seq![a@, b@, c@, d@, e@];
    let mut r: Vec<String> = Vec::new();
    r.push(a);
    r.push(b);
    r.push(c);
    r.push(d);
    r.push(e);
    assert(texts(r@) =~= wanted);
    r
}

fn fields_6(a: String, b: String, c: String, d: String, e: String, f: String) -> (r: Vec<String>)
    ensures
        texts(r@) == seq![a@, b@, c@, d@, e@, f@],
{
    let ghost wanted = seq![a@, b@, c@, d@, e@, f@];
    let mut r: Vec<String> = Vec::new();
    r.push(a);
    r.push(b);
    r.push(c);
    r.push(d);
    r.push(e);
    r.push(f);
    assert(texts(r@) =~= wanted);
    r
}

/// Writes an expression.
#[verifier::rlimit(60)]
pub fn write_logical(e: &LogicalExpr) -> (r: String)
    ensures
        r@ == logical_text(e.view()),
    decreases e,
{
    match e {
        LogicalExpr::Column(c) => write_tuple("Column", write_column(c).as_str()),
        LogicalExpr::Literal(v) => write_tuple("Literal", write_value(v).as_str()),
        LogicalExpr::ScalarSubquery(p) => write_tuple("ScalarSubquery", write_plan(p).as_str()),
        LogicalExpr::BinaryExpr { left, op, right } => write_record(
            "BinaryExpr",
            &fields_3(
                field("left: ", write_logical(left).as_str()),
                field("op: ", operator_name_str(*op)),
                field("right: ", write_logical(right).as_str()),
            ),
        ),
        LogicalExpr::UnaryExpr { op, expr } => write_record(
            "UnaryExpr",
            &fields_2(
                field("op: ", write_unary(*op)),
                field("expr: ", write_logical(expr).as_str()),
            ),
        ),
        LogicalExpr::AggregateFunction { fun, args, distinct, filter } => write_record(
            "AggregateFunction",
            &fields_4(
                field("fun: ", aggregate_debug_str(*fun)),
                field("args: ", bracket(&write_list(args)).as_str()),
                field("distinct: ", write_bool(*distinct)),
                field("filter: ", write_logical_option(filter).as_str()),
            ),
        ),
        LogicalExpr::ScalarFunction { name, args } => write_record(
            "ScalarFunction",
            &fields_2(
                field("fun: ", quote(name.as_str()).as_str()),
                field("args: ", bracket(&write_list(args)).as_str()),
            ),
        ),
        LogicalExpr::Alias { expr, alias } => write_record(
            "Alias",
            &fields_2(
                field("expr: ", write_logical(expr).as_str()),
                field("alias: ", quote(alias.as_str()).as_str()),
            ),
        ),
        LogicalExpr::Case { base, when_then, else_expr } => write_record(
            "Case",
            &fields_3(
                field("expr: ", write_logical_option(base).as_str()),
                field("when_then: ", bracket(&write_pairs(when_then)).as_str()),
                field("else_expr: ", write_logical_option(else_expr).as_str()),
            ),
        ),
        LogicalExpr::InList { expr, list, negated } => write_record(
            "InList",
            &fields_3(
                field("expr: ", write_logical(expr).as_str()),
                field("list: ", bracket(&write_list(list)).as_str()),
                field("negated: ", write_bool(*negated)),
            ),
        ),
        LogicalExpr::InSubquery { expr, subquery, negated } => write_record(
            "InSubquery",
            &fields_3(
                field("expr: ", write_logical(expr).as_str()),
                field("subquery: ", write_plan(subquery).as_str()),
                field("negated: ", write_bool(*negated)),
            ),
        ),
        LogicalExpr::Exists { subquery, negated } => write_record(
            "Exists",
            &fields_2(
                field("subquery: ", write_plan(subquery).as_str()),
                field("negated: ", write_bool(*negated)),
            ),
        ),
        LogicalExpr::IsNull { expr, negated } => write_record(
            "IsNull",
            &fields_2(
                field("expr: ", write_logical(expr).as_str()),
                field("negated: ", write_bool(*negated)),
            ),
        ),
        LogicalExpr::Between { expr, low, high, negated } => write_record(
            "Between",
            &fields_4(
                field("expr: ", write_logical(expr).as_str()),
                field("low: ", write_logical(low).as_str()),
                field("high: ", write_logical(high).as_str()),
                field("negated: ", write_bool(*negated)),
            ),
        ),
        LogicalExpr::Like { expr, pattern, escape, negated } => write_record(
            "Like",
            &fields_4(
                field("expr: ", write_logical(expr).as_str()),
                field("pattern: ", write_logical(pattern).as_str()),
                field("escape: ", write_char_option(escape).as_str()),
                field("negated: ", write_bool(*negated)),
            ),
        ),
        LogicalExpr::Cast { expr, cast_type } => write_record(
            "Cast",
            &fields_2(
                field("expr: ", write_logical(expr).as_str()),
                field("type_name: ", write_option(cast_type).as_str()),
            ),
        ),
    }
}

fn write_logical_option(e: &Option<Box<LogicalExpr>>) -> (r: String)
    ensures
        r@ == logical_option_text(
            match *e {
                Some(b) => Some(Box::new(b.view())),
                None => None,
            },
        ),
    decreases e,
{
    match e {
        Some(b) => write_tuple("Some", write_logical(b).as_str()),
        None => "None".to_owned(),
    }
}

fn write_list(list: &Vec<LogicalExpr>) -> (r: Vec<String>)
    ensures
        texts(r@) == logical_texts(lexpr_views(list@)),
    decreases list,
{
    let ghost views = lexpr_views(list@);
    let mut out: Vec<String> = Vec::new();
    let mut i: usize = 0;
    proof {
        lemma_lexpr_views(list@);
        assert(views.take(0) =~= Seq::<LogicalExprView>::empty());
        assert(texts(out@) =~= Seq::<Seq<char>>::empty());
    }
    while i < list.len()
        invariant
            i <= list.len(),
            views == lexpr_views(list@),
            views.len() == list@.len(),
            out@.len() == i,
            texts(out@) == logical_texts(views.take(i as int)),
        decreases list.len() - i,
    {
        let ghost before = out@;
        proof {
            lemma_lexpr_views(list@);
            assert(decreases_to!(list => list@[i as int]));
            assert(views.take(i + 1).drop_last() =~= views.take(i as int));
            assert(views.take(i + 1).last() == views[i as int]);
        }
        out.push(write_logical(&list[i]));
        assert(texts(out@) =~= texts(before).push(out@[i as int]@));
        i += 1;
    }
    assert(views.take(i as int) =~= views);
    out
}

fn write_pairs(list: &Vec<(LogicalExpr, LogicalExpr)>) -> (r: Vec<String>)
    ensures
        texts(r@) == pair_texts(pair_views(list@)),
    decreases list,
{
    let ghost views = pair_views(list@);
    let mut out: Vec<String> = Vec::new();
    let mut i: usize = 0;
    proof {
        lemma_pair_views(list@);
        assert(views.take(0) =~= Seq::<(LogicalExprView, LogicalExprView)>::empty());
        assert(texts(out@) =~= Seq::<Seq<char>>::empty());
    }
    while i < list.len()
        invariant
            i <= list.len(),
            views == pair_views(list@),
            views.len() == list@.len(),
            out@.len() == i,
            texts(out@) == pair_texts(views.take(i as int)),
        decreases list.len() - i,
    {
        let ghost before = out@;
        proof {
            lemma_pair_views(list@);
            assert(decreases_to!(list => list@[i as int]));
            assert(decreases_to!(list@[i as int] => list@[i as int].0));
            assert(decreases_to!(list@[i as int] => list@[i as int].1));
            assert(views.take(i + 1).drop_last() =~= views.take(i as int));
            assert(views.take(i + 1).last() == views[i as int]);
        }
        let mut text = "(".to_owned();
        text.append(write_logical(&list[i].0).as_str());
        text.append(", ");
        text.append(write_logical(&list[i].1).as_str());
        text.append(")");
        out.push(text);
        assert(texts(out@) =~= texts(before).push(out@[i as int]@));
        i += 1;
    }
    assert(views.take(i as int) =~= views);
    out
}

fn write_rows(list: &Vec<Vec<LogicalExpr>>) -> (r: Vec<String>)
    ensures
        texts(r@) == row_texts(row_views(list@)),
    decreases list,
{
    let ghost views = row_views(list@);
    let mut out: Vec<String> = Vec::new();
    let mut i: usize = 0;
    proof {
        lemma_row_views(list@);
        assert(views.take(0) =~= Seq::<Seq<LogicalExprView>>::empty());
        assert(texts(out@) =~= Seq::<Seq<char>>::empty());
    }
    while i < list.len()
        invariant
            i <= list.len(),
            views == row_views(list@),
            views.len() == list@.len(),
            out@.len() == i,
            texts(out@) == row_texts(views.take(i as int)),
        decreases list.len() - i,
    {
        let ghost before = out@;
        proof {
            lemma_row_views(list@);
            assert(decreases_to!(list => list@[i as int]));
            assert(views.take(i + 1).drop_last() =~= views.take(i as int));
            assert(views.take(i + 1).last() == views[i as int]);
        }
        out.push(bracket(&write_list(&list[i])));
        assert(texts(out@) =~= texts(before).push(out@[i as int]@));
        i += 1;
    }
    assert(views.take(i as int) =~= views);
    out
}

fn write_plans(list: &Vec<LogicalPlan>) -> (r: Vec<String>)
    ensures
        texts(r@) == plan_texts(plan_views(list@)),
    decreases list,
{
    let ghost views = plan_views(list@);
    let mut out: Vec<String> = Vec::new();
    let mut i: usize = 0;
    proof {
        lemma_plan_views(list@);
        assert(views.take(0) =~= Seq::<PlanView>::empty());
        assert(texts(out@) =~= Seq::<Seq<char>>::empty());
    }
    while i < list.len()
        invariant
            i <= list.len(),
            views == plan_views(list@),
            views.len() == list@.len(),
            out@.len() == i,
            texts(out@) == plan_texts(views.take(i as int)),
        decreases list.len() - i,
    {
        let ghost before = out@;
        proof {
            lemma_plan_views(list@);
            assert(decreases_to!(list => list@[i as int]));
            assert(views.take(i + 1).drop_last() =~= views.take(i as int));
            assert(views.take(i + 1).last() == views[i as int]);
        }
        out.push(write_plan(&list[i]));
        assert(texts(out@) =~= texts(before).push(out@[i as int]@));
        i += 1;
    }
    assert(views.take(i as int) =~= views);
    out
}

fn write_named(list: &Vec<(String, LogicalPlan)>) -> (r: Vec<String>)
    ensures
        texts(r@) == named_texts(named_plan_views(list@)),
    decreases list,
{
    let ghost views = named_plan_views(list@);
    let mut out: Vec<String> = Vec::new();
    let mut i: usize = 0;
    proof {
        lemma_named_plan_views(list@);
        assert(views.take(0) =~= Seq::<(Seq<char>, PlanView)>::empty());
        assert(texts(out@) =~= Seq::<Seq<char>>::empty());
    }
    while i < list.len()
        invariant
            i <= list.len(),
            views == named_plan_views(list@),
            views.len() == list@.len(),
            out@.len() == i,
            texts(out@) == named_texts(views.take(i as int)),
        decreases list.len() - i,
    {
        let ghost before = out@;
        proof {
            lemma_named_plan_views(list@);
            assert(decreases_to!(list => list@[i as int]));
            assert(decreases_to!(list@[i as int] => list@[i as int].1));
            assert(views.take(i + 1).drop_last() =~= views.take(i as int));
            assert(views.take(i + 1).last() == views[i as int]);
        }
        let mut text = "(".to_owned();
        text.append(quote(list[i].0.as_str()).as_str());
        text.append(", ");
        text.append(write_plan(&list[i].1).as_str());
        text.append(")");
        out.push(text);
        assert(texts(out@) =~= texts(before).push(out@[i as int]@));
        i += 1;
    }
    assert(views.take(i as int) =~= views);
    out
}

/// Writes a plan.
#[verifier::rlimit(60)]
pub fn write_plan(p: &LogicalPlan) -> (r: String)
    ensures
        r@ == plan_text(p.view()),
    decreases p,
{
    match p {
        LogicalPlan::Projection { input, exprs, schema } => write_node(
            "Projection",
            &fields_3(
                field("input: ", write_plan(input).as_str()),
                field("exprs: ", bracket(&write_list(exprs)).as_str()),
                field("schema: ", write_schema(schema).as_str()),
            ),
        ),
        LogicalPlan::Filter { input, predicate } => write_node(
            "Filter",
            &fields_2(
                field("input: ", write_plan(input).as_str()),
                field("predicate: ", write_logical(predicate).as_str()),
            ),
        ),
        LogicalPlan::Aggregate { input, group_expr, aggr_expr, schema } => write_node(
            "Aggregate",
            &fields_4(
                field("input: ", write_plan(input).as_str()),
                field("group_expr: ", bracket(&write_list(group_expr)).as_str()),
                field("aggr_expr: ", bracket(&write_list(aggr_expr)).as_str()),
                field("schema: ", write_schema(schema).as_str()),
            ),
        ),
        LogicalPlan::Join { left, right, join_type, on, filter, schema } => write_node(
            "Join",
            &fields_6(
                field("left: ", write_plan(left).as_str()),
                field("right: ", write_plan(right).as_str()),
                field("join_type: ", write_join_type(*join_type)),
                field("on: ", bracket(&write_pairs(on)).as_str()),
                field("filter: ", write_logical_option(filter).as_str()),
                field("schema: ", write_schema(schema).as_str()),
            ),
        ),
        LogicalPlan::Sort { input, exprs } => write_node(
            "Sort",
            &fields_2(
                field("input: ", write_plan(input).as_str()),
                field("exprs: ", bracket(&write_list(exprs)).as_str()),
            ),
        ),
        LogicalPlan::Limit { input, fetch } => write_node(
            "Limit",
            &fields_2(
                field("input: ", write_plan(input).as_str()),
                field("fetch: ", write_count_option(*fetch).as_str()),
            ),
        ),
        LogicalPlan::TableScan { table_name, schema } => write_node(
            "TableScan",
            &fields_2(
                field("table_name: ", quote(table_name.as_str()).as_str()),
                field("schema: ", write_schema(schema).as_str()),
            ),
        ),
        LogicalPlan::Union { inputs, all, schema } => write_node(
            "Union",
            &fields_3(
                field("inputs: ", bracket(&write_plans(inputs)).as_str()),
                field("all: ", write_bool(*all)),
                field("schema: ", write_schema(schema).as_str()),
            ),
        ),
        LogicalPlan::Distinct { input } => write_node(
            "Distinct",
            &fields_1(
                field("input: ", write_plan(input).as_str()),
            ),
        ),
        LogicalPlan::EmptyRelation { produce_one_row, schema } => write_node(
            "EmptyRelation",
            &fields_2(
                field("produce_one_row: ", write_bool(*produce_one_row)),
                field("schema: ", write_schema(schema).as_str()),
            ),
        ),
        LogicalPlan::Values { rows, schema } => write_node(
            "Values",
            &fields_2(
                field("rows: ", bracket(&write_rows(rows)).as_str()),
                field("schema: ", write_schema(schema).as_str()),
            ),
        ),
        LogicalPlan::WithCTE { ctes, body } => write_node(
            "WithCTE",
            &fields_2(
                field("ctes: ", bracket(&write_named(ctes)).as_str()),
                field("body: ", write_plan(body).as_str()),
            ),
        ),
        LogicalPlan::CTERef { name, schema } => write_node(
            "CTERef",
            &fields_2(
                field("name: ", quote(name.as_str()).as_str()),
                field("schema: ", write_schema(schema).as_str()),
            ),
        ),
        LogicalPlan::RecursiveCTE {
            name,
            base_case,
            recursive_step,
            union_all,
            max_iterations,
            schema,
        } => write_node(
            "RecursiveCTE",
            &fields_6(
                field("name: ", quote(name.as_str()).as_str()),
                field("base_case: ", write_plan(base_case).as_str()),
                field("recursive_step: ", write_plan(recursive_step).as_str()),
                field("union_all: ", write_bool(*union_all)),
                field("max_iterations: ", write_count_option(*max_iterations).as_str()),
                field("schema: ", write_schema(schema).as_str()),
            ),
        ),
        LogicalPlan::RecursiveCTERef { name, schema } => write_node(
            "RecursiveCTERef",
            &fields_2(
                field("name: ", quote(name.as_str()).as_str()),
                field("schema: ", write_schema(schema).as_str()),
            ),
        ),
    }
}

} // verus!
