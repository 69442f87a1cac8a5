//! Logical query plans.

use vstd::prelude::*;

use crate::ast::{text_view, BinaryOperator, UnaryOperator};
use crate::value::{Datum, Value};

verus! {

/// The type of a column.
#[derive(Debug, PartialEq, Eq, Clone, Copy, Structural)]
pub enum Type {
    Null,
    Text,
    Numeric,
    Integer,
    Real,
    Blob,
}

/// An aggregate function.
#[derive(Debug, PartialEq, Eq, Clone, Copy, Structural)]
pub enum AggFunc {
    Avg,
    Count,
    Count0,
    GroupConcat,
    Max,
    Min,
    StringAgg,
    Sum,
    Total,
    JsonGroupArray,
    JsonbGroupArray,
    JsonGroupObject,
    JsonbGroupObject,
    ArrayAgg,
}

#[derive(Debug, PartialEq, Eq, Clone, Copy, Structural)]
pub enum LogicalJoinType {
    Inner,
    Left,
    Right,
    Full,
    Cross,
}

/// A reference to a column, perhaps qualified by a table.
#[derive(Debug, PartialEq, Eq)]
pub struct Column {
    pub name: String,
    pub table: Option<String>,
}

#[verifier::ext_equal]
pub struct ColumnRefView {
    pub name: Seq<char>,
    pub table: Option<Seq<char>>,
}

impl View for Column {
    type V = ColumnRefView;

    open spec fn view(&self) -> ColumnRefView {
        ColumnRefView { name: self.name@, table: text_view(self.table) }
    }
}

/// What a plan knows of one of its columns.
#[derive(Debug, PartialEq, Eq)]
pub struct ColumnInfo {
    pub name: String,
    pub ty: Type,
    pub database: Option<String>,
    pub table: Option<String>,
    pub table_alias: Option<String>,
}

#[verifier::ext_equal]
pub struct ColumnInfoView {
    pub name: Seq<char>,
    pub ty: Type,
    pub database: Option<Seq<char>>,
    pub table: Option<Seq<char>>,
    pub table_alias: Option<Seq<char>>,
}

impl View for ColumnInfo {
    type V = ColumnInfoView;

    open spec fn view(&self) -> ColumnInfoView {
        ColumnInfoView {
            name: self.name@,
            ty: self.ty,
            database: text_view(self.database),
            table: text_view(self.table),
            table_alias: text_view(self.table_alias),
        }
    }
}

/// The columns that a plan puts out.
#[derive(Debug, PartialEq, Eq)]
pub struct LogicalSchema {
    pub columns: Vec<ColumnInfo>,
}

impl View for LogicalSchema {
    type V = Seq<ColumnInfoView>;

    open spec fn view(&self) -> Seq<ColumnInfoView> {
        self.columns@.map_values(|c: ColumnInfo| c@)
    }
}

/// An expression of a plan.
#[allow(inconsistent_fields)]
#[derive(Debug, PartialEq, Eq)]
pub enum LogicalExpr {
    Column(Column),
    Literal(Value),
    BinaryExpr { left: Box<LogicalExpr>, op: BinaryOperator, right: Box<LogicalExpr> },
    UnaryExpr { op: UnaryOperator, expr: Box<LogicalExpr> },
    AggregateFunction {
        fun: AggFunc,
        args: Vec<LogicalExpr>,
        distinct: bool,
        filter: Option<Box<LogicalExpr>>,
    },
    ScalarFunction { name: String, args: Vec<LogicalExpr> },
    Alias { expr: Box<LogicalExpr>, alias: String },
    Case {
        base: Option<Box<LogicalExpr>>,
        when_then: Vec<(LogicalExpr, LogicalExpr)>,
        else_expr: Option<Box<LogicalExpr>>,
    },
    InList { expr: Box<LogicalExpr>, list: Vec<LogicalExpr>, negated: bool },
    InSubquery { expr: Box<LogicalExpr>, subquery: Box<LogicalPlan>, negated: bool },
    Exists { subquery: Box<LogicalPlan>, negated: bool },
    ScalarSubquery(Box<LogicalPlan>),
    IsNull { expr: Box<LogicalExpr>, negated: bool },
    Between {
        expr: Box<LogicalExpr>,
        low: Box<LogicalExpr>,
        high: Box<LogicalExpr>,
        negated: bool,
    },
    Like { expr: Box<LogicalExpr>, pattern: Box<LogicalExpr>, escape: Option<String>, negated: bool },
    Cast { expr: Box<LogicalExpr>, cast_type: Option<String> },
}

/// A query plan.
#[allow(inconsistent_fields)]
#[derive(Debug, PartialEq, Eq)]
pub enum LogicalPlan {
    Projection { input: Box<LogicalPlan>, exprs: Vec<LogicalExpr>, schema: LogicalSchema },
    Filter { input: Box<LogicalPlan>, predicate: LogicalExpr },
    Aggregate {
        input: Box<LogicalPlan>,
        group_expr: Vec<LogicalExpr>,
        aggr_expr: Vec<LogicalExpr>,
        schema: LogicalSchema,
    },
    Join {
        left: Box<LogicalPlan>,
        right: Box<LogicalPlan>,
        join_type: LogicalJoinType,
        on: Vec<(LogicalExpr, LogicalExpr)>,
        filter: Option<Box<LogicalExpr>>,
        schema: LogicalSchema,
    },
    Sort { input: Box<LogicalPlan>, exprs: Vec<LogicalExpr> },
    Limit { input: Box<LogicalPlan>, fetch: Option<usize> },
    TableScan { table_name: String, schema: LogicalSchema },
    Union { inputs: Vec<LogicalPlan>, all: bool, schema: LogicalSchema },
    Distinct { input: Box<LogicalPlan> },
    EmptyRelation { produce_one_row: bool, schema: LogicalSchema },
    Values { rows: Vec<Vec<LogicalExpr>>, schema: LogicalSchema },
    /// Named plans, each of which may refer to those before it, and a body that may refer to all.
    WithCTE { ctes: Vec<(String, LogicalPlan)>, body: Box<LogicalPlan> },
    CTERef { name: String, schema: LogicalSchema },
    RecursiveCTE {
        name: String,
        base_case: Box<LogicalPlan>,
        recursive_step: Box<LogicalPlan>,
        union_all: bool,
        max_iterations: Option<usize>,
        schema: LogicalSchema,
    },
    RecursiveCTERef { name: String, schema: LogicalSchema },
}

/// What an expression holds.
#[allow(inconsistent_fields)]
#[verifier::ext_equal]
pub enum LogicalExprView {
    Column(ColumnRefView),
    Literal(Datum),
    BinaryExpr { left: Box<LogicalExprView>, op: BinaryOperator, right: Box<LogicalExprView> },
    UnaryExpr { op: UnaryOperator, expr: Box<LogicalExprView> },
    AggregateFunction {
        fun: AggFunc,
        args: Seq<LogicalExprView>,
        distinct: bool,
        filter: Option<Box<LogicalExprView>>,
    },
    ScalarFunction { name: Seq<char>, args: Seq<LogicalExprView> },
    Alias { expr: Box<LogicalExprView>, alias: Seq<char> },
    Case {
        base: Option<Box<LogicalExprView>>,
        when_then: Seq<(LogicalExprView, LogicalExprView)>,
        else_expr: Option<Box<LogicalExprView>>,
    },
    InList { expr: Box<LogicalExprView>, list: Seq<LogicalExprView>, negated: bool },
    InSubquery { expr: Box<LogicalExprView>, subquery: Box<PlanView>, negated: bool },
    Exists { subquery: Box<PlanView>, negated: bool },
    ScalarSubquery(Box<PlanView>),
    IsNull { expr: Box<LogicalExprView>, negated: bool },
    Between {
        expr: Box<LogicalExprView>,
        low: Box<LogicalExprView>,
        high: Box<LogicalExprView>,
        negated: bool,
    },
    Like {
        expr: Box<LogicalExprView>,
        pattern: Box<LogicalExprView>,
        escape: Option<Seq<char>>,
        negated: bool,
    },
    Cast { expr: Box<LogicalExprView>, cast_type: Option<Seq<char>> },
}

/// What a plan holds.
#[allow(inconsistent_fields)]
#[verifier::ext_equal]
pub enum PlanView {
    Projection {
        input: Box<PlanView>,
        exprs: Seq<LogicalExprView>,
        schema: Seq<ColumnInfoView>,
    },
    Filter { input: Box<PlanView>, predicate: LogicalExprView },
    Aggregate {
        input: Box<PlanView>,
        group_expr: Seq<LogicalExprView>,
        aggr_expr: Seq<LogicalExprView>,
        schema: Seq<ColumnInfoView>,
    },
    Join {
        left: Box<PlanView>,
        right: Box<PlanView>,
        join_type: LogicalJoinType,
        on: Seq<(LogicalExprView, LogicalExprView)>,
        filter: Option<Box<LogicalExprView>>,
        schema: Seq<ColumnInfoView>,
    },
    Sort { input: Box<PlanView>, exprs: Seq<LogicalExprView> },
    Limit { input: Box<PlanView>, fetch: Option<usize> },
    TableScan { table_name: Seq<char>, schema: Seq<ColumnInfoView> },
    Union { inputs: Seq<PlanView>, all: bool, schema: Seq<ColumnInfoView> },
    Distinct { input: Box<PlanView> },
    EmptyRelation { produce_one_row: bool, schema: Seq<ColumnInfoView> },
    Values { rows: Seq<Seq<LogicalExprView>>, schema: Seq<ColumnInfoView> },
    WithCTE { ctes: Seq<(Seq<char>, PlanView)>, body: Box<PlanView> },
    CTERef { name: Seq<char>, schema: Seq<ColumnInfoView> },
    RecursiveCTE {
        name: Seq<char>,
        base_case: Box<PlanView>,
        recursive_step: Box<PlanView>,
        union_all: bool,
        max_iterations: Option<usize>,
        schema: Seq<ColumnInfoView>,
    },
    RecursiveCTERef { name: Seq<char>, schema: Seq<ColumnInfoView> },
}

impl LogicalExpr {
    pub open spec fn view(&self) -> LogicalExprView
        decreases self,
    {
        match self {
            LogicalExpr::Column(c) => LogicalExprView::Column(c@),
            LogicalExpr::Literal(v) => LogicalExprView::Literal(v@),
            LogicalExpr::BinaryExpr { left, op, right } => LogicalExprView::BinaryExpr {
                left: Box::new(left.view()),
                op: *op,
                right: Box::new(right.view()),
            },
            LogicalExpr::UnaryExpr { op, expr } => LogicalExprView::UnaryExpr {
                op: *op,
                expr: Box::new(expr.view()),
            },
            LogicalExpr::AggregateFunction { fun, args, distinct, filter } => {
                LogicalExprView::AggregateFunction {
                    fun: *fun,
                    args: lexpr_views(args@),
                    distinct: *distinct,
                    filter: match filter {
                        Some(f) => Some(Box::new(f.view())),
                        None => None,
                    },
                }
            },
            LogicalExpr::ScalarFunction { name, args } => LogicalExprView::ScalarFunction {
                name: name@,
                args: lexpr_views(args@),
            },
            LogicalExpr::Alias { expr, alias } => LogicalExprView::Alias {
                expr: Box::new(expr.view()),
                alias: alias@,
            },
            LogicalExpr::Case { base, when_then, else_expr } => LogicalExprView::Case {
                base: match base {
                    Some(e) => Some(Box::new(e.view())),
                    None => None,
                },
                when_then: pair_views(when_then@),
                else_expr: match else_expr {
                    Some(e) => Some(Box::new(e.view())),
                    None => None,
                },
            },
            LogicalExpr::InList { expr, list, negated } => LogicalExprView::InList {
                expr: Box::new(expr.view()),
                list: lexpr_views(list@),
                negated: *negated,
            },
            LogicalExpr::InSubquery { expr, subquery, negated } => LogicalExprView::InSubquery {
                expr: Box::new(expr.view()),
                subquery: Box::new(subquery.view()),
                negated: *negated,
            },
            LogicalExpr::Exists { subquery, negated } => LogicalExprView::Exists {
                subquery: Box::new(subquery.view()),
                negated: *negated,
            },
            LogicalExpr::ScalarSubquery(p) => LogicalExprView::ScalarSubquery(Box::new(p.view())),
            LogicalExpr::IsNull { expr, negated } => LogicalExprView::IsNull {
                expr: Box::new(expr.view()),
                negated: *negated,
            },
            LogicalExpr::Between { expr, low, high, negated } => LogicalExprView::Between {
                expr: Box::new(expr.view()),
                low: Box::new(low.view()),
                high: Box::new(high.view()),
                negated: *negated,
            },
            LogicalExpr::Like { expr, pattern, escape, negated } => LogicalExprView::Like {
                expr: Box::new(expr.view()),
                pattern: Box::new(pattern.view()),
                escape: text_view(*escape),
                negated: *negated,
            },
            LogicalExpr::Cast { expr, cast_type } => LogicalExprView::Cast {
                expr: Box::new(expr.view()),
                cast_type: text_view(*cast_type),
            },
        }
    }
}

/// What a list of expressions holds.
pub open spec fn lexpr_views(list: Seq<LogicalExpr>) -> Seq<LogicalExprView>
    decreases list,
{
    Seq::new(
        list.len(),
        |i: int|
            if 0 <= i < list.len() {
                list[i].view()
            } else {
                arbitrary()
            },
    )
}

/// What a list of pairs of expressions holds.
pub open spec fn pair_views(list: Seq<(LogicalExpr, LogicalExpr)>) -> Seq<
    (LogicalExprView, LogicalExprView),
>
    decreases list,
{
    Seq::new(
        list.len(),
        |i: int|
            if 0 <= i < list.len() {
                (list[i].0.view(), list[i].1.view())
            } else {
                arbitrary()
            },
    )
}

/// What a list of lists of expressions holds.
pub open spec fn row_views(list: Seq<Vec<LogicalExpr>>) -> Seq<Seq<LogicalExprView>>
    decreases list,
{
    Seq::new(
        list.len(),
        |i: int|
            if 0 <= i < list.len() {
                lexpr_views(list[i]@)
            } else {
                arbitrary()
            },
    )
}

/// What a list of plans holds.
pub open spec fn plan_views(list: Seq<LogicalPlan>) -> Seq<PlanView>
    decreases list,
{
    Seq::new(
        list.len(),
        |i: int|
            if 0 <= i < list.len() {
                list[i].view()
            } else {
                arbitrary()
            },
    )
}

/// What a list of named plans holds.
pub open spec fn named_plan_views(list: Seq<(String, LogicalPlan)>) -> Seq<(Seq<char>, PlanView)>
    decreases list,
{
    Seq::new(
        list.len(),
        |i: int|
            if 0 <= i < list.len() {
                (list[i].0@, list[i].1.view())
            } else {
                arbitrary()
            },
    )
}

impl LogicalPlan {
    pub open spec fn view(&self) -> PlanView
        decreases self,
    {
        match self {
            LogicalPlan::Projection { input, exprs, schema } => PlanView::Projection {
                input: Box::new(input.view()),
                exprs: lexpr_views(exprs@),
                schema: schema@,
            },
            LogicalPlan::Filter { input, predicate } => PlanView::Filter {
                input: Box::new(input.view()),
                predicate: predicate.view(),
            },
            LogicalPlan::Aggregate { input, group_expr, aggr_expr, schema } => PlanView::Aggregate {
                input: Box::new(input.view()),
                group_expr: lexpr_views(group_expr@),
                aggr_expr: lexpr_views(aggr_expr@),
                schema: schema@,
            },
            LogicalPlan::Join { left, right, join_type, on, filter, schema } => PlanView::Join {
                left: Box::new(left.view()),
                right: Box::new(right.view()),
                join_type: *join_type,
                on: pair_views(on@),
                filter: match filter {
                    Some(f) => Some(Box::new(f.view())),
                    None => None,
                },
                schema: schema@,
            },
            LogicalPlan::Sort { input, exprs } => PlanView::Sort {
                input: Box::new(input.view()),
                exprs: lexpr_views(exprs@),
            },
            LogicalPlan::Limit { input, fetch } => PlanView::Limit {
                input: Box::new(input.view()),
                fetch: *fetch,
            },
            LogicalPlan::TableScan { table_name, schema } => PlanView::TableScan {
                table_name: table_name@,
                schema: schema@,
            },
            LogicalPlan::Union { inputs, all, schema } => PlanView::Union {
                inputs: plan_views(inputs@),
                all: *all,
                schema: schema@,
            },
            LogicalPlan::Distinct { input } => PlanView::Distinct { input: Box::new(input.view()) },
            LogicalPlan::EmptyRelation { produce_one_row, schema } => PlanView::EmptyRelation {
                produce_one_row: *produce_one_row,
                schema: schema@,
            },
            LogicalPlan::Values { rows, schema } => PlanView::Values {
                rows: row_views(rows@),
                schema: schema@,
            },
            LogicalPlan::WithCTE { ctes, body } => PlanView::WithCTE {
                ctes: named_plan_views(ctes@),
                body: Box::new(body.view()),
            },
            LogicalPlan::CTERef { name, schema } => PlanView::CTERef {
                name: name@,
                schema: schema@,
            },
            LogicalPlan::RecursiveCTE {
                name,
                base_case,
                recursive_step,
                union_all,
                max_iterations,
                schema,
            } => PlanView::RecursiveCTE {
                name: name@,
                base_case: Box::new(base_case.view()),
                recursive_step: Box::new(recursive_step.view()),
                union_all: *union_all,
                max_iterations: *max_iterations,
                schema: schema@,
            },
            LogicalPlan::RecursiveCTERef { name, schema } => PlanView::RecursiveCTERef {
                name: name@,
                schema: schema@,
            },
        }
    }
}

pub proof fn lemma_lexpr_views(list: Seq<LogicalExpr>)
    ensures
        lexpr_views(list).len() == list.len(),
        forall|i: int| 0 <= i < list.len() ==> #[trigger] lexpr_views(list)[i] == list[i].view(),
{
}

pub proof fn lemma_pair_views(list: Seq<(LogicalExpr, LogicalExpr)>)
    ensures
        pair_views(list).len() == list.len(),
        forall|i: int|
            0 <= i < list.len() ==> #[trigger] pair_views(list)[i] == (
                list[i].0.view(),
                list[i].1.view(),
            ),
{
}

pub proof fn lemma_row_views(list: Seq<Vec<LogicalExpr>>)
    ensures
        row_views(list).len() == list.len(),
        forall|i: int|
            0 <= i < list.len() ==> #[trigger] row_views(list)[i] == lexpr_views(list[i]@),
{
}

pub proof fn lemma_plan_views(list: Seq<LogicalPlan>)
    ensures
        plan_views(list).len() == list.len(),
        forall|i: int| 0 <= i < list.len() ==> #[trigger] plan_views(list)[i] == list[i].view(),
{
}

pub proof fn lemma_named_plan_views(list: Seq<(String, LogicalPlan)>)
    ensures
        named_plan_views(list).len() == list.len(),
        forall|i: int|
            0 <= i < list.len() ==> #[trigger] named_plan_views(list)[i] == (
                list[i].0@,
                list[i].1.view(),
            ),
{
}

/// A copy of an optional text.
pub fn copy_text(s: &Option<String>) -> (r: Option<String>)
    ensures
        text_view(r) == text_view(*s),
{
    match s {
        Some(t) => Some(t.clone()),
        None => None,
    }
}

/// Whether two optional texts are the same.
pub fn same_opt_text(a: &Option<String>, b: &Option<String>) -> (r: bool)
    ensures
        r == (text_view(*a) == text_view(*b)),
{
    match (a, b) {
        (Some(x), Some(y)) => *x == *y,
        (None, None) => true,
        _ => false,
    }
}

impl Clone for Column {
    fn clone(&self) -> (r: Self)
        ensures
            r@ == self@,
    {
        Column { name: self.name.clone(), table: copy_text(&self.table) }
    }
}

impl Column {
    pub fn same(&self, other: &Column) -> (r: bool)
        ensures
            r == (self@ == other@),
    {
        self.name == other.name && same_opt_text(&self.table, &other.table)
    }
}

impl Clone for ColumnInfo {
    fn clone(&self) -> (r: Self)
        ensures
            r@ == self@,
    {
        ColumnInfo {
            name: self.name.clone(),
            ty: self.ty,
            database: copy_text(&self.database),
            table: copy_text(&self.table),
            table_alias: copy_text(&self.table_alias),
        }
    }
}

impl ColumnInfo {
    pub fn same(&self, other: &ColumnInfo) -> (r: bool)
        ensures
            r == (self@ == other@),
    {
        self.name == other.name && self.ty == other.ty && same_opt_text(
            &self.database,
            &other.database,
        ) && same_opt_text(&self.table, &other.table) && same_opt_text(
            &self.table_alias,
            &other.table_alias,
        )
    }
}

impl Clone for LogicalSchema {
    fn clone(&self) -> (r: Self)
        ensures
            r@ == self@,
            r.columns@.len() == self.columns@.len(),
    {
        let mut columns: Vec<ColumnInfo> = Vec::new();
        let mut i: usize = 0;
        while i < self.columns.len()
            invariant
                i <= self.columns.len(),
                columns@.len() == i,
                forall|j: int| 0 <= j < i ==> (#[trigger] columns@[j])@ == self.columns@[j]@,
            decreases self.columns.len() - i,
        {
            columns.push(self.columns[i].clone());
            i += 1;
        }
        let r = LogicalSchema { columns };
        assert(r@ =~= self@);
        r
    }
}

impl LogicalSchema {
    pub fn new(columns: Vec<ColumnInfo>) -> (r: Self)
        ensures
            r.columns == columns,
    {
        LogicalSchema { columns }
    }

    pub fn same(&self, other: &LogicalSchema) -> (r: bool)
        ensures
            r == (self@ == other@),
    {
        if self.columns.len() != other.columns.len() {
            assert(self@.len() != other@.len());
            return false;
        }
        let mut i: usize = 0;
        while i < self.columns.len()
            invariant
                i <= self.columns.len(),
                self.columns@.len() == other.columns@.len(),
                forall|j: int| 0 <= j < i ==> (#[trigger] self.columns@[j])@ == other.columns@[j]@,
            decreases self.columns.len() - i,
        {
            if !self.columns[i].same(&other.columns[i]) {
                assert(self@[i as int] != other@[i as int]);
                return false;
            }
            i += 1;
        }
        assert(self@ =~= other@);
        true
    }
}

} // verus!
